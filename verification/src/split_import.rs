//! The "split import" assist: with the cursor at the `::` of a path in a
//! `use` item, it wraps the rest of the use tree in braces, so that
//! `use a::b::C;` becomes `use a::{b::C};`.
use vstd::prelude::*;

use crate::syntax_kind::SyntaxKind;
use crate::text::TextRange;
use crate::tree::{SyntaxTree, TokenAtOffset, TreeModel};

verus! {

/// Text to insert at an offset of the source text.
#[derive(Clone, Copy, Debug)]
pub struct TextInsert {
    pub offset: u32,
    pub text: &'static str,
}

/// A change that an assist offers: the text it is about (`target`), the
/// insertions to make (at offsets of the text before the change), and where
/// the cursor goes in the changed text.
#[derive(Debug)]
pub struct Assist {
    pub id: &'static str,
    pub label: &'static str,
    pub target: TextRange,
    pub inserts: Vec<TextInsert>,
    pub cursor_position: Option<u32>,
}

/// The `::` token at `offset`, if one of the tokens there is one.
pub open spec fn coloncolon_at(m: TreeModel, offset: int) -> Option<usize> {
    match m.token_at_offset(offset) {
        TokenAtOffset::NoToken => None,
        TokenAtOffset::Single(t) => if m.elems[t as int].kind == SyntaxKind::COLONCOLON {
            Some(t)
        } else {
            None
        },
        TokenAtOffset::Between(l, r) => if m.elems[l as int].kind == SyntaxKind::COLONCOLON {
            Some(l)
        } else if m.elems[r as int].kind == SyntaxKind::COLONCOLON {
            Some(r)
        } else {
            None
        },
    }
}

/// The outermost path that path `p` is a qualifier of: the climb from `p`
/// over parents that are paths.
pub open spec fn top_path(m: TreeModel, p: int) -> int
    decreases p,
{
    match m.elems[p].parent {
        Some(q) => if 0 <= q < p && m.elems[q as int].kind == SyntaxKind::PATH {
            top_path(m, q as int)
        } else {
            p
        },
        None => p,
    }
}

/// Where the braces go when the import at `offset` is split: the `::` token
/// (the target), the offset of the opening brace (right after `::`) and that
/// of the closing brace (the end of the use tree that the outermost path
/// heads, or of that path if it heads none).
pub open spec fn split_points(m: TreeModel, offset: int) -> Option<(TextRange, u32, u32)> {
    match coloncolon_at(m, offset) {
        None => None,
        Some(cc) => match m.elems[cc as int].parent {
            None => None,
            Some(path) => if m.elems[path as int].kind != SyntaxKind::PATH {
                None
            } else {
                let top = top_path(m, path as int);
                if m.ancestor_of_kind(top, SyntaxKind::USE_TREE) is None {
                    None
                } else {
                    let l_curly = m.elems[cc as int].end;
                    let r_curly = match m.elems[top].parent {
                        Some(q) => if m.elems[q as int].kind == SyntaxKind::USE_TREE {
                            m.elems[q as int].end
                        } else {
                            m.elems[top].end
                        },
                        None => m.elems[top].end,
                    };
                    Some((m.range(cc as int), l_curly, r_curly))
                }
            },
        },
    }
}

/// The assist's change at split points `(target, l, r)`: insert `{` at `l`
/// and `}` at `r`, and put the cursor right after the `{`.
pub open spec fn split_assist(a: Assist, p: (TextRange, u32, u32)) -> bool {
    &&& a.id@ == "split_import"@
    &&& a.label@ == "split import"@
    &&& a.target == p.0
    &&& a.inserts@.len() == 2
    &&& a.inserts@[0].offset == p.1
    &&& a.inserts@[0].text@ == "{"@
    &&& a.inserts@[1].offset == p.2
    &&& a.inserts@[1].text@ == "}"@
    &&& a.cursor_position == Some((p.1 + 1) as u32)
}

proof fn lemma_top_path(m: TreeModel, p: int)
    requires
        m.wf(),
        m.valid(p),
    ensures
        m.valid(top_path(m, p)),
        m.range(p).within(m.range(top_path(m, p))),
    decreases p,
{
    assert(m.elem_wf(p));
    match m.elems[p].parent {
        Some(q) => {
            if 0 <= q < p && m.elems[q as int].kind == SyntaxKind::PATH {
                assert(m.elem_wf(q as int));
                lemma_top_path(m, q as int);
            }
        },
        None => {},
    }
}

/// Going up from a path to the outermost path keeps every ancestor of kind
/// `USE_TREE` in sight.
proof fn lemma_top_path_use_tree(m: TreeModel, p: int)
    requires
        m.wf(),
        m.valid(p),
        m.elems[p].kind == SyntaxKind::PATH,
        m.ancestor_of_kind(p, SyntaxKind::USE_TREE) is Some,
    ensures
        m.ancestor_of_kind(top_path(m, p), SyntaxKind::USE_TREE) is Some,
    decreases p,
{
    assert(m.elem_wf(p));
    match m.elems[p].parent {
        Some(q) => {
            if 0 <= q < p && m.elems[q as int].kind == SyntaxKind::PATH {
                lemma_top_path_use_tree(m, q as int);
            }
        },
        None => {},
    }
}

/// Whether `t` is a `::` token of a path that lies inside a use tree.
pub open spec fn is_use_path_separator(m: TreeModel, t: int) -> bool {
    &&& m.elems[t].kind == SyntaxKind::COLONCOLON
    &&& match m.elems[t].parent {
        Some(p) => m.elems[p as int].kind == SyntaxKind::PATH && m.ancestor_of_kind(
            p as int,
            SyntaxKind::USE_TREE,
        ) is Some,
        None => false,
    }
}

/// Split import applies at a cursor touching a `::` of a path inside a use
/// tree, whether the `::` lies around the cursor, left of it or right of it
/// (the left one when both are): the target is that `::` and the opening
/// brace goes right after it, before the closing one.
pub proof fn law_split_at_separator(m: TreeModel, offset: int)
    requires
        m.wf(),
        0 <= offset <= m.text_len(),
    ensures
        ({
            let cc = match m.token_at_offset(offset) {
                TokenAtOffset::NoToken => None,
                TokenAtOffset::Single(t) => Some(t),
                TokenAtOffset::Between(l, r) => if m.elems[l as int].kind
                    == SyntaxKind::COLONCOLON {
                    Some(l)
                } else {
                    Some(r)
                },
            };
            match cc {
                Some(t) => is_use_path_separator(m, t as int) ==> match split_points(m, offset) {
                    Some(x) => x.0 == m.range(t as int) && x.1 == m.elems[t as int].end && x.1
                        <= x.2,
                    None => false,
                },
                None => true,
            }
        }),
{
    m.lemma_token_at_offset(offset);
    let cc = match m.token_at_offset(offset) {
        TokenAtOffset::NoToken => None,
        TokenAtOffset::Single(t) => Some(t),
        TokenAtOffset::Between(l, r) => if m.elems[l as int].kind == SyntaxKind::COLONCOLON {
            Some(l)
        } else {
            Some(r)
        },
    };
    match cc {
        Some(t) => {
            if is_use_path_separator(m, t as int) {
                assert(m.elem_wf(t as int));
                let p = m.elems[t as int].parent->0;
                assert(m.elem_wf(p as int));
                lemma_top_path_use_tree(m, p as int);
                lemma_top_path(m, p as int);
                let top = top_path(m, p as int);
                assert(m.elem_wf(top));
                match m.elems[top].parent {
                    Some(q) => {
                        assert(m.elem_wf(q as int));
                    },
                    None => {},
                }
            }
        },
        None => {},
    }
}

/// The split points of the import at `offset`, if the cursor is at a `::`
/// of a path inside a use tree.
#[verifier::loop_isolation(false)]
pub fn split_points_at(tree: &SyntaxTree, offset: u32) -> (r: Option<(TextRange, u32, u32)>)
    requires
        tree.wf(),
        offset <= tree@.text_len(),
    ensures
        r == split_points(tree@, offset as int),
        r matches Some(p) ==> p.0.end == p.1 && p.1 <= p.2 && p.2 <= tree@.text_len(),
{
    let ghost m = tree@;
    proof {
        m.lemma_token_at_offset(offset as int);
    }
    let cc = match tree.token_at_offset(offset) {
        TokenAtOffset::NoToken => {
            return None;
        },
        TokenAtOffset::Single(t) => {
            if matches!(tree.kind(t), SyntaxKind::COLONCOLON) {
                t
            } else {
                return None;
            }
        },
        TokenAtOffset::Between(l, r) => {
            if matches!(tree.kind(l), SyntaxKind::COLONCOLON) {
                l
            } else if matches!(tree.kind(r), SyntaxKind::COLONCOLON) {
                r
            } else {
                return None;
            }
        },
    };
    proof {
        assert(m.elem_wf(cc as int));
    }
    let path = match tree.parent(cc) {
        Some(p) => p,
        None => {
            return None;
        },
    };
    if !matches!(tree.kind(path), SyntaxKind::PATH) {
        return None;
    }
    proof {
        assert(m.elem_wf(path as int));
    }
    let mut top = path;
    loop
        invariant
            tree.wf(),
            top < tree@.elems.len(),
            top_path(tree@, path as int) == top_path(tree@, top as int),
        decreases top,
    {
        proof {
            assert(tree@.elem_wf(top as int));
        }
        match tree.parent(top) {
            Some(q) => {
                if matches!(tree.kind(q), SyntaxKind::PATH) {
                    top = q;
                } else {
                    assert(top_path(tree@, top as int) == top);
                    break;
                }
            },
            None => {
                assert(top_path(tree@, top as int) == top);
                break;
            },
        }
    }
    proof {
        lemma_top_path(m, path as int);
    }
    if tree.ancestor_of_kind(top, SyntaxKind::USE_TREE).is_none() {
        return None;
    }
    proof {
        assert(m.elem_wf(top as int));
        crate::extend_selection::lemma_within_root(m, top as int);
    }
    let l_curly = tree.range(cc).end;
    let r_curly = match tree.parent(top) {
        Some(q) => {
            proof {
                assert(m.elem_wf(q as int));
                crate::extend_selection::lemma_within_root(m, q as int);
            }
            if matches!(tree.kind(q), SyntaxKind::USE_TREE) {
                tree.range(q).end
            } else {
                tree.range(top).end
            }
        },
        None => tree.range(top).end,
    };
    Some((tree.range(cc), l_curly, r_curly))
}

/// The "split import" assist at `offset`: with the cursor at the `::` of a
/// path in a use tree, wraps what follows the `::` in braces.
pub fn split_import(tree: &SyntaxTree, offset: u32) -> (r: Option<Assist>)
    requires
        tree.wf(),
        offset <= tree@.text_len(),
        split_points(tree@, offset as int) matches Some(p) ==> p.1 < u32::MAX,
    ensures
        r is Some <==> split_points(tree@, offset as int) is Some,
        r matches Some(a) ==> split_assist(a, split_points(tree@, offset as int)->0),
{
    match split_points_at(tree, offset) {
        None => None,
        Some(p) => {
            let (target, l_curly, r_curly) = p;
            let mut inserts: Vec<TextInsert> = Vec::new();
            inserts.push(TextInsert { offset: l_curly, text: "{" });
            inserts.push(TextInsert { offset: r_curly, text: "}" });
            Some(
                Assist {
                    id: "split_import",
                    label: "split import",
                    target,
                    inserts,
                    cursor_position: Some(l_curly + 1),
                },
            )
        },
    }
}

} // verus!
