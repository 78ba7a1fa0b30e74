//! Growing a selection to the next enclosing syntactic unit: a word of a
//! comment or string, a token, a list item with its comma, a run of
//! comments, or an enclosing node.
use vstd::prelude::*;

use crate::syntax_kind::{
    is_list_kind, is_string_like, spec_is_list_kind, spec_is_string_like, SyntaxKind,
};
use crate::text::{
    byte_len, byte_offset_of, byte_pos, char_index_at, char_index_of_byte, contains_blank_line,
    contains_char, contains_char_from, find_last_before, first_false_from, has_blank_line,
    is_char_boundary, last_false_before, last_index_of_before, lemma_byte_pos_full,
    lemma_byte_pos_mono, lemma_byte_pos_step, lemma_char_index_at, lemma_first_false_from,
    lemma_last_false_before, lemma_last_index_of_before, utf8_len, TextRange,
};
use crate::tree::{SyntaxTree, TokenAtOffset, TreeModel};

verus! {

/// Whether `char::is_alphanumeric` holds of `c`.
pub uninterp spec fn char_is_alphanumeric(c: char) -> bool;

/// Calls `char::is_alphanumeric`: whether `c` is alphabetic or numeric in the
/// sense of Unicode. The contract names the result and states nothing more.
#[verifier::external_body]
fn is_alphanumeric(c: char) -> (r: bool)
    ensures
        r == char_is_alphanumeric(c),
{
    c.is_alphanumeric()
}

/// Which characters of `text` belong to words, given which are alphanumeric:
/// those and `_`.
pub open spec fn word_flags(text: Seq<char>, alnum: Seq<bool>) -> Seq<bool> {
    Seq::new(text.len(), |i: int| alnum[i] || text[i] == '_')
}

/// The word of `text` around byte offset `cursor`, as byte offsets into
/// `text`: from just after the last non-word character before the cursor
/// to the first non-word character after it. There is none when no
/// non-word character precedes the cursor, or when the word is empty.
pub open spec fn spec_word_range(text: Seq<char>, alnum: Seq<bool>, cursor: int) -> Option<TextRange> {
    let ci = char_index_at(text, cursor);
    let w = word_flags(text, alnum);
    match last_false_before(w, ci) {
        None => None,
        Some(j) => {
            let from = byte_pos(text, j) + 1;
            let to = match first_false_from(w, ci) {
                Some(e) => byte_pos(text, e) as int,
                None => byte_len(text) as int,
            };
            if from == to {
                None
            } else {
                Some(TextRange { start: from as u32, end: to as u32 })
            }
        },
    }
}

/// The word selected around a cursor is a maximal run of word characters:
/// it starts right after a non-word character before the cursor (one byte
/// after where that character starts) and ends at the first non-word
/// character from the cursor on, or at the end of the text. There is no
/// word when every character before the cursor is a word character, or
/// when a one-byte non-word character sits right before the cursor and a
/// non-word character (or the end of the text) right at it.
pub proof fn law_word_is_maximal(text: Seq<char>, alnum: Seq<bool>, cursor: int)
    requires
        alnum.len() == text.len(),
        is_char_boundary(text, cursor),
        byte_len(text) <= u32::MAX,
    ensures
        ({
            let ci = char_index_at(text, cursor);
            let w = word_flags(text, alnum);
            match spec_word_range(text, alnum, cursor) {
                Some(r) => exists|j: int, e: int|
                    {
                        &&& 0 <= j < ci <= e <= text.len()
                        &&& !w[j]
                        &&& (e == text.len() || !w[e])
                        &&& (forall|i: int| j < i < e ==> w[i])
                        &&& r.start == byte_pos(text, j) + 1
                        &&& r.end == byte_pos(text, e)
                        &&& r.start < r.end
                    },
                None => (forall|i: int| 0 <= i < ci ==> w[i]) || {
                    &&& 0 < ci
                    &&& !w[ci - 1]
                    &&& utf8_len(text[ci - 1]) == 1
                    &&& (ci == text.len() || !w[ci])
                },
            }
        }),
{
    let ci = char_index_at(text, cursor);
    let w = word_flags(text, alnum);
    assert(0 <= ci <= text.len() && byte_pos(text, ci) == cursor);
    lemma_last_false_before(w, ci);
    lemma_first_false_from(w, ci);
    lemma_byte_pos_full(text);
    match last_false_before(w, ci) {
        None => {},
        Some(j) => {
            let e = match first_false_from(w, ci) {
                Some(e) => e,
                None => text.len() as int,
            };
            lemma_byte_pos_step(text, j);
            lemma_byte_pos_mono(text, j + 1, e);
            lemma_byte_pos_mono(text, e, text.len() as int);
            match spec_word_range(text, alnum, cursor) {
                Some(r) => {
                    assert(r.start == byte_pos(text, j) + 1);
                    assert(r.end == byte_pos(text, e));
                },
                None => {},
            }
        },
    }
}

/// Of two tokens that meet at the cursor, the one picked has the higher
/// priority of the two; on a tie it is the left one.
pub proof fn law_pick_best(m: TreeModel, l: int, r: int)
    ensures
        spec_pick_best(m, l, r) == l || spec_pick_best(m, l, r) == r,
        priority(m.elems[spec_pick_best(m, l, r)].kind) >= priority(m.elems[l].kind),
        priority(m.elems[spec_pick_best(m, l, r)].kind) >= priority(m.elems[r].kind),
        priority(m.elems[l].kind) == priority(m.elems[r].kind) ==> spec_pick_best(m, l, r) == l,
{
}

/// Which characters of `text` are alphanumeric.
pub open spec fn alnum_flags(text: Seq<char>) -> Seq<bool> {
    Seq::new(text.len(), |i: int| char_is_alphanumeric(text[i]))
}

/// The word around `offset` in comment or string token `leaf`.
pub open spec fn spec_extend_single_word(m: TreeModel, leaf: int, offset: int) -> Option<TextRange> {
    let e = m.elems[leaf];
    match spec_word_range(e.text, alnum_flags(e.text), offset - e.start) {
        None => None,
        Some(r) => Some(TextRange { start: (r.start + e.start) as u32, end: (r.end + e.start) as u32 }),
    }
}

/// Selection from whitespace token `ws` with the cursor at `offset`: when
/// the whitespace ends a line before the cursor's line and the cursor's line
/// holds the next element, that element's lines (with their indentation and
/// the line break after them); otherwise the whitespace itself.
pub open spec fn spec_extend_ws(m: TreeModel, ws: int, offset: int) -> TextRange {
    let e = m.elems[ws];
    let t = e.text;
    let ci = char_index_at(t, offset - e.start);
    if t.contains('\n') && !t.skip(ci).contains('\n') {
        match e.next_sibling {
            Some(nd) => {
                let node = m.elems[nd as int];
                let start = match last_index_of_before(t, '\n', ci) {
                    Some(idx) => e.start + byte_pos(t, idx) + 1,
                    None => node.start as int,
                };
                let end = if m.char_after(nd as int) == Some('\n') {
                    node.end + 1
                } else {
                    node.end as int
                };
                TextRange { start: start as u32, end: end as u32 }
            },
            None => m.range(ws),
        }
    } else {
        m.range(ws)
    }
}

/// How much a token is worth selecting when the cursor sits between two.
pub open spec fn priority(k: SyntaxKind) -> int {
    if k == SyntaxKind::WHITESPACE {
        0
    } else if k == SyntaxKind::IDENT || k == SyntaxKind::SELF_KW || k == SyntaxKind::SUPER_KW
        || k == SyntaxKind::CRATE_KW || k == SyntaxKind::LIFETIME {
        2
    } else {
        1
    }
}

/// Of two tokens that meet at the cursor, the one of higher priority; the
/// left one on a tie.
pub open spec fn spec_pick_best(m: TreeModel, l: int, r: int) -> int {
    if priority(m.elems[r].kind) > priority(m.elems[l].kind) {
        r
    } else {
        l
    }
}

/// Whitespace that does not break the line.
pub open spec fn single_line_ws(m: TreeModel, i: int) -> bool {
    &&& m.elems[i].is_token
    &&& m.elems[i].kind == SyntaxKind::WHITESPACE
    &&& !m.elems[i].text.contains('\n')
}

/// The comma reached from `s` going back over single-line whitespace.
pub open spec fn comma_before_from(m: TreeModel, s: int) -> Option<usize>
    decreases s,
{
    if s < 0 || s >= m.elems.len() {
        None
    } else if single_line_ws(m, s) {
        match m.elems[s].prev_sibling {
            Some(p) => if p < s {
                comma_before_from(m, p as int)
            } else {
                None
            },
            None => None,
        }
    } else if m.elems[s].is_token && m.elems[s].kind == SyntaxKind::COMMA {
        Some(s as usize)
    } else {
        None
    }
}

/// The comma reached from `s` going forward over single-line whitespace.
pub open spec fn comma_after_from(m: TreeModel, s: int) -> Option<usize>
    decreases m.elems.len() - s,
{
    if s < 0 || s >= m.elems.len() {
        None
    } else if single_line_ws(m, s) {
        match m.elems[s].next_sibling {
            Some(p) => if s < p < m.elems.len() {
                comma_after_from(m, p as int)
            } else {
                None
            },
            None => None,
        }
    } else if m.elems[s].is_token && m.elems[s].kind == SyntaxKind::COMMA {
        Some(s as usize)
    } else {
        None
    }
}

/// The comma before `node`, with only single-line whitespace between.
pub open spec fn comma_before(m: TreeModel, node: int) -> Option<usize> {
    match m.elems[node].prev_sibling {
        Some(p) => comma_before_from(m, p as int),
        None => None,
    }
}

/// The comma after `node`, with only single-line whitespace between.
pub open spec fn comma_after(m: TreeModel, node: int) -> Option<usize> {
    match m.elems[node].next_sibling {
        Some(p) => comma_after_from(m, p as int),
        None => None,
    }
}

/// The selection of list item `node` with the comma next to it: the comma
/// before it, or else the comma after it together with the single-line
/// whitespace that follows that comma.
pub open spec fn spec_extend_list_item(m: TreeModel, node: int) -> Option<TextRange> {
    match comma_before(m, node) {
        Some(c) => Some(TextRange { start: m.elems[c as int].start, end: m.elems[node].end }),
        None => match comma_after(m, node) {
            Some(c) => {
                let fin = match m.elems[c as int].next_sibling {
                    Some(x) => if single_line_ws(m, x as int) {
                        x as int
                    } else {
                        c as int
                    },
                    None => c as int,
                };
                Some(TextRange { start: m.elems[node].start, end: m.elems[fin].end })
            },
            None => None,
        },
    }
}

/// Whether the walk over a run of comments stops at element `s`: at a node,
/// or at a token that is neither a comment nor whitespace without a blank line.
pub open spec fn stops_comment_run(m: TreeModel, s: int) -> bool {
    !m.elems[s].is_token || (m.elems[s].kind != SyntaxKind::COMMENT && (m.elems[s].kind
        != SyntaxKind::WHITESPACE || has_blank_line(m.elems[s].text)))
}

/// The last comment met going back from `s` over comments and whitespace
/// without blank lines; `res` if none.
pub open spec fn comment_run_start(m: TreeModel, s: int, res: int) -> int
    decreases s,
{
    if s < 0 || s >= m.elems.len() || stops_comment_run(m, s) {
        res
    } else {
        let res2 = if m.elems[s].kind == SyntaxKind::COMMENT {
            s
        } else {
            res
        };
        match m.elems[s].prev_sibling {
            Some(p) => if p < s {
                comment_run_start(m, p as int, res2)
            } else {
                res2
            },
            None => res2,
        }
    }
}

/// The last comment met going forward from `s` over comments and
/// whitespace without blank lines; `res` if none.
pub open spec fn comment_run_end(m: TreeModel, s: int, res: int) -> int
    decreases m.elems.len() - s,
{
    if s < 0 || s >= m.elems.len() || stops_comment_run(m, s) {
        res
    } else {
        let res2 = if m.elems[s].kind == SyntaxKind::COMMENT {
            s
        } else {
            res
        };
        match m.elems[s].next_sibling {
            Some(p) => if s < p < m.elems.len() {
                comment_run_end(m, p as int, res2)
            } else {
                res2
            },
            None => res2,
        }
    }
}

/// The run of comments around comment `c`, when it holds more than `c`.
pub open spec fn spec_extend_comments(m: TreeModel, c: int) -> Option<TextRange> {
    let first = comment_run_start(m, c, c);
    let last = comment_run_end(m, c, c);
    if first != last {
        Some(TextRange { start: m.elems[first].start, end: m.elems[last].end })
    } else {
        None
    }
}

/// The outermost ancestor of `i` (or `i` itself) reached through ancestors
/// that all have `i`'s range.
pub open spec fn shallowest_same_range(m: TreeModel, i: int) -> int
    decreases i,
{
    match m.elems[i].parent {
        Some(p) => if 0 <= p < i && m.range(p as int) == m.range(i) {
            shallowest_same_range(m, p as int)
        } else {
            i
        },
        None => i,
    }
}

/// The selection that `range` grows to, if any.
pub open spec fn spec_try_extend_selection(m: TreeModel, range: TextRange) -> Option<TextRange> {
    if range.start == range.end {
        let offset = range.start as int;
        match m.token_at_offset(offset) {
            TokenAtOffset::NoToken => None,
            TokenAtOffset::Single(l) => {
                let l = l as int;
                if m.elems[l].kind == SyntaxKind::WHITESPACE {
                    Some(spec_extend_ws(m, l, offset))
                } else if spec_is_string_like(m.elems[l].kind) {
                    match spec_extend_single_word(m, l, offset) {
                        Some(r) => Some(r),
                        None => Some(m.range(l)),
                    }
                } else {
                    Some(m.range(l))
                }
            },
            TokenAtOffset::Between(l, r) => {
                if m.elems[l as int].kind == SyntaxKind::WHITESPACE && m.elems[r as int].kind
                    == SyntaxKind::WHITESPACE {
                    Some(spec_extend_ws(m, l as int, offset))
                } else {
                    Some(m.range(spec_pick_best(m, l as int, r as int)))
                }
            },
        }
    } else {
        let e = m.covering_element(range);
        if m.elems[e].is_token && m.range(e) != range {
            Some(m.range(e))
        } else if m.elems[e].is_token && m.elems[e].kind == SyntaxKind::COMMENT
            && spec_extend_comments(m, e) is Some {
            spec_extend_comments(m, e)
        } else {
            let node = if m.elems[e].is_token {
                match m.elems[e].parent {
                    Some(p) => p as int,
                    None => e,
                }
            } else {
                e
            };
            if m.range(node) != range {
                Some(m.range(node))
            } else {
                let top = shallowest_same_range(m, node);
                match m.elems[top].parent {
                    None => None,
                    Some(p) => if spec_is_list_kind(m.elems[p as int].kind) && spec_extend_list_item(
                        m,
                        top,
                    ) is Some {
                        spec_extend_list_item(m, top)
                    } else {
                        Some(m.range(p as int))
                    },
                }
            }
        }
    }
}

/// Whether whitespace token `ws` is followed by an element that covers no text.
pub open spec fn ws_before_empty(m: TreeModel, ws: int) -> bool {
    match m.elems[ws].next_sibling {
        Some(nd) => m.elems[nd as int].start == m.elems[nd as int].end,
        None => false,
    }
}

/// Whether a cursor at `offset` sits in whitespace that an element covering
/// no text follows: the one place where growing a cursor may give it back.
pub open spec fn cursor_before_empty(m: TreeModel, offset: int) -> bool {
    match m.token_at_offset(offset) {
        TokenAtOffset::NoToken => false,
        TokenAtOffset::Single(l) => m.elems[l as int].kind == SyntaxKind::WHITESPACE
            && ws_before_empty(m, l as int),
        TokenAtOffset::Between(l, r) => m.elems[l as int].kind == SyntaxKind::WHITESPACE
            && m.elems[r as int].kind == SyntaxKind::WHITESPACE && ws_before_empty(m, l as int),
    }
}

/// The inputs on which growing a selection is defined: a well-formed range
/// of the text, and, for a cursor inside whitespace, a comment or a string
/// literal, a cursor between two characters.
pub open spec fn selection_ok(m: TreeModel, range: TextRange) -> bool {
    &&& range.wf()
    &&& range.end <= m.text_len()
    &&& range.start == range.end ==> match m.token_at_offset(range.start as int) {
        TokenAtOffset::Single(l) => (m.elems[l as int].kind == SyntaxKind::WHITESPACE
            || spec_is_string_like(m.elems[l as int].kind)) ==> is_char_boundary(
            m.elems[l as int].text,
            range.start - m.elems[l as int].start,
        ),
        _ => true,
    }
}

/// The word of `text` around byte offset `cursor`, given which characters
/// of `text` are alphanumeric (`alnum`); see `spec_word_range`.
pub fn select_word(text: &Vec<char>, alnum: &Vec<bool>, cursor: u32) -> (r: Option<TextRange>)
    requires
        alnum.len() == text.len(),
        is_char_boundary(text@, cursor as int),
        byte_len(text@) <= u32::MAX,
    ensures
        r == spec_word_range(text@, alnum@, cursor as int),
        r matches Some(x) ==> x.start <= cursor <= x.end && x.start < x.end && x.end <= byte_len(
            text@,
        ),
{
    let ci = char_index_of_byte(text, cursor);
    let ghost w = word_flags(text@, alnum@);
    proof {
        lemma_last_false_before(w, ci as int);
        lemma_first_false_from(w, ci as int);
        lemma_byte_pos_mono(text@, ci as int, text.len() as int);
        lemma_byte_pos_full(text@);
    }
    let mut j: usize = ci;
    while j > 0
        invariant
            j <= ci <= text.len(),
            alnum.len() == text.len(),
            w == word_flags(text@, alnum@),
            last_false_before(w, ci as int) == last_false_before(w, j as int),
        ensures
            j <= ci,
            last_false_before(w, ci as int) == last_false_before(w, j as int),
            j > 0 ==> !w[j - 1],
        decreases j,
    {
        if !(alnum[j - 1] || text[j - 1] == '_') {
            break;
        }
        j = j - 1;
    }
    if j == 0 {
        return None;
    }
    let s = j - 1;
    proof {
        assert(last_false_before(w, j as int) == Some(s as int));
        lemma_byte_pos_step(text@, s as int);
        lemma_byte_pos_mono(text@, s + 1, ci as int);
    }
    let from = byte_offset_of(text, s) + 1;
    let mut e: usize = ci;
    while e < text.len()
        invariant
            ci <= e <= text.len(),
            alnum.len() == text.len(),
            w == word_flags(text@, alnum@),
            first_false_from(w, ci as int) == first_false_from(w, e as int),
        ensures
            ci <= e <= text.len(),
            first_false_from(w, ci as int) == first_false_from(w, e as int),
            e < text.len() ==> !w[e as int],
        decreases text.len() - e,
    {
        if !(alnum[e] || text[e] == '_') {
            break;
        }
        e = e + 1;
    }
    let to = if e < text.len() {
        proof {
            assert(first_false_from(w, e as int) == Some(e as int));
            lemma_byte_pos_mono(text@, ci as int, e as int);
            lemma_byte_pos_mono(text@, e as int, text.len() as int);
        }
        byte_offset_of(text, e)
    } else {
        proof {
            assert(first_false_from(w, e as int) is None);
        }
        byte_offset_of(text, text.len())
    };
    if from == to {
        None
    } else {
        Some(TextRange::from_to(from, to))
    }
}

/// The word around `offset` in comment or string token `leaf`, if the
/// cursor sits in a non-empty word after some non-word character.
pub fn extend_single_word_in_comment_or_string(tree: &SyntaxTree, leaf: usize, offset: u32) -> (r: Option<
    TextRange,
>)
    requires
        tree.wf(),
        leaf < tree@.elems.len(),
        tree@.elems[leaf as int].is_token,
        tree@.elems[leaf as int].start <= offset <= tree@.elems[leaf as int].end,
        is_char_boundary(tree@.elems[leaf as int].text, offset - tree@.elems[leaf as int].start),
    ensures
        r == spec_extend_single_word(tree@, leaf as int, offset as int),
        r matches Some(x) ==> x.start <= offset <= x.end && x.start < x.end && x.end
            <= tree@.elems[leaf as int].end,
{
    proof {
        assert(tree@.elem_wf(leaf as int));
    }
    let text = tree.token_text(leaf);
    let lr = tree.range(leaf);
    let mut alnum: Vec<bool> = Vec::new();
    let mut i: usize = 0;
    while i < text.len()
        invariant
            i <= text.len(),
            alnum@ == alnum_flags(text@).take(i as int),
        decreases text.len() - i,
    {
        alnum.push(is_alphanumeric(text[i]));
        i = i + 1;
        proof {
            assert(alnum@ =~= alnum_flags(text@).take(i as int));
        }
    }
    proof {
        assert(alnum@ =~= alnum_flags(text@));
    }
    match select_word(text, &alnum, offset - lr.start) {
        None => None,
        Some(w) => Some(TextRange::from_to(w.start + lr.start, w.end + lr.start)),
    }
}

/// A token that the cursor is in ends at or after it, so a char after it is
/// inside the text.
proof fn lemma_char_after_in_text(m: TreeModel, i: int)
    requires
        m.wf(),
        m.valid(i),
        m.char_after(i) is Some,
    ensures
        m.elems[i].end < m.text_len(),
{
    assert(m.elem_wf(i));
    m.lemma_prefix_end_strict(m.elems[i].end_tok as int, m.tokens.len() as int);
    m.lemma_text_len();
}

/// The selection that grows from a cursor in whitespace token `ws`.
pub fn extend_ws(tree: &SyntaxTree, ws: usize, offset: u32) -> (r: TextRange)
    requires
        tree.wf(),
        ws < tree@.elems.len(),
        tree@.elems[ws as int].is_token,
        tree@.elems[ws as int].start <= offset <= tree@.elems[ws as int].end,
        is_char_boundary(tree@.elems[ws as int].text, offset - tree@.elems[ws as int].start),
    ensures
        r == spec_extend_ws(tree@, ws as int, offset as int),
        r.start <= offset <= r.end,
        r.end <= tree@.text_len(),
        r.start < r.end || ws_before_empty(tree@, ws as int),
{
    let ghost m = tree@;
    proof {
        assert(m.elem_wf(ws as int));
        lemma_within_root(m, ws as int);
        lemma_token_nonempty(m, ws as int);
        m.lemma_text_len();
    }
    let text = tree.token_text(ws);
    let wr = tree.range(ws);
    let ci = char_index_of_byte(text, offset - wr.start);
    if contains_char(text, '\n') && !contains_char_from(text, '\n', ci) {
        match tree.next_sibling(ws) {
            Some(nd) => {
                proof {
                    assert(m.elem_wf(nd as int));
                    lemma_within_root(m, nd as int);
                    assert(m.elems[nd as int].start == m.elems[ws as int].end);
                    lemma_last_index_of_before(text@, '\n', ci as int);
                    let k = choose|k: int| 0 <= k < text@.len() && text@[k] == '\n';
                    if k >= ci {
                        assert(text@.skip(ci as int)[k - ci] == '\n');
                    }
                }
                let nr = tree.range(nd);
                let s = match find_last_before(text, '\n', ci) {
                    Some(idx) => {
                        proof {
                            lemma_byte_pos_step(text@, idx as int);
                            lemma_byte_pos_mono(text@, idx + 1, ci as int);
                        }
                        wr.start + byte_offset_of(text, idx) + 1
                    },
                    None => nr.start,
                };
                let after = tree.char_after(nd);
                let e = match after {
                    Some(ch) => if ch == '\n' {
                        proof {
                            lemma_char_after_in_text(m, nd as int);
                        }
                        nr.end + 1
                    } else {
                        nr.end
                    },
                    None => nr.end,
                };
                TextRange::from_to(s, e)
            },
            None => wr,
        }
    } else {
        wr
    }
}

/// How much a token of kind `k` is worth selecting.
fn priority_of(k: SyntaxKind) -> (r: u8)
    ensures
        r == priority(k),
{
    match k {
        SyntaxKind::WHITESPACE => 0,
        SyntaxKind::IDENT | SyntaxKind::SELF_KW | SyntaxKind::SUPER_KW | SyntaxKind::CRATE_KW
        | SyntaxKind::LIFETIME => 2,
        _ => 1,
    }
}

/// Of two tokens that meet at the cursor, the one better worth selecting.
pub fn pick_best(tree: &SyntaxTree, l: usize, r: usize) -> (b: usize)
    requires
        tree.wf(),
        l < tree@.elems.len(),
        r < tree@.elems.len(),
    ensures
        b == spec_pick_best(tree@, l as int, r as int),
{
    if priority_of(tree.kind(r)) > priority_of(tree.kind(l)) {
        r
    } else {
        l
    }
}

/// Whether element `i` is whitespace that does not break the line.
fn is_single_line_ws(tree: &SyntaxTree, i: usize) -> (r: bool)
    requires
        tree.wf(),
        i < tree@.elems.len(),
    ensures
        r == single_line_ws(tree@, i as int),
{
    tree.is_token(i) && matches!(tree.kind(i), SyntaxKind::WHITESPACE) && !contains_char(
        tree.token_text(i),
        '\n',
    )
}

/// A token covers at least one byte.
proof fn lemma_token_nonempty(m: TreeModel, i: int)
    requires
        m.wf(),
        m.valid(i),
        m.elems[i].is_token,
    ensures
        m.elems[i].start < m.elems[i].end,
{
    assert(m.elem_wf(i));
    lemma_byte_pos_mono(m.elems[i].text, 0, m.elems[i].text.len() as int);
    lemma_byte_pos_full(m.elems[i].text);
}

/// Every element lies within the root.
pub proof fn lemma_within_root(m: TreeModel, i: int)
    requires
        m.wf(),
        m.valid(i),
    ensures
        m.range(i).within(m.range(0)),
    decreases i,
{
    assert(m.elem_wf(i));
    match m.elems[i].parent {
        Some(p) => {
            lemma_within_root(m, p as int);
        },
        None => {},
    }
}

proof fn lemma_comma_before_from(m: TreeModel, s: int, node: int)
    requires
        m.wf(),
        m.valid(s),
        m.valid(node),
        m.elems[s].end <= m.elems[node].start,
        m.elems[s].parent == m.elems[node].parent,
    ensures
        match comma_before_from(m, s) {
            Some(c) => {
                &&& m.valid(c as int)
                &&& m.elems[c as int].is_token
                &&& m.elems[c as int].end <= m.elems[node].start
                &&& m.elems[c as int].parent == m.elems[node].parent
            },
            None => true,
        },
    decreases s,
{
    assert(m.elem_wf(s));
    if single_line_ws(m, s) {
        match m.elems[s].prev_sibling {
            Some(p) => {
                assert(m.elem_wf(p as int));
                lemma_comma_before_from(m, p as int, node);
            },
            None => {},
        }
    }
}

proof fn lemma_comma_after_from(m: TreeModel, s: int, node: int)
    requires
        m.wf(),
        m.valid(s),
        m.valid(node),
        m.elems[node].end <= m.elems[s].start,
        m.elems[s].parent == m.elems[node].parent,
    ensures
        match comma_after_from(m, s) {
            Some(c) => {
                &&& m.valid(c as int)
                &&& m.elems[c as int].is_token
                &&& m.elems[node].end <= m.elems[c as int].start
                &&& m.elems[c as int].parent == m.elems[node].parent
            },
            None => true,
        },
    decreases m.elems.len() - s,
{
    assert(m.elem_wf(s));
    if single_line_ws(m, s) {
        match m.elems[s].next_sibling {
            Some(p) => {
                assert(m.elem_wf(p as int));
                lemma_comma_after_from(m, p as int, node);
            },
            None => {},
        }
    }
}

/// The selection of a list item with its comma grows strictly beyond the item.
pub proof fn lemma_extend_list_item(m: TreeModel, node: int)
    requires
        m.wf(),
        m.valid(node),
    ensures
        spec_extend_list_item(m, node) matches Some(r) ==> {
            &&& r.wf()
            &&& m.range(node).within(r)
            &&& r != m.range(node)
            &&& r.within(m.range(0))
        },
        comma_before(m, node) matches Some(c) ==> m.valid(c as int),
        comma_after(m, node) matches Some(c) ==> m.valid(c as int),
{
    assert(m.elem_wf(node));
    lemma_within_root(m, node);
    match m.elems[node].prev_sibling {
        Some(p) => {
            assert(m.elem_wf(p as int));
            lemma_comma_before_from(m, p as int, node);
        },
        None => {},
    }
    match m.elems[node].next_sibling {
        Some(p) => {
            assert(m.elem_wf(p as int));
            lemma_comma_after_from(m, p as int, node);
        },
        None => {},
    }
    match comma_before(m, node) {
        Some(c) => {
            lemma_token_nonempty(m, c as int);
            lemma_within_root(m, c as int);
        },
        None => {
            match m.elems[node].next_sibling {
                Some(p) => {
                    assert(m.elem_wf(p as int));
                    lemma_comma_after_from(m, p as int, node);
                },
                None => {},
            }
            match comma_after(m, node) {
                Some(c) => {
                    lemma_token_nonempty(m, c as int);
                    assert(m.elem_wf(c as int));
                    lemma_within_root(m, c as int);
                    match m.elems[c as int].next_sibling {
                        Some(x) => {
                            assert(m.elem_wf(x as int));
                            lemma_within_root(m, x as int);
                        },
                        None => {},
                    }
                },
                None => {},
            }
        },
    }
}

proof fn lemma_comment_run_start(m: TreeModel, s: int, res: int, c: int)
    requires
        m.wf(),
        m.valid(c),
        m.valid(s),
        s == c || m.elems[s].end <= m.elems[c].start,
        m.elems[s].parent == m.elems[c].parent,
        res == c || (m.valid(res) && m.elems[res].is_token && m.elems[res].end <= m.elems[c].start
            && m.elems[res].parent == m.elems[c].parent && m.elems[res].kind == SyntaxKind::COMMENT),
    ensures
        ({
            let r = comment_run_start(m, s, res);
            r == c || (m.valid(r) && m.elems[r].is_token && m.elems[r].end <= m.elems[c].start
                && m.elems[r].parent == m.elems[c].parent && m.elems[r].kind == SyntaxKind::COMMENT)
        }),
    decreases s,
{
    assert(m.elem_wf(s));
    assert(m.elem_wf(c));
    if !stops_comment_run(m, s) {
        let res2 = if m.elems[s].kind == SyntaxKind::COMMENT {
            s
        } else {
            res
        };
        match m.elems[s].prev_sibling {
            Some(p) => {
                assert(m.elem_wf(p as int));
                lemma_comment_run_start(m, p as int, res2, c);
            },
            None => {},
        }
    }
}

proof fn lemma_comment_run_end(m: TreeModel, s: int, res: int, c: int)
    requires
        m.wf(),
        m.valid(c),
        m.valid(s),
        s == c || m.elems[c].end <= m.elems[s].start,
        m.elems[s].parent == m.elems[c].parent,
        res == c || (m.valid(res) && m.elems[res].is_token && m.elems[c].end <= m.elems[res].start
            && m.elems[res].parent == m.elems[c].parent && m.elems[res].kind == SyntaxKind::COMMENT),
    ensures
        ({
            let r = comment_run_end(m, s, res);
            r == c || (m.valid(r) && m.elems[r].is_token && m.elems[c].end <= m.elems[r].start
                && m.elems[r].parent == m.elems[c].parent && m.elems[r].kind == SyntaxKind::COMMENT)
        }),
    decreases m.elems.len() - s,
{
    assert(m.elem_wf(s));
    assert(m.elem_wf(c));
    if !stops_comment_run(m, s) {
        let res2 = if m.elems[s].kind == SyntaxKind::COMMENT {
            s
        } else {
            res
        };
        match m.elems[s].next_sibling {
            Some(p) => {
                assert(m.elem_wf(p as int));
                lemma_comment_run_end(m, p as int, res2, c);
            },
            None => {},
        }
    }
}

/// The elements that a run of comments is made of: comment tokens, and
/// whitespace tokens without a blank line. A node, any other token, or
/// whitespace holding a blank line ends a run.
pub open spec fn in_comment_run(m: TreeModel, x: int) -> bool {
    &&& m.elems[x].is_token
    &&& (m.elems[x].kind == SyntaxKind::COMMENT || (m.elems[x].kind == SyntaxKind::WHITESPACE
        && !has_blank_line(m.elems[x].text)))
}

/// The walk over a run of comments stops exactly at what is not part of a run.
proof fn lemma_in_comment_run(m: TreeModel, x: int)
    ensures
        !stops_comment_run(m, x) <==> in_comment_run(m, x),
{
}

/// The element reached from `s` after `k` steps along its siblings:
/// previous siblings when `back`, next siblings otherwise.
pub open spec fn sibling_steps(m: TreeModel, s: int, k: nat, back: bool) -> Option<usize>
    decreases k,
{
    if k == 0 {
        if 0 <= s < m.elems.len() {
            Some(s as usize)
        } else {
            None
        }
    } else {
        match sibling_steps(m, s, (k - 1) as nat, back) {
            Some(x) => if back {
                m.elems[x as int].prev_sibling
            } else {
                m.elems[x as int].next_sibling
            },
            None => None,
        }
    }
}

/// A walk of `n` steps from comment `c` (backwards when `back`) over comments
/// and whitespace without a blank line, which then stops: at a node, at
/// another token, at whitespace with a blank line, or where the siblings end.
/// `r` is a comment met at step `k`, and no comment comes after it before
/// the stop.
pub open spec fn comment_run_walk(m: TreeModel, c: int, r: int, back: bool, k: nat, n: nat) -> bool {
    &&& k < n
    &&& sibling_steps(m, c, k, back) == Some(r as usize)
    &&& m.elems[r].kind == SyntaxKind::COMMENT
    &&& forall|i: nat|
        i < n ==> match #[trigger] sibling_steps(m, c, i, back) {
            Some(x) => in_comment_run(m, x as int),
            None => false,
        }
    &&& match sibling_steps(m, c, n, back) {
        Some(x) => stops_comment_run(m, x as int),
        None => true,
    }
    &&& forall|i: nat|
        k < i < n ==> match #[trigger] sibling_steps(m, c, i, back) {
            Some(x) => m.elems[x as int].kind != SyntaxKind::COMMENT,
            None => true,
        }
}

/// The run of comments around comment `c` ends at `r` on the side that
/// `back` names: everything between `c` and `r` is a comment or whitespace
/// without a blank line, and no further comment is reached before the run
/// stops.
pub open spec fn comment_run_ends_at(m: TreeModel, c: int, r: int, back: bool) -> bool {
    exists|k: nat, n: nat| #[trigger] comment_run_walk(m, c, r, back, k, n)
}

proof fn lemma_run_start_walk(m: TreeModel, c: int, n: nat, res: int, kres: nat)
    requires
        m.wf(),
        m.valid(c),
        kres < n,
        sibling_steps(m, c, kres, true) == Some(res as usize),
        m.elems[res].kind == SyntaxKind::COMMENT,
        forall|i: nat|
            i < n ==> match #[trigger] sibling_steps(m, c, i, true) {
                Some(x) => x < m.elems.len() && in_comment_run(m, x as int),
                None => false,
            },
        forall|i: nat|
            kres < i < n ==> match #[trigger] sibling_steps(m, c, i, true) {
                Some(x) => m.elems[x as int].kind != SyntaxKind::COMMENT,
                None => true,
            },
    ensures
        comment_run_ends_at(
            m,
            c,
            match sibling_steps(m, c, n, true) {
                Some(s) => comment_run_start(m, s as int, res),
                None => res,
            },
            true,
        ),
    decreases
            match sibling_steps(m, c, n, true) {
                Some(s) => s + 1,
                None => 0,
            },
{
    let prev = sibling_steps(m, c, (n - 1) as nat, true);
    let x = prev->0;
    assert(m.elem_wf(x as int));
    match sibling_steps(m, c, n, true) {
        None => {
            assert(comment_run_walk(m, c, res, true, kres, n));
        },
        Some(s) => {
            assert(s < x);
            assert(m.elem_wf(s as int));
            lemma_in_comment_run(m, s as int);
            if stops_comment_run(m, s as int) {
                assert(comment_run_walk(m, c, res, true, kres, n));
            } else {
                let comment = m.elems[s as int].kind == SyntaxKind::COMMENT;
                let res2 = if comment {
                    s as int
                } else {
                    res
                };
                let kres2 = if comment {
                    n
                } else {
                    kres
                };
                assert forall|i: nat| i < n + 1 implies match #[trigger] sibling_steps(
                    m,
                    c,
                    i,
                    true,
                ) {
                    Some(y) => y < m.elems.len() && in_comment_run(m, y as int),
                    None => false,
                } by {
                    if i < n {
                    }
                }
                assert forall|i: nat| kres2 < i < n + 1 implies match #[trigger] sibling_steps(
                    m,
                    c,
                    i,
                    true,
                ) {
                    Some(y) => m.elems[y as int].kind != SyntaxKind::COMMENT,
                    None => true,
                } by {
                    if i < n {
                    }
                }
                assert(sibling_steps(m, c, n + 1, true) == m.elems[s as int].prev_sibling);
                lemma_run_start_walk(m, c, n + 1, res2, kres2);
            }
        },
    }
}

proof fn lemma_run_end_walk(m: TreeModel, c: int, n: nat, res: int, kres: nat)
    requires
        m.wf(),
        m.valid(c),
        kres < n,
        sibling_steps(m, c, kres, false) == Some(res as usize),
        m.elems[res].kind == SyntaxKind::COMMENT,
        forall|i: nat|
            i < n ==> match #[trigger] sibling_steps(m, c, i, false) {
                Some(x) => x < m.elems.len() && in_comment_run(m, x as int),
                None => false,
            },
        forall|i: nat|
            kres < i < n ==> match #[trigger] sibling_steps(m, c, i, false) {
                Some(x) => m.elems[x as int].kind != SyntaxKind::COMMENT,
                None => true,
            },
    ensures
        comment_run_ends_at(
            m,
            c,
            match sibling_steps(m, c, n, false) {
                Some(s) => comment_run_end(m, s as int, res),
                None => res,
            },
            false,
        ),
    decreases
            match sibling_steps(m, c, n, false) {
                Some(s) => m.elems.len() - s,
                None => 0,
            },
{
    let prev = sibling_steps(m, c, (n - 1) as nat, false);
    let x = prev->0;
    assert(m.elem_wf(x as int));
    match sibling_steps(m, c, n, false) {
        None => {
            assert(comment_run_walk(m, c, res, false, kres, n));
        },
        Some(s) => {
            assert(x < s < m.elems.len());
            assert(m.elem_wf(s as int));
            lemma_in_comment_run(m, s as int);
            if stops_comment_run(m, s as int) {
                assert(comment_run_walk(m, c, res, false, kres, n));
            } else {
                let comment = m.elems[s as int].kind == SyntaxKind::COMMENT;
                let res2 = if comment {
                    s as int
                } else {
                    res
                };
                let kres2 = if comment {
                    n
                } else {
                    kres
                };
                assert forall|i: nat| i < n + 1 implies match #[trigger] sibling_steps(
                    m,
                    c,
                    i,
                    false,
                ) {
                    Some(y) => y < m.elems.len() && in_comment_run(m, y as int),
                    None => false,
                } by {
                    if i < n {
                    }
                }
                assert forall|i: nat| kres2 < i < n + 1 implies match #[trigger] sibling_steps(
                    m,
                    c,
                    i,
                    false,
                ) {
                    Some(y) => m.elems[y as int].kind != SyntaxKind::COMMENT,
                    None => true,
                } by {
                    if i < n {
                    }
                }
                assert(sibling_steps(m, c, n + 1, false) == m.elems[s as int].next_sibling);
                lemma_run_end_walk(m, c, n + 1, res2, kres2);
            }
        },
    }
}

/// The run of comments around comment `c` reaches back to
/// `comment_run_start(m, c, c)` and forward to `comment_run_end(m, c, c)`,
/// in the sense of `comment_run_ends_at`; a grown comment selection spans
/// from the first to the last comment of that run, and there is none when
/// the run is `c` alone. Everything between is a comment or whitespace
/// without a blank line: a node ends the run.
pub proof fn law_comment_run(m: TreeModel, c: int)
    requires
        m.wf(),
        m.valid(c),
        m.elems[c].is_token,
        m.elems[c].kind == SyntaxKind::COMMENT,
    ensures
        comment_run_ends_at(m, c, comment_run_start(m, c, c), true),
        comment_run_ends_at(m, c, comment_run_end(m, c, c), false),
        spec_extend_comments(m, c) matches Some(x) ==> exists|f: int, l: int|
            {
                &&& comment_run_ends_at(m, c, f, true)
                &&& comment_run_ends_at(m, c, l, false)
                &&& (f != c || l != c)
                &&& x == (TextRange { start: m.elems[f].start, end: m.elems[l].end })
            },
        spec_extend_comments(m, c) is None ==> comment_run_ends_at(m, c, c, true)
            && comment_run_ends_at(m, c, c, false),
{
    assert(m.elem_wf(c));
    assert(sibling_steps(m, c, 0, true) == Some(c as usize));
    assert(sibling_steps(m, c, 0, false) == Some(c as usize));
    assert(sibling_steps(m, c, 1, true) == m.elems[c].prev_sibling);
    assert(sibling_steps(m, c, 1, false) == m.elems[c].next_sibling);
    assert forall|i: nat| i < 1 implies match #[trigger] sibling_steps(m, c, i, true) {
        Some(x) => x < m.elems.len() && in_comment_run(m, x as int),
        None => false,
    } by {}
    assert forall|i: nat| i < 1 implies match #[trigger] sibling_steps(m, c, i, false) {
        Some(x) => x < m.elems.len() && in_comment_run(m, x as int),
        None => false,
    } by {}
    lemma_run_start_walk(m, c, 1, c, 0);
    lemma_run_end_walk(m, c, 1, c, 0);
    let f = comment_run_start(m, c, c);
    let l = comment_run_end(m, c, c);
    lemma_comment_run_start(m, c, c, c);
    lemma_comment_run_end(m, c, c, c);
    lemma_token_nonempty(m, c);
    if f == l && f != c {
        assert(m.elem_wf(f));
        assert(false);
    }
    assert(comment_run_ends_at(m, c, f, true) && comment_run_ends_at(m, c, l, false));
}

/// A run of several comments reaches strictly beyond each of them.
pub proof fn lemma_extend_comments(m: TreeModel, c: int)
    requires
        m.wf(),
        m.valid(c),
        m.elems[c].is_token,
    ensures
        spec_extend_comments(m, c) matches Some(r) ==> {
            &&& r.wf()
            &&& m.range(c).within(r)
            &&& r != m.range(c)
            &&& r.within(m.range(0))
        },
{
    lemma_comment_run_start(m, c, c, c);
    lemma_comment_run_end(m, c, c, c);
    let first = comment_run_start(m, c, c);
    let last = comment_run_end(m, c, c);
    lemma_token_nonempty(m, c);
    if first != c {
        lemma_token_nonempty(m, first);
        lemma_within_root(m, first);
    }
    if last != c {
        lemma_token_nonempty(m, last);
        lemma_within_root(m, last);
    }
    lemma_within_root(m, c);
}

/// The climb over ancestors of the same range ends at an element of that
/// range whose parent, if any, is larger; it reaches the root exactly when
/// the range is the whole text.
pub proof fn lemma_shallowest_same_range(m: TreeModel, i: int)
    requires
        m.wf(),
        m.valid(i),
    ensures
        m.valid(shallowest_same_range(m, i)),
        m.range(shallowest_same_range(m, i)) == m.range(i),
        match m.elems[shallowest_same_range(m, i)].parent {
            Some(p) => m.valid(p as int) && m.range(p as int) != m.range(i) && m.range(i).within(
                m.range(p as int),
            ),
            None => shallowest_same_range(m, i) == 0,
        },
        (shallowest_same_range(m, i) == 0) <==> (m.range(i) == m.range(0)),
    decreases i,
{
    assert(m.elem_wf(i));
    lemma_within_root(m, i);
    match m.elems[i].parent {
        Some(p) => {
            assert(m.elem_wf(p as int));
            lemma_within_root(m, p as int);
            if m.range(p as int) == m.range(i) {
                lemma_shallowest_same_range(m, p as int);
            } else if m.range(i) == m.range(0) {
                assert(false);
            }
        },
        None => {},
    }
}

/// The comma before `node`, with only single-line whitespace between.
fn comma_before_of(tree: &SyntaxTree, node: usize) -> (r: Option<usize>)
    requires
        tree.wf(),
        node < tree@.elems.len(),
    ensures
        r == comma_before(tree@, node as int),
{
    proof {
        assert(tree@.elem_wf(node as int));
    }
    let mut cur = tree.prev_sibling(node);
    loop
        invariant
            tree.wf(),
            cur matches Some(s) ==> s < tree@.elems.len(),
            comma_before(tree@, node as int) == match cur {
                Some(s) => comma_before_from(tree@, s as int),
                None => None,
            },
        decreases match cur {
            Some(s) => s + 1,
            None => 0,
        },
    {
        match cur {
            None => {
                return None;
            },
            Some(s) => {
                proof {
                    assert(tree@.elem_wf(s as int));
                }
                if is_single_line_ws(tree, s) {
                    cur = tree.prev_sibling(s);
                } else if tree.is_token(s) && matches!(tree.kind(s), SyntaxKind::COMMA) {
                    return Some(s);
                } else {
                    return None;
                }
            },
        }
    }
}

/// The comma after `node`, with only single-line whitespace between.
fn comma_after_of(tree: &SyntaxTree, node: usize) -> (r: Option<usize>)
    requires
        tree.wf(),
        node < tree@.elems.len(),
    ensures
        r == comma_after(tree@, node as int),
{
    proof {
        assert(tree@.elem_wf(node as int));
    }
    let mut cur = tree.next_sibling(node);
    loop
        invariant
            tree.wf(),
            cur matches Some(s) ==> s < tree@.elems.len(),
            comma_after(tree@, node as int) == match cur {
                Some(s) => comma_after_from(tree@, s as int),
                None => None,
            },
        decreases match cur {
            Some(s) => tree@.elems.len() - s,
            None => 0,
        },
    {
        match cur {
            None => {
                return None;
            },
            Some(s) => {
                proof {
                    assert(tree@.elem_wf(s as int));
                }
                if is_single_line_ws(tree, s) {
                    cur = tree.next_sibling(s);
                } else if tree.is_token(s) && matches!(tree.kind(s), SyntaxKind::COMMA) {
                    return Some(s);
                } else {
                    return None;
                }
            },
        }
    }
}

/// Extends the selection of list item `node` to a comma next to it, and to
/// the single-line whitespace after a following comma.
pub fn extend_list_item(tree: &SyntaxTree, node: usize) -> (r: Option<TextRange>)
    requires
        tree.wf(),
        node < tree@.elems.len(),
    ensures
        r == spec_extend_list_item(tree@, node as int),
        r matches Some(x) ==> x.wf() && tree@.range(node as int).within(x) && x != tree@.range(
            node as int,
        ) && x.within(tree@.range(0)),
{
    proof {
        lemma_extend_list_item(tree@, node as int);
    }
    if let Some(c) = comma_before_of(tree, node) {
        return Some(TextRange::from_to(tree.range(c).start, tree.range(node).end));
    }
    if let Some(c) = comma_after_of(tree, node) {
        proof {
            assert(tree@.elem_wf(node as int));
            assert(tree@.elem_wf(c as int));
        }
        let fin = match tree.next_sibling(c) {
            Some(x) => if is_single_line_ws(tree, x) {
                x
            } else {
                c
            },
            None => c,
        };
        return Some(TextRange::from_to(tree.range(node).start, tree.range(fin).end));
    }
    None
}

/// Whether the walk over a run of comments stops at element `s`.
fn stops_run(tree: &SyntaxTree, s: usize) -> (r: bool)
    requires
        tree.wf(),
        s < tree@.elems.len(),
    ensures
        r == stops_comment_run(tree@, s as int),
{
    !tree.is_token(s) || (!matches!(tree.kind(s), SyntaxKind::COMMENT) && (!matches!(
        tree.kind(s),
        SyntaxKind::WHITESPACE,
    ) || contains_blank_line(tree.token_text(s))))
}

/// The first comment of the run of comments that holds comment `c`.
pub fn first_comment_of_run(tree: &SyntaxTree, c: usize) -> (r: usize)
    requires
        tree.wf(),
        c < tree@.elems.len(),
    ensures
        r == comment_run_start(tree@, c as int, c as int),
        tree@.elems[c as int].is_token && tree@.elems[c as int].kind == SyntaxKind::COMMENT
            ==> comment_run_ends_at(tree@, c as int, r as int, true),
        r == c || (r < tree@.elems.len() && tree@.elems[r as int].is_token && tree@.elems[r as int].kind
            == SyntaxKind::COMMENT && tree@.elems[r as int].end <= tree@.elems[c as int].start
            && tree@.elems[r as int].parent == tree@.elems[c as int].parent),
{
    proof {
        lemma_comment_run_start(tree@, c as int, c as int, c as int);
        if tree@.elems[c as int].is_token && tree@.elems[c as int].kind == SyntaxKind::COMMENT {
            law_comment_run(tree@, c as int);
        }
    }
    let mut res = c;
    let mut cur = Some(c);
    loop
        invariant
            tree.wf(),
            cur matches Some(s) ==> s < tree@.elems.len(),
            c < tree@.elems.len(),
            tree@.elems[c as int].is_token && tree@.elems[c as int].kind == SyntaxKind::COMMENT
                ==> comment_run_ends_at(tree@, c as int, comment_run_start(tree@, c as int, c as int), true),
            ({
                let r = comment_run_start(tree@, c as int, c as int);
                r == c || (r < tree@.elems.len() && tree@.elems[r].is_token && tree@.elems[r].kind
                    == SyntaxKind::COMMENT && tree@.elems[r].end <= tree@.elems[c as int].start && tree@.elems[r].parent
                    == tree@.elems[c as int].parent)
            }),
            comment_run_start(tree@, c as int, c as int) == match cur {
                Some(s) => comment_run_start(tree@, s as int, res as int),
                None => res as int,
            },
        decreases match cur {
            Some(s) => s + 1,
            None => 0,
        },
    {
        match cur {
            None => {
                return res;
            },
            Some(s) => {
                proof {
                    assert(tree@.elem_wf(s as int));
                }
                if stops_run(tree, s) {
                    return res;
                }
                if matches!(tree.kind(s), SyntaxKind::COMMENT) {
                    res = s;
                }
                cur = tree.prev_sibling(s);
            },
        }
    }
}

/// The last comment of the run of comments that holds comment `c`.
pub fn last_comment_of_run(tree: &SyntaxTree, c: usize) -> (r: usize)
    requires
        tree.wf(),
        c < tree@.elems.len(),
    ensures
        r == comment_run_end(tree@, c as int, c as int),
        tree@.elems[c as int].is_token && tree@.elems[c as int].kind == SyntaxKind::COMMENT
            ==> comment_run_ends_at(tree@, c as int, r as int, false),
        r == c || (r < tree@.elems.len() && tree@.elems[r as int].is_token && tree@.elems[r as int].kind
            == SyntaxKind::COMMENT && tree@.elems[c as int].end <= tree@.elems[r as int].start
            && tree@.elems[r as int].parent == tree@.elems[c as int].parent),
{
    proof {
        lemma_comment_run_end(tree@, c as int, c as int, c as int);
        if tree@.elems[c as int].is_token && tree@.elems[c as int].kind == SyntaxKind::COMMENT {
            law_comment_run(tree@, c as int);
        }
    }
    let mut res = c;
    let mut cur = Some(c);
    loop
        invariant
            tree.wf(),
            cur matches Some(s) ==> s < tree@.elems.len(),
            c < tree@.elems.len(),
            tree@.elems[c as int].is_token && tree@.elems[c as int].kind == SyntaxKind::COMMENT
                ==> comment_run_ends_at(tree@, c as int, comment_run_end(tree@, c as int, c as int), false),
            ({
                let r = comment_run_end(tree@, c as int, c as int);
                r == c || (r < tree@.elems.len() && tree@.elems[r].is_token && tree@.elems[r].kind
                    == SyntaxKind::COMMENT && tree@.elems[c as int].end <= tree@.elems[r].start && tree@.elems[r].parent
                    == tree@.elems[c as int].parent)
            }),
            comment_run_end(tree@, c as int, c as int) == match cur {
                Some(s) => comment_run_end(tree@, s as int, res as int),
                None => res as int,
            },
        decreases match cur {
            Some(s) => tree@.elems.len() - s,
            None => 0,
        },
    {
        match cur {
            None => {
                return res;
            },
            Some(s) => {
                proof {
                    assert(tree@.elem_wf(s as int));
                }
                if stops_run(tree, s) {
                    return res;
                }
                if matches!(tree.kind(s), SyntaxKind::COMMENT) {
                    res = s;
                }
                cur = tree.next_sibling(s);
            },
        }
    }
}

/// The run of comments around comment `c`, when it holds more than `c`.
pub fn extend_comments(tree: &SyntaxTree, c: usize) -> (r: Option<TextRange>)
    requires
        tree.wf(),
        c < tree@.elems.len(),
        tree@.elems[c as int].is_token,
    ensures
        r == spec_extend_comments(tree@, c as int),
        r matches Some(x) ==> x.wf() && tree@.range(c as int).within(x) && x != tree@.range(
            c as int,
        ) && x.within(tree@.range(0)),
{
    proof {
        lemma_extend_comments(tree@, c as int);
        lemma_comment_run_start(tree@, c as int, c as int, c as int);
        lemma_comment_run_end(tree@, c as int, c as int, c as int);
    }
    let first = first_comment_of_run(tree, c);
    let last = last_comment_of_run(tree, c);
    if first != last {
        Some(TextRange::from_to(tree.range(first).start, tree.range(last).end))
    } else {
        None
    }
}

/// The outermost ancestor of `i` reached through ancestors of `i`'s range.
fn shallowest_of_same_range(tree: &SyntaxTree, i: usize) -> (r: usize)
    requires
        tree.wf(),
        i < tree@.elems.len(),
    ensures
        r == shallowest_same_range(tree@, i as int),
{
    let mut cur = i;
    loop
        invariant
            tree.wf(),
            cur < tree@.elems.len(),
            shallowest_same_range(tree@, i as int) == shallowest_same_range(tree@, cur as int),
        decreases cur,
    {
        proof {
            assert(tree@.elem_wf(cur as int));
        }
        match tree.parent(cur) {
            Some(p) => {
                if tree.range(p).same_as(&tree.range(cur)) {
                    cur = p;
                } else {
                    return cur;
                }
            },
            None => {
                return cur;
            },
        }
    }
}

/// The ancestor `k` levels above element `x` (`x` itself when `k` is 0).
pub open spec fn ancestor_at(m: TreeModel, x: int, k: nat) -> Option<usize>
    decreases k,
{
    if !(0 <= x < m.elems.len()) {
        None
    } else if k == 0 {
        Some(x as usize)
    } else {
        match m.elems[x].parent {
            Some(q) => if 0 <= q < x {
                ancestor_at(m, q as int, (k - 1) as nat)
            } else {
                None
            },
            None => None,
        }
    }
}

proof fn lemma_ancestor_within(m: TreeModel, x: int, k: nat)
    requires
        m.wf(),
        ancestor_at(m, x, k) is Some,
    ensures
        m.valid(ancestor_at(m, x, k)->0 as int),
        m.range(x).within(m.range(ancestor_at(m, x, k)->0 as int)),
    decreases k,
{
    if k > 0 {
        assert(m.elem_wf(x));
        let q = m.elems[x].parent->0;
        lemma_ancestor_within(m, q as int, (k - 1) as nat);
    }
}

proof fn lemma_shallowest_reaches(m: TreeModel, x: int, e: int, k: nat)
    requires
        m.wf(),
        m.valid(e),
        ancestor_at(m, x, k) == Some(e as usize),
        m.range(x) == m.range(e),
        match m.elems[e].parent {
            Some(p) => m.range(p as int) != m.range(e),
            None => true,
        },
    ensures
        shallowest_same_range(m, x) == e,
    decreases k,
{
    if k > 0 {
        assert(m.elem_wf(x));
        let q = m.elems[x].parent->0;
        lemma_ancestor_within(m, q as int, (k - 1) as nat);
        assert(m.range(q as int) == m.range(e));
        lemma_shallowest_reaches(m, q as int, e, (k - 1) as nat);
    }
}

/// One more level up from an ancestor.
proof fn lemma_ancestor_step(m: TreeModel, x: int, j: nat)
    requires
        m.wf(),
        ancestor_at(m, x, j) is Some,
    ensures
        ({
            let a = ancestor_at(m, x, j)->0 as int;
            match m.elems[a].parent {
                Some(p) => ancestor_at(m, x, j + 1) == Some(p),
                None => ancestor_at(m, x, j + 1) is None,
            }
        }),
    decreases j,
{
    if j > 0 {
        let q = m.elems[x].parent->0;
        lemma_ancestor_step(m, q as int, (j - 1) as nat);
    } else {
        assert(m.elem_wf(x));
        match m.elems[x].parent {
            Some(q) => {
                assert(ancestor_at(m, q as int, 0) == Some(q));
            },
            None => {},
        }
    }
    lemma_ancestor_within(m, x, j);
    assert(m.elem_wf(ancestor_at(m, x, j)->0 as int));
}

/// The ancestor one level below a proper ancestor `i` is a child of `i`.
proof fn lemma_ancestor_child(m: TreeModel, x: int, k: nat)
    requires
        m.wf(),
        k > 0,
        ancestor_at(m, x, k) is Some,
    ensures
        ({
            let i = ancestor_at(m, x, k)->0;
            let ch = ancestor_at(m, x, (k - 1) as nat);
            ch is Some && m.elems[ch->0 as int].parent == Some(i) && i < ch->0
        }),
    decreases k,
{
    let q = m.elems[x].parent->0;
    if k > 1 {
        lemma_ancestor_child(m, q as int, (k - 1) as nat);
    } else {
        assert(m.elem_wf(x));
        assert(ancestor_at(m, q as int, 0) == Some(q));
    }
}

/// Every element lies below the root.
proof fn lemma_root_ancestor(m: TreeModel, x: int) -> (k: nat)
    requires
        m.wf(),
        m.valid(x),
    ensures
        ancestor_at(m, x, k) == Some(0usize),
    decreases x,
{
    assert(m.elem_wf(x));
    match m.elems[x].parent {
        Some(q) => {
            let k = lemma_root_ancestor(m, q as int);
            k + 1
        },
        None => 0,
    }
}

/// Looking for the child of `i` that holds a non-empty range `r` from the
/// first child on finds what the walk from child `s` finds, when `r` starts
/// no earlier than `s`: the children before `s` end where `s` starts.
proof fn lemma_children_before(m: TreeModel, i: int, s: int, r: TextRange)
    requires
        m.wf(),
        m.valid(i),
        m.valid(s),
        m.elems[s].parent == Some(i as usize),
        r.start >= m.elems[s].start,
        r.start < r.end,
    ensures
        m.elems[i].first_child is Some,
        m.child_containing_from(m.elems[i].first_child->0 as int, r) == m.child_containing_from(
            s,
            r,
        ),
    decreases s,
{
    assert(m.elem_wf(s));
    match m.elems[s].prev_sibling {
        Some(b) => {
            assert(m.elem_wf(b as int));
            lemma_children_before(m, i, b as int, r);
        },
        None => {},
    }
}

/// The deepest element covering `r` below `i` lies below `i`.
proof fn lemma_covering_below(m: TreeModel, i: int, r: TextRange) -> (j: nat)
    requires
        m.wf(),
        m.valid(i),
    ensures
        ancestor_at(m, m.covering_from(i, r), j) == Some(i as usize),
    decreases m.elems.len() - i,
{
    assert(m.elem_wf(i));
    if !m.elems[i].is_token {
        match m.elems[i].first_child {
            Some(c) => {
                assert(m.elem_wf(c as int));
                m.lemma_child_containing_from(c as int, r);
                match m.child_containing_from(c as int, r) {
                    Some(ch) => {
                        if i < ch < m.elems.len() {
                            let j = lemma_covering_below(m, ch as int, r);
                            lemma_ancestor_step(m, m.covering_from(i, r), j);
                            return j + 1;
                        }
                    },
                    None => {},
                }
            },
            None => {},
        }
    }
    0
}

/// The deepest element covering a non-empty range `r` lies below every
/// element `x` whose range holds `r`, when `x` lies below `i`.
proof fn lemma_covering_under(m: TreeModel, i: int, x: int, kx: nat, r: TextRange) -> (j: nat)
    requires
        m.wf(),
        m.valid(x),
        ancestor_at(m, x, kx) == Some(i as usize),
        m.valid(i),
        r.start < r.end,
        r.within(m.range(x)),
    ensures
        ancestor_at(m, m.covering_from(i, r), j) == Some(x as usize),
    decreases kx,
{
    lemma_ancestor_within(m, x, kx);
    if kx == 0 {
        lemma_covering_below(m, i, r)
    } else {
        lemma_ancestor_child(m, x, kx);
        let ch = ancestor_at(m, x, (kx - 1) as nat)->0 as int;
        lemma_ancestor_within(m, x, (kx - 1) as nat);
        assert(m.elem_wf(ch));
        lemma_children_before(m, i, ch, r);
        assert(m.child_containing_from(ch, r) == Some(ch as usize));
        assert(m.elem_wf(i));
        assert(!m.elems[i].is_token);
        assert(m.covering_from(i, r) == m.covering_from(ch, r));
        lemma_covering_under(m, ch, x, (kx - 1) as nat, r)
    }
}

/// The node kinds whose children are items separated by commas.
pub open spec fn is_comma_list_kind(k: SyntaxKind) -> bool {
    ||| k == SyntaxKind::FIELD_PAT_LIST
    ||| k == SyntaxKind::MATCH_ARM_LIST
    ||| k == SyntaxKind::NAMED_FIELD_DEF_LIST
    ||| k == SyntaxKind::POS_FIELD_DEF_LIST
    ||| k == SyntaxKind::NAMED_FIELD_LIST
    ||| k == SyntaxKind::ENUM_VARIANT_LIST
    ||| k == SyntaxKind::USE_TREE_LIST
    ||| k == SyntaxKind::TYPE_PARAM_LIST
    ||| k == SyntaxKind::TYPE_ARG_LIST
    ||| k == SyntaxKind::PARAM_LIST
    ||| k == SyntaxKind::ARG_LIST
    ||| k == SyntaxKind::ARRAY_EXPR
}

/// A neighbour that is neither a comma nor whitespace within one line (or
/// no neighbour at all).
pub open spec fn plain_neighbour(m: TreeModel, n: Option<usize>) -> bool {
    match n {
        None => true,
        Some(x) => !(m.elems[x as int].is_token && (m.elems[x as int].kind == SyntaxKind::COMMA
            || (m.elems[x as int].kind == SyntaxKind::WHITESPACE && !m.elems[x as int].text.contains(
            '\n',
        )))),
    }
}

/// Growing a selection that is exactly an item `e` of a comma-separated list
/// (the outermost element with that range, under a list node of one of the
/// twelve list kinds) takes in the comma next to it: the comma right
/// before it; else the comma right after it, with the whitespace within the
/// line that follows that comma; with no comma next to it, the whole list.
/// The deepest element covering the selection must not be a comment (a
/// selected comment grows over its run of comments first).
pub proof fn law_list_item_takes_comma(m: TreeModel, range: TextRange, e: int)
    requires
        m.wf(),
        range.start < range.end,
        range.end <= m.text_len(),
        m.valid(e),
        !m.elems[e].is_token,
        m.range(e) == range,
        !(m.elems[m.covering_element(range)].is_token && m.elems[m.covering_element(range)].kind
            == SyntaxKind::COMMENT),
    ensures
        match m.elems[e].parent {
            Some(p) => m.range(p as int) != range && is_comma_list_kind(m.elems[p as int].kind) ==> {
                let res = spec_try_extend_selection(m, range);
                let prev = m.elems[e].prev_sibling;
                let next = m.elems[e].next_sibling;
                &&& match prev {
                    Some(b) => m.elems[b as int].is_token && m.elems[b as int].kind
                        == SyntaxKind::COMMA ==> res == Some(
                        TextRange { start: m.elems[b as int].start, end: range.end },
                    ),
                    None => true,
                }
                &&& plain_neighbour(m, prev) ==> match next {
                    Some(a) => m.elems[a as int].is_token && m.elems[a as int].kind
                        == SyntaxKind::COMMA ==> res == Some(
                        TextRange {
                            start: range.start,
                            end: match m.elems[a as int].next_sibling {
                                Some(w) => if m.elems[w as int].is_token && m.elems[w as int].kind
                                    == SyntaxKind::WHITESPACE && !m.elems[w as int].text.contains(
                                    '\n',
                                ) {
                                    m.elems[w as int].end
                                } else {
                                    m.elems[a as int].end
                                },
                                None => m.elems[a as int].end,
                            },
                        },
                    ),
                    None => true,
                }
                &&& plain_neighbour(m, prev) && plain_neighbour(m, next) ==> res == Some(
                    m.range(p as int),
                )
            },
            None => true,
        },
{
    m.lemma_text_len();
    m.lemma_covering_from(0, range);
    let k0 = lemma_root_ancestor(m, e);
    let k = lemma_covering_under(m, 0, e, k0, range);
    let c = m.covering_element(range);
    lemma_ancestor_within(m, c, k);
    assert(m.range(c) == range);
    assert(m.elem_wf(c));
    assert(m.elem_wf(e));
    match m.elems[e].parent {
        Some(p) => {
            if m.range(p as int) != range && is_comma_list_kind(m.elems[p as int].kind) {
                let node = if m.elems[c].is_token {
                    m.elems[c].parent->0 as int
                } else {
                    c
                };
                if m.elems[c].is_token {
                    assert(k > 0);
                    lemma_ancestor_within(m, node, (k - 1) as nat);
                    lemma_shallowest_reaches(m, node, e, (k - 1) as nat);
                } else {
                    lemma_shallowest_reaches(m, c, e, k);
                }
                assert(shallowest_same_range(m, node) == e);
                assert(m.range(node) == range);
                assert(spec_is_list_kind(m.elems[p as int].kind));
                match m.elems[e].prev_sibling {
                    Some(b) => {
                        assert(m.elem_wf(b as int));
                    },
                    None => {},
                }
                match m.elems[e].next_sibling {
                    Some(a) => {
                        assert(m.elem_wf(a as int));
                    },
                    None => {},
                }
            }
        },
        None => {},
    }
}

/// Tokens worth selecting first at a cursor: identifiers, `self`, `super`,
/// `crate` and lifetimes.
pub open spec fn is_word_token_kind(k: SyntaxKind) -> bool {
    ||| k == SyntaxKind::IDENT
    ||| k == SyntaxKind::SELF_KW
    ||| k == SyntaxKind::SUPER_KW
    ||| k == SyntaxKind::CRATE_KW
    ||| k == SyntaxKind::LIFETIME
}

/// The comment and string literal kinds, whose words a cursor selects.
pub open spec fn is_text_token_kind(k: SyntaxKind) -> bool {
    ||| k == SyntaxKind::COMMENT
    ||| k == SyntaxKind::STRING
    ||| k == SyntaxKind::RAW_STRING
    ||| k == SyntaxKind::BYTE_STRING
    ||| k == SyntaxKind::RAW_BYTE_STRING
}

/// A cursor between two tokens, not both whitespace, grows to one of them:
/// an identifier, `self`, `super`, `crate` or lifetime before anything
/// else, any other token before whitespace, and the left token when both
/// rank alike.
pub proof fn law_cursor_between_tokens(m: TreeModel, offset: int, l: usize, r: usize)
    requires
        m.wf(),
        m.token_at_offset(offset) == TokenAtOffset::Between(l, r),
        !(m.elems[l as int].kind == SyntaxKind::WHITESPACE && m.elems[r as int].kind
            == SyntaxKind::WHITESPACE),
        0 <= offset <= u32::MAX,
    ensures
        ({
            let range = TextRange { start: offset as u32, end: offset as u32 };
            let kl = m.elems[l as int].kind;
            let kr = m.elems[r as int].kind;
            let res = spec_try_extend_selection(m, range);
            &&& is_word_token_kind(kl) ==> res == Some(m.range(l as int))
            &&& !is_word_token_kind(kl) && is_word_token_kind(kr) ==> res == Some(m.range(r as int))
            &&& kl == SyntaxKind::WHITESPACE && kr != SyntaxKind::WHITESPACE ==> res == Some(
                m.range(r as int),
            )
            &&& kl != SyntaxKind::WHITESPACE && !is_word_token_kind(kl) && !is_word_token_kind(kr)
                ==> res == Some(m.range(l as int))
        }),
{
}

/// A cursor inside a comment or string literal token (of any of the five
/// kinds) grows to the word around it, if there is one, and otherwise to
/// the token; inside any other token but whitespace it grows to the token.
pub proof fn law_cursor_in_token(m: TreeModel, offset: int, l: usize)
    requires
        m.wf(),
        m.token_at_offset(offset) == TokenAtOffset::Single(l),
        m.elems[l as int].kind != SyntaxKind::WHITESPACE,
        0 <= offset <= u32::MAX,
    ensures
        ({
            let range = TextRange { start: offset as u32, end: offset as u32 };
            let e = m.elems[l as int];
            let res = spec_try_extend_selection(m, range);
            &&& is_text_token_kind(e.kind) ==> res == match spec_word_range(
                e.text,
                alnum_flags(e.text),
                offset - e.start,
            ) {
                Some(w) => Some(
                    TextRange { start: (w.start + e.start) as u32, end: (w.end + e.start) as u32 },
                ),
                None => Some(m.range(l as int)),
            }
            &&& !is_text_token_kind(e.kind) ==> res == Some(m.range(l as int))
        }),
{
}

/// The selection that `range` grows to, if any. The result always holds
/// `range`, grows a non-empty range strictly, and is missing exactly when
/// `range` already is the whole text.
pub fn try_extend_selection(tree: &SyntaxTree, range: TextRange) -> (r: Option<TextRange>)
    requires
        tree.wf(),
        selection_ok(tree@, range),
    ensures
        r == spec_try_extend_selection(tree@, range),
        r matches Some(x) ==> x.wf() && range.within(x) && x.end <= tree@.text_len(),
        r is None <==> range == tree@.range(0),
        range.start != range.end || !cursor_before_empty(tree@, range.start as int) ==> (
        r matches Some(x) ==> x != range),
{
    let ghost m = tree@;
    proof {
        m.lemma_text_len();
    }
    if range.is_empty() {
        let offset = range.start;
        proof {
            m.lemma_token_at_offset(offset as int);
        }
        match tree.token_at_offset(offset) {
            TokenAtOffset::NoToken => {
                return None;
            },
            TokenAtOffset::Single(l) => {
                proof {
                    lemma_within_root(m, l as int);
                    lemma_token_nonempty(m, l as int);
                }
                if matches!(tree.kind(l), SyntaxKind::WHITESPACE) {
                    return Some(extend_ws(tree, l, offset));
                } else if is_string_like(tree.kind(l)) {
                    return match extend_single_word_in_comment_or_string(tree, l, offset) {
                        Some(w) => Some(w),
                        None => Some(tree.range(l)),
                    };
                } else {
                    return Some(tree.range(l));
                }
            },
            TokenAtOffset::Between(l, r) => {
                if matches!(tree.kind(l), SyntaxKind::WHITESPACE) && matches!(
                    tree.kind(r),
                    SyntaxKind::WHITESPACE,
                ) {
                    proof {
                        assert(m.elem_wf(l as int));
                        lemma_byte_pos_full(m.elems[l as int].text);
                        lemma_char_index_at(
                            m.elems[l as int].text,
                            m.elems[l as int].text.len() as int,
                        );
                    }
                    return Some(extend_ws(tree, l, offset));
                } else {
                    proof {
                        assert(m.elem_wf(l as int));
                        assert(m.elem_wf(r as int));
                        lemma_within_root(m, l as int);
                        lemma_within_root(m, r as int);
                        lemma_token_nonempty(m, l as int);
                        lemma_token_nonempty(m, r as int);
                    }
                    return Some(tree.range(pick_best(tree, l, r)));
                }
            },
        }
    }
    let e = tree.covering_element(range);
    proof {
        lemma_within_root(m, e as int);
        assert(m.elem_wf(e as int));
    }
    let is_tok = tree.is_token(e);
    if is_tok {
        proof {
            lemma_token_nonempty(m, e as int);
        }
        if !tree.range(e).same_as(&range) {
            return Some(tree.range(e));
        }
        if matches!(tree.kind(e), SyntaxKind::COMMENT) {
            proof {
                lemma_extend_comments(m, e as int);
            }
            if let Some(c) = extend_comments(tree, e) {
                return Some(c);
            }
        }
    }
    let node = if is_tok {
        match tree.parent(e) {
            Some(p) => p,
            None => e,
        }
    } else {
        e
    };
    proof {
        assert(m.elem_wf(node as int));
        lemma_within_root(m, node as int);
    }
    if !tree.range(node).same_as(&range) {
        return Some(tree.range(node));
    }
    let top = shallowest_of_same_range(tree, node);
    proof {
        lemma_shallowest_same_range(m, node as int);
        lemma_extend_list_item(m, top as int);
        assert(m.elem_wf(top as int));
        assert(m.elem_wf(0));
    }
    match tree.parent(top) {
        None => None,
        Some(p) => {
            proof {
                lemma_within_root(m, p as int);
            }
            if is_list_kind(tree.kind(p)) {
                if let Some(item) = extend_list_item(tree, top) {
                    return Some(item);
                }
            }
            Some(tree.range(p))
        },
    }
}

/// The selection that `range` grows to; `range` itself when it is already
/// the whole text.
pub fn extend_selection(tree: &SyntaxTree, range: TextRange) -> (r: TextRange)
    requires
        tree.wf(),
        selection_ok(tree@, range),
    ensures
        r == match spec_try_extend_selection(tree@, range) {
            Some(x) => x,
            None => range,
        },
        r.wf(),
        range.within(r),
        r.end <= tree@.text_len(),
        range.start != range.end || !cursor_before_empty(tree@, range.start as int) ==> ((r
            == range) <==> (range == tree@.range(0))),
{
    match try_extend_selection(tree, range) {
        Some(x) => x,
        None => range,
    }
}

} // verus!
