//! Approximate name resolution: what the name under the cursor asks the
//! symbol index or the module map for.
use vstd::prelude::*;

use crate::syntax_kind::SyntaxKind;
use crate::text::TextRange;
use crate::tree::{SyntaxTree, TokenAtOffset, TreeModel};
use crate::world::{lookup, World, WorldError, FileId};

verus! {

/// How many symbols a lookup of a name reference asks for at most.
pub const NAME_LOOKUP_LIMIT: usize = 4;

/// A search of the symbol index for `name`: only exact matches when `exact`,
/// at most `limit` of them.
#[derive(Clone, Debug, PartialEq, Eq)]
pub struct SymbolQuery {
    pub name: Vec<char>,
    pub exact: bool,
    pub limit: usize,
}

/// What the name at an offset asks for.
#[derive(Clone, Debug, PartialEq, Eq)]
pub enum SymbolLookup {
    /// Search the symbols of all files.
    Symbols(SymbolQuery),
    /// The files of the child module of this name, declared `mod name;` in
    /// the file at hand.
    ChildModule(Vec<char>),
    /// Nothing to look up.
    Nothing,
}

/// The model of a lookup.
pub enum LookupModel {
    Symbols { name: Seq<char>, exact: bool, limit: nat },
    ChildModule { name: Seq<char> },
    Nothing,
}

impl View for SymbolLookup {
    type V = LookupModel;

    open spec fn view(&self) -> LookupModel {
        match self {
            SymbolLookup::Symbols(q) => LookupModel::Symbols {
                name: q.name@,
                exact: q.exact,
                limit: q.limit as nat,
            },
            SymbolLookup::ChildModule(n) => LookupModel::ChildModule { name: n@ },
            SymbolLookup::Nothing => LookupModel::Nothing,
        }
    }
}

/// Whitespace and comments: tokens with no meaning of their own.
pub open spec fn spec_is_trivia(k: SyntaxKind) -> bool {
    k == SyntaxKind::WHITESPACE || k == SyntaxKind::COMMENT
}

fn is_trivia(k: SyntaxKind) -> (r: bool)
    ensures
        r == spec_is_trivia(k),
{
    matches!(k, SyntaxKind::WHITESPACE | SyntaxKind::COMMENT)
}

/// The token that an offset designates: the one around it, or of the two
/// that meet there the left one unless it is trivia.
pub open spec fn leaf_at(m: TreeModel, offset: int) -> Option<usize> {
    match m.token_at_offset(offset) {
        TokenAtOffset::NoToken => None,
        TokenAtOffset::Single(t) => Some(t),
        TokenAtOffset::Between(l, r) => if !spec_is_trivia(m.elems[l as int].kind) {
            Some(l)
        } else {
            Some(r)
        },
    }
}

/// Whether module node `p` ends with a semicolon: `mod name;` declares a
/// module whose body is another file.
pub open spec fn has_semi(m: TreeModel, p: int) -> bool {
    match m.last_child(p) {
        Some(c) => m.elems[c as int].kind == SyntaxKind::SEMI,
        None => false,
    }
}

/// What the name at `offset` asks for. Under a name reference: a search of
/// the symbols named by its text, exact matches only, at most
/// `NAME_LOOKUP_LIMIT`. Under the name of a module declared with a
/// semicolon: the child module of the module's name. Otherwise nothing.
pub open spec fn spec_symbol_lookup(m: TreeModel, offset: int) -> LookupModel {
    match leaf_at(m, offset) {
        None => LookupModel::Nothing,
        Some(leaf) => match m.ancestor_of_kind(leaf as int, SyntaxKind::NAME_REF) {
            Some(r) => LookupModel::Symbols {
                name: m.elem_text(r as int),
                exact: true,
                limit: NAME_LOOKUP_LIMIT as nat,
            },
            None => match m.ancestor_of_kind(leaf as int, SyntaxKind::NAME) {
                None => LookupModel::Nothing,
                Some(n) => match m.elems[n as int].parent {
                    Some(p) => if m.elems[p as int].kind == SyntaxKind::MODULE && has_semi(
                        m,
                        p as int,
                    ) {
                        match m.child_of_kind(p as int, SyntaxKind::NAME) {
                            Some(c) => LookupModel::ChildModule { name: m.elem_text(c as int) },
                            None => LookupModel::Nothing,
                        }
                    } else {
                        LookupModel::Nothing
                    },
                    None => LookupModel::Nothing,
                },
            },
        },
    }
}

/// The token at `offset` that a lookup starts from.
fn leaf_of(tree: &SyntaxTree, offset: u32) -> (r: Option<usize>)
    requires
        tree.wf(),
        offset <= tree@.text_len(),
    ensures
        r == leaf_at(tree@, offset as int),
        r matches Some(t) ==> t < tree@.elems.len(),
{
    proof {
        tree@.lemma_token_at_offset(offset as int);
    }
    match tree.token_at_offset(offset) {
        TokenAtOffset::NoToken => None,
        TokenAtOffset::Single(t) => Some(t),
        TokenAtOffset::Between(l, r) => if !is_trivia(tree.kind(l)) {
            Some(l)
        } else {
            Some(r)
        },
    }
}

/// What the name at `offset` of `tree` asks for.
pub fn symbol_lookup_at(tree: &SyntaxTree, offset: u32) -> (r: SymbolLookup)
    requires
        tree.wf(),
        offset <= tree@.text_len(),
    ensures
        r@ == spec_symbol_lookup(tree@, offset as int),
{
    let leaf = match leaf_of(tree, offset) {
        Some(t) => t,
        None => return SymbolLookup::Nothing,
    };
    if let Some(r) = tree.ancestor_of_kind(leaf, SyntaxKind::NAME_REF) {
        let query = SymbolQuery { name: tree.elem_text(r), exact: true, limit: NAME_LOOKUP_LIMIT };
        return SymbolLookup::Symbols(query);
    }
    let n = match tree.ancestor_of_kind(leaf, SyntaxKind::NAME) {
        Some(n) => n,
        None => return SymbolLookup::Nothing,
    };
    proof {
        assert(tree@.elem_wf(n as int));
    }
    let p = match tree.parent(n) {
        Some(p) => p,
        None => return SymbolLookup::Nothing,
    };
    if tree.kind(p) != SyntaxKind::MODULE {
        return SymbolLookup::Nothing;
    }
    let semi = match tree.last_child(p) {
        Some(c) => tree.kind(c) == SyntaxKind::SEMI,
        None => false,
    };
    if !semi {
        return SymbolLookup::Nothing;
    }
    match tree.child_of_kind(p, SyntaxKind::NAME) {
        Some(c) => SymbolLookup::ChildModule(tree.elem_text(c)),
        None => SymbolLookup::Nothing,
    }
}

impl World {
    /// What the name at `offset` of file `id` asks for, given `tree`, the
    /// syntax tree of the file's text; the error names an unknown file.
    pub fn approximately_resolve_symbol(&self, id: FileId, tree: &SyntaxTree, offset: u32) -> (r:
        Result<SymbolLookup, WorldError>)
        requires
            tree.wf(),
            offset <= tree@.text_len(),
            self.files().contains_key(id.0) ==> tree@.elem_text(0) == self.files()[id.0]@,
        ensures
            lookup(self.files(), id) is Err ==> r == Err::<SymbolLookup, WorldError>(
                WorldError::UnknownFile(id),
            ),
            lookup(self.files(), id) is Ok ==> (r matches Ok(l) && l@ == spec_symbol_lookup(
                tree@,
                offset as int,
            )),
    {
        match self.file_text(id) {
            Err(e) => Err(e),
            Ok(_) => Ok(symbol_lookup_at(tree, offset)),
        }
    }
}

/// A symbol defined in a file: its name, the range of its node, and the
/// kind of that node.
#[derive(Clone, Debug, PartialEq, Eq)]
pub struct FileSymbol {
    pub name: Vec<char>,
    pub node_range: TextRange,
    pub kind: SyntaxKind,
}

/// The symbols that a lookup of child module `name` answers with: for each
/// file of that module, a module symbol named `name` with an empty range at
/// the start of the file.
pub fn child_module_symbols(name: &Vec<char>, files: &Vec<FileId>) -> (r: Vec<(FileId, FileSymbol)>)
    ensures
        r.len() == files.len(),
        forall|i: int|
            0 <= i < r.len() ==> {
                &&& (#[trigger] r@[i]).0 == files@[i]
                &&& r@[i].1.name@ == name@
                &&& r@[i].1.node_range == (TextRange { start: 0, end: 0 })
                &&& r@[i].1.kind == SyntaxKind::MODULE
            },
{
    let mut r: Vec<(FileId, FileSymbol)> = Vec::new();
    let mut i: usize = 0;
    while i < files.len()
        invariant
            i <= files.len(),
            r.len() == i,
            forall|j: int|
                0 <= j < i ==> {
                    &&& (#[trigger] r@[j]).0 == files@[j]
                    &&& r@[j].1.name@ == name@
                    &&& r@[j].1.node_range == (TextRange { start: 0, end: 0 })
                    &&& r@[j].1.kind == SyntaxKind::MODULE
                },
        decreases files.len() - i,
    {
        let mut copy: Vec<char> = Vec::new();
        let mut k: usize = 0;
        while k < name.len()
            invariant
                k <= name.len(),
                copy@ == name@.take(k as int),
            decreases name.len() - k,
        {
            copy.push(name[k]);
            k = k + 1;
            proof {
                assert(copy@ =~= name@.take(k as int));
            }
        }
        proof {
            assert(copy@ =~= name@);
        }
        let symbol = FileSymbol {
            name: copy,
            node_range: TextRange { start: 0, end: 0 },
            kind: SyntaxKind::MODULE,
        };
        r.push((files[i], symbol));
        i = i + 1;
    }
    r
}

/// The symbol of module node `module`: its name (the text of its first
/// name child), the range of the module node, and kind `MODULE`; none when
/// the module has no name.
pub fn module_symbol(tree: &SyntaxTree, module: usize) -> (r: Option<FileSymbol>)
    requires
        tree.wf(),
        module < tree@.elems.len(),
    ensures
        match tree@.child_of_kind(module as int, SyntaxKind::NAME) {
            Some(c) => r matches Some(s) && s.name@ == tree@.elem_text(c as int) && s.node_range
                == tree@.range(module as int) && s.kind == SyntaxKind::MODULE,
            None => r is None,
        },
{
    match tree.child_of_kind(module, SyntaxKind::NAME) {
        Some(c) => Some(
            FileSymbol {
                name: tree.elem_text(c),
                node_range: tree.range(module),
                kind: SyntaxKind::MODULE,
            },
        ),
        None => None,
    }
}

} // verus!
