//! A syntax tree over a source text: nodes and tokens held in an arena, with
//! parent, child and sibling links, and the text ranges they cover.
use vstd::prelude::*;

use crate::syntax_kind::SyntaxKind;
use crate::text::{byte_len, lemma_byte_pos_full, lemma_byte_pos_mono, text_byte_len, TextRange};

verus! {

/// What the model records of one element (a node or a token) of a tree.
pub struct ElemModel {
    pub kind: SyntaxKind,
    pub is_token: bool,
    pub parent: Option<usize>,
    pub first_child: Option<usize>,
    pub prev_sibling: Option<usize>,
    pub next_sibling: Option<usize>,
    pub start: u32,
    pub end: u32,
    /// The text of a token; empty for a node.
    pub text: Seq<char>,
    /// Number of tokens that end at or before `start`.
    pub start_tok: usize,
    /// Number of tokens that end at or before `end`.
    pub end_tok: usize,
}

/// The mathematical model of a syntax tree. Element 0 is the root node; the
/// tokens, listed in text order in `tokens`, cover the text without gaps.
pub struct TreeModel {
    pub elems: Seq<ElemModel>,
    pub tokens: Seq<usize>,
}

/// The tokens found at an offset: none (the text is empty), the one token
/// around it, or the two tokens it separates.
#[derive(Clone, Copy, Debug, PartialEq, Eq, Structural)]
pub enum TokenAtOffset {
    NoToken,
    Single(usize),
    Between(usize, usize),
}

impl TreeModel {
    pub open spec fn valid(self, i: int) -> bool {
        0 <= i < self.elems.len()
    }

    pub open spec fn range(self, i: int) -> TextRange {
        TextRange { start: self.elems[i].start, end: self.elems[i].end }
    }

    /// The `k`-th token in text order.
    pub open spec fn tok(self, k: int) -> ElemModel {
        self.elems[self.tokens[k] as int]
    }

    /// Offset at which the first `k` tokens end.
    pub open spec fn prefix_end(self, k: int) -> int {
        if k <= 0 {
            0
        } else {
            self.tok(k - 1).end as int
        }
    }

    /// Length in bytes of the whole text.
    pub open spec fn text_len(self) -> u32 {
        self.elems[0].end
    }

    /// The local shape constraints of element `i`.
    pub open spec fn elem_wf(self, i: int) -> bool {
        let e = self.elems[i];
        let n = self.elems.len();
        &&& e.start <= e.end
        &&& e.start_tok <= e.end_tok <= self.tokens.len()
        &&& self.prefix_end(e.start_tok as int) == e.start
        &&& self.prefix_end(e.end_tok as int) == e.end
        &&& (i == 0 <==> e.parent is None)
        &&& match e.parent {
            Some(p) => {
                &&& p < i
                &&& !self.elems[p as int].is_token
                &&& self.elems[p as int].start <= e.start
                &&& e.end <= self.elems[p as int].end
            },
            None => true,
        }
        &&& e.is_token ==> {
            &&& e.first_child is None
            &&& e.text.len() > 0
            &&& e.end - e.start == byte_len(e.text)
            &&& e.end_tok == e.start_tok + 1
            &&& e.start_tok < self.tokens.len()
            &&& self.tokens[e.start_tok as int] == i
        }
        &&& !e.is_token ==> e.text.len() == 0
        &&& match e.first_child {
            Some(c) => {
                &&& i < c < n
                &&& self.elems[c as int].parent == Some(i as usize)
                &&& self.elems[c as int].prev_sibling is None
                &&& self.elems[c as int].start == e.start
            },
            None => !e.is_token ==> e.start == e.end,
        }
        &&& match e.next_sibling {
            Some(j) => {
                &&& i < j < n
                &&& self.elems[j as int].parent == e.parent
                &&& self.elems[j as int].prev_sibling == Some(i as usize)
                &&& e.end == self.elems[j as int].start
            },
            None => match e.parent {
                Some(p) => e.end == self.elems[p as int].end,
                None => true,
            },
        }
        &&& match e.prev_sibling {
            Some(j) => {
                &&& j < i
                &&& self.elems[j as int].parent == e.parent
                &&& self.elems[j as int].next_sibling == Some(i as usize)
            },
            None => match e.parent {
                Some(p) => self.elems[p as int].first_child == Some(i as usize),
                None => true,
            },
        }
    }

    /// The `k`-th token of the token list is a token that starts where the
    /// previous one ends.
    pub open spec fn tok_wf(self, k: int) -> bool {
        &&& self.tokens[k] < self.elems.len()
        &&& self.tok(k).is_token
        &&& self.tok(k).start_tok == k
        &&& self.tok(k).start == self.prefix_end(k)
    }

    /// Well-formedness of a tree.
    pub open spec fn wf(self) -> bool {
        &&& 0 < self.elems.len() <= usize::MAX
        &&& self.elems[0].start == 0
        &&& !self.elems[0].is_token
        &&& self.elems[0].prev_sibling is None
        &&& self.elems[0].next_sibling is None
        &&& self.elems[0].end_tok == self.tokens.len()
        &&& forall|k: int| 0 <= k < self.tokens.len() ==> #[trigger] self.tok_wf(k)
        &&& forall|i: int| 0 <= i < self.elems.len() ==> #[trigger] self.elem_wf(i)
    }
}

/// A text of `k > 0` characters takes at least `k` bytes.
pub proof fn lemma_byte_len_pos(s: Seq<char>)
    ensures
        byte_len(s) >= s.len(),
{
    lemma_byte_pos_mono(s, 0, s.len() as int);
    lemma_byte_pos_full(s);
}

impl TreeModel {
    /// Tokens are not empty, so the offsets at which they end strictly grow.
    pub proof fn lemma_prefix_end_strict(self, a: int, b: int)
        requires
            self.wf(),
            0 <= a < b <= self.tokens.len(),
        ensures
            self.prefix_end(a) < self.prefix_end(b),
        decreases b - a,
    {
        let k = b - 1;
        assert(self.tok_wf(k));
        assert(self.elem_wf(self.tokens[k] as int));
        lemma_byte_len_pos(self.tok(k).text);
        if a < k {
            self.lemma_prefix_end_strict(a, k);
        }
    }

    /// The whole text is the root's range, and it is empty exactly when there is no token.
    pub proof fn lemma_text_len(self)
        requires
            self.wf(),
        ensures
            self.text_len() == self.prefix_end(self.tokens.len() as int),
            self.range(0).start == 0,
            (self.text_len() == 0) <==> (self.tokens.len() == 0),
    {
        assert(self.elem_wf(0));
        if self.tokens.len() > 0 {
            self.lemma_prefix_end_strict(0, self.tokens.len() as int);
        }
    }

    /// Index of the first token (from the `k`-th on) that ends at or after `offset`.
    pub open spec fn first_token_reaching(self, offset: int, k: int) -> int
        decreases self.tokens.len() - k,
    {
        if k < 0 || k >= self.tokens.len() {
            self.tokens.len() as int
        } else if offset <= self.tok(k).end {
            k
        } else {
            self.first_token_reaching(offset, k + 1)
        }
    }

    /// The tokens at `offset`: the token around it, or the two tokens that meet at it.
    pub open spec fn token_at_offset(self, offset: int) -> TokenAtOffset {
        let n = self.tokens.len() as int;
        let k = self.first_token_reaching(offset, 0);
        if k >= n {
            TokenAtOffset::NoToken
        } else if offset == self.tok(k).end && k + 1 < n {
            TokenAtOffset::Between(self.tokens[k], self.tokens[k + 1])
        } else {
            TokenAtOffset::Single(self.tokens[k])
        }
    }

    proof fn lemma_first_token_reaching(self, offset: int, k: int)
        requires
            self.wf(),
            0 <= k <= self.tokens.len(),
            k < self.tokens.len() ==> offset >= self.prefix_end(k),
            0 <= offset <= self.text_len(),
        ensures
            k <= self.first_token_reaching(offset, k) <= self.tokens.len(),
            k < self.tokens.len() ==> self.first_token_reaching(offset, k) < self.tokens.len(),
            self.first_token_reaching(offset, k) < self.tokens.len() ==> {
                let r = self.first_token_reaching(offset, k);
                &&& self.prefix_end(r) <= offset <= self.tok(r).end
                &&& (k < r ==> self.prefix_end(r) < offset)
            },
        decreases self.tokens.len() - k,
    {
        self.lemma_text_len();
        let n = self.tokens.len() as int;
        if k < n {
            assert(self.tok_wf(k));
            if offset > self.tok(k).end {
                if k + 1 < n {
                    assert(self.tok_wf(k + 1));
                } else {
                    assert(false);
                }
                self.lemma_first_token_reaching(offset, k + 1);
            }
        }
    }

    /// What the tokens at an offset are: none only in an empty text; otherwise
    /// tokens around the offset.
    pub proof fn lemma_token_at_offset(self, offset: int)
        requires
            self.wf(),
            0 <= offset <= self.text_len(),
        ensures
            (self.token_at_offset(offset) is NoToken) <==> self.text_len() == 0,
            match self.token_at_offset(offset) {
                TokenAtOffset::NoToken => true,
                TokenAtOffset::Single(t) => {
                    &&& self.valid(t as int)
                    &&& self.elems[t as int].is_token
                    &&& self.elems[t as int].start <= offset <= self.elems[t as int].end
                },
                TokenAtOffset::Between(l, r) => {
                    &&& self.valid(l as int)
                    &&& self.valid(r as int)
                    &&& self.elems[l as int].is_token
                    &&& self.elems[r as int].is_token
                    &&& self.elems[l as int].end == offset
                    &&& self.elems[r as int].start == offset
                },
            },
    {
        self.lemma_text_len();
        self.lemma_first_token_reaching(offset, 0);
        let k = self.first_token_reaching(offset, 0);
        if k < self.tokens.len() {
            assert(self.tok_wf(k));
            if k + 1 < self.tokens.len() {
                assert(self.tok_wf(k + 1));
            }
        }
    }
}

/// A syntax tree. Elements are held column by column: entry `i` of each
/// vector describes element `i`.
pub struct SyntaxTree {
    kinds: Vec<SyntaxKind>,
    is_tokens: Vec<bool>,
    parents: Vec<Option<usize>>,
    first_children: Vec<Option<usize>>,
    prev_siblings: Vec<Option<usize>>,
    next_siblings: Vec<Option<usize>>,
    starts: Vec<u32>,
    ends: Vec<u32>,
    texts: Vec<Vec<char>>,
    start_toks: Vec<usize>,
    end_toks: Vec<usize>,
    tokens: Vec<usize>,
}

impl SyntaxTree {
    /// All columns have one entry per element.
    pub closed spec fn shape_ok(&self) -> bool {
        let n = self.kinds.len();
        &&& self.is_tokens.len() == n
        &&& self.parents.len() == n
        &&& self.first_children.len() == n
        &&& self.prev_siblings.len() == n
        &&& self.next_siblings.len() == n
        &&& self.starts.len() == n
        &&& self.ends.len() == n
        &&& self.texts.len() == n
        &&& self.start_toks.len() == n
        &&& self.end_toks.len() == n
    }

    /// Well-formedness of the tree.
    pub open spec fn wf(&self) -> bool {
        self.shape_ok() && self@.wf()
    }

    closed spec fn elem_model(&self, i: int) -> ElemModel {
        ElemModel {
            kind: self.kinds@[i],
            is_token: self.is_tokens@[i],
            parent: self.parents@[i],
            first_child: self.first_children@[i],
            prev_sibling: self.prev_siblings@[i],
            next_sibling: self.next_siblings@[i],
            start: self.starts@[i],
            end: self.ends@[i],
            text: self.texts@[i]@,
            start_tok: self.start_toks@[i],
            end_tok: self.end_toks@[i],
        }
    }
}

impl View for SyntaxTree {
    type V = TreeModel;

    closed spec fn view(&self) -> TreeModel {
        TreeModel {
            elems: Seq::new(self.kinds.len() as nat, |i: int| self.elem_model(i)),
            tokens: self.tokens@,
        }
    }
}

impl SyntaxTree {
    /// Number of elements (nodes and tokens) of the tree.
    pub fn len(&self) -> (r: usize)
        requires
            self.wf(),
        ensures
            r == self@.elems.len(),
    {
        self.kinds.len()
    }

    /// Kind of element `i`.
    pub fn kind(&self, i: usize) -> (r: SyntaxKind)
        requires
            self.wf(),
            i < self@.elems.len(),
        ensures
            r == self@.elems[i as int].kind,
    {
        self.kinds[i]
    }

    /// Whether element `i` is a token.
    pub fn is_token(&self, i: usize) -> (r: bool)
        requires
            self.wf(),
            i < self@.elems.len(),
        ensures
            r == self@.elems[i as int].is_token,
    {
        self.is_tokens[i]
    }

    /// Parent of element `i`; only the root has none.
    pub fn parent(&self, i: usize) -> (r: Option<usize>)
        requires
            self.wf(),
            i < self@.elems.len(),
        ensures
            r == self@.elems[i as int].parent,
    {
        self.parents[i]
    }

    /// First child of element `i`.
    pub fn first_child(&self, i: usize) -> (r: Option<usize>)
        requires
            self.wf(),
            i < self@.elems.len(),
        ensures
            r == self@.elems[i as int].first_child,
    {
        self.first_children[i]
    }

    /// Sibling right before element `i`.
    pub fn prev_sibling(&self, i: usize) -> (r: Option<usize>)
        requires
            self.wf(),
            i < self@.elems.len(),
        ensures
            r == self@.elems[i as int].prev_sibling,
    {
        self.prev_siblings[i]
    }

    /// Sibling right after element `i`.
    pub fn next_sibling(&self, i: usize) -> (r: Option<usize>)
        requires
            self.wf(),
            i < self@.elems.len(),
        ensures
            r == self@.elems[i as int].next_sibling,
    {
        self.next_siblings[i]
    }

    /// Text range of element `i`.
    pub fn range(&self, i: usize) -> (r: TextRange)
        requires
            self.wf(),
            i < self@.elems.len(),
        ensures
            r == self@.range(i as int),
    {
        TextRange { start: self.starts[i], end: self.ends[i] }
    }

    /// Text of token `i` (empty for a node).
    pub fn token_text(&self, i: usize) -> (r: &Vec<char>)
        requires
            self.wf(),
            i < self@.elems.len(),
        ensures
            r@ == self@.elems[i as int].text,
    {
        &self.texts[i]
    }

    /// The root node.
    pub fn root(&self) -> (r: usize)
        requires
            self.wf(),
        ensures
            r == 0,
    {
        0
    }

    /// Length in bytes of the text of the tree.
    pub fn text_len(&self) -> (r: u32)
        requires
            self.wf(),
        ensures
            r == self@.text_len(),
    {
        self.ends[0]
    }
}

impl TreeModel {
    /// The first element, from `j` on along a chain of next siblings, whose
    /// range holds `r`.
    pub open spec fn child_containing_from(self, j: int, r: TextRange) -> Option<usize>
        decreases self.elems.len() - j,
    {
        if j < 0 || j >= self.elems.len() {
            None
        } else if r.within(self.range(j)) {
            Some(j as usize)
        } else {
            match self.elems[j].next_sibling {
                Some(nx) => if j < nx < self.elems.len() {
                    self.child_containing_from(nx as int, r)
                } else {
                    None
                },
                None => None,
            }
        }
    }

    /// The deepest element under `i` whose range holds `r`, found by going
    /// down, at each node, into the first child that holds `r`.
    pub open spec fn covering_from(self, i: int, r: TextRange) -> int
        decreases self.elems.len() - i,
    {
        if i < 0 || i >= self.elems.len() || self.elems[i].is_token {
            i
        } else {
            match self.elems[i].first_child {
                Some(c) => match self.child_containing_from(c as int, r) {
                    Some(ch) => if i < ch < self.elems.len() {
                        self.covering_from(ch as int, r)
                    } else {
                        i
                    },
                    None => i,
                },
                None => i,
            }
        }
    }

    /// The element that covers `r`: the deepest one whose range holds `r`.
    pub open spec fn covering_element(self, r: TextRange) -> int {
        self.covering_from(0, r)
    }

    pub proof fn lemma_child_containing_from(self, j: int, r: TextRange)
        requires
            self.wf(),
            0 <= j < self.elems.len(),
        ensures
            match self.child_containing_from(j, r) {
                Some(c) => j <= c < self.elems.len() && r.within(self.range(c as int))
                    && self.elems[c as int].parent == self.elems[j].parent,
                None => true,
            },
        decreases self.elems.len() - j,
    {
        assert(self.elem_wf(j));
        if !r.within(self.range(j)) {
            match self.elems[j].next_sibling {
                Some(nx) => {
                    self.lemma_child_containing_from(nx as int, r);
                },
                None => {},
            }
        }
    }

    /// The covering element holds the range.
    pub proof fn lemma_covering_from(self, i: int, r: TextRange)
        requires
            self.wf(),
            0 <= i < self.elems.len(),
            r.within(self.range(i)),
        ensures
            self.valid(self.covering_from(i, r)),
            r.within(self.range(self.covering_from(i, r))),
        decreases self.elems.len() - i,
    {
        assert(self.elem_wf(i));
        if !self.elems[i].is_token {
            match self.elems[i].first_child {
                Some(c) => {
                    assert(self.elem_wf(c as int));
                    self.lemma_child_containing_from(c as int, r);
                    match self.child_containing_from(c as int, r) {
                        Some(ch) => {
                            self.lemma_covering_from(ch as int, r);
                        },
                        None => {},
                    }
                },
                None => {},
            }
        }
    }

    /// The first character of the token that starts where element `i` ends.
    pub open spec fn char_after(self, i: int) -> Option<char> {
        let k = self.elems[i].end_tok as int;
        if k < self.tokens.len() {
            Some(self.tok(k).text[0])
        } else {
            None
        }
    }
}

impl SyntaxTree {
    /// The tokens at `offset`.
    pub fn token_at_offset(&self, offset: u32) -> (r: TokenAtOffset)
        requires
            self.wf(),
            offset <= self@.text_len(),
        ensures
            r == self@.token_at_offset(offset as int),
    {
        let n = self.tokens.len();
        let mut k: usize = 0;
        while k < n
            invariant
                self.wf(),
                n == self@.tokens.len(),
                k <= n,
                self@.first_token_reaching(offset as int, 0) == self@.first_token_reaching(
                    offset as int,
                    k as int,
                ),
            ensures
                k <= n,
                k < n ==> self@.first_token_reaching(offset as int, 0) == k,
                k >= n ==> self@.first_token_reaching(offset as int, 0) == n,
            decreases n - k,
        {
            proof {
                assert(self@.tok_wf(k as int));
            }
            if offset <= self.ends[self.tokens[k]] {
                assert(self@.first_token_reaching(offset as int, k as int) == k);
                break;
            }
            k = k + 1;
        }
        proof {
            if k < n {
                assert(self@.tok_wf(k as int));
            }
        }
        if k >= n {
            TokenAtOffset::NoToken
        } else if offset == self.ends[self.tokens[k]] && k + 1 < n {
            proof {
                assert(self@.tok_wf(k + 1));
            }
            TokenAtOffset::Between(self.tokens[k], self.tokens[k + 1])
        } else {
            TokenAtOffset::Single(self.tokens[k])
        }
    }

    /// The deepest element whose range holds `range`.
    pub fn covering_element(&self, range: TextRange) -> (r: usize)
        requires
            self.wf(),
            range.wf(),
            range.end <= self@.text_len(),
        ensures
            r == self@.covering_element(range),
            r < self@.elems.len(),
            range.within(self@.range(r as int)),
    {
        proof {
            self@.lemma_text_len();
            self@.lemma_covering_from(0, range);
        }
        let mut cur: usize = 0;
        loop
            invariant
                self.wf(),
                range.wf(),
                cur < self@.elems.len(),
                range.within(self@.range(cur as int)),
                self@.covering_from(cur as int, range) == self@.covering_element(range),
            decreases self@.elems.len() - cur,
        {
            proof {
                assert(self@.elem_wf(cur as int));
            }
            if self.is_tokens[cur] {
                return cur;
            }
            let c = match self.first_children[cur] {
                Some(c) => c,
                None => return cur,
            };
            let mut j = c;
            proof {
                assert(self@.elem_wf(c as int));
            }
            let found: Option<usize>;
            loop
                invariant_except_break
                    self.wf(),
                    cur < j < self@.elems.len(),
                    self@.child_containing_from(c as int, range) == self@.child_containing_from(
                        j as int,
                        range,
                    ),
                ensures
                    self.wf(),
                    self@.child_containing_from(c as int, range) == found,
                    found matches Some(ch) ==> cur < ch < self@.elems.len(),
                decreases self@.elems.len() - j,
            {
                proof {
                    assert(self@.elem_wf(j as int));
                }
                if self.starts[j] <= range.start && range.end <= self.ends[j] {
                    assert(self@.child_containing_from(j as int, range) == Some(j));
                    found = Some(j);
                    break;
                }
                match self.next_siblings[j] {
                    Some(nx) => {
                        j = nx;
                    },
                    None => {
                        assert(self@.child_containing_from(j as int, range) is None);
                        found = None;
                        break;
                    },
                }
            }
            match found {
                Some(ch) => {
                    proof {
                        self@.lemma_child_containing_from(c as int, range);
                    }
                    assert(self@.covering_from(cur as int, range) == self@.covering_from(
                        ch as int,
                        range,
                    ));
                    cur = ch;
                },
                None => {
                    assert(self@.covering_from(cur as int, range) == cur);
                    return cur;
                },
            }
        }
    }

    /// The first character of the token that starts where element `i` ends,
    /// if some token does.
    pub fn char_after(&self, i: usize) -> (r: Option<char>)
        requires
            self.wf(),
            i < self@.elems.len(),
        ensures
            r == self@.char_after(i as int),
    {
        proof {
            assert(self@.elem_wf(i as int));
        }
        let k = self.end_toks[i];
        if k < self.tokens.len() {
            proof {
                assert(self@.tok_wf(k as int));
                assert(self@.elem_wf(self@.tokens[k as int] as int));
            }
            Some(self.texts[self.tokens[k]][0])
        } else {
            None
        }
    }
}

/// `e` with its end moved to `end`, after `end_tok` tokens.
pub open spec fn with_end(e: ElemModel, end: u32, end_tok: usize) -> ElemModel {
    ElemModel {
        kind: e.kind,
        is_token: e.is_token,
        parent: e.parent,
        first_child: e.first_child,
        prev_sibling: e.prev_sibling,
        next_sibling: e.next_sibling,
        start: e.start,
        end: end,
        text: e.text,
        start_tok: e.start_tok,
        end_tok: end_tok,
    }
}

/// `e` with `next` as its next sibling.
pub open spec fn with_next(e: ElemModel, next: Option<usize>) -> ElemModel {
    ElemModel {
        kind: e.kind,
        is_token: e.is_token,
        parent: e.parent,
        first_child: e.first_child,
        prev_sibling: e.prev_sibling,
        next_sibling: next,
        start: e.start,
        end: e.end,
        text: e.text,
        start_tok: e.start_tok,
        end_tok: e.end_tok,
    }
}

/// `e` with `child` as its first child.
pub open spec fn with_first_child(e: ElemModel, child: Option<usize>) -> ElemModel {
    ElemModel {
        kind: e.kind,
        is_token: e.is_token,
        parent: e.parent,
        first_child: child,
        prev_sibling: e.prev_sibling,
        next_sibling: e.next_sibling,
        start: e.start,
        end: e.end,
        text: e.text,
        start_tok: e.start_tok,
        end_tok: e.end_tok,
    }
}

/// An open node is the last child of its parent, is a node, and ends at the
/// offset reached; only the innermost open node may have no child yet.
pub open spec fn open_ok(m: TreeModel, stack: Seq<usize>, offset: u32, i: int) -> bool {
    &&& m.elems[i].next_sibling is None
    &&& !m.elems[i].is_token
    &&& (m.elems[i].first_child is None ==> i == stack[stack.len() - 1])
    &&& m.elems[i].end == offset
    &&& m.elems[i].end_tok == m.tokens.len()
}

/// A closed element that is the last child of an open node is the last
/// child of the innermost open node.
pub open spec fn closed_last_ok(
    m: TreeModel,
    open: Seq<bool>,
    stack: Seq<usize>,
    top_last: Option<usize>,
    i: int,
) -> bool {
    (!open[i] && m.elems[i].next_sibling is None) ==> match m.elems[i].parent {
        Some(p) => open[p as int] ==> (stack.len() > 0 && p == stack[stack.len() - 1] && top_last
            == Some(i as usize)),
        None => true,
    }
}

/// The state of a tree under construction, as the model sees it: the tree
/// built so far, the open nodes (`stack`, outermost first; `open` flags them
/// and `pos` gives their place in `stack`), the last child of the innermost
/// open node, and the offset reached.
pub open spec fn build_inv(
    m: TreeModel,
    open: Seq<bool>,
    pos: Seq<usize>,
    stack: Seq<usize>,
    top_last: Option<usize>,
    offset: u32,
) -> bool {
    let n = m.elems.len();
    let top = stack[stack.len() - 1];
    &&& open.len() == n
    &&& pos.len() == n
    &&& n < usize::MAX
    &&& m.tokens.len() <= n
    &&& stack.len() <= n
    &&& n == 0 ==> (stack.len() == 0 && m.tokens.len() == 0 && offset == 0 && top_last is None)
    &&& n > 0 ==> m.wf() && m.prefix_end(m.tokens.len() as int) == offset
    &&& forall|k: int|
        0 <= k < stack.len() ==> #[trigger] stack[k] < n && open[stack[k] as int] && pos[stack[k] as int]
            == k
    &&& forall|i: int|
        0 <= i < n && #[trigger] open[i] ==> pos[i] < stack.len() && stack[pos[i] as int] == i
    &&& stack.len() > 0 ==> stack[0] == 0
    &&& forall|k: int|
        0 < k < stack.len() ==> m.elems[#[trigger] stack[k] as int].parent == Some(stack[k - 1])
    &&& forall|i: int| 0 <= i < n && #[trigger] open[i] ==> open_ok(m, stack, offset, i)
    &&& stack.len() > 0 ==> match top_last {
        None => m.elems[top as int].first_child is None,
        Some(c) => {
            &&& c < n
            &&& !open[c as int]
            &&& m.elems[c as int].parent == Some(top)
            &&& m.elems[c as int].next_sibling is None
            &&& m.elems[top as int].first_child is Some
        },
    }
    &&& forall|i: int| 0 <= i < n ==> #[trigger] closed_last_ok(m, open, stack, top_last, i)
}

/// The tree after a token of `kind` with `text`, ending at `new_end`, is
/// added as the last child of `top` (whose last child so far is `last`).
pub open spec fn push_token_model(
    m: TreeModel,
    open: Seq<bool>,
    top: usize,
    last: Option<usize>,
    kind: SyntaxKind,
    text: Seq<char>,
    offset: u32,
    new_end: u32,
) -> TreeModel {
    let n = m.elems.len() as int;
    let k = m.tokens.len();
    TreeModel {
        elems: Seq::new(
            (n + 1) as nat,
            |j: int|
                if j == n {
                    ElemModel {
                        kind: kind,
                        is_token: true,
                        parent: Some(top),
                        first_child: None,
                        prev_sibling: last,
                        next_sibling: None,
                        start: offset,
                        end: new_end,
                        text: text,
                        start_tok: k as usize,
                        end_tok: (k + 1) as usize,
                    }
                } else {
                    let e0 = m.elems[j];
                    let e1 = if open[j] {
                        with_end(e0, new_end, (k + 1) as usize)
                    } else {
                        e0
                    };
                    let e2 = if last == Some(j as usize) {
                        with_next(e1, Some(n as usize))
                    } else {
                        e1
                    };
                    if last is None && j == top {
                        with_first_child(e2, Some(n as usize))
                    } else {
                        e2
                    }
                },
        ),
        tokens: m.tokens.push(n as usize),
    }
}

/// The tree after a node of `kind` is opened as the last child of `top`
/// (whose last child so far is `last`).
pub open spec fn push_node_model(
    m: TreeModel,
    top: usize,
    last: Option<usize>,
    kind: SyntaxKind,
    offset: u32,
) -> TreeModel {
    let n = m.elems.len() as int;
    let k = m.tokens.len();
    TreeModel {
        elems: Seq::new(
            (n + 1) as nat,
            |j: int|
                if j == n {
                    ElemModel {
                        kind: kind,
                        is_token: false,
                        parent: Some(top),
                        first_child: None,
                        prev_sibling: last,
                        next_sibling: None,
                        start: offset,
                        end: offset,
                        text: Seq::empty(),
                        start_tok: k as usize,
                        end_tok: k as usize,
                    }
                } else {
                    let e0 = m.elems[j];
                    let e2 = if last == Some(j as usize) {
                        with_next(e0, Some(n as usize))
                    } else {
                        e0
                    };
                    if last is None && j == top {
                        with_first_child(e2, Some(n as usize))
                    } else {
                        e2
                    }
                },
        ),
        tokens: m.tokens,
    }
}

/// What becomes of an element already built when a token is added.
pub proof fn lemma_push_token_elem(
    m: TreeModel,
    open: Seq<bool>,
    pos: Seq<usize>,
    stack: Seq<usize>,
    top_last: Option<usize>,
    offset: u32,
    kind: SyntaxKind,
    text: Seq<char>,
    new_end: u32,
    i: int,
)
    requires
        build_inv(m, open, pos, stack, top_last, offset),
        stack.len() > 0,
        m.elems.len() + 1 < usize::MAX,
        text.len() > 0,
        new_end == offset + byte_len(text),
        0 <= i < m.elems.len(),
        forall|q: int|
            0 <= q <= m.tokens.len() ==> #[trigger] push_token_model(
                m,
                open,
                stack[stack.len() - 1],
                top_last,
                kind,
                text,
                offset,
                new_end,
            ).prefix_end(q) == m.prefix_end(q),
    ensures
        push_token_model(
            m,
            open,
            stack[stack.len() - 1],
            top_last,
            kind,
            text,
            offset,
            new_end,
        ).elem_wf(i),
{
    let n = m.elems.len() as int;
    let k = m.tokens.len() as int;
    let top = stack[stack.len() - 1];
    let m2 = push_token_model(m, open, top, top_last, kind, text, offset, new_end);
    lemma_byte_len_pos(text);
    assert(stack[stack.len() - 1] < n);
    assert(open[top as int]);
    assert(open_ok(m, stack, offset, top as int));
    assert(m.elem_wf(top as int));
    assert(m.elem_wf(i));
    assert(closed_last_ok(m, open, stack, top_last, i));
    assert(m2.prefix_end(k + 1) == new_end);
    let e = m.elems[i];
    match e.parent {
        Some(p) => {
            assert(m.elem_wf(p as int));
        },
        None => {},
    }
    match e.first_child {
        Some(c) => {
            assert(m.elem_wf(c as int));
        },
        None => {},
    }
    match e.next_sibling {
        Some(j) => {
            assert(m.elem_wf(j as int));
        },
        None => {},
    }
    match e.prev_sibling {
        Some(j) => {
            assert(m.elem_wf(j as int));
            assert(closed_last_ok(m, open, stack, top_last, j as int));
        },
        None => {},
    }
    match top_last {
        Some(c) => {
            assert(m.elem_wf(c as int));
        },
        None => {},
    }
    if open[i] {
        assert(open_ok(m, stack, offset, i));
        if i > 0 {
            let pk = pos[i] as int;
            assert(stack[pk] == i);
            if pk == 0 {
                assert(false);
            }
            assert(m.elems[stack[pk] as int].parent == Some(stack[pk - 1]));
            assert(open[stack[pk - 1] as int]);
            assert(open_ok(m, stack, offset, stack[pk - 1] as int));
        }
    } else {
        match e.parent {
            Some(p) => {
                if open[p as int] {
                    assert(open_ok(m, stack, offset, p as int));
                }
            },
            None => {},
        }
        assert(e.end_tok <= k);
    }
}

/// Adding a token keeps the construction state sound.
pub proof fn lemma_push_token(
    m: TreeModel,
    open: Seq<bool>,
    pos: Seq<usize>,
    stack: Seq<usize>,
    top_last: Option<usize>,
    offset: u32,
    kind: SyntaxKind,
    text: Seq<char>,
    new_end: u32,
)
    requires
        build_inv(m, open, pos, stack, top_last, offset),
        stack.len() > 0,
        m.elems.len() + 1 < usize::MAX,
        text.len() > 0,
        new_end == offset + byte_len(text),
    ensures
        build_inv(
            push_token_model(m, open, stack[stack.len() - 1], top_last, kind, text, offset, new_end),
            open.push(false),
            pos.push(0),
            stack,
            Some(m.elems.len() as usize),
            new_end,
        ),
{
    let n = m.elems.len() as int;
    let k = m.tokens.len() as int;
    let top = stack[stack.len() - 1];
    let m2 = push_token_model(m, open, top, top_last, kind, text, offset, new_end);
    let open2 = open.push(false);
    let pos2 = pos.push(0);
    lemma_byte_len_pos(text);
    assert(stack[stack.len() - 1] < n);
    assert(open[top as int]);
    assert(open_ok(m, stack, offset, top as int));
    assert(m.elem_wf(top as int));
    m.lemma_text_len();
    assert forall|q: int| 0 <= q <= k implies #[trigger] m2.prefix_end(q) == m.prefix_end(q) by {
        if q > 0 {
            assert(m.tok_wf(q - 1));
            assert(m.elem_wf(m.tokens[q - 1] as int));
            if open[m.tokens[q - 1] as int] {
                assert(open_ok(m, stack, offset, m.tokens[q - 1] as int));
            }
        }
    }
    assert(m2.prefix_end(k + 1) == new_end);
    assert forall|q: int| 0 <= q < m2.tokens.len() implies #[trigger] m2.tok_wf(q) by {
        if q < k {
            assert(m.tok_wf(q));
            assert(m.elem_wf(m.tokens[q] as int));
            if open[m.tokens[q] as int] {
                assert(open_ok(m, stack, offset, m.tokens[q] as int));
            }
        }
    }
    assert forall|i: int| 0 <= i < m2.elems.len() implies #[trigger] m2.elem_wf(i) by {
        if i < n {
            lemma_push_token_elem(m, open, pos, stack, top_last, offset, kind, text, new_end, i);
        } else {
            match top_last {
                Some(c) => {
                    assert(m.elem_wf(c as int));
                },
                None => {},
            }
        }
    }
    assert(m2.wf()) by {
        assert(m.elem_wf(0));
        assert(open[0]);
        assert(open_ok(m, stack, offset, 0));
    }
    assert forall|i: int| 0 <= i < m2.elems.len() && #[trigger] open2[i] implies open_ok(
        m2,
        stack,
        new_end,
        i,
    ) by {
        assert(open_ok(m, stack, offset, i));
    }
    assert forall|i: int| 0 <= i < m2.elems.len() implies #[trigger] closed_last_ok(
        m2,
        open2,
        stack,
        Some(n as usize),
        i,
    ) by {
        if i < n {
            assert(closed_last_ok(m, open, stack, top_last, i));
            assert(m2.elems[i].parent == m.elems[i].parent);
            assert(open2[i] == open[i]);
            if top_last == Some(i as usize) {
                assert(m2.elems[i].next_sibling == Some(n as usize));
            } else {
                assert(m2.elems[i].next_sibling == m.elems[i].next_sibling);
            }
            assert(m.elem_wf(i));
            match m.elems[i].parent {
                Some(p) => {
                    assert(p < i);
                    assert(open2[p as int] == open[p as int]);
                },
                None => {},
            }
        } else {
            assert(m2.elems[i].parent == Some(top));
            assert(open2[top as int]);
        }
    }
    assert forall|q: int| 0 <= q < stack.len() implies #[trigger] stack[q] < m2.elems.len()
        && open2[stack[q] as int] && pos2[stack[q] as int] == q by {}
    assert forall|i: int| 0 <= i < m2.elems.len() && #[trigger] open2[i] implies pos2[i] < stack.len()
        && stack[pos2[i] as int] == i by {}
    assert forall|q: int| 0 < q < stack.len() implies m2.elems[#[trigger] stack[q] as int].parent
        == Some(stack[q - 1]) by {
        assert(m.elems[stack[q] as int].parent == Some(stack[q - 1]));
    }
}

/// What becomes of an element already built when a node is opened.
pub proof fn lemma_push_node_elem(
    m: TreeModel,
    open: Seq<bool>,
    pos: Seq<usize>,
    stack: Seq<usize>,
    top_last: Option<usize>,
    offset: u32,
    kind: SyntaxKind,
    i: int,
)
    requires
        build_inv(m, open, pos, stack, top_last, offset),
        stack.len() > 0,
        m.elems.len() + 1 < usize::MAX,
        0 <= i < m.elems.len(),
        forall|q: int|
            0 <= q <= m.tokens.len() ==> #[trigger] push_node_model(
                m,
                stack[stack.len() - 1],
                top_last,
                kind,
                offset,
            ).prefix_end(q) == m.prefix_end(q),
    ensures
        push_node_model(m, stack[stack.len() - 1], top_last, kind, offset).elem_wf(i),
{
    let n = m.elems.len() as int;
    let top = stack[stack.len() - 1];
    assert(stack[stack.len() - 1] < n);
    assert(open[top as int]);
    assert(open_ok(m, stack, offset, top as int));
    assert(m.elem_wf(top as int));
    assert(m.elem_wf(i));
    assert(closed_last_ok(m, open, stack, top_last, i));
    let e = m.elems[i];
    match e.parent {
        Some(p) => {
            assert(m.elem_wf(p as int));
        },
        None => {},
    }
    match e.first_child {
        Some(c) => {
            assert(m.elem_wf(c as int));
        },
        None => {},
    }
    match e.next_sibling {
        Some(j) => {
            assert(m.elem_wf(j as int));
        },
        None => {},
    }
    match e.prev_sibling {
        Some(j) => {
            assert(m.elem_wf(j as int));
            assert(closed_last_ok(m, open, stack, top_last, j as int));
        },
        None => {},
    }
    match top_last {
        Some(c) => {
            assert(m.elem_wf(c as int));
        },
        None => {},
    }
    if open[i] {
        assert(open_ok(m, stack, offset, i));
    }
}

/// Opening a node keeps the construction state sound.
pub proof fn lemma_push_node(
    m: TreeModel,
    open: Seq<bool>,
    pos: Seq<usize>,
    stack: Seq<usize>,
    top_last: Option<usize>,
    offset: u32,
    kind: SyntaxKind,
)
    requires
        build_inv(m, open, pos, stack, top_last, offset),
        stack.len() > 0,
        m.elems.len() + 1 < usize::MAX,
    ensures
        build_inv(
            push_node_model(m, stack[stack.len() - 1], top_last, kind, offset),
            open.push(true),
            pos.push(stack.len() as usize),
            stack.push(m.elems.len() as usize),
            None,
            offset,
        ),
{
    let n = m.elems.len() as int;
    let k = m.tokens.len() as int;
    let top = stack[stack.len() - 1];
    let m2 = push_node_model(m, top, top_last, kind, offset);
    let open2 = open.push(true);
    let pos2 = pos.push(stack.len() as usize);
    let stack2 = stack.push(n as usize);
    assert(stack[stack.len() - 1] < n);
    assert(open[top as int]);
    assert(open_ok(m, stack, offset, top as int));
    assert(m.elem_wf(top as int));
    m.lemma_text_len();
    assert forall|q: int| 0 <= q <= k implies #[trigger] m2.prefix_end(q) == m.prefix_end(q) by {
        if q > 0 {
            assert(m.tok_wf(q - 1));
        }
    }
    assert forall|q: int| 0 <= q < m2.tokens.len() implies #[trigger] m2.tok_wf(q) by {
        assert(m.tok_wf(q));
    }
    match top_last {
        Some(c) => {
            assert(m.elem_wf(c as int));
        },
        None => {},
    }
    assert forall|i: int| 0 <= i < m2.elems.len() implies #[trigger] m2.elem_wf(i) by {
        if i < n {
            lemma_push_node_elem(m, open, pos, stack, top_last, offset, kind, i);
        } else {
            match top_last {
                Some(c) => {
                    assert(m.elem_wf(c as int));
                },
                None => {},
            }
        }
    }
    assert(m2.wf()) by {
        assert(m.elem_wf(0));
    }
    assert forall|i: int| 0 <= i < m2.elems.len() && #[trigger] open2[i] implies open_ok(
        m2,
        stack2,
        offset,
        i,
    ) by {
        if i < n {
            assert(open_ok(m, stack, offset, i));
        }
    }
    assert forall|i: int| 0 <= i < m2.elems.len() implies #[trigger] closed_last_ok(
        m2,
        open2,
        stack2,
        None,
        i,
    ) by {
        if i < n {
            assert(closed_last_ok(m, open, stack, top_last, i));
            assert(m.elem_wf(i));
            assert(m2.elems[i].parent == m.elems[i].parent);
            if top_last == Some(i as usize) {
                assert(m2.elems[i].next_sibling == Some(n as usize));
            } else {
                assert(m2.elems[i].next_sibling == m.elems[i].next_sibling);
            }
            match m.elems[i].parent {
                Some(p) => {
                    assert(open2[p as int] == open[p as int]);
                },
                None => {},
            }
        }
    }
    assert forall|q: int| 0 <= q < stack2.len() implies #[trigger] stack2[q] < m2.elems.len()
        && open2[stack2[q] as int] && pos2[stack2[q] as int] == q by {
        if q < stack.len() {
            assert(stack[q] < n);
        }
    }
    assert forall|i: int| 0 <= i < m2.elems.len() && #[trigger] open2[i] implies pos2[i]
        < stack2.len() && stack2[pos2[i] as int] == i by {}
    assert forall|q: int| 0 < q < stack2.len() implies m2.elems[#[trigger] stack2[q] as int].parent
        == Some(stack2[q - 1]) by {
        if q < stack.len() {
            assert(m.elems[stack[q] as int].parent == Some(stack[q - 1]));
        }
    }
}

/// Closing the innermost open node keeps the construction state sound.
pub proof fn lemma_finish_node(
    m: TreeModel,
    open: Seq<bool>,
    pos: Seq<usize>,
    stack: Seq<usize>,
    top_last: Option<usize>,
    offset: u32,
)
    requires
        build_inv(m, open, pos, stack, top_last, offset),
        stack.len() > 0,
    ensures
        build_inv(
            m,
            open.update(stack[stack.len() - 1] as int, false),
            pos,
            stack.drop_last(),
            if stack.len() > 1 {
                Some(stack[stack.len() - 1])
            } else {
                None
            },
            offset,
        ),
{
    let n = m.elems.len() as int;
    let t = stack[stack.len() - 1];
    let stack2 = stack.drop_last();
    let open2 = open.update(t as int, false);
    let top_last2 = if stack.len() > 1 {
        Some(stack[stack.len() - 1])
    } else {
        None
    };
    assert(t < n);
    assert(open[t as int]);
    assert(open_ok(m, stack, offset, t as int));
    if stack.len() > 1 {
        let nt = stack[stack.len() - 2];
        assert(nt < n);
        assert(open[nt as int]);
        assert(open_ok(m, stack, offset, nt as int));
        assert(m.elems[stack[stack.len() - 1] as int].parent == Some(stack[stack.len() - 2]));
        assert(pos[nt as int] == stack.len() - 2);
        assert(pos[t as int] == stack.len() - 1);
    }
    assert forall|i: int| 0 <= i < n && #[trigger] open2[i] implies open_ok(m, stack2, offset, i) by {
        assert(open[i]);
        assert(open_ok(m, stack, offset, i));
        assert(stack[pos[i] as int] == i);
    }
    assert forall|i: int| 0 <= i < n implies #[trigger] closed_last_ok(
        m,
        open2,
        stack2,
        top_last2,
        i,
    ) by {
        assert(closed_last_ok(m, open, stack, top_last, i));
        if i != t {
            assert(m.elem_wf(i));
            match m.elems[i].parent {
                Some(p) => {
                    if open2[p as int] {
                        assert(open[p as int]);
                    }
                },
                None => {},
            }
        } else if stack.len() == 1 {
            assert(t == 0);
            assert(m.elem_wf(0));
        }
    }
    assert forall|q: int| 0 <= q < stack2.len() implies #[trigger] stack2[q] < n && open2[stack2[q] as int]
        && pos[stack2[q] as int] == q by {
        assert(stack[q] < n);
        assert(pos[stack[q] as int] == q);
        assert(pos[t as int] == stack.len() - 1);
    }
    assert forall|i: int| 0 <= i < n && #[trigger] open2[i] implies pos[i] < stack2.len()
        && stack2[pos[i] as int] == i by {
        assert(open[i]);
        assert(pos[t as int] == stack.len() - 1);
    }
    assert forall|q: int| 0 < q < stack2.len() implies m.elems[#[trigger] stack2[q] as int].parent
        == Some(stack2[q - 1]) by {
        assert(m.elems[stack[q] as int].parent == Some(stack[q - 1]));
    }
}

/// A tree under construction: nodes are opened and closed around the
/// tokens they hold, in text order.
pub struct TreeBuilder {
    tree: SyntaxTree,
    open: Vec<bool>,
    pos: Vec<usize>,
    stack: Vec<usize>,
    top_last: Option<usize>,
    offset: u32,
}

impl View for TreeBuilder {
    type V = TreeModel;

    /// The tree built so far; open nodes reach up to the offset reached.
    closed spec fn view(&self) -> TreeModel {
        TreeModel {
            elems: Seq::new(
                self.tree.kinds.len() as nat,
                |i: int|
                    if self.open@[i] {
                        with_end(self.tree.elem_model(i), self.offset, self.tree.tokens.len() as usize)
                    } else {
                        self.tree.elem_model(i)
                    },
            ),
            tokens: self.tree.tokens@,
        }
    }
}

impl TreeBuilder {
    /// The open nodes, outermost first.
    pub closed spec fn open_nodes(&self) -> Seq<usize> {
        self.stack@
    }

    /// Which elements are open nodes.
    pub closed spec fn open_flags(&self) -> Seq<bool> {
        self.open@
    }

    /// The last child of the innermost open node.
    pub closed spec fn innermost_last_child(&self) -> Option<usize> {
        self.top_last
    }

    /// The offset reached: the length of the text added so far.
    pub closed spec fn offset(&self) -> u32 {
        self.offset
    }

    /// Soundness of the construction state.
    pub closed spec fn inv(&self) -> bool {
        &&& self.tree.shape_ok()
        &&& build_inv(self@, self.open@, self.pos@, self.stack@, self.top_last, self.offset)
    }

    /// A builder that holds nothing yet.
    pub fn new() -> (b: TreeBuilder)
        ensures
            b.inv(),
            b@.elems.len() == 0,
            b@.tokens.len() == 0,
            b.open_nodes().len() == 0,
            b.open_flags().len() == 0,
            b.innermost_last_child() is None,
            b.offset() == 0,
    {
        let b = TreeBuilder {
            tree: SyntaxTree {
                kinds: Vec::new(),
                is_tokens: Vec::new(),
                parents: Vec::new(),
                first_children: Vec::new(),
                prev_siblings: Vec::new(),
                next_siblings: Vec::new(),
                starts: Vec::new(),
                ends: Vec::new(),
                texts: Vec::new(),
                start_toks: Vec::new(),
                end_toks: Vec::new(),
                tokens: Vec::new(),
            },
            open: Vec::new(),
            pos: Vec::new(),
            stack: Vec::new(),
            top_last: None,
            offset: 0,
        };
        assert(b@.elems.len() == 0);
        b
    }

    /// Number of elements added so far.
    pub fn len(&self) -> (r: usize)
        requires
            self.inv(),
        ensures
            r == self@.elems.len(),
    {
        self.tree.kinds.len()
    }

    /// Number of nodes that are open.
    pub fn depth(&self) -> (r: usize)
        requires
            self.inv(),
        ensures
            r == self.open_nodes().len(),
    {
        self.stack.len()
    }

    /// Appends an element as the last child of the innermost open node (if
    /// any), and returns its index.
    fn push_elem(
        &mut self,
        kind: SyntaxKind,
        is_token: bool,
        start: u32,
        end: u32,
        text: Vec<char>,
        start_tok: usize,
        end_tok: usize,
        open: bool,
    ) -> (i: usize)
        requires
            old(self).tree.shape_ok(),
            old(self).open@.len() == old(self).tree.kinds.len(),
            old(self).pos@.len() == old(self).tree.kinds.len(),
            old(self).tree.kinds.len() + 1 < usize::MAX,
            old(self).stack@.len() > 0 ==> old(self).stack@[old(self).stack@.len() - 1] < old(self).tree.kinds.len(),
            old(self).top_last matches Some(c) ==> c < old(self).tree.kinds.len(),
        ensures
            i == old(self).tree.kinds.len(),
            final(self).tree.shape_ok(),
            final(self).tree.kinds.len() == i + 1,
            final(self).open@ == old(self).open@.push(open),
            final(self).pos@ == old(self).pos@.push(old(self).stack@.len() as usize),
            final(self).stack@ == old(self).stack@,
            final(self).top_last == old(self).top_last,
            final(self).offset == old(self).offset,
            final(self).tree.tokens@ == old(self).tree.tokens@,
            final(self).tree.elem_model(i as int) == (ElemModel {
                kind,
                is_token,
                parent: if old(self).stack@.len() > 0 {
                    Some(old(self).stack@[old(self).stack@.len() - 1])
                } else {
                    None
                },
                first_child: None,
                prev_sibling: if old(self).stack@.len() > 0 {
                    old(self).top_last
                } else {
                    None
                },
                next_sibling: None,
                start,
                end,
                text: text@,
                start_tok,
                end_tok,
            }),
            forall|j: int|
                0 <= j < i ==> #[trigger] final(self).tree.elem_model(j) == {
                    let e0 = old(self).tree.elem_model(j);
                    let e1 = if old(self).stack@.len() > 0 && old(self).top_last == Some(j as usize) {
                        with_next(e0, Some(i))
                    } else {
                        e0
                    };
                    if old(self).stack@.len() > 0 && old(self).top_last is None
                        && j == old(self).stack@[old(self).stack@.len() - 1] {
                        with_first_child(e1, Some(i))
                    } else {
                        e1
                    }
                },
    {
        let i = self.tree.kinds.len();
        let (parent, prev) = if self.stack.len() > 0 {
            let top = self.stack[self.stack.len() - 1];
            match self.top_last {
                Some(c) => {
                    self.tree.next_siblings.set(c, Some(i));
                },
                None => {
                    self.tree.first_children.set(top, Some(i));
                },
            }
            (Some(top), self.top_last)
        } else {
            (None, None)
        };
        self.tree.kinds.push(kind);
        self.tree.is_tokens.push(is_token);
        self.tree.parents.push(parent);
        self.tree.first_children.push(None);
        self.tree.prev_siblings.push(prev);
        self.tree.next_siblings.push(None);
        self.tree.starts.push(start);
        self.tree.ends.push(end);
        self.tree.texts.push(text);
        self.tree.start_toks.push(start_tok);
        self.tree.end_toks.push(end_tok);
        self.open.push(open);
        self.pos.push(self.stack.len());
        i
    }
}

/// The tree that holds only a root node of `kind`, still open.
pub open spec fn root_model(kind: SyntaxKind) -> TreeModel {
    TreeModel {
        elems: seq![
            ElemModel {
                kind: kind,
                is_token: false,
                parent: None,
                first_child: None,
                prev_sibling: None,
                next_sibling: None,
                start: 0,
                end: 0,
                text: Seq::empty(),
                start_tok: 0,
                end_tok: 0,
            },
        ],
        tokens: Seq::empty(),
    }
}

impl TreeBuilder {
    /// Opens a node of `kind`: the root if nothing was added yet, else the
    /// last child of the innermost open node.
    pub fn start_node(&mut self, kind: SyntaxKind)
        requires
            old(self).inv(),
            old(self)@.elems.len() == 0 || old(self).open_nodes().len() > 0,
            old(self)@.elems.len() + 2 < usize::MAX,
        ensures
            final(self).inv(),
            old(self)@.elems.len() == 0 ==> final(self)@ == root_model(kind),
            old(self)@.elems.len() > 0 ==> final(self)@ == push_node_model(
                old(self)@,
                old(self).open_nodes().last(),
                old(self).innermost_last_child(),
                kind,
                old(self).offset(),
            ),
            final(self).open_nodes() == old(self).open_nodes().push(old(self)@.elems.len() as usize),
            final(self).open_flags() == old(self).open_flags().push(true),
            final(self).innermost_last_child() is None,
            final(self).offset() == old(self).offset(),
    {
        let ghost m0 = self@;
        let ghost open0 = self.open@;
        let ghost pos0 = self.pos@;
        let ghost stack0 = self.stack@;
        let ghost top_last0 = self.top_last;
        if self.stack.len() > 0 {
            proof {
                assert(stack0[stack0.len() - 1] < m0.elems.len());
                match top_last0 {
                    Some(c) => {},
                    None => {},
                }
            }
        }
        let k = self.tree.tokens.len();
        let i = self.push_elem(kind, false, self.offset, self.offset, Vec::new(), k, k, true);
        self.stack.push(i);
        self.top_last = None;
        proof {
            if m0.elems.len() == 0 {
                assert(self.tree.tokens@ =~= Seq::<usize>::empty());
                assert(self@.elems =~= root_model(kind).elems);
                assert(self@ == root_model(kind));
                let m = self@;
                assert(m.elem_wf(0));
                assert(m.wf());
                assert forall|q: int| 0 <= q < self.stack@.len() implies #[trigger] self.stack@[q] < 1
                    && self.open@[self.stack@[q] as int] && self.pos@[self.stack@[q] as int] == q by {}
                assert forall|j: int| 0 <= j < 1 && #[trigger] self.open@[j] implies self.pos@[j]
                    < self.stack@.len() && self.stack@[self.pos@[j] as int] == j by {}
                assert forall|j: int| 0 <= j < 1 && #[trigger] self.open@[j] implies open_ok(
                    m,
                    self.stack@,
                    self.offset,
                    j,
                ) by {}
                assert forall|j: int| 0 <= j < 1 implies #[trigger] closed_last_ok(
                    m,
                    self.open@,
                    self.stack@,
                    None,
                    j,
                ) by {}
            } else {
                let top = stack0[stack0.len() - 1];
                let m2 = push_node_model(m0, top, top_last0, kind, self.offset);
                assert(self@.elems =~= m2.elems);
                assert(self@ == m2);
                lemma_push_node(m0, open0, pos0, stack0, top_last0, self.offset, kind);
            }
        }
    }

    /// Adds a token of `kind` with `text` as the last child of the innermost
    /// open node.
    pub fn token(&mut self, kind: SyntaxKind, text: Vec<char>)
        requires
            old(self).inv(),
            old(self).open_nodes().len() > 0,
            text@.len() > 0,
            old(self).offset() + byte_len(text@) <= u32::MAX,
            old(self)@.elems.len() + 2 < usize::MAX,
        ensures
            final(self).inv(),
            final(self)@ == push_token_model(
                old(self)@,
                old(self).open_flags(),
                old(self).open_nodes().last(),
                old(self).innermost_last_child(),
                kind,
                text@,
                old(self).offset(),
                (old(self).offset() + byte_len(text@)) as u32,
            ),
            final(self).open_nodes() == old(self).open_nodes(),
            final(self).open_flags() == old(self).open_flags().push(false),
            final(self).innermost_last_child() == Some(old(self)@.elems.len() as usize),
            final(self).offset() == old(self).offset() + byte_len(text@),
    {
        let ghost m0 = self@;
        let ghost open0 = self.open@;
        let ghost pos0 = self.pos@;
        let ghost stack0 = self.stack@;
        let ghost top_last0 = self.top_last;
        let ghost text0 = text@;
        let ghost tree0 = self.tree;
        let len = match text_byte_len(&text) {
            Some(l) => l,
            None => {
                proof {
                    assert(false);
                }
                0
            },
        };
        proof {
            assert(stack0[stack0.len() - 1] < m0.elems.len());
        }
        let new_end = self.offset + len;
        let k = self.tree.tokens.len();
        let i = self.push_elem(kind, true, self.offset, new_end, text, k, k + 1, false);
        let ghost tree1 = self.tree;
        self.tree.tokens.push(i);
        let ghost old_offset = self.offset;
        self.offset = new_end;
        self.top_last = Some(i);
        proof {
            let top = stack0[stack0.len() - 1];
            let m2 = push_token_model(m0, open0, top, top_last0, kind, text0, old_offset, new_end);
            assert forall|j: int| 0 <= j < m2.elems.len() implies #[trigger] self@.elems[j]
                == m2.elems[j] by {
                assert(self.tree.elem_model(j) == tree1.elem_model(j));
                if j < m0.elems.len() {
                    let e0 = tree0.elem_model(j);
                    assert(tree1.elem_model(j) == {
                        let e1 = if top_last0 == Some(j as usize) {
                            with_next(e0, Some(i))
                        } else {
                            e0
                        };
                        if top_last0 is None && j == top {
                            with_first_child(e1, Some(i))
                        } else {
                            e1
                        }
                    });
                    assert(self.open@[j] == open0[j]);
                    assert(m0.elems[j] == if open0[j] {
                        with_end(e0, old_offset, k as usize)
                    } else {
                        e0
                    });
                } else {
                    assert(self.open@[j] == false);
                }
            }
            assert(self@.elems =~= m2.elems);
            assert(self@ == m2);
            lemma_push_token(m0, open0, pos0, stack0, top_last0, old_offset, kind, text0, new_end);
        }
    }

    /// Closes the innermost open node.
    pub fn finish_node(&mut self)
        requires
            old(self).inv(),
            old(self).open_nodes().len() > 0,
        ensures
            final(self).inv(),
            final(self)@ == old(self)@,
            final(self).open_nodes() == old(self).open_nodes().drop_last(),
            final(self).open_flags() == old(self).open_flags().update(
                old(self).open_nodes().last() as int,
                false,
            ),
            final(self).innermost_last_child() == (if old(self).open_nodes().len() > 1 {
                Some(old(self).open_nodes().last())
            } else {
                None
            }),
            final(self).offset() == old(self).offset(),
    {
        let ghost m0 = self@;
        let ghost open0 = self.open@;
        let ghost pos0 = self.pos@;
        let ghost stack0 = self.stack@;
        let ghost top_last0 = self.top_last;
        let t = match self.stack.pop() {
            Some(t) => t,
            None => {
                proof {
                    assert(false);
                }
                0
            },
        };
        proof {
            assert(stack0[stack0.len() - 1] == t);
            assert(t < m0.elems.len());
        }
        let k = self.tree.tokens.len();
        self.tree.ends.set(t, self.offset);
        self.tree.end_toks.set(t, k);
        self.open.set(t, false);
        self.top_last = if self.stack.len() > 0 {
            Some(t)
        } else {
            None
        };
        proof {
            assert(self.stack@ == stack0.drop_last());
            assert(self@.elems =~= m0.elems);
            assert(self@ == m0);
            lemma_finish_node(m0, open0, pos0, stack0, top_last0, self.offset);
        }
    }

    /// The finished tree; every node must have been closed.
    pub fn finish(self) -> (t: SyntaxTree)
        requires
            self.inv(),
            self@.elems.len() > 0,
            self.open_nodes().len() == 0,
        ensures
            t.wf(),
            t@ == self@,
    {
        proof {
            assert forall|j: int| 0 <= j < self@.elems.len() implies !self.open@[j] by {
                if self.open@[j] {
                    assert(self.pos@[j] < self.stack@.len());
                }
            }
            assert(self@.elems =~= self.tree@.elems);
        }
        self.tree
    }
}

impl TreeModel {
    /// The texts of tokens `a` up to (not including) `b`, one after the other.
    pub open spec fn tokens_text(self, a: int, b: int) -> Seq<char>
        decreases b - a,
    {
        if a >= b {
            Seq::empty()
        } else {
            self.tokens_text(a, b - 1) + self.tok(b - 1).text
        }
    }

    /// The text that element `i` covers.
    pub open spec fn elem_text(self, i: int) -> Seq<char> {
        self.tokens_text(self.elems[i].start_tok as int, self.elems[i].end_tok as int)
    }

    /// The last element of the chain of next siblings that starts at `c`.
    pub open spec fn last_sibling_from(self, c: int) -> int
        decreases self.elems.len() - c,
    {
        match self.elems[c].next_sibling {
            Some(nx) => if c < nx < self.elems.len() {
                self.last_sibling_from(nx as int)
            } else {
                c
            },
            None => c,
        }
    }

    /// The last child of element `i`.
    pub open spec fn last_child(self, i: int) -> Option<usize> {
        match self.elems[i].first_child {
            Some(c) => Some(self.last_sibling_from(c as int) as usize),
            None => None,
        }
    }

    /// The first element of kind `k` in the chain of next siblings from `c`.
    pub open spec fn sibling_of_kind_from(self, c: int, k: SyntaxKind) -> Option<usize>
        decreases self.elems.len() - c,
    {
        if c < 0 || c >= self.elems.len() {
            None
        } else if self.elems[c].kind == k {
            Some(c as usize)
        } else {
            match self.elems[c].next_sibling {
                Some(nx) => if c < nx < self.elems.len() {
                    self.sibling_of_kind_from(nx as int, k)
                } else {
                    None
                },
                None => None,
            }
        }
    }

    /// The first child of element `i` of kind `k`.
    pub open spec fn child_of_kind(self, i: int, k: SyntaxKind) -> Option<usize> {
        match self.elems[i].first_child {
            Some(c) => self.sibling_of_kind_from(c as int, k),
            None => None,
        }
    }

    /// The nearest element of kind `k` among `i` and its ancestors.
    pub open spec fn ancestor_of_kind(self, i: int, k: SyntaxKind) -> Option<usize>
        decreases i,
    {
        if i < 0 || i >= self.elems.len() {
            None
        } else if self.elems[i].kind == k {
            Some(i as usize)
        } else {
            match self.elems[i].parent {
                Some(p) => if 0 <= p < i {
                    self.ancestor_of_kind(p as int, k)
                } else {
                    None
                },
                None => None,
            }
        }
    }
}

impl SyntaxTree {
    /// The text that element `i` covers.
    pub fn elem_text(&self, i: usize) -> (r: Vec<char>)
        requires
            self.wf(),
            i < self@.elems.len(),
        ensures
            r@ == self@.elem_text(i as int),
    {
        proof {
            assert(self@.elem_wf(i as int));
        }
        let a = self.start_toks[i];
        let b = self.end_toks[i];
        let mut r: Vec<char> = Vec::new();
        let mut k: usize = a;
        while k < b
            invariant
                self.wf(),
                a <= k <= b <= self@.tokens.len(),
                r@ == self@.tokens_text(a as int, k as int),
            decreases b - k,
        {
            let t = self.tokens[k];
            proof {
                assert(self@.tok_wf(k as int));
            }
            let text = &self.texts[t];
            let mut j: usize = 0;
            let ghost before = r@;
            while j < text.len()
                invariant
                    j <= text.len(),
                    r@ == before + text@.take(j as int),
                decreases text.len() - j,
            {
                r.push(text[j]);
                j = j + 1;
                proof {
                    assert(text@.take(j as int) =~= text@.take(j - 1).push(text@[j - 1]));
                }
            }
            proof {
                assert(text@.take(j as int) =~= text@);
            }
            k = k + 1;
        }
        r
    }

    /// The last child of element `i`.
    pub fn last_child(&self, i: usize) -> (r: Option<usize>)
        requires
            self.wf(),
            i < self@.elems.len(),
        ensures
            r == self@.last_child(i as int),
            r matches Some(c) ==> c < self@.elems.len(),
    {
        proof {
            assert(self@.elem_wf(i as int));
        }
        let mut c = match self.first_children[i] {
            Some(c) => c,
            None => {
                return None;
            },
        };
        loop
            invariant
                self.wf(),
                c < self@.elems.len(),
                i < self@.elems.len(),
                self@.last_child(i as int) == Some(self@.last_sibling_from(c as int) as usize),
            decreases self@.elems.len() - c,
        {
            proof {
                assert(self@.elem_wf(c as int));
            }
            match self.next_siblings[c] {
                Some(nx) => {
                    c = nx;
                },
                None => {
                    return Some(c);
                },
            }
        }
    }

    /// The first child of element `i` of kind `k`.
    pub fn child_of_kind(&self, i: usize, k: SyntaxKind) -> (r: Option<usize>)
        requires
            self.wf(),
            i < self@.elems.len(),
        ensures
            r == self@.child_of_kind(i as int, k),
            r matches Some(c) ==> c < self@.elems.len(),
    {
        proof {
            assert(self@.elem_wf(i as int));
        }
        let mut c = match self.first_children[i] {
            Some(c) => c,
            None => {
                return None;
            },
        };
        loop
            invariant
                self.wf(),
                c < self@.elems.len(),
                i < self@.elems.len(),
                self@.child_of_kind(i as int, k) == self@.sibling_of_kind_from(c as int, k),
            decreases self@.elems.len() - c,
        {
            proof {
                assert(self@.elem_wf(c as int));
            }
            if self.kinds[c] == k {
                return Some(c);
            }
            match self.next_siblings[c] {
                Some(nx) => {
                    c = nx;
                },
                None => {
                    return None;
                },
            }
        }
    }

    /// The nearest element of kind `k` among `i` and its ancestors.
    pub fn ancestor_of_kind(&self, i: usize, k: SyntaxKind) -> (r: Option<usize>)
        requires
            self.wf(),
            i < self@.elems.len(),
        ensures
            r == self@.ancestor_of_kind(i as int, k),
            r matches Some(a) ==> a < self@.elems.len(),
    {
        let mut c = i;
        loop
            invariant
                self.wf(),
                c < self@.elems.len(),
                self@.ancestor_of_kind(i as int, k) == self@.ancestor_of_kind(c as int, k),
            decreases c,
        {
            proof {
                assert(self@.elem_wf(c as int));
            }
            if self.kinds[c] == k {
                return Some(c);
            }
            match self.parents[c] {
                Some(p) => {
                    c = p;
                },
                None => {
                    return None;
                },
            }
        }
    }
}

} // verus!
