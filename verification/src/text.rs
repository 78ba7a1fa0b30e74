//! Byte ranges into source text, and the UTF-8 arithmetic that relates byte
//! offsets to the characters of a text.
use vstd::prelude::*;

verus! {

/// A half-open range `[start, end)` of byte offsets into a source text.
#[derive(Clone, Copy, Debug, PartialEq, Eq, Structural)]
pub struct TextRange {
    pub start: u32,
    pub end: u32,
}

impl TextRange {
    /// A range is well formed when it does not end before it starts.
    pub open spec fn wf(self) -> bool {
        self.start <= self.end
    }

    /// Whether `self` lies within `other`.
    pub open spec fn within(self, other: TextRange) -> bool {
        other.start <= self.start && self.end <= other.end
    }

    /// Builds the range from `start` to `end`.
    pub fn from_to(start: u32, end: u32) -> (r: TextRange)
        requires
            start <= end,
        ensures
            r == (TextRange { start, end }),
    {
        TextRange { start, end }
    }

    /// The empty range at `offset`.
    pub fn empty_at(offset: u32) -> (r: TextRange)
        ensures
            r == (TextRange { start: offset, end: offset }),
    {
        TextRange { start: offset, end: offset }
    }

    /// Whether the range holds no offset at all.
    pub fn is_empty(&self) -> (r: bool)
        ensures
            r == (self.start == self.end),
    {
        self.start == self.end
    }

    /// Whether the two ranges are the same.
    pub fn same_as(&self, other: &TextRange) -> (r: bool)
        ensures
            r == (*self == *other),
    {
        self.start == other.start && self.end == other.end
    }
}

/// Number of bytes that UTF-8 takes to encode `c`.
pub open spec fn utf8_len(c: char) -> nat {
    if (c as u32) < 0x80 {
        1
    } else if (c as u32) < 0x800 {
        2
    } else if (c as u32) < 0x10000 {
        3
    } else {
        4
    }
}

/// Number of bytes of the UTF-8 encoding of `s`.
pub open spec fn byte_len(s: Seq<char>) -> nat
    decreases s.len(),
{
    if s.len() == 0 {
        0
    } else {
        byte_len(s.drop_last()) + utf8_len(s.last())
    }
}

/// Byte offset at which the `j`-th character of `s` starts.
pub open spec fn byte_pos(s: Seq<char>, j: int) -> nat {
    byte_len(s.take(j))
}

/// Whether byte offset `b` falls between two characters of `s` (or at one of its ends).
pub open spec fn is_char_boundary(s: Seq<char>, b: int) -> bool {
    exists|j: int| 0 <= j <= s.len() && byte_pos(s, j) == b
}

/// The index of the character that starts at byte offset `b` of `s`.
pub open spec fn char_index_at(s: Seq<char>, b: int) -> int {
    choose|j: int| 0 <= j <= s.len() && byte_pos(s, j) == b
}

pub proof fn lemma_byte_pos_step(s: Seq<char>, j: int)
    requires
        0 <= j < s.len(),
    ensures
        byte_pos(s, j + 1) == byte_pos(s, j) + utf8_len(s[j]),
{
    assert(s.take(j + 1).drop_last() =~= s.take(j));
}

pub proof fn lemma_byte_pos_full(s: Seq<char>)
    ensures
        byte_pos(s, s.len() as int) == byte_len(s),
{
    assert(s.take(s.len() as int) =~= s);
}

/// Byte positions grow by at least one byte per character.
pub proof fn lemma_byte_pos_mono(s: Seq<char>, i: int, j: int)
    requires
        0 <= i <= j <= s.len(),
    ensures
        byte_pos(s, i) + (j - i) <= byte_pos(s, j),
    decreases j - i,
{
    if i < j {
        lemma_byte_pos_mono(s, i, j - 1);
        lemma_byte_pos_step(s, j - 1);
    }
}

/// A byte offset names at most one character index.
pub proof fn lemma_char_index_at(s: Seq<char>, j: int)
    requires
        0 <= j <= s.len(),
    ensures
        is_char_boundary(s, byte_pos(s, j) as int),
        char_index_at(s, byte_pos(s, j) as int) == j,
{
    let b = byte_pos(s, j) as int;
    assert(0 <= j <= s.len() && byte_pos(s, j) == b);
    let k = char_index_at(s, b);
    if k < j {
        lemma_byte_pos_mono(s, k, j);
    } else if j < k {
        lemma_byte_pos_mono(s, j, k);
    }
}

/// Index of the last character before index `k` of `s` that is `c`.
pub open spec fn last_index_of_before(s: Seq<char>, c: char, k: int) -> Option<int>
    decreases k,
{
    if k <= 0 {
        None
    } else if s[k - 1] == c {
        Some(k - 1)
    } else {
        last_index_of_before(s, c, k - 1)
    }
}

/// Index of the last `false` flag before index `k` of `w`.
pub open spec fn last_false_before(w: Seq<bool>, k: int) -> Option<int>
    decreases k,
{
    if k <= 0 {
        None
    } else if !w[k - 1] {
        Some(k - 1)
    } else {
        last_false_before(w, k - 1)
    }
}

/// Index of the first `false` flag at or after index `k` of `w`.
pub open spec fn first_false_from(w: Seq<bool>, k: int) -> Option<int>
    decreases w.len() - k,
{
    if k >= w.len() || k < 0 {
        None
    } else if !w[k] {
        Some(k)
    } else {
        first_false_from(w, k + 1)
    }
}

/// Whether a line break at index `i` of `s` is followed by another one.
pub open spec fn line_break_pair_at(s: Seq<char>, i: int) -> bool {
    0 <= i && i + 1 < s.len() && s[i] == '\n' && s[i + 1] == '\n'
}

/// Whether `s` holds two line breaks in a row.
pub open spec fn has_blank_line(s: Seq<char>) -> bool {
    exists|i: int| #[trigger] line_break_pair_at(s, i)
}

pub proof fn lemma_last_index_of_before(s: Seq<char>, c: char, k: int)
    requires
        0 <= k <= s.len(),
    ensures
        match last_index_of_before(s, c, k) {
            Some(j) => 0 <= j < k && s[j] == c && forall|i: int| j < i < k ==> s[i] != c,
            None => forall|i: int| 0 <= i < k ==> s[i] != c,
        },
    decreases k,
{
    if k > 0 && s[k - 1] != c {
        lemma_last_index_of_before(s, c, k - 1);
    }
}

pub proof fn lemma_last_false_before(w: Seq<bool>, k: int)
    requires
        0 <= k <= w.len(),
    ensures
        match last_false_before(w, k) {
            Some(j) => 0 <= j < k && !w[j] && forall|i: int| j < i < k ==> w[i],
            None => forall|i: int| 0 <= i < k ==> w[i],
        },
    decreases k,
{
    if k > 0 && w[k - 1] {
        lemma_last_false_before(w, k - 1);
    }
}

pub proof fn lemma_first_false_from(w: Seq<bool>, k: int)
    requires
        0 <= k <= w.len(),
    ensures
        match first_false_from(w, k) {
            Some(j) => k <= j < w.len() && !w[j] && forall|i: int| k <= i < j ==> w[i],
            None => forall|i: int| k <= i < w.len() ==> w[i],
        },
    decreases w.len() - k,
{
    if k < w.len() && w[k] {
        lemma_first_false_from(w, k + 1);
    }
}

/// Number of bytes that UTF-8 takes to encode `c`.
pub fn char_utf8_len(c: char) -> (r: u32)
    ensures
        r == utf8_len(c),
        1 <= r <= 4,
{
    let v = c as u32;
    if v < 0x80 {
        1
    } else if v < 0x800 {
        2
    } else if v < 0x10000 {
        3
    } else {
        4
    }
}

/// The index of the character of `s` that starts at byte offset `b`.
pub fn char_index_of_byte(s: &Vec<char>, b: u32) -> (j: usize)
    requires
        is_char_boundary(s@, b as int),
    ensures
        j <= s.len(),
        byte_pos(s@, j as int) == b,
        j == char_index_at(s@, b as int),
{
    let ghost target = char_index_at(s@, b as int);
    let mut j: usize = 0;
    let mut acc: u32 = 0;
    assert(s@.take(0) =~= Seq::<char>::empty());
    while acc < b
        invariant
            0 <= target <= s.len(),
            byte_pos(s@, target) == b,
            j <= target,
            acc == byte_pos(s@, j as int),
        decreases target - j,
    {
        proof {
            if j == target {
                assert(false);
            }
            lemma_byte_pos_step(s@, j as int);
            lemma_byte_pos_mono(s@, j + 1, target);
        }
        acc = acc + char_utf8_len(s[j]);
        j = j + 1;
    }
    proof {
        if j < target {
            lemma_byte_pos_mono(s@, j + 1, target);
            lemma_byte_pos_step(s@, j as int);
        }
        lemma_char_index_at(s@, j as int);
    }
    j
}

/// Byte length of the UTF-8 encoding of `s`, when it fits in a `u32`.
pub fn text_byte_len(s: &Vec<char>) -> (r: Option<u32>)
    ensures
        r == (if byte_len(s@) <= u32::MAX {
            Some(byte_len(s@) as u32)
        } else {
            None::<u32>
        }),
{
    let mut acc: u32 = 0;
    let mut j: usize = 0;
    assert(s@.take(0) =~= Seq::<char>::empty());
    while j < s.len()
        invariant
            j <= s.len(),
            acc == byte_pos(s@, j as int),
        decreases s.len() - j,
    {
        proof {
            lemma_byte_pos_step(s@, j as int);
        }
        let w = char_utf8_len(s[j]);
        if acc > u32::MAX - w {
            proof {
                lemma_byte_pos_mono(s@, j + 1, s.len() as int);
                lemma_byte_pos_full(s@);
            }
            return None;
        }
        acc = acc + w;
        j = j + 1;
    }
    proof {
        lemma_byte_pos_full(s@);
    }
    Some(acc)
}

/// Whether `s` holds the character `c`.
pub fn contains_char(s: &Vec<char>, c: char) -> (r: bool)
    ensures
        r == s@.contains(c),
{
    let mut j: usize = 0;
    while j < s.len()
        invariant
            j <= s.len(),
            forall|i: int| 0 <= i < j ==> s@[i] != c,
        decreases s.len() - j,
    {
        if s[j] == c {
            assert(s@[j as int] == c);
            return true;
        }
        j = j + 1;
    }
    false
}

/// Whether `s` holds the character `c` at an index in `[from, s.len())`.
pub fn contains_char_from(s: &Vec<char>, c: char, from: usize) -> (r: bool)
    requires
        from <= s.len(),
    ensures
        r == s@.skip(from as int).contains(c),
{
    let mut j: usize = from;
    while j < s.len()
        invariant
            from <= j <= s.len(),
            forall|i: int| from <= i < j ==> s@[i] != c,
        decreases s.len() - j,
    {
        if s[j] == c {
            assert(s@.skip(from as int)[j - from] == c);
            return true;
        }
        j = j + 1;
    }
    assert forall|i: int| 0 <= i < s@.skip(from as int).len() implies s@.skip(from as int)[i] != c by {
        assert(s@.skip(from as int)[i] == s@[i + from]);
    }
    false
}

/// Index of the last `c` before index `k` of `s`.
pub fn find_last_before(s: &Vec<char>, c: char, k: usize) -> (r: Option<usize>)
    requires
        k <= s.len(),
    ensures
        r == (match last_index_of_before(s@, c, k as int) {
            Some(j) => Some(j as usize),
            None => None::<usize>,
        }),
{
    let mut i: usize = k;
    while i > 0
        invariant
            i <= k <= s.len(),
            last_index_of_before(s@, c, k as int) == last_index_of_before(s@, c, i as int),
        decreases i,
    {
        if s[i - 1] == c {
            return Some(i - 1);
        }
        i = i - 1;
    }
    None
}

/// Whether `s` holds two line breaks in a row.
pub fn contains_blank_line(s: &Vec<char>) -> (r: bool)
    ensures
        r == has_blank_line(s@),
{
    let mut j: usize = 0;
    while j < s.len()
        invariant
            forall|i: int| 0 <= i < j ==> !#[trigger] line_break_pair_at(s@, i),
        decreases s.len() - j,
    {
        if j + 1 < s.len() && s[j] == '\n' && s[j + 1] == '\n' {
            assert(line_break_pair_at(s@, j as int));
            return true;
        }
        j = j + 1;
    }
    false
}

/// Byte offset at which the `j`-th character of `s` starts.
pub fn byte_offset_of(s: &Vec<char>, j: usize) -> (r: u32)
    requires
        j <= s.len(),
        byte_len(s@) <= u32::MAX,
    ensures
        r == byte_pos(s@, j as int),
{
    let mut acc: u32 = 0;
    let mut i: usize = 0;
    assert(s@.take(0) =~= Seq::<char>::empty());
    while i < j
        invariant
            i <= j <= s.len(),
            byte_len(s@) <= u32::MAX,
            acc == byte_pos(s@, i as int),
        decreases j - i,
    {
        proof {
            lemma_byte_pos_step(s@, i as int);
            lemma_byte_pos_mono(s@, i + 1, s.len() as int);
            lemma_byte_pos_full(s@);
        }
        acc = acc + char_utf8_len(s[i]);
        i = i + 1;
    }
    acc
}

} // verus!
