//! The state of the analysed sources: the text of every file, changed file
//! by file, and immutable snapshots of it.
use vstd::prelude::*;

use std::collections::HashMap;

verus! {

/// Identifies a file of the world.
#[derive(Clone, Copy, Debug, PartialEq, Eq, Structural, PartialOrd, Ord, Hash)]
pub struct FileId(pub u32);

/// A change to a file: its new text, or `None` when the file is gone.
pub type FileChange = (FileId, Option<String>);

/// Snapshots made with at least this many pending file changes start with
/// their symbol index out of date.
pub const INDEXING_THRESHOLD: usize = 128;

/// What asking a world about a file can fail with.
#[derive(Clone, Copy, Debug, PartialEq, Eq, Structural)]
pub enum WorldError {
    /// The world holds no file with this id.
    UnknownFile(FileId),
}

/// The character of decimal digit `d`.
pub open spec fn digit_char(d: nat) -> char {
    seq!['0', '1', '2', '3', '4', '5', '6', '7', '8', '9'][d as int]
}

/// The decimal digits of `n`, most significant first, without leading zeros.
pub open spec fn decimal(n: nat) -> Seq<char>
    decreases n,
{
    if n < 10 {
        seq![digit_char(n)]
    } else {
        decimal(n / 10) + seq![digit_char(n % 10)]
    }
}

/// The text of error `e`, as it is shown to users.
pub open spec fn error_message(e: WorldError) -> Seq<char> {
    match e {
        WorldError::UnknownFile(id) => "unknown file: FileId("@ + decimal(id.0 as nat) + ")"@,
    }
}

/// The text of decimal digit `d`.
fn digit_str(d: u32) -> (r: &'static str)
    requires
        d < 10,
    ensures
        r@ == seq![digit_char(d as nat)],
{
    proof {
        reveal_strlit("0");
        reveal_strlit("1");
        reveal_strlit("2");
        reveal_strlit("3");
        reveal_strlit("4");
        reveal_strlit("5");
        reveal_strlit("6");
        reveal_strlit("7");
        reveal_strlit("8");
        reveal_strlit("9");
    }
    match d {
        0 => "0",
        1 => "1",
        2 => "2",
        3 => "3",
        4 => "4",
        5 => "5",
        6 => "6",
        7 => "7",
        8 => "8",
        _ => "9",
    }
}

/// Appends the decimal digits of `n` to `s`.
fn push_decimal(s: &mut String, n: u32)
    ensures
        final(s)@ == old(s)@ + decimal(n as nat),
    decreases n,
{
    if n >= 10 {
        push_decimal(s, n / 10);
    }
    s.append(digit_str(n % 10));
    assert(s@ =~= old(s)@ + decimal(n as nat));
}

impl WorldError {
    /// The text of the error: `unknown file: FileId(n)` for file `n`.
    pub fn message(&self) -> (s: String)
        ensures
            s@ == error_message(*self),
    {
        match self {
            WorldError::UnknownFile(id) => {
                let mut s = String::from_str("unknown file: FileId(");
                push_decimal(&mut s, id.0);
                s.append(")");
                s
            },
        }
    }
}

/// The files after one change.
pub open spec fn apply_change(files: Map<u32, String>, change: FileChange) -> Map<u32, String> {
    match change.1 {
        Some(text) => files.insert(change.0.0, text),
        None => files.remove(change.0.0),
    }
}

/// The files after a series of changes, made in order.
pub open spec fn apply_changes(files: Map<u32, String>, changes: Seq<FileChange>) -> Map<
    u32,
    String,
>
    decreases changes.len(),
{
    if changes.len() == 0 {
        files
    } else {
        apply_change(apply_changes(files, changes.drop_last()), changes.last())
    }
}

/// What a lookup of file `id` among `files` gives: its text, or the error
/// that names the unknown file.
pub open spec fn lookup(files: Map<u32, String>, id: FileId) -> Result<String, WorldError> {
    if files.contains_key(id.0) {
        Ok(files[id.0])
    } else {
        Err(WorldError::UnknownFile(id))
    }
}

/// The mutable state: the current files, and the files changed since the
/// last snapshot, in the order of their changes.
#[derive(Debug)]
pub struct WorldState {
    updates: Vec<FileId>,
    files: HashMap<u32, String>,
}

/// An immutable snapshot of the files, with whether its symbol index is out
/// of date.
#[derive(Debug)]
pub struct World {
    needs_reindex: bool,
    files: HashMap<u32, String>,
}

impl WorldState {
    /// The current files, by id.
    pub closed spec fn files(&self) -> Map<u32, String> {
        self.files@
    }

    /// The files changed since the last snapshot.
    pub closed spec fn updates(&self) -> Seq<FileId> {
        self.updates@
    }

    /// A state with no file and no pending change.
    pub fn new() -> (s: WorldState)
        ensures
            s.files() == Map::<u32, String>::empty(),
            s.updates() == Seq::<FileId>::empty(),
    {
        WorldState { updates: Vec::new(), files: HashMap::new() }
    }

    /// Sets the text of file `file_id`, or removes the file when `text` is `None`.
    pub fn change_file(&mut self, file_id: FileId, text: Option<String>)
        ensures
            final(self).files() == apply_change(old(self).files(), (file_id, text)),
            final(self).updates() == old(self).updates().push(file_id),
    {
        let ghost files0 = self.files@;
        let mut changes: Vec<FileChange> = Vec::new();
        changes.push((file_id, text));
        let ghost cs = changes@;
        self.change_files(changes);
        proof {
            assert(cs.drop_last() =~= Seq::<FileChange>::empty());
            assert(apply_changes(files0, cs.drop_last()) == files0);
            assert(cs.last() == (file_id, text));
            assert(cs.map_values(|c: FileChange| c.0) =~= seq![file_id]);
        }
    }

    /// Makes `changes` in order.
    pub fn change_files(&mut self, changes: Vec<FileChange>)
        ensures
            final(self).files() == apply_changes(old(self).files(), changes@),
            final(self).updates() == old(self).updates() + changes@.map_values(
                |c: FileChange| c.0,
            ),
    {
        let ghost files0 = self.files@;
        let ghost updates0 = self.updates@;
        let ghost all = changes@;
        let mut changes = changes;
        let mut k: usize = 0;
        let n = changes.len();
        while k < n
            invariant
                n == all.len(),
                k <= n,
                changes@ == all.skip(k as int),
                self.files@ == apply_changes(files0, all.take(k as int)),
                self.updates@ == updates0 + all.take(k as int).map_values(|c: FileChange| c.0),
            decreases n - k,
        {
            let (file_id, text) = changes.remove(0);
            proof {
                assert(changes@ =~= all.skip(k + 1));
                assert(all.take(k + 1).drop_last() =~= all.take(k as int));
                assert(all.take(k + 1).last() == all[k as int]);
            }
            self.files.remove(&file_id.0);
            match text {
                Some(t) => {
                    self.files.insert(file_id.0, t);
                },
                None => {
                    self.files.remove(&file_id.0);
                },
            }
            self.updates.push(file_id);
            k = k + 1;
            proof {
                assert(self.files@ =~= apply_changes(files0, all.take(k as int)));
                assert(all.take(k as int).map_values(|c: FileChange| c.0) =~= all.take(
                    (k - 1) as int,
                ).map_values(|c: FileChange| c.0).push(file_id));
                assert(self.updates@ =~= updates0 + all.take(k as int).map_values(
                    |c: FileChange| c.0,
                ));
            }
        }
        proof {
            assert(all.take(n as int) =~= all);
        }
    }

    /// The files changed since the last snapshot, in order.
    pub fn pending_updates(&self) -> (r: &Vec<FileId>)
        ensures
            r@ == self.updates(),
    {
        &self.updates
    }

    /// The text of file `file_id`, if the state holds it.
    pub fn file_text(&self, file_id: FileId) -> (r: Option<&String>)
        ensures
            r == (if self.files().contains_key(file_id.0) {
                Some(&self.files()[file_id.0])
            } else {
                None
            }),
    {
        self.files.get(&file_id.0)
    }

    /// A snapshot of the current files. Its symbol index starts out of date
    /// when at least `INDEXING_THRESHOLD` changes were pending; the pending
    /// changes are then cleared.
    pub fn snapshot(&mut self) -> (w: World)
        ensures
            w.files() == old(self).files(),
            w.needs_reindex() == (old(self).updates().len() >= INDEXING_THRESHOLD),
            final(self).files() == old(self).files(),
            final(self).updates() == Seq::<FileId>::empty(),
    {
        let needs_reindex = self.updates.len() >= INDEXING_THRESHOLD;
        if self.updates.len() > 0 {
            self.updates = Vec::new();
        }
        World { needs_reindex, files: self.files.clone() }
    }
}

impl World {
    /// The files of the snapshot, by id.
    pub closed spec fn files(&self) -> Map<u32, String> {
        self.files@
    }

    /// Whether the symbol index of the snapshot is out of date.
    pub closed spec fn needs_reindex(&self) -> bool {
        self.needs_reindex
    }

    /// The text of file `file_id`, or the error that names it as unknown.
    pub fn file_text(&self, file_id: FileId) -> (r: Result<&String, WorldError>)
        ensures
            match r {
                Ok(t) => lookup(self.files(), file_id) == Ok::<String, WorldError>(*t),
                Err(e) => lookup(self.files(), file_id) == Err::<String, WorldError>(e),
            },
    {
        match self.files.get(&file_id.0) {
            Some(t) => Ok(t),
            None => Err(WorldError::UnknownFile(file_id)),
        }
    }

    /// The ids of the files of the snapshot, each once, in no set order.
    pub fn file_ids(&self) -> (ids: Vec<FileId>)
        ensures
            forall|i: int| 0 <= i < ids@.len() ==> self.files().contains_key(#[trigger] ids@[i].0),
            forall|k: u32|
                self.files().contains_key(k) ==> exists|i: int|
                    0 <= i < ids@.len() && #[trigger] ids@[i].0 == k,
            forall|i: int, j: int| 0 <= i < j < ids@.len() ==> ids@[i] != ids@[j],
    {
        broadcast use vstd::std_specs::hash::group_hash_axioms;

        let mut ids: Vec<FileId> = Vec::new();
        let iter = self.files.keys();
        let ghost keys = vstd::std_specs::iter::IteratorSpec::remaining(&iter);
        assert(keys.unref().to_set() == self.files@.dom());
        assert(keys.unref().no_duplicates());
        for k in it: iter
            invariant
                it.seq() == keys,
                ids@.len() == it.index(),
                forall|i: int| 0 <= i < ids@.len() ==> #[trigger] ids@[i].0 == *it.seq()[i],
        {
            ids.push(FileId(*k));
        }
        proof {
            assert(ids@.len() == keys.len());
            assert forall|i: int| 0 <= i < ids@.len() implies self.files().contains_key(
                #[trigger] ids@[i].0,
            ) by {
                assert(keys.unref()[i] == *keys[i]);
                assert(keys.unref().to_set().contains(keys.unref()[i]));
            }
            assert forall|k: u32| self.files().contains_key(k) implies exists|i: int|
                0 <= i < ids@.len() && #[trigger] ids@[i].0 == k by {
                assert(keys.unref().to_set().contains(k));
                let i = choose|i: int| 0 <= i < keys.unref().len() && keys.unref()[i] == k;
                assert(ids@[i].0 == k);
            }
            assert forall|i: int, j: int| 0 <= i < j < ids@.len() implies ids@[i] != ids@[j] by {
                assert(keys.unref()[i] == ids@[i].0);
                assert(keys.unref()[j] == ids@[j].0);
                assert(keys.unref()[i] != keys.unref()[j]);
            }
        }
        ids
    }

    /// Whether the symbol index of the snapshot is out of date.
    pub fn is_index_stale(&self) -> (r: bool)
        ensures
            r == self.needs_reindex(),
    {
        self.needs_reindex
    }

    /// Decides whether a symbol search must first rebuild the index: it must
    /// when the index was marked out of date. Either way the index is marked
    /// out of date afterwards, so every later search rebuilds it too.
    pub fn begin_reindex(&mut self) -> (run: bool)
        ensures
            run == old(self).needs_reindex(),
            final(self).needs_reindex(),
            final(self).files() == old(self).files(),
    {
        let run = self.needs_reindex;
        self.needs_reindex = true;
        run
    }
}

impl Clone for World {
    /// A snapshot with the same files and the same index state.
    fn clone(&self) -> (r: World)
        ensures
            r.files() == self.files(),
            r.needs_reindex() == self.needs_reindex(),
    {
        World { needs_reindex: self.needs_reindex, files: self.files.clone() }
    }
}

/// Reading a file back gives what the last change to it wrote; a removed
/// file reads as unknown; changes to one file leave the others as they were.
pub proof fn law_read_after_change(files: Map<u32, String>, id: FileId, text: Option<String>, other: FileId)
    requires
        other.0 != id.0,
    ensures
        lookup(apply_change(files, (id, text)), id) == match text {
            Some(t) => Ok::<String, WorldError>(t),
            None => Err::<String, WorldError>(WorldError::UnknownFile(id)),
        },
        lookup(apply_change(files, (id, text)), other) == lookup(files, other),
{
}

/// Changing one file is making a series of that one change.
pub proof fn law_single_change(files: Map<u32, String>, change: FileChange)
    ensures
        apply_changes(files, seq![change]) == apply_change(files, change),
{
    let cs = seq![change];
    assert(cs.drop_last() =~= Seq::<FileChange>::empty());
    assert(apply_changes(files, cs.drop_last()) == files);
    assert(cs.last() == change);
}

/// Making two series of changes one after the other is making the series
/// of all of them.
pub proof fn law_changes_compose(files: Map<u32, String>, a: Seq<FileChange>, b: Seq<FileChange>)
    ensures
        apply_changes(apply_changes(files, a), b) == apply_changes(files, a + b),
    decreases b.len(),
{
    if b.len() == 0 {
        assert(a + b =~= a);
    } else {
        law_changes_compose(files, a, b.drop_last());
        assert((a + b).drop_last() =~= a + b.drop_last());
        assert((a + b).last() == b.last());
    }
}

} // verus!
