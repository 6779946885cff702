//! File contents: loading one file's bytes from the stream, and the map from
//! relative path to bytes that collects them.

use vstd::prelude::*;
use vstd::slice::{slice_subrange, slice_to_vec};
use vstd::string::*;
use crate::error::{ArchiveError, Failure};
use crate::model::{lemma_views_push, views};
use crate::table::{FileEntry, Located};

verus! {

/// Whether a stream of `length` bytes holds `size` bytes from `offset` on.
/// Nothing is asked of the position of an empty file.
pub open spec fn available(length: nat, offset: u64, size: u64) -> bool {
    size == 0 || offset + size <= length
}

/// The `size` bytes of `stream` from `offset` on.
pub open spec fn payload(stream: Seq<u8>, offset: u64, size: u64) -> Seq<u8> {
    if size == 0 {
        Seq::empty()
    } else {
        stream.subrange(offset as int, offset + size)
    }
}

/// What loading `file` from `stream` gives: its bytes, or `TruncatedPayload`
/// with its path where the stream does not hold them all.
pub open spec fn loaded(stream: Seq<u8>, file: Located) -> Result<Seq<u8>, Failure> {
    if available(stream.len(), file.offset, file.size) {
        Ok(payload(stream, file.offset, file.size))
    } else {
        Err(Failure::TruncatedPayload(file.path))
    }
}

/// An empty file loads as no bytes, wherever it is said to lie.
pub proof fn lemma_empty_file_loads(stream: Seq<u8>, file: Located)
    requires
        file.size == 0,
    ensures
        loaded(stream, file) == Ok::<Seq<u8>, Failure>(Seq::empty()),
{
}

/// Copies the bytes of `file` out of `stream`.
pub fn load(stream: &[u8], file: &FileEntry) -> (r: Result<Vec<u8>, ArchiveError>)
    ensures
        match r {
            Ok(content) => loaded(stream@, file@) == Ok::<Seq<u8>, Failure>(content@),
            Err(e) => loaded(stream@, file@) == Err::<Seq<u8>, Failure>(e@),
        },
{
    if file.size == 0 {
        return Ok(Vec::new());
    }
    let length = stream.len() as u64;
    if file.offset > length || file.size > length - file.offset {
        return Err(ArchiveError::TruncatedPayload(file.path.clone()));
    }
    let from = file.offset as usize;
    let to = (file.offset + file.size) as usize;
    Ok(slice_to_vec(slice_subrange(stream, from, to)))
}

/// One file of an opened archive: its relative path and its bytes.
#[derive(Debug, Clone, PartialEq, Eq)]
pub struct Entry {
    pub path: String,
    pub content: Vec<u8>,
}

/// The mathematical value of an [`Entry`].
pub struct Stored {
    pub path: Seq<char>,
    pub content: Seq<u8>,
}

impl View for Entry {
    type V = Stored;

    open spec fn view(&self) -> Stored {
        Stored { path: self.path@, content: self.content@ }
    }
}

/// Whether no two of `entries` have the same path.
pub open spec fn distinct_paths(entries: Seq<Stored>) -> bool {
    forall|i: int, j: int|
        0 <= i < j < entries.len() ==> (#[trigger] entries[i]).path != (#[trigger] entries[j]).path
}

/// Whether `at` is the place of the first entry with this `path`.
pub open spec fn is_place(entries: Seq<Stored>, path: Seq<char>, at: int) -> bool {
    &&& 0 <= at < entries.len()
    &&& entries[at].path == path
    &&& forall|j: int| 0 <= j < at ==> (#[trigger] entries[j]).path != path
}

/// The place of the entry with this `path`, if there is one.
pub open spec fn place(entries: Seq<Stored>, path: Seq<char>) -> Option<int> {
    if exists|at: int| is_place(entries, path, at) {
        Some(choose|at: int| is_place(entries, path, at))
    } else {
        None
    }
}

/// The bytes stored under `path`, if any.
pub open spec fn content_of(entries: Seq<Stored>, path: Seq<char>) -> Option<Seq<u8>> {
    match place(entries, path) {
        Some(at) => Some(entries[at].content),
        None => None,
    }
}

/// The entries after `content` is stored under `path`: it takes the place of
/// what was stored under that path before, or comes last where nothing was.
pub open spec fn stored_with(entries: Seq<Stored>, path: Seq<char>, content: Seq<u8>) -> Seq<
    Stored,
> {
    match place(entries, path) {
        Some(at) => entries.update(at, Stored { path, content }),
        None => entries.push(Stored { path, content }),
    }
}

/// The number of bytes in all of `entries`.
pub open spec fn total_size(entries: Seq<Stored>) -> nat
    decreases entries.len(),
{
    if entries.len() == 0 {
        0
    } else {
        total_size(entries.drop_last()) + entries.last().content.len()
    }
}

/// The first entry with a given path stands at one place only.
pub proof fn lemma_place(entries: Seq<Stored>, path: Seq<char>, at: int)
    requires
        is_place(entries, path, at),
    ensures
        place(entries, path) == Some(at),
{
}

/// Among entries with distinct paths, each is what is stored under its path.
pub proof fn lemma_content_of_entry(entries: Seq<Stored>, at: int)
    requires
        distinct_paths(entries),
        0 <= at < entries.len(),
    ensures
        content_of(entries, entries[at].path) == Some(entries[at].content),
{
    lemma_place(entries, entries[at].path, at);
}

/// Entries are a map: what is stored under a path is found under it, and
/// what stands under any other path stays as it was.
pub proof fn lemma_stored_with_content(
    entries: Seq<Stored>,
    path: Seq<char>,
    content: Seq<u8>,
    other: Seq<char>,
)
    ensures
        content_of(stored_with(entries, path, content), other) == (if other == path {
            Some(content)
        } else {
            content_of(entries, other)
        }),
{
    let after = stored_with(entries, path, content);
    match place(entries, path) {
        Some(at) => {
            if other == path {
                lemma_place(after, path, at);
            } else {
                lemma_same_paths_same_place(entries, after, other);
            }
        },
        None => {
            assert forall|j: int| 0 <= j < entries.len() implies (#[trigger] entries[j]).path
                != path by {
                if entries[j].path == path {
                    lemma_some_place(entries, path, j);
                }
            }
            if other == path {
                lemma_place(after, path, entries.len() as int);
            } else if exists|found: int| is_place(entries, other, found) {
                let found = choose|found: int| is_place(entries, other, found);
                lemma_place(after, other, found);
            } else {
                assert forall|found: int| !is_place(after, other, found) by {
                    if is_place(after, other, found) {
                        assert forall|j: int| 0 <= j < found implies (#[trigger] entries[j]).path
                            != other by {
                            assert(after[j] == entries[j]);
                        }
                        assert(is_place(entries, other, found));
                    }
                }
            }
        },
    }
}

/// Where two lists have the same paths at the same places, a path has the
/// same place in both.
pub proof fn lemma_same_paths_same_place(first: Seq<Stored>, second: Seq<Stored>, path: Seq<char>)
    requires
        first.len() == second.len(),
        forall|j: int| 0 <= j < first.len() ==> (#[trigger] second[j]).path == first[j].path,
    ensures
        place(first, path) == place(second, path),
{
    if exists|at: int| is_place(first, path, at) {
        let at = choose|at: int| is_place(first, path, at);
        lemma_place(second, path, at);
    } else {
        assert forall|at: int| !is_place(second, path, at) by {
            if is_place(second, path, at) {
                assert forall|j: int| 0 <= j < at implies (#[trigger] first[j]).path != path by {
                    assert(second[j].path != path);
                }
                assert(is_place(first, path, at));
            }
        }
    }
}

/// Storing keeps paths distinct.
pub proof fn lemma_stored_with_distinct(entries: Seq<Stored>, path: Seq<char>, content: Seq<u8>)
    requires
        distinct_paths(entries),
    ensures
        distinct_paths(stored_with(entries, path, content)),
{
    let after = stored_with(entries, path, content);
    if place(entries, path) is None {
        assert forall|i: int, j: int| 0 <= i < j < after.len() implies (#[trigger] after[i]).path
            != (#[trigger] after[j]).path by {
            if j == entries.len() && entries[i].path == path {
                lemma_some_place(entries, path, i);
            }
        }
    }
}

/// Where some entry has a given path, a first one has it.
pub proof fn lemma_some_place(entries: Seq<Stored>, path: Seq<char>, at: int)
    requires
        0 <= at < entries.len(),
        entries[at].path == path,
    ensures
        place(entries, path) is Some,
    decreases at,
{
    if exists|j: int| 0 <= j < at && (#[trigger] entries[j]).path == path {
        let j = choose|j: int| 0 <= j < at && (#[trigger] entries[j]).path == path;
        lemma_some_place(entries, path, j);
    } else {
        assert(is_place(entries, path, at));
    }
}

/// A map from relative path to bytes. No path occurs twice; entries keep the
/// order in which their paths were first stored.
#[derive(Debug, PartialEq, Eq)]
pub struct ContentMap {
    entries: Vec<Entry>,
}

impl View for ContentMap {
    type V = Seq<Stored>;

    closed spec fn view(&self) -> Seq<Stored> {
        views(self.entries@)
    }
}

impl ContentMap {
    #[verifier::type_invariant]
    spec fn well_formed(self) -> bool {
        distinct_paths(views(self.entries@))
    }

    /// A map that holds nothing.
    pub fn new() -> (map: ContentMap)
        ensures
            map@ == Seq::<Stored>::empty(),
    {
        ContentMap { entries: Vec::new() }
    }

    /// The number of entries.
    pub fn len(&self) -> (count: usize)
        ensures
            count == self@.len(),
    {
        self.entries.len()
    }

    /// The entries, each with its path and bytes. No path occurs twice.
    pub fn entries(&self) -> (entries: &Vec<Entry>)
        ensures
            views(entries@) == self@,
            distinct_paths(self@),
    {
        proof {
            use_type_invariant(self);
        }
        &self.entries
    }

    /// The bytes stored under `path`, if any.
    pub fn get(&self, path: &str) -> (found: Option<&Vec<u8>>)
        ensures
            match found {
                Some(content) => content_of(self@, path@) == Some(content@),
                None => content_of(self@, path@) is None,
            },
    {
        let wanted = String::from_str(path);
        let mut at: usize = 0;
        while at < self.entries.len()
            invariant
                at <= self.entries.len(),
                wanted@ == path@,
                forall|j: int| 0 <= j < at ==> (#[trigger] self@[j]).path != path@,
            decreases self.entries.len() - at,
        {
            if self.entries[at].path == wanted {
                proof {
                    lemma_place(self@, path@, at as int);
                }
                return Some(&self.entries[at].content);
            }
            at = at + 1;
        }
        None
    }

    /// Stores `content` under `path`, in place of what was stored under that
    /// path before.
    pub fn insert(&mut self, path: String, content: Vec<u8>)
        ensures
            final(self)@ == stored_with(old(self)@, path@, content@),
    {
        proof {
            use_type_invariant(&*self);
            lemma_stored_with_distinct(self@, path@, content@);
        }
        let mut entries: Vec<Entry> = Vec::new();
        core::mem::swap(&mut entries, &mut self.entries);
        let ghost before = views(entries@);
        let mut at: usize = 0;
        while at < entries.len()
            invariant
                at <= entries.len(),
                before == views(entries@),
                before == old(self)@,
                distinct_paths(stored_with(before, path@, content@)),
                forall|j: int| 0 <= j < at ==> (#[trigger] before[j]).path != path@,
            decreases entries.len() - at,
        {
            if entries[at].path == path {
                proof {
                    lemma_place(before, path@, at as int);
                }
                let entry = Entry { path, content };
                entries.set(at, entry);
                assert(views(entries@) =~= before.update(at as int, entry@));
                self.entries = entries;
                return;
            }
            at = at + 1;
        }
        let entry = Entry { path, content };
        proof {
            lemma_views_push(entries@, entry);
        }
        entries.push(entry);
        self.entries = entries;
    }

    /// The number of bytes in all entries.
    pub fn total_bytes(&self) -> (total: u128)
        ensures
            total == total_size(self@),
    {
        let mut total: u128 = 0;
        let mut at: usize = 0;
        while at < self.entries.len()
            invariant
                at <= self.entries.len(),
                total == total_size(self@.take(at as int)),
                total <= at * usize::MAX,
            decreases self.entries.len() - at,
        {
            let size = self.entries[at].content.len();
            proof {
                let next = self@.take(at as int + 1);
                assert(next.drop_last() =~= self@.take(at as int));
            }
            total = total + size as u128;
            at = at + 1;
        }
        assert(self@.take(at as int) =~= self@);
        total
    }
}

} // verus!
