//! Writing an opened archive out to a directory, one file after the other.
//!
//! The library decides what is written where and when to stop; the caller
//! creates the directories, writes the files, and reports how each went.

use vstd::prelude::*;
use vstd::string::*;
use crate::archive::ArchiveHandle;
use crate::content::{distinct_paths, Stored};
use crate::error::{ArchiveError, Failure};
use crate::path::{directory_of, parent_directory, separator, target, target_path};

verus! {

/// One file to write: create `directory` with all its parents, then write
/// `content` to `file`, in place of what is there.
#[derive(Debug, Clone, PartialEq, Eq)]
pub struct WriteRequest<'a> {
    pub directory: String,
    pub file: String,
    pub content: &'a Vec<u8>,
}

/// The mathematical value of an [`Extraction`].
pub struct Progress {
    pub entries: Seq<Stored>,
    pub destination: Seq<char>,
    pub written: nat,
    pub failure: Option<Failure>,
}

impl Progress {
    /// Whether there is a file left to write and nothing has failed.
    pub open spec fn pending(self) -> bool {
        self.failure is None && self.written < self.entries.len()
    }

    /// The entry to write next.
    pub open spec fn next_entry(self) -> Stored {
        self.entries[self.written as int]
    }

    /// Where the next file goes.
    pub open spec fn next_file(self) -> Seq<char> {
        target(self.destination, self.next_entry().path)
    }

    /// The state after the caller reports how the pending write went: one
    /// more file is written, or the extraction has failed for good with the
    /// path of the entry and the cause given. With nothing pending, a report
    /// changes nothing.
    pub open spec fn after(self, outcome: Result<(), Seq<char>>) -> Progress {
        if !self.pending() {
            self
        } else {
            match outcome {
                Ok(_) => Progress { written: self.written + 1, ..self },
                Err(cause) => Progress {
                    failure: Some(
                        Failure::MaterializationFailed {
                            path: self.next_entry().path,
                            cause,
                        },
                    ),
                    ..self
                },
            }
        }
    }

    /// How the extraction stands: the failure that ended it, or the number of
    /// files written so far.
    pub open spec fn outcome(self) -> Result<nat, Failure> {
        match self.failure {
            Some(failure) => Err(failure),
            None => Ok(self.written),
        }
    }
}

/// The extraction of one archive to one directory: how many files are
/// written, and the failure that ended it, if one did.
pub struct Extraction<'a> {
    handle: &'a ArchiveHandle,
    destination: String,
    written: usize,
    failure: Option<ArchiveError>,
}

impl<'a> View for Extraction<'a> {
    type V = Progress;

    closed spec fn view(&self) -> Progress {
        Progress {
            entries: self.handle@.entries,
            destination: self.destination@,
            written: self.written as nat,
            failure: match self.failure {
                Some(failure) => Some(failure@),
                None => None,
            },
        }
    }
}

impl<'a> Extraction<'a> {
    #[verifier::type_invariant]
    spec fn well_formed(self) -> bool {
        self.written <= self.handle@.entries.len()
    }

    /// Starts the extraction of `handle` to the directory `destination`.
    pub fn begin(handle: &'a ArchiveHandle, destination: &str) -> (extraction: Extraction<'a>)
        ensures
            extraction@ == (Progress {
                entries: handle@.entries,
                destination: destination@,
                written: 0,
                failure: None,
            }),
    {
        Extraction { handle, destination: String::from_str(destination), written: 0, failure: None }
    }

    /// The number of files to write in all.
    pub fn total(&self) -> (total: usize)
        ensures
            total == self@.entries.len(),
            self@.written <= total,
    {
        proof {
            use_type_invariant(self);
        }
        self.handle.file_count()
    }

    /// The number of files written so far.
    pub fn written(&self) -> (written: usize)
        ensures
            written == self@.written,
            written <= self@.entries.len(),
    {
        proof {
            use_type_invariant(self);
        }
        self.written
    }

    /// The next file to write, or nothing once all are written or one has
    /// failed.
    pub fn next(&self) -> (request: Option<WriteRequest<'a>>)
        ensures
            request is Some <==> self@.pending(),
            request matches Some(write) ==> {
                &&& write.file@ == self@.next_file()
                &&& write.directory@ == directory_of(write.file@)
                &&& write.content@ == self@.next_entry().content
            },
    {
        let entries = self.handle.entries();
        if self.failure.is_some() || self.written >= entries.len() {
            return None;
        }
        let entry = &entries[self.written];
        let file = target_path(self.destination.as_str(), entry.path.as_str());
        let directory = parent_directory(file.as_str());
        Some(WriteRequest { directory, file, content: &entry.content })
    }

    /// Takes the caller's report on the pending write: `Ok` where the
    /// directory was created and the file written, else the cause.
    pub fn record(&mut self, outcome: Result<(), String>)
        ensures
            final(self)@ == old(self)@.after(
                match outcome {
                    Ok(_) => Ok(()),
                    Err(cause) => Err(cause@),
                },
            ),
            final(self)@.written >= old(self)@.written,
    {
        proof {
            use_type_invariant(&*self);
        }
        let entries = self.handle.entries();
        if self.failure.is_some() || self.written >= entries.len() {
            return;
        }
        match outcome {
            Ok(_) => {
                self.written = self.written + 1;
            },
            Err(cause) => {
                let entry = &entries[self.written];
                self.failure = Some(
                    ArchiveError::MaterializationFailed { path: entry.path.clone(), cause },
                );
            },
        }
    }

    /// How the extraction ended: the number of files written, which is all of
    /// them once nothing is pending, or the failure that stopped it.
    pub fn finish(self) -> (r: Result<usize, ArchiveError>)
        ensures
            match r {
                Ok(written) => self@.outcome() == Ok::<nat, Failure>(written as nat),
                Err(e) => self@.outcome() == Err::<nat, Failure>(e@),
            },
            !self@.pending() ==> (r matches Ok(written) ==> written == self@.entries.len()),
    {
        proof {
            use_type_invariant(&self);
        }
        match self.failure {
            Some(failure) => Err(failure),
            None => Ok(self.written),
        }
    }
}

/// A directory tree seen as a store: for each path that holds a file, its
/// bytes. This is the store after the first `count` of `entries` are written
/// below `destination`, each write putting its bytes in place of what the
/// path held.
pub open spec fn written_to(
    store: Map<Seq<char>, Seq<u8>>,
    entries: Seq<Stored>,
    destination: Seq<char>,
    count: nat,
) -> Map<Seq<char>, Seq<u8>>
    decreases count,
{
    if count == 0 {
        store
    } else {
        written_to(store, entries, destination, (count - 1) as nat).insert(
            target(destination, entries[count - 1].path),
            entries[count - 1].content,
        )
    }
}

/// Whether one of the first `count` writes goes to `file`.
pub open spec fn writes_to(
    entries: Seq<Stored>,
    destination: Seq<char>,
    count: nat,
    file: Seq<char>,
) -> bool {
    exists|i: int| 0 <= i < count && target(destination, (#[trigger] entries[i]).path) == file
}

/// Whether two stores agree on `file`: both hold it, with the same bytes, or
/// neither does.
pub open spec fn same_at(
    first: Map<Seq<char>, Seq<u8>>,
    second: Map<Seq<char>, Seq<u8>>,
    file: Seq<char>,
) -> bool {
    first.dom().contains(file) == second.dom().contains(file) && (first.dom().contains(file)
        ==> first[file] == second[file])
}

/// Different paths have different places below one destination.
pub proof fn lemma_target_injective(destination: Seq<char>, first: Seq<char>, second: Seq<char>)
    requires
        target(destination, first) == target(destination, second),
    ensures
        first == second,
{
    let front = if destination.len() == 0 || destination.last() == separator() {
        destination
    } else {
        destination.push(separator())
    };
    let file = front + first;
    assert(file == front + second);
    assert(first =~= second) by {
        assert forall|i: int| 0 <= i < first.len() implies first[i] == second[i] by {
            assert((front + first)[front.len() + i] == first[i]);
        }
    }
}

/// Writing leaves alone what it does not write to.
pub proof fn lemma_unwritten_stays(
    store: Map<Seq<char>, Seq<u8>>,
    entries: Seq<Stored>,
    destination: Seq<char>,
    count: nat,
    file: Seq<char>,
)
    requires
        count <= entries.len(),
        !writes_to(entries, destination, count, file),
    ensures
        same_at(written_to(store, entries, destination, count), store, file),
    decreases count,
{
    if count > 0 {
        let before = (count - 1) as nat;
        lemma_unwritten_stays(store, entries, destination, before, file);
    }
}

/// What is written reads back. After all entries of an archive, no two under
/// one path, are written below `destination`, the file of each entry holds
/// that entry's bytes, whatever the store held before.
pub proof fn lemma_written_reads_back(
    store: Map<Seq<char>, Seq<u8>>,
    entries: Seq<Stored>,
    destination: Seq<char>,
    count: nat,
    i: int,
)
    requires
        distinct_paths(entries),
        0 <= i < count <= entries.len(),
    ensures
        written_to(store, entries, destination, count).dom().contains(
            target(destination, entries[i].path),
        ),
        written_to(store, entries, destination, count)[target(destination, entries[i].path)]
            == entries[i].content,
    decreases count,
{
    if i < count - 1 {
        lemma_written_reads_back(store, entries, destination, (count - 1) as nat, i);
        if target(destination, entries[count - 1].path) == target(destination, entries[i].path) {
            lemma_target_injective(destination, entries[count - 1].path, entries[i].path);
        }
    }
}

/// Stores that differ only where the writes go are the same after them.
pub proof fn lemma_written_over(
    first: Map<Seq<char>, Seq<u8>>,
    second: Map<Seq<char>, Seq<u8>>,
    entries: Seq<Stored>,
    destination: Seq<char>,
    count: nat,
)
    requires
        count <= entries.len(),
        forall|file: Seq<char>|
            !writes_to(entries, destination, count, file) ==> #[trigger] same_at(
                first,
                second,
                file,
            ),
    ensures
        written_to(first, entries, destination, count) == written_to(
            second,
            entries,
            destination,
            count,
        ),
    decreases count,
{
    let one = written_to(first, entries, destination, count);
    let two = written_to(second, entries, destination, count);
    assert forall|file: Seq<char>|
        #![trigger one.dom().contains(file)]
        #![trigger two.dom().contains(file)]
        same_at(one, two, file) by {
        lemma_written_at(first, entries, destination, count, file);
        lemma_written_at(second, entries, destination, count, file);
        if !writes_to(entries, destination, count, file) {
            lemma_unwritten_stays(first, entries, destination, count, file);
            lemma_unwritten_stays(second, entries, destination, count, file);
            assert(same_at(first, second, file));
        }
    }
}

/// What a written file holds does not depend on the store before.
pub proof fn lemma_written_at(
    store: Map<Seq<char>, Seq<u8>>,
    entries: Seq<Stored>,
    destination: Seq<char>,
    count: nat,
    file: Seq<char>,
)
    requires
        count <= entries.len(),
    ensures
        writes_to(entries, destination, count, file) ==> written_to(
            store,
            entries,
            destination,
            count,
        ).dom().contains(file) && written_to(store, entries, destination, count)[file]
            == written_to(Map::empty(), entries, destination, count)[file],
    decreases count,
{
    if count > 0 {
        let before = (count - 1) as nat;
        if target(destination, entries[count - 1].path) != file {
            lemma_written_at(store, entries, destination, before, file);
        }
    }
}

/// Writing twice is writing once. Extracting the same entries to the same
/// destination a second time leaves the store as the first time left it.
pub proof fn lemma_written_twice(
    store: Map<Seq<char>, Seq<u8>>,
    entries: Seq<Stored>,
    destination: Seq<char>,
)
    ensures
        written_to(
            written_to(store, entries, destination, entries.len()),
            entries,
            destination,
            entries.len(),
        ) == written_to(store, entries, destination, entries.len()),
{
    let count = entries.len();
    let once = written_to(store, entries, destination, count);
    assert forall|file: Seq<char>| !writes_to(entries, destination, count, file) implies #[trigger] same_at(
        once,
        store,
        file,
    ) by {
        lemma_unwritten_stays(store, entries, destination, count, file);
    }
    lemma_written_over(once, store, entries, destination, count);
}

} // verus!
