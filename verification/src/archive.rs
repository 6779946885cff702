//! Opening an archive: header, file table and contents, in that order.

use vstd::prelude::*;
use crate::content::{
    content_of, distinct_paths, lemma_stored_with_distinct, load, loaded, stored_with, total_size,
    ContentMap, Entry, Stored,
};
use crate::error::{ArchiveError, Failure};
use crate::header::{decode_header, decoded, le_u32, PREFIX_WIDTH};
use crate::model::{lemma_views_empty, lemma_views_push, views};
use crate::table::{flatten, flattened, FileTable, Flattened, Located};
use crate::tree::{Node, Tree};

verus! {

/// The mathematical value of an [`ArchiveHandle`]: the stored files, no path
/// twice, and the warnings about the entries that were skipped.
pub struct Opened {
    pub entries: Seq<Stored>,
    pub warnings: Seq<Failure>,
}

/// The warnings for the malformed leaves at `paths`.
pub open spec fn malformed_warnings(paths: Seq<Seq<char>>) -> Seq<Failure> {
    Seq::new(paths.len(), |i: int| Failure::MalformedEntry(paths[i]))
}

/// What an open holds once `file` is dealt with, given what it held `before`.
/// A file whose bytes the stream holds is stored under its path. One whose
/// bytes it does not hold fails a strict open, and is skipped with a warning
/// by a lenient one.
pub open spec fn taken(stream: Seq<u8>, file: Located, strict: bool, before: Opened) -> Result<
    Opened,
    Failure,
> {
    match loaded(stream, file) {
        Ok(content) => Ok(
            Opened {
                entries: stored_with(before.entries, file.path, content),
                warnings: before.warnings,
            },
        ),
        Err(failure) => if strict {
            Err(failure)
        } else {
            Ok(Opened { entries: before.entries, warnings: before.warnings.push(failure) })
        },
    }
}

/// What an open holds once all of `files` are dealt with in order, starting
/// from `start`; the first failure ends it.
pub open spec fn collected(stream: Seq<u8>, files: Seq<Located>, strict: bool, start: Opened) -> Result<
    Opened,
    Failure,
>
    decreases files.len(),
{
    if files.len() == 0 {
        Ok(start)
    } else {
        match collected(stream, files.drop_last(), strict, start) {
            Ok(before) => taken(stream, files.last(), strict, before),
            Err(failure) => Err(failure),
        }
    }
}

/// What loading a file table from `stream` gives. A strict open fails with the
/// first malformed leaf, if there is one; a lenient open starts with one
/// warning for each. The files are then loaded in order.
pub open spec fn gathered(stream: Seq<u8>, table: Flattened, strict: bool) -> Result<
    Opened,
    Failure,
> {
    if strict && table.malformed.len() > 0 {
        Err(Failure::MalformedEntry(table.malformed[0]))
    } else {
        collected(
            stream,
            table.entries,
            strict,
            Opened { entries: Seq::empty(), warnings: malformed_warnings(table.malformed) },
        )
    }
}

/// What reading the archive with the header tree `root` gives, where the data
/// region starts at `base` in `stream`.
pub open spec fn read(root: Tree, base: u64, stream: Seq<u8>, strict: bool) -> Result<
    Opened,
    Failure,
> {
    gathered(stream, flattened(root, Seq::empty(), base), strict)
}

/// What opening the archive in `stream` gives: the failure of its header, or
/// what reading gives with the header's tree and the data region that starts
/// right after the header.
pub open spec fn opened(stream: Seq<u8>, strict: bool) -> Result<Opened, Failure> {
    match decoded(stream) {
        Ok((root, length)) => read(root, (PREFIX_WIDTH + length) as u64, stream, strict),
        Err(failure) => Err(failure),
    }
}

/// A stream that ends before its length prefix does, or before the header
/// that the prefix declares, does not open, strict or not.
pub proof fn lemma_short_stream_does_not_open(stream: Seq<u8>, strict: bool)
    requires
        stream.len() < PREFIX_WIDTH || stream.len() < PREFIX_WIDTH + le_u32(stream),
    ensures
        opened(stream, strict) == Err::<Opened, Failure>(Failure::TruncatedHeader),
{
}

/// An empty file is stored with no bytes and without a warning, strict or
/// not, wherever the header says it lies.
pub proof fn lemma_empty_file_is_stored(
    stream: Seq<u8>,
    file: Located,
    strict: bool,
    before: Opened,
)
    requires
        file.size == 0,
    ensures
        taken(stream, file, strict, before) == Ok::<Opened, Failure>(
            Opened {
                entries: stored_with(before.entries, file.path, Seq::empty()),
                warnings: before.warnings,
            },
        ),
{
}

/// Whether `opened` is what an open may end with: no path is stored twice,
/// every warning concerns one entry and names its path, and a strict open
/// has no warning at all.
pub open spec fn sound(opened: Opened, strict: bool) -> bool {
    &&& distinct_paths(opened.entries)
    &&& strict ==> opened.warnings.len() == 0
    &&& forall|i: int|
        0 <= i < opened.warnings.len() ==> (#[trigger] opened.warnings[i]).entry_level()
            && opened.warnings[i].path() is Some
}

/// A pass over `files` that starts sound ends sound.
pub proof fn lemma_collected_sound(
    stream: Seq<u8>,
    files: Seq<Located>,
    strict: bool,
    start: Opened,
)
    requires
        sound(start, strict),
    ensures
        collected(stream, files, strict, start) matches Ok(end) ==> sound(end, strict),
    decreases files.len(),
{
    if files.len() > 0 {
        lemma_collected_sound(stream, files.drop_last(), strict, start);
        if let Ok(before) = collected(stream, files.drop_last(), strict, start) {
            let file = files.last();
            if let Ok(content) = loaded(stream, file) {
                lemma_stored_with_distinct(before.entries, file.path, content);
            }
        }
    }
}

/// Every open that succeeds ends sound.
pub proof fn lemma_opened_sound(stream: Seq<u8>, strict: bool)
    ensures
        opened(stream, strict) matches Ok(end) ==> sound(end, strict),
{
    if let Ok((root, length)) = decoded(stream) {
        let table = flattened(root, Seq::empty(), (PREFIX_WIDTH + length) as u64);
        let start = Opened { entries: Seq::empty(), warnings: malformed_warnings(table.malformed) };
        if !(strict && table.malformed.len() > 0) {
            lemma_collected_sound(stream, table.entries, strict, start);
        }
    }
}

/// A lenient pass over `files` never fails. A strict pass that starts without
/// a warning gives the same as the lenient one where that ends without a
/// warning, and fails with the lenient one's first warning where it does not.
pub proof fn lemma_collected_strict_or_not(stream: Seq<u8>, files: Seq<Located>, start: Opened)
    requires
        start.warnings.len() == 0,
    ensures
        collected(stream, files, false, start) matches Ok(lenient) && collected(
            stream,
            files,
            true,
            start,
        ) == (if lenient.warnings.len() == 0 {
            Ok::<Opened, Failure>(lenient)
        } else {
            Err::<Opened, Failure>(lenient.warnings[0])
        }),
    decreases files.len(),
{
    if files.len() > 0 {
        lemma_collected_strict_or_not(stream, files.drop_last(), start);
    }
}

/// A lenient read never fails. A strict read gives the same as the lenient
/// one where that ends without a warning, and fails with the lenient one's
/// first warning where it does not.
pub proof fn lemma_read_strict_or_not(root: Tree, base: u64, stream: Seq<u8>)
    ensures
        read(root, base, stream, false) matches Ok(lenient) && read(root, base, stream, true) == (
        if lenient.warnings.len() == 0 {
            Ok::<Opened, Failure>(lenient)
        } else {
            Err::<Opened, Failure>(lenient.warnings[0])
        }),
{
    let table = flattened(root, Seq::empty(), base);
    let skipped = malformed_warnings(table.malformed);
    let start = Opened { entries: Seq::empty(), warnings: skipped };
    if table.malformed.len() == 0 {
        lemma_collected_strict_or_not(stream, table.entries, start);
    } else {
        lemma_collected_keeps_warnings(stream, table.entries, start);
        assert(skipped[0] == Failure::MalformedEntry(table.malformed[0]));
    }
}

/// Strict and lenient opens agree on the header, and on every archive that
/// warns of nothing. A lenient open fails on the header only; where it ends
/// with warnings, the strict open fails with the first of them.
pub proof fn lemma_opened_strict_or_not(stream: Seq<u8>)
    ensures
        match opened(stream, false) {
            Ok(lenient) => opened(stream, true) == (if lenient.warnings.len() == 0 {
                Ok::<Opened, Failure>(lenient)
            } else {
                Err::<Opened, Failure>(lenient.warnings[0])
            }),
            Err(failure) => !failure.entry_level() && opened(stream, true) == Err::<
                Opened,
                Failure,
            >(failure),
        },
{
    if let Ok((root, length)) = decoded(stream) {
        lemma_read_strict_or_not(root, (PREFIX_WIDTH + length) as u64, stream);
    }
}

/// A lenient pass never fails, and keeps the warnings it started with in
/// front of those it adds.
pub proof fn lemma_collected_keeps_warnings(stream: Seq<u8>, files: Seq<Located>, start: Opened)
    ensures
        collected(stream, files, false, start) matches Ok(lenient) && start.warnings.is_prefix_of(
            lenient.warnings,
        ),
    decreases files.len(),
{
    if files.len() > 0 {
        lemma_collected_keeps_warnings(stream, files.drop_last(), start);
    }
}

/// An opened archive: every file with its bytes, and the warnings about the
/// entries that a lenient open skipped.
#[derive(Debug, PartialEq, Eq)]
pub struct ArchiveHandle {
    files: ContentMap,
    warnings: Vec<ArchiveError>,
}

impl View for ArchiveHandle {
    type V = Opened;

    closed spec fn view(&self) -> Opened {
        Opened { entries: self.files@, warnings: views(self.warnings@) }
    }
}

impl ArchiveHandle {
    /// The files, each with its relative path and its bytes. No path occurs
    /// twice.
    pub fn entries(&self) -> (entries: &Vec<Entry>)
        ensures
            views(entries@) == self@.entries,
            distinct_paths(self@.entries),
    {
        self.files.entries()
    }

    /// The bytes of the file at `path`, if the archive holds one.
    pub fn get(&self, path: &str) -> (found: Option<&Vec<u8>>)
        ensures
            match found {
                Some(content) => content_of(self@.entries, path@) == Some(content@),
                None => content_of(self@.entries, path@) is None,
            },
    {
        self.files.get(path)
    }

    /// The number of files.
    pub fn file_count(&self) -> (count: usize)
        ensures
            count == self@.entries.len(),
    {
        self.files.len()
    }

    /// The number of bytes in all files.
    pub fn total_bytes(&self) -> (total: u128)
        ensures
            total == total_size(self@.entries),
    {
        self.files.total_bytes()
    }

    /// The entries that were skipped, in the order in which they were met:
    /// first the malformed leaves, then the files whose bytes the stream does
    /// not hold.
    pub fn warnings(&self) -> (warnings: &Vec<ArchiveError>)
        ensures
            views(warnings@) == self@.warnings,
    {
        &self.warnings
    }
}

/// Loads every file of `table` from `stream`.
pub fn gather(stream: &[u8], table: &FileTable, strict: bool) -> (r: Result<
    ArchiveHandle,
    ArchiveError,
>)
    ensures
        match r {
            Ok(handle) => gathered(stream@, table@, strict) == Ok::<Opened, Failure>(handle@),
            Err(e) => gathered(stream@, table@, strict) == Err::<Opened, Failure>(e@),
        },
{
    if strict && table.malformed.len() > 0 {
        return Err(ArchiveError::MalformedEntry(table.malformed[0].clone()));
    }
    let mut warnings: Vec<ArchiveError> = Vec::new();
    let mut at: usize = 0;
    proof {
        lemma_views_empty::<ArchiveError>();
    }
    while at < table.malformed.len()
        invariant
            at <= table.malformed.len(),
            views(warnings@) == malformed_warnings(table@.malformed.take(at as int)),
        decreases table.malformed.len() - at,
    {
        let warning = ArchiveError::MalformedEntry(table.malformed[at].clone());
        proof {
            lemma_views_push(warnings@, warning);
        }
        warnings.push(warning);
        at = at + 1;
    }
    assert(table@.malformed.take(at as int) =~= table@.malformed);
    let ghost start = Opened {
        entries: Seq::empty(),
        warnings: malformed_warnings(table@.malformed),
    };
    let mut handle = ArchiveHandle { files: ContentMap::new(), warnings };
    let mut at: usize = 0;
    while at < table.entries.len()
        invariant
            at <= table.entries.len(),
            gathered(stream@, table@, strict) == collected(
                stream@,
                table@.entries,
                strict,
                start,
            ),
            collected(stream@, table@.entries.take(at as int), strict, start) == Ok::<
                Opened,
                Failure,
            >(handle@),
        decreases table.entries.len() - at,
    {
        let file = &table.entries[at];
        proof {
            let next = table@.entries.take(at as int + 1);
            assert(next.drop_last() =~= table@.entries.take(at as int));
        }
        match load(stream, file) {
            Ok(content) => {
                handle.files.insert(file.path.clone(), content);
            },
            Err(failure) => {
                if strict {
                    proof {
                        lemma_collected_fails(
                            stream@,
                            table@.entries,
                            strict,
                            start,
                            at as int + 1,
                        );
                    }
                    return Err(failure);
                }
                proof {
                    lemma_views_push(handle.warnings@, failure);
                }
                handle.warnings.push(failure);
            },
        }
        at = at + 1;
    }
    assert(table@.entries.take(at as int) =~= table@.entries);
    Ok(handle)
}

/// Once a prefix of the files fails, all of them fail in the same way.
pub proof fn lemma_collected_fails(
    stream: Seq<u8>,
    files: Seq<Located>,
    strict: bool,
    start: Opened,
    upto: int,
)
    requires
        0 <= upto <= files.len(),
        collected(stream, files.take(upto), strict, start) is Err,
    ensures
        collected(stream, files, strict, start) == collected(
            stream,
            files.take(upto),
            strict,
            start,
        ),
    decreases files.len() - upto,
{
    if upto < files.len() {
        let next = files.take(upto + 1);
        assert(next.drop_last() =~= files.take(upto));
        lemma_collected_fails(stream, files, strict, start, upto + 1);
    } else {
        assert(files.take(upto) =~= files);
    }
}

/// Reads the archive whose header tree is `root` and whose data region starts
/// at `base` in `stream`.
pub fn read_archive(root: &Node, base: u64, stream: &[u8], strict: bool) -> (r: Result<
    ArchiveHandle,
    ArchiveError,
>)
    ensures
        match r {
            Ok(handle) => read(root@, base, stream@, strict) == Ok::<Opened, Failure>(handle@),
            Err(e) => read(root@, base, stream@, strict) == Err::<Opened, Failure>(e@),
        },
{
    let table = flatten(root, base);
    gather(stream, &table, strict)
}

/// Opens the archive in `stream`. A strict open fails on the first entry that
/// a lenient one would skip with a warning.
pub fn open_archive(stream: &[u8], strict: bool) -> (r: Result<ArchiveHandle, ArchiveError>)
    ensures
        match r {
            Ok(handle) => opened(stream@, strict) == Ok::<Opened, Failure>(handle@),
            Err(e) => opened(stream@, strict) == Err::<Opened, Failure>(e@),
        },
{
    match decode_header(stream) {
        Ok(header) => read_archive(&header.root, header.base_offset(), stream, strict),
        Err(e) => Err(e),
    }
}

} // verus!
