//! Archives of directory trees.
//!
//! A walk over a tree hands in what it found, in any order. The archive holds
//! one entry for each file and each directory below the root of the walk,
//! named by its path from that root with `/` between the segments, and sorted
//! by name, so that the same tree always gives the same archive.

use crate::error::ResolutionError;
use crate::order::{
    arrange, has_distinct_keys, indices, is_listing_order, is_rearrangement, key_views,
    lemma_listing_of_rearranged, listing_order, stable_order,
};
use crate::path::{join, normal_components, sanitize_path};
use std::io::Cursor;
use vstd::prelude::*;
use vstd::slice::slice_to_vec;
use vstd::utf8::encode_utf8;
use zip::ZipWriter;

verus! {

/// A zip archive in the making: a `zip::ZipWriter` over a buffer in memory,
/// seen as the sequence of entries written so far.
#[verifier::external_body]
pub struct ArchiveWriter {
    inner: ZipWriter<Cursor<Vec<u8>>>,
}

/// One file or directory that a walk found below its root.
#[derive(Debug)]
pub struct WalkedNode {
    /// The path from the root of the walk down to the node.
    pub path: String,
    /// The bytes of a file; `None` for a directory.
    pub contents: Option<Vec<u8>>,
}

/// One entry of an archive.
#[derive(Debug, PartialEq, Eq)]
pub struct ArchiveEntry {
    /// The name of the entry, which ends in `/` for a directory.
    pub name: String,
    /// The bytes of a file; `None` for a directory.
    pub contents: Option<Vec<u8>>,
}

/// The bytes held by a file, none for a directory.
pub open spec fn contents_view(contents: Option<Vec<u8>>) -> Option<Seq<u8>> {
    match contents {
        Some(bytes) => Some(bytes@),
        None => None,
    }
}

/// The entries of a vector as plain values: name and contents.
pub open spec fn entry_plans(entries: Seq<ArchiveEntry>) -> Seq<(Seq<char>, Option<Seq<u8>>)> {
    Seq::new(entries.len(), |i: int| (entries[i].name@, contents_view(entries[i].contents)))
}

/// The name of the entry for a node: its sanitized path from the root of the
/// walk, with `/` between the segments and, for a directory, behind the last.
pub open spec fn archive_name(path: Seq<char>, is_directory: bool) -> Seq<char> {
    if is_directory {
        join(normal_components(path)) + seq!['/']
    } else {
        join(normal_components(path))
    }
}

/// The entry that a node gives; none for the root of the walk itself.
pub open spec fn node_entry(node: WalkedNode) -> Option<(Seq<char>, Option<Seq<u8>>)> {
    if normal_components(node.path@).len() == 0 {
        None
    } else {
        Some((archive_name(node.path@, node.contents is None), contents_view(node.contents)))
    }
}

/// The entries of the nodes that give one, in the order of the nodes.
pub open spec fn named_entries(nodes: Seq<WalkedNode>) -> Seq<(Seq<char>, Option<Seq<u8>>)>
    decreases nodes.len(),
{
    if nodes.len() == 0 {
        Seq::empty()
    } else {
        let before = named_entries(nodes.drop_last());
        match node_entry(nodes.last()) {
            Some(entry) => before.push(entry),
            None => before,
        }
    }
}

/// The bytes of each name.
pub open spec fn name_keys(entries: Seq<(Seq<char>, Option<Seq<u8>>)>) -> Seq<Seq<u8>> {
    Seq::new(entries.len(), |i: int| encode_utf8(entries[i].0))
}

/// The entries of an archive of the nodes: those that the nodes give, sorted
/// by the bytes of their names; nodes of one name keep their order.
pub open spec fn planned(nodes: Seq<WalkedNode>) -> Seq<(Seq<char>, Option<Seq<u8>>)> {
    in_archive_order(named_entries(nodes))
}

/// The entries in the order in which an archive holds them.
pub open spec fn in_archive_order(entries: Seq<(Seq<char>, Option<Seq<u8>>)>) -> Seq<
    (Seq<char>, Option<Seq<u8>>),
> {
    arrange(entries, stable_order(name_keys(entries)))
}

/// Where no two entries have the same name, the archive does not depend on
/// the order in which the walk found them.
pub proof fn lemma_archive_ignores_walk_order(
    entries: Seq<(Seq<char>, Option<Seq<u8>>)>,
    moved: Seq<(Seq<char>, Option<Seq<u8>>)>,
    from: Seq<int>,
)
    requires
        moved.len() == entries.len(),
        is_rearrangement(from, entries.len() as int),
        forall|i: int| 0 <= i < entries.len() ==> #[trigger] moved[i] == entries[from[i]],
        has_distinct_keys(name_keys(entries)),
    ensures
        in_archive_order(moved) == in_archive_order(entries),
        zip_bytes(in_archive_order(moved)) == zip_bytes(in_archive_order(entries)),
{
    lemma_listing_of_rearranged(entries, name_keys(entries), moved, name_keys(moved), from);
}

/// The entries that a writer has taken so far: for each its name and, for a
/// file, the bytes written to it.
pub uninterp spec fn archived(writer: ArchiveWriter) -> Seq<
    (Seq<char>, Option<Seq<u8>>),
>;

/// The bytes of the zip archive that holds the given entries, stored without
/// compression and dated 1980-01-01.
pub uninterp spec fn zip_bytes(entries: Seq<(Seq<char>, Option<Seq<u8>>)>) -> Seq<u8>;

/// The writer still takes entries: no call on it has failed.
pub uninterp spec fn is_open(writer: ArchiveWriter) -> bool;

/// The most bytes that one file of an archive can hold.
pub open spec fn file_limit() -> int {
    0xFFFF_FFFF
}

/// The last entry is a file that has room for `bytes` more.
pub open spec fn fits(entries: Seq<(Seq<char>, Option<Seq<u8>>)>, bytes: Seq<u8>) -> bool {
    entries.len() > 0 && match entries.last() {
        (_, Some(held)) => held.len() + bytes.len() <= file_limit(),
        (_, None) => false,
    }
}

/// The entry is a directory, or a file of no more bytes than an archive can
/// hold in one file.
pub open spec fn entry_fits(entry: (Seq<char>, Option<Seq<u8>>)) -> bool {
    match entry {
        (_, Some(held)) => held.len() <= file_limit(),
        (_, None) => true,
    }
}

/// Every file among the entries is small enough for an archive.
pub open spec fn all_fit(entries: Seq<(Seq<char>, Option<Seq<u8>>)>) -> bool {
    forall|i: int| 0 <= i < entries.len() ==> entry_fits(#[trigger] entries[i])
}

/// A directory name as the archive holds it: with a `/` behind it, unless it
/// ends in `/` or `\` already.
pub open spec fn with_slash(name: Seq<char>) -> Seq<char> {
    if name.len() > 0 && (name.last() == '/' || name.last() == '\\') {
        name
    } else {
        name + seq!['/']
    }
}

/// The entries after `bytes` were written: they go behind the bytes of the
/// last entry.
pub open spec fn written_to_last(
    entries: Seq<(Seq<char>, Option<Seq<u8>>)>,
    bytes: Seq<u8>,
) -> Seq<(Seq<char>, Option<Seq<u8>>)> {
    if entries.len() == 0 {
        entries
    } else {
        match entries.last() {
            (name, Some(held)) => entries.update(entries.len() - 1, (name, Some(held + bytes))),
            (_, None) => entries,
        }
    }
}

/// Calls `zip::ZipWriter::new` on an empty buffer. Trusted: the new writer
/// is open and has taken no entry.
#[verifier::external_body]
fn zip_new() -> (writer: ArchiveWriter)
    ensures
        is_open(writer),
        archived(writer) == Seq::<(Seq<char>, Option<Seq<u8>>)>::empty(),
{
    ArchiveWriter { inner: ZipWriter::new(Cursor::new(Vec::new())) }
}

/// Calls `zip::ZipWriter::start_file`, for a file stored without compression
/// and dated 1980-01-01. Trusted: on an open writer the call succeeds and
/// leaves the writer open; where it succeeds, the writer has taken one more
/// entry, an empty file of the given name.
#[verifier::external_body]
fn zip_start_file(writer: &mut ArchiveWriter, name: &str) -> (r: Result<(), String>)
    ensures
        is_open(*old(writer)) ==> r is Ok && is_open(*final(writer)),
        r is Ok ==> archived(*final(writer)) == archived(*old(writer)).push(
            (name@, Some(Seq::<u8>::empty())),
        ),
{
    let options = zip::write::FileOptions::default()
        .compression_method(zip::CompressionMethod::Stored)
        .last_modified_time(zip::DateTime::default());
    match writer.inner.start_file(name, options) {
        Ok(()) => Ok(()),
        Err(error) => Err(error.to_string()),
    }
}

/// Calls `std::io::Write::write_all` on the writer. Trusted: on an open
/// writer whose last entry is a file with room for the bytes, the call
/// succeeds and leaves the writer open; where it succeeds, the bytes went
/// behind those of the file started last; a directory takes none.
#[verifier::external_body]
fn zip_write_all(writer: &mut ArchiveWriter, bytes: &[u8]) -> (r: Result<
    (),
    String,
>)
    ensures
        is_open(*old(writer)) && fits(archived(*old(writer)), bytes@) ==> r is Ok && is_open(
            *final(writer),
        ),
        r is Ok ==> archived(*final(writer)) == written_to_last(archived(*old(writer)), bytes@),
{
    match std::io::Write::write_all(&mut writer.inner, bytes) {
        Ok(()) => Ok(()),
        Err(error) => Err(error.to_string()),
    }
}

/// Calls `zip::ZipWriter::add_directory`, for a directory dated 1980-01-01.
/// Trusted: on an open writer the call succeeds and leaves the writer open;
/// where it succeeds, the writer has taken one more entry, a directory of the
/// given name with a `/` behind it.
#[verifier::external_body]
fn zip_add_directory(writer: &mut ArchiveWriter, name: &str) -> (r: Result<
    (),
    String,
>)
    ensures
        is_open(*old(writer)) ==> r is Ok && is_open(*final(writer)),
        r is Ok ==> archived(*final(writer)) == archived(*old(writer)).push(
            (with_slash(name@), None),
        ),
{
    let options = zip::write::FileOptions::default()
        .compression_method(zip::CompressionMethod::Stored)
        .last_modified_time(zip::DateTime::default());
    match writer.inner.add_directory(name, options) {
        Ok(()) => Ok(()),
        Err(error) => Err(error.to_string()),
    }
}

/// Calls `zip::ZipWriter::finish` and takes the buffer out. Trusted: on an
/// open writer the call succeeds; where it succeeds, the bytes are those of
/// the archive of the entries that the writer has taken.
#[verifier::external_body]
fn zip_finish(writer: ArchiveWriter) -> (r: Result<Vec<u8>, String>)
    ensures
        is_open(writer) ==> r is Ok,
        r is Ok ==> r->Ok_0@ == zip_bytes(archived(writer)),
{
    let mut writer = writer;
    match writer.inner.finish() {
        Ok(buffer) => Ok(buffer.into_inner()),
        Err(error) => Err(error.to_string()),
    }
}

/// The entries as the archive holds them: a directory has a `/` behind its
/// name.
pub open spec fn as_stored(entries: Seq<(Seq<char>, Option<Seq<u8>>)>) -> Seq<
    (Seq<char>, Option<Seq<u8>>),
> {
    Seq::new(
        entries.len(),
        |i: int|
            match entries[i] {
                (name, Some(bytes)) => (name, Some(bytes)),
                (name, None) => (with_slash(name), None),
            },
    )
}

/// The entries of an archive of what a walk found: one for each node below
/// the root of the walk, named by its sanitized path from the root, sorted by
/// name.
pub fn archive_entries(nodes: &Vec<WalkedNode>) -> (entries: Vec<ArchiveEntry>)
    ensures
        entry_plans(entries@) == planned(nodes@),
        as_stored(entry_plans(entries@)) == entry_plans(entries@),
{
    let n: usize = nodes.len();
    let mut names: Vec<String> = Vec::new();
    let mut sources: Vec<usize> = Vec::new();
    let ghost mut named: Seq<(Seq<char>, Option<Seq<u8>>)> = Seq::empty();
    let mut i: usize = 0;
    proof {
        reveal_strlit("/");
        assert(nodes@.take(0) =~= Seq::<WalkedNode>::empty());
    }
    while i < n
        invariant
            i <= n,
            n == nodes@.len(),
            "/"@ == seq!['/'],
            named == named_entries(nodes@.take(i as int)),
            names@.len() == named.len(),
            sources@.len() == named.len(),
            forall|j: int| 0 <= j < named.len() ==> (#[trigger] names@[j])@ == named[j].0,
            forall|j: int| 0 <= j < named.len() ==> #[trigger] sources@[j] < i,
            forall|j: int|
                0 <= j < named.len() ==> (#[trigger] named[j]).1 == contents_view(
                    nodes@[sources@[j] as int].contents,
                ),
            forall|j: int|
                0 <= j < named.len() && (#[trigger] named[j]).1 is None ==> with_slash(named[j].0)
                    == named[j].0,
        decreases n - i,
    {
        let ghost upto = nodes@.take(i + 1);
        proof {
            assert(upto.drop_last() =~= nodes@.take(i as int));
            assert(upto.last() == nodes@[i as int]);
        }
        let sanitized = sanitize_path(nodes[i].path.as_str());
        if sanitized.components().len() > 0 {
            let mut name = sanitized.joined();
            if nodes[i].contents.is_none() {
                name.append("/");
                assert(name@.last() == '/');
            }
            proof {
                named = named.push(node_entry(nodes@[i as int])->0);
            }
            names.push(name);
            sources.push(i);
        }
        i += 1;
    }
    assert(nodes@.take(n as int) =~= nodes@);
    let m: usize = names.len();
    let mut keys: Vec<Vec<u8>> = Vec::new();
    let mut j: usize = 0;
    while j < m
        invariant
            j <= m,
            m == names@.len(),
            m == named.len(),
            keys@.len() == j,
            forall|k: int| 0 <= k < m ==> (#[trigger] names@[k])@ == named[k].0,
            forall|k: int| 0 <= k < j ==> (#[trigger] keys@[k])@ == encode_utf8(named[k].0),
        decreases m - j,
    {
        keys.push(names[j].as_str().as_bytes_vec());
        j += 1;
    }
    assert(key_views(keys@) =~= name_keys(named));
    let order = listing_order(&keys);
    let ghost places = indices(order@);
    let mut entries: Vec<ArchiveEntry> = Vec::new();
    let mut k: usize = 0;
    while k < m
        invariant
            k <= m,
            m == names@.len(),
            m == named.len(),
            m == sources@.len(),
            m == order@.len(),
            n == nodes@.len(),
            places == indices(order@),
            is_listing_order(places, name_keys(named)),
            entries@.len() == k,
            forall|j: int| 0 <= j < named.len() ==> (#[trigger] names@[j])@ == named[j].0,
            forall|j: int| 0 <= j < named.len() ==> #[trigger] sources@[j] < n,
            forall|j: int|
                0 <= j < named.len() ==> (#[trigger] named[j]).1 == contents_view(
                    nodes@[sources@[j] as int].contents,
                ),
            forall|j: int|
                0 <= j < named.len() && (#[trigger] named[j]).1 is None ==> with_slash(named[j].0)
                    == named[j].0,
            forall|j: int|
                0 <= j < k ==> (#[trigger] entries@[j]).name@ == named[places[j]].0
                    && contents_view(entries@[j].contents) == named[places[j]].1,
        decreases m - k,
    {
        let at: usize = order[k];
        assert(places[k as int] == at);
        let contents = match &nodes[sources[at]].contents {
            Some(bytes) => Some(slice_to_vec(bytes.as_slice())),
            None => None,
        };
        entries.push(ArchiveEntry { name: names[at].clone(), contents });
        k += 1;
    }
    proof {
        let plans = entry_plans(entries@);
        assert forall|j: int| 0 <= j < m implies plans[j] == #[trigger] arrange(
            named,
            places,
        )[j] by {
            assert(entries@[j].name@ == named[places[j]].0);
        }
        assert(plans =~= arrange(named, places));
        assert forall|j: int| 0 <= j < m implies #[trigger] as_stored(plans)[j] == plans[j] by {
            let at = places[j];
            assert(0 <= at < named.len());
            assert(names@[at]@ == named[at].0);
        }
        assert(as_stored(plans) =~= plans);
    }
    entries
}

/// The bytes of the zip archive that holds the given entries in the given
/// order. Succeeds where no file is larger than an archive can hold; fails,
/// with the reason that the writer gave, where the writer refuses an entry.
pub fn write_archive(entries: &Vec<ArchiveEntry>) -> (r: Result<Vec<u8>, String>)
    ensures
        all_fit(entry_plans(entries@)) ==> r is Ok,
        r is Ok ==> r->Ok_0@ == zip_bytes(as_stored(entry_plans(entries@))),
{
    let ghost wanted = as_stored(entry_plans(entries@));
    let mut writer = zip_new();
    let n: usize = entries.len();
    let mut i: usize = 0;
    assert(wanted.take(0) =~= archived(writer));
    while i < n
        invariant
            i <= n,
            n == entries@.len(),
            wanted == as_stored(entry_plans(entries@)),
            archived(writer) == wanted.take(i as int),
            all_fit(entry_plans(entries@)) ==> is_open(writer),
        decreases n - i,
    {
        let ghost before = archived(writer);
        let entry = &entries[i];
        assert(all_fit(entry_plans(entries@)) ==> entry_fits(entry_plans(entries@)[i as int]));
        match &entry.contents {
            Some(bytes) => {
                match zip_start_file(&mut writer, entry.name.as_str()) {
                    Ok(()) => {},
                    Err(reason) => {
                        return Err(reason);
                    },
                }
                proof {
                    let started = before.push((entry.name@, Some(Seq::<u8>::empty())));
                    assert(started.last() == (entry.name@, Some(Seq::<u8>::empty())));
                }
                match zip_write_all(&mut writer, bytes.as_slice()) {
                    Ok(()) => {},
                    Err(reason) => {
                        return Err(reason);
                    },
                }
                proof {
                    let started = before.push((entry.name@, Some(Seq::<u8>::empty())));
                    assert(started.last() == (entry.name@, Some(Seq::<u8>::empty())));
                    assert(Seq::<u8>::empty() + bytes@ =~= bytes@);
                    assert(archived(writer) =~= wanted.take(i + 1));
                }
            },
            None => {
                match zip_add_directory(&mut writer, entry.name.as_str()) {
                    Ok(()) => {},
                    Err(reason) => {
                        return Err(reason);
                    },
                }
                assert(archived(writer) =~= wanted.take(i + 1));
            },
        }
        i += 1;
    }
    assert(wanted.take(n as int) =~= wanted);
    zip_finish(writer)
}

/// How many directories below its root a walk may enter. A tree that goes
/// deeper, as one with a cycle of links does, is not archived.
pub const MAX_WALK_DEPTH: usize = 64;

/// Whether a walk may read the directory that lies `depth` directories below
/// its root.
pub fn within_walk_depth(depth: usize) -> (r: bool)
    ensures
        r == (depth <= MAX_WALK_DEPTH),
{
    depth <= MAX_WALK_DEPTH
}

/// What the filesystem gave for an archive request.
#[derive(Debug)]
pub enum ArchiveFound {
    /// Nothing stands at the target.
    Missing,
    /// The target is no directory.
    NotDirectory,
    /// The target is a directory: what the walk over its tree found, or the
    /// reason why the walk failed.
    Walked(Result<Vec<WalkedNode>, String>),
}

/// The archive of a directory tree, whole or not at all. A missing target is
/// `NotFound`; a target that is no directory, a walk that failed and an
/// archive that could not be written are an `IoError`. A walked tree gives
/// its archive wherever no file in it is larger than an archive can hold.
pub fn build_archive(found: ArchiveFound) -> (r: Result<Vec<u8>, ResolutionError>)
    ensures
        match found {
            ArchiveFound::Missing => r == Err::<Vec<u8>, ResolutionError>(
                ResolutionError::NotFound,
            ),
            ArchiveFound::NotDirectory => {
                &&& r matches Err(ResolutionError::IoError(reason))
                &&& reason@ == "not a directory"@
            },
            ArchiveFound::Walked(Err(reason)) => r == Err::<Vec<u8>, ResolutionError>(
                ResolutionError::IoError(reason),
            ),
            ArchiveFound::Walked(Ok(nodes)) => {
                &&& all_fit(planned(nodes@)) ==> r is Ok
                &&& match r {
                    Ok(bytes) => bytes@ == zip_bytes(planned(nodes@)),
                    Err(error) => error is IoError,
                }
            },
        },
{
    match found {
        ArchiveFound::Missing => Err(ResolutionError::NotFound),
        ArchiveFound::NotDirectory => Err(
            ResolutionError::IoError(String::from_str("not a directory")),
        ),
        ArchiveFound::Walked(Err(reason)) => Err(ResolutionError::IoError(reason)),
        ArchiveFound::Walked(Ok(nodes)) => {
            let entries = archive_entries(&nodes);
            match write_archive(&entries) {
                Ok(bytes) => Ok(bytes),
                Err(reason) => Err(ResolutionError::IoError(reason)),
            }
        },
    }
}

} // verus!
