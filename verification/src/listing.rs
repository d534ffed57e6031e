//! Directory listings: one entry for each child whose metadata could be
//! read, sorted by name without regard to case.

use crate::error::ResolutionError;
use crate::order::{
    arrange, has_distinct_keys, indices, insertion_point, is_listing_order, is_rearrangement,
    key_views, lemma_insertion_point, lemma_listing_of_rearranged, lemma_listing_order_ascends,
    lemma_stable_order_insert, lemma_stable_order_is_listing_order, lex_le, listing_order,
    shifted, stable_order,
};
use crate::path::{normal_components, path_string, path_to_string, sanitize_path};
use vstd::prelude::*;
use vstd::seq_lib::{to_multiset_build, to_multiset_insert};
use vstd::utf8::encode_utf8;

verus! {

/// What the filesystem reported of one child's metadata.
#[derive(Debug, Clone, Copy)]
pub struct FsMetadata {
    /// Whole seconds from the Unix epoch to the last modification.
    pub modified_secs: i64,
    /// Nanoseconds past `modified_secs`.
    pub modified_nanos: u32,
    /// Size in bytes.
    pub len: u64,
}

/// What the filesystem reported of one child of a directory.
#[derive(Debug)]
pub struct FsEntry {
    /// The path of the child: that of the directory, then the child's name.
    pub path: String,
    /// The name of the child.
    pub file_name: String,
    /// The child's metadata, or why it could not be read.
    pub metadata: Result<FsMetadata, String>,
}

/// One line of a directory listing.
#[derive(Debug, Clone, PartialEq, Eq)]
pub struct Entry {
    pub href: String,
    pub name: String,
    pub mtime: String,
    pub size: u64,  // In bytes
}

/// An entry as plain values.
pub struct EntryView {
    pub href: Seq<char>,
    pub name: Seq<char>,
    pub mtime: Seq<char>,
    pub size: u64,
}

impl View for Entry {
    type V = EntryView;

    open spec fn view(&self) -> EntryView {
        EntryView { href: self.href@, name: self.name@, mtime: self.mtime@, size: self.size }
    }
}

/// The lowercase form of a string, as `str::to_lowercase` gives it.
pub uninterp spec fn lowercase_of(s: Seq<char>) -> Seq<char>;

/// The text that chrono writes for the UTC date and time at `secs` seconds and
/// `nanos` nanoseconds from the Unix epoch; `None` where chrono has no such
/// date.
pub uninterp spec fn utc_timestamp_text(secs: i64, nanos: u32) -> Option<Seq<char>>;

/// Calls `str::to_lowercase`. Trusted: the result is named, nothing more is
/// claimed of it than that it depends on the argument alone.
#[verifier::external_body]
fn lowercase(s: &str) -> (r: String)
    ensures
        r@ == lowercase_of(s@),
{
    s.to_lowercase()
}

/// Calls `chrono::DateTime::from_timestamp` and writes the date out with its
/// `Display`. Trusted: the result is named; it is `None` where chrono refuses
/// the timestamp.
#[verifier::external_body]
fn format_utc_timestamp(secs: i64, nanos: u32) -> (r: Option<String>)
    ensures
        r is Some <==> utc_timestamp_text(secs, nanos) is Some,
        r is Some ==> r->0@ == utc_timestamp_text(secs, nanos)->0,
{
    match chrono::DateTime::from_timestamp(secs, nanos) {
        Some(time) => Some(time.to_string()),
        None => None,
    }
}

/// The key by which a name is sorted: the bytes of its lowercase form.
pub open spec fn name_key(name: Seq<char>) -> Seq<u8> {
    encode_utf8(lowercase_of(name))
}

/// The entry that a child gives, if its metadata was read and its
/// modification time can be written out.
pub open spec fn entry_of(fs_entry: FsEntry) -> Option<EntryView> {
    match fs_entry.metadata {
        Err(_) => None,
        Ok(meta) => match utc_timestamp_text(meta.modified_secs, meta.modified_nanos) {
            None => None,
            Some(text) => Some(
                EntryView {
                    href: path_string(normal_components(fs_entry.path@)),
                    name: fs_entry.file_name@,
                    mtime: text,
                    size: meta.len,
                },
            ),
        },
    }
}

/// The entries of the children that give one, in the order of the children.
pub open spec fn readable_entries(children: Seq<FsEntry>) -> Seq<EntryView>
    decreases children.len(),
{
    if children.len() == 0 {
        Seq::empty()
    } else {
        let before = readable_entries(children.drop_last());
        match entry_of(children.last()) {
            Some(entry) => before.push(entry),
            None => before,
        }
    }
}

/// The sort key of each entry.
pub open spec fn entry_keys(entries: Seq<EntryView>) -> Seq<Seq<u8>> {
    Seq::new(entries.len(), |i: int| name_key(entries[i].name))
}

/// The entries sorted by the lowercase form of their names; entries whose
/// names differ in case only stay in the order in which they came.
pub open spec fn sorted_listing(entries: Seq<EntryView>) -> Seq<EntryView> {
    arrange(entries, stable_order(entry_keys(entries)))
}

/// The entries of a vector as plain values.
pub open spec fn entry_views(entries: Seq<Entry>) -> Seq<EntryView> {
    Seq::new(entries.len(), |i: int| entries[i]@)
}

/// A listing is sorted: the keys of its entries ascend, so the names ascend
/// when case is left out of account.
pub proof fn lemma_sorted_listing_ascends(entries: Seq<EntryView>)
    ensures
        sorted_listing(entries).len() == entries.len(),
        forall|a: int, b: int|
            0 <= a <= b < entries.len() ==> lex_le(
                name_key(#[trigger] sorted_listing(entries)[a].name),
                name_key(#[trigger] sorted_listing(entries)[b].name),
            ),
{
    let keys = entry_keys(entries);
    let order = stable_order(keys);
    lemma_stable_order_is_listing_order(keys);
    lemma_listing_order_ascends(order, keys);
    assert forall|a: int, b: int| 0 <= a <= b < entries.len() implies lex_le(
        name_key(#[trigger] sorted_listing(entries)[a].name),
        name_key(#[trigger] sorted_listing(entries)[b].name),
    ) by {
        assert(lex_le(keys[order[a]], keys[order[b]]));
    }
}

/// A listing holds each entry as often as it was given.
pub proof fn lemma_sorted_listing_permutes(entries: Seq<EntryView>)
    ensures
        sorted_listing(entries).to_multiset() == entries.to_multiset(),
    decreases entries.len(),
{
    if entries.len() == 0 {
        assert(sorted_listing(entries) =~= entries);
    } else {
        let init = entries.drop_last();
        let keys = entry_keys(entries);
        let prev = stable_order(entry_keys(init));
        let place = insertion_point(prev, keys, keys.last());
        lemma_sorted_listing_permutes(init);
        assert(keys.drop_last() =~= entry_keys(init));
        lemma_insertion_point(prev, keys, keys.last());
        lemma_stable_order_is_listing_order(entry_keys(init));
        assert(sorted_listing(entries) =~= sorted_listing(init).insert(place, entries.last()));
        to_multiset_insert(sorted_listing(init), place, entries.last());
        assert(entries =~= init.push(entries.last()));
        to_multiset_build(init, entries.last());
    }
}

/// Listing again after a new child has appeared, wherever the directory
/// enumerates it, keeps the order: the new listing is the old one with the
/// new entry put in at one place.
pub proof fn lemma_relisting_after_insert(
    entries: Seq<EntryView>,
    at: int,
    entry: EntryView,
) -> (place: int)
    requires
        0 <= at <= entries.len(),
    ensures
        0 <= place <= entries.len(),
        sorted_listing(entries.insert(at, entry)) == sorted_listing(entries).insert(place, entry),
{
    let keys = entry_keys(entries);
    let order = stable_order(keys);
    assert(entry_keys(entries.insert(at, entry)) =~= keys.insert(at, name_key(entry.name)));
    let place = lemma_stable_order_insert(keys, at, name_key(entry.name));
    lemma_stable_order_is_listing_order(keys);
    assert(arrange(entries.insert(at, entry), shifted(order, at).insert(place, at)) =~= arrange(
        entries,
        order,
    ).insert(place, entry));
    place
}

/// Where no two names are the same but for case, the listing does not depend
/// on the order in which the directory was enumerated.
pub proof fn lemma_listing_ignores_enumeration_order(
    entries: Seq<EntryView>,
    moved: Seq<EntryView>,
    from: Seq<int>,
)
    requires
        moved.len() == entries.len(),
        is_rearrangement(from, entries.len() as int),
        forall|i: int| 0 <= i < entries.len() ==> #[trigger] moved[i] == entries[from[i]],
        has_distinct_keys(entry_keys(entries)),
    ensures
        sorted_listing(moved) == sorted_listing(entries),
{
    lemma_listing_of_rearranged(entries, entry_keys(entries), moved, entry_keys(moved), from);
}

/// The key by which `name` is sorted.
pub fn sort_key(name: &str) -> (key: Vec<u8>)
    ensures
        key@ == name_key(name@),
{
    let lower = lowercase(name);
    lower.as_str().as_bytes_vec()
}

fn copy_entry(entry: &Entry) -> (copy: Entry)
    ensures
        copy == *entry,
{
    Entry {
        href: entry.href.clone(),
        name: entry.name.clone(),
        mtime: entry.mtime.clone(),
        size: entry.size,
    }
}

impl Entry {
    /// The entry of a child with the given path, name and size, whose
    /// modification time has been written out as `mtime`. The link of the
    /// entry is the string form of the sanitized path.
    pub fn with_mtime(path: &str, name: String, mtime: String, size: u64) -> (entry: Entry)
        ensures
            entry@ == (EntryView {
                href: path_string(normal_components(path@)),
                name: name@,
                mtime: mtime@,
                size: size,
            }),
    {
        let sanitized = sanitize_path(path);
        Entry { href: path_to_string(&sanitized), name, mtime, size }
    }

    /// The entry of a child. Fails with `MetadataError` where the child's
    /// metadata could not be read, with the reason that was reported, and
    /// where its modification time is no date that can be written out.
    pub fn new(fs_entry: &FsEntry) -> (r: Result<Entry, ResolutionError>)
        ensures
            match entry_of(*fs_entry) {
                Some(entry) => r is Ok && r->Ok_0@ == entry,
                None => r is Err && r->Err_0 is MetadataError,
            },
            fs_entry.metadata is Err ==> r->Err_0 == ResolutionError::MetadataError(
                fs_entry.metadata->Err_0,
            ),
            fs_entry.metadata is Ok && r is Err ==> r->Err_0->MetadataError_0@
                == "modification time out of range"@,
    {
        match &fs_entry.metadata {
            Err(reason) => Err(ResolutionError::MetadataError(reason.clone())),
            Ok(meta) => match format_utc_timestamp(meta.modified_secs, meta.modified_nanos) {
                None => Err(
                    ResolutionError::MetadataError(
                        String::from_str("modification time out of range"),
                    ),
                ),
                Some(mtime) => Ok(
                    Entry::with_mtime(
                        fs_entry.path.as_str(),
                        fs_entry.file_name.clone(),
                        mtime,
                        meta.len,
                    ),
                ),
            },
        }
    }
}

/// Sorts the entries by name, ascending and without regard to case. Entries
/// whose names differ in case only keep their order.
pub fn sort_entries(entries: Vec<Entry>) -> (sorted: Vec<Entry>)
    ensures
        entry_views(sorted@) == sorted_listing(entry_views(entries@)),
        is_listing_order(
            stable_order(entry_keys(entry_views(entries@))),
            entry_keys(entry_views(entries@)),
        ),
{
    let ghost views = entry_views(entries@);
    let n: usize = entries.len();
    let mut keys: Vec<Vec<u8>> = Vec::new();
    let mut i: usize = 0;
    while i < n
        invariant
            i <= n,
            n == entries@.len(),
            views == entry_views(entries@),
            keys@.len() == i,
            forall|k: int| 0 <= k < i ==> (#[trigger] keys@[k])@ == name_key(views[k].name),
        decreases n - i,
    {
        keys.push(sort_key(entries[i].name.as_str()));
        i += 1;
    }
    assert(key_views(keys@) =~= entry_keys(views));
    let order = listing_order(&keys);
    let ghost places = indices(order@);
    let mut sorted: Vec<Entry> = Vec::new();
    let mut k: usize = 0;
    while k < n
        invariant
            k <= n,
            n == entries@.len(),
            n == order@.len(),
            views == entry_views(entries@),
            places == indices(order@),
            is_listing_order(places, entry_keys(views)),
            sorted@.len() == k,
            forall|j: int| 0 <= j < k ==> (#[trigger] sorted@[j])@ == views[places[j]],
        decreases n - k,
    {
        let at: usize = order[k];
        assert(places[k as int] == at);
        sorted.push(copy_entry(&entries[at]));
        k += 1;
    }
    assert(entry_views(sorted@) =~= arrange(views, places));
    sorted
}

/// The listing of a directory from what the filesystem reported of its
/// children: the entries of the children whose metadata could be read, sorted
/// by name without regard to case. Fails with `IoError` where the directory
/// itself could not be opened.
pub fn list(children: Result<Vec<FsEntry>, String>) -> (r: Result<Vec<Entry>, ResolutionError>)
    ensures
        match children {
            Ok(read) => r is Ok && entry_views(r->Ok_0@) == sorted_listing(
                readable_entries(read@),
            ),
            Err(reason) => r == Err::<Vec<Entry>, ResolutionError>(
                ResolutionError::IoError(reason),
            ),
        },
{
    match children {
        Err(reason) => Err(ResolutionError::IoError(reason)),
        Ok(read) => {
            let n: usize = read.len();
            let mut entries: Vec<Entry> = Vec::new();
            let mut i: usize = 0;
            assert(read@.take(0) =~= Seq::<FsEntry>::empty());
            assert(entry_views(entries@) =~= readable_entries(read@.take(0)));
            while i < n
                invariant
                    i <= n,
                    n == read@.len(),
                    entry_views(entries@) == readable_entries(read@.take(i as int)),
                decreases n - i,
            {
                let ghost upto = read@.take(i + 1);
                let ghost before = entry_views(entries@);
                assert(upto.drop_last() =~= read@.take(i as int));
                assert(upto.last() == read@[i as int]);
                match Entry::new(&read[i]) {
                    Ok(entry) => {
                        entries.push(entry);
                        assert(entry_views(entries@) =~= before.push(entry@));
                    },
                    Err(_) => {},
                }
                i += 1;
            }
            assert(read@.take(n as int) =~= read@);
            Ok(sort_entries(entries))
        },
    }
}

} // verus!
