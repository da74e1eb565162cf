//! Reading the directory of an archive held in memory. The archive format
//! is the `zip` crate's business: this module opens the bytes with it, walks
//! the entries by index and hands their metadata on as plain values.

use crate::collector::{collect_spec, record_all, record_entries, ArchiveView};
use crate::index::ConflictIndex;
use crate::label::ArchiveRef;
use crate::policy::{entries_view, DistinctFrom, EntryMeta, EntryView};
use std::io::Cursor;
use std::rc::Rc;
use vstd::prelude::*;
use zip::result::ZipError;
use zip::ZipArchive;

verus! {

/// `std::io::Cursor`, carried through as an opaque value.
#[verifier::external_type_specification]
#[verifier::external_body]
#[verifier::reject_recursive_types(T)]
pub struct ExCursor<T>(std::io::Cursor<T>);

/// `zip::ZipArchive`, carried through as an opaque value.
#[verifier::external_type_specification]
#[verifier::external_body]
#[verifier::reject_recursive_types(R)]
pub struct ExZipArchive<R>(zip::ZipArchive<R>);

/// `zip::result::ZipError`, carried through as an opaque value.
#[verifier::external_type_specification]
#[verifier::external_body]
pub struct ExZipError(zip::result::ZipError);

/// What an opened archive lists: for each index below its length, the
/// metadata that a raw lookup of that index yields, or `None` where the
/// lookup fails.
pub uninterp spec fn archive_entries(archive: ZipArchive<Cursor<&[u8]>>) -> Seq<Option<EntryView>>;

/// What `zip::ZipArchive::new` makes of `bytes`: `None` where it refuses
/// them, else the listing of the archive that it returns.
pub uninterp spec fn zip_listing(bytes: Seq<u8>) -> Option<Seq<Option<EntryView>>>;

/// Calls `zip::ZipArchive::new` on a cursor over `bytes`. The outcome is a
/// function of the bytes: an error exactly where `zip_listing` is `None`,
/// else an archive whose listing is the one that `zip_listing` names.
#[verifier::external_body]
fn open_archive(bytes: &[u8]) -> (opened: Result<ZipArchive<Cursor<&[u8]>>, ZipError>)
    ensures
        match opened {
            Ok(archive) => zip_listing(bytes@) == Some(archive_entries(archive)),
            Err(_) => zip_listing(bytes@) is None,
        },
{
    ZipArchive::new(Cursor::new(bytes))
}

/// Calls `zip::ZipArchive::len`: the number of entries in the archive's
/// central directory, which is the length of its listing.
#[verifier::external_body]
fn archive_len(archive: &ZipArchive<Cursor<&[u8]>>) -> (count: usize)
    ensures
        count == archive_entries(*archive).len(),
{
    archive.len()
}

/// Calls `zip::ZipArchive::by_index_raw` and copies the name, the
/// uncompressed size and the CRC-32 out of the `ZipFile` it returns. Nothing
/// is decompressed. The listing of the archive is the same afterwards; below
/// the archive's length the outcome is the listing's item at `index`, and
/// from the length on the lookup fails.
#[verifier::external_body]
fn entry_at(archive: &mut ZipArchive<Cursor<&[u8]>>, index: usize) -> (found: Result<
    EntryMeta,
    ZipError,
>)
    ensures
        archive_entries(*final(archive)) == archive_entries(*old(archive)),
        index >= archive_entries(*old(archive)).len() ==> found is Err,
        index < archive_entries(*old(archive)).len() ==> match found {
            Ok(entry) => archive_entries(*old(archive))[index as int] == Some(entry@),
            Err(_) => archive_entries(*old(archive))[index as int] is None,
        },
{
    let file = archive.by_index_raw(index)?;
    Ok(EntryMeta { name: file.name().to_string(), size: file.size(), crc32: file.crc32() })
}

/// Renders a `zip::result::ZipError` through its `Display` impl. Nothing is
/// claimed of the text.
#[verifier::external_body]
fn describe(error: &ZipError) -> String {
    format!("{}", error)
}

/// Why an archive could not be read.
#[derive(Clone, Copy, Debug, PartialEq, Eq, Structural)]
pub enum ArchiveFault {
    /// The bytes are not an archive that can be opened.
    NotAnArchive,
    /// The archive opened, but the entry at this index could not be looked
    /// up.
    UnreadableEntry(usize),
}

/// The fatal error of the collector: an archive that cannot be opened or
/// parsed. `detail` is the underlying message, for people.
#[derive(Debug)]
pub struct ArchiveOpenError {
    pub fault: ArchiveFault,
    pub detail: String,
}

/// Whether every entry of the listing can be looked up.
pub open spec fn readable(listing: Option<Seq<Option<EntryView>>>) -> bool {
    &&& listing matches Some(items)
    &&& forall|i: int| 0 <= i < items.len() ==> (#[trigger] items[i]) is Some
}

/// Whether `fault` is what stops the reading of an archive with this
/// listing: the bytes are no archive, or the entry named is the first that
/// cannot be looked up.
pub open spec fn stops_at(listing: Option<Seq<Option<EntryView>>>, fault: ArchiveFault) -> bool {
    match fault {
        ArchiveFault::NotAnArchive => listing is None,
        ArchiveFault::UnreadableEntry(at) => {
            &&& listing matches Some(items)
            &&& at < items.len()
            &&& items[at as int] is None
            &&& forall|k: int| 0 <= k < at ==> (#[trigger] items[k]) is Some
        },
    }
}

/// The entries of a readable listing.
pub open spec fn listing_entries(listing: Option<Seq<Option<EntryView>>>) -> Seq<EntryView> {
    match listing {
        None => Seq::<EntryView>::empty(),
        Some(items) => Seq::new(items.len(), |i: int| items[i]->0),
    }
}

/// Reads the metadata of every entry of the archive in `bytes`, in the
/// archive's own order. It succeeds exactly on a readable listing; else the
/// error names what stopped it: bytes that are no archive, or the first
/// entry that cannot be looked up.
pub fn read_entries(bytes: &[u8]) -> (read: Result<Vec<EntryMeta>, ArchiveOpenError>)
    ensures
        read is Ok <==> readable(zip_listing(bytes@)),
        match read {
            Ok(entries) => {
                &&& readable(zip_listing(bytes@))
                &&& entries_view(entries@) == listing_entries(zip_listing(bytes@))
            },
            Err(error) => stops_at(zip_listing(bytes@), error.fault),
        },
{
    let ghost listing = zip_listing(bytes@);
    let mut archive = match open_archive(bytes) {
        Ok(archive) => archive,
        Err(error) => {
            let detail = describe(&error);
            return Err(ArchiveOpenError { fault: ArchiveFault::NotAnArchive, detail });
        },
    };
    let ghost items = archive_entries(archive);
    let count = archive_len(&archive);
    let mut entries: Vec<EntryMeta> = Vec::new();
    let mut i: usize = 0;
    while i < count
        invariant
            i <= count,
            count == items.len(),
            listing == zip_listing(bytes@),
            listing == Some(items),
            archive_entries(archive) == items,
            entries.len() == i,
            forall|k: int| 0 <= k < i ==> items[k] == Some(#[trigger] entries[k]@),
        decreases count - i,
    {
        match entry_at(&mut archive, i) {
            Ok(entry) => {
                entries.push(entry);
            },
            Err(error) => {
                assert forall|k: int| 0 <= k < i implies (#[trigger] items[k]) is Some by {
                    assert(items[k] == Some(entries[k]@));
                }
                assert(items[i as int] is None);
                let detail = describe(&error);
                return Err(ArchiveOpenError { fault: ArchiveFault::UnreadableEntry(i), detail });
            },
        }
        i = i + 1;
    }
    proof {
        assert forall|k: int| 0 <= k < items.len() implies (#[trigger] items[k]) is Some by {
            assert(items[k] == Some(entries[k]@));
        }
        assert(entries_view(entries@) =~= listing_entries(listing));
    }
    Ok(entries)
}

/// Records the class entries of the archive in `bytes` under the label
/// `jar_name`. An archive that cannot be read is fatal: the error is
/// returned and the index is left as it was.
pub fn extract_class_filenames_from_jar(
    bytes: &[u8],
    name_to_sources: &mut ConflictIndex,
    jar_name: &Rc<String>,
    excludes: &Vec<String>,
    policy: DistinctFrom,
) -> (done: Result<(), ArchiveOpenError>)
    ensures
        done is Ok <==> readable(zip_listing(bytes@)),
        match done {
            Ok(_) => {
                &&& readable(zip_listing(bytes@))
                &&& final(name_to_sources)@ == record_all(
                    old(name_to_sources)@,
                    listing_entries(zip_listing(bytes@)),
                    jar_name@,
                    excludes.deep_view(),
                    policy,
                )
            },
            Err(error) => {
                &&& stops_at(zip_listing(bytes@), error.fault)
                &&& final(name_to_sources)@ == old(name_to_sources)@
            },
        },
{
    match read_entries(bytes) {
        Ok(entries) => {
            record_entries(name_to_sources, &entries, jar_name, excludes, policy);
            Ok(())
        },
        Err(error) => Err(error),
    }
}

/// An archive of the classpath as the collector takes it: its reference and
/// its bytes.
pub struct ArchiveSource {
    pub archive: ArchiveRef,
    pub bytes: Vec<u8>,
}

/// What the collector sees of a source whose bytes are a readable archive:
/// its label and the entries that its bytes list.
pub open spec fn source_view(source: ArchiveSource) -> ArchiveView {
    ArchiveView {
        label: source.archive.label_view(),
        entries: listing_entries(zip_listing(source.bytes@)),
    }
}

/// What the collector sees of a run of sources.
pub open spec fn sources_view(sources: Seq<ArchiveSource>) -> Seq<ArchiveView> {
    Seq::new(sources.len(), |i: int| source_view(sources[i]))
}

/// The failure of a run: which archive of the classpath stopped it, by its
/// position, and why.
#[derive(Debug)]
pub struct CollectError {
    pub archive: usize,
    pub cause: ArchiveOpenError,
}

/// Builds the index of a classpath, going through the archives in their
/// order. The first archive that cannot be read aborts the run: no index
/// comes back, and the error names that archive. Where every archive is
/// readable the index is the one that their listings give.
pub fn collect(sources: &Vec<ArchiveSource>, excludes: &Vec<String>, policy: DistinctFrom) -> (run:
    Result<ConflictIndex, CollectError>)
    ensures
        run is Ok <==> forall|i: int|
            0 <= i < sources.len() ==> readable(zip_listing((#[trigger] sources[i]).bytes@)),
        match run {
            Ok(index) => {
                &&& forall|i: int|
                    0 <= i < sources.len() ==> readable(zip_listing((#[trigger] sources[i]).bytes@))
                &&& index@ == collect_spec(sources_view(sources@), excludes.deep_view(), policy)
            },
            Err(error) => {
                &&& error.archive < sources.len()
                &&& stops_at(zip_listing(sources[error.archive as int].bytes@), error.cause.fault)
                &&& forall|i: int|
                    0 <= i < error.archive ==> readable(
                        zip_listing((#[trigger] sources[i]).bytes@),
                    )
            },
        },
{
    let ghost all = sources_view(sources@);
    let mut index = ConflictIndex::new();
    let mut i: usize = 0;
    while i < sources.len()
        invariant
            i <= sources.len(),
            all == sources_view(sources@),
            forall|k: int| 0 <= k < i ==> readable(zip_listing((#[trigger] sources[k]).bytes@)),
            index@ == collect_spec(all.take(i as int), excludes.deep_view(), policy),
        decreases sources.len() - i,
    {
        let source = &sources[i];
        proof {
            assert(all.take(i + 1).drop_last() =~= all.take(i as int));
            assert(all.take(i + 1).last() == source_view(*source));
        }
        match extract_class_filenames_from_jar(
            source.bytes.as_slice(),
            &mut index,
            source.archive.label(),
            excludes,
            policy,
        ) {
            Ok(_) => {},
            Err(cause) => {
                return Err(CollectError { archive: i, cause });
            },
        }
        i = i + 1;
    }
    proof {
        assert(all.take(sources.len() as int) =~= all);
    }
    Ok(index)
}

} // verus!
