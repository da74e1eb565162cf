//! The entry collector: which entries of an archive count, and how the
//! observations of one archive, and of a whole classpath, build the index.

use crate::index::{record, ConflictIndex, IndexView};
use crate::policy::{content_identity, entries_view, get_distinct_from, DistinctFrom, EntryMeta,
    EntryView};
use crate::text::{ends_with, starts_with};
use std::rc::Rc;
use vstd::prelude::*;

verus! {

/// Whether an entry name counts: it names a class file, lies outside the
/// archive's metadata directory, and falls under no exclusion prefix.
pub open spec fn passes_filter(name: Seq<char>, excludes: Seq<Seq<char>>) -> bool {
    &&& ".class"@.is_suffix_of(name)
    &&& !"META-INF"@.is_prefix_of(name)
    &&& forall|i: int| 0 <= i < excludes.len() ==> !(#[trigger] excludes[i]).is_prefix_of(name)
}

/// Decides whether the entry `name` is to be recorded.
pub fn filter(name: &str, excludes: &Vec<String>) -> (keep: bool)
    ensures
        keep == passes_filter(name@, excludes.deep_view()),
{
    if !ends_with(name, ".class") {
        return false;
    }
    if starts_with(name, "META-INF") {
        return false;
    }
    let mut i: usize = 0;
    while i < excludes.len()
        invariant
            i <= excludes.len(),
            forall|k: int| 0 <= k < i ==> !(#[trigger] excludes.deep_view()[k]).is_prefix_of(name@),
        decreases excludes.len() - i,
    {
        if starts_with(name, excludes[i].as_str()) {
            assert(excludes.deep_view()[i as int] == excludes[i as int]@);
            return false;
        }
        assert(excludes.deep_view()[i as int] == excludes[i as int]@);
        i = i + 1;
    }
    true
}

/// The index after one entry of the archive labelled `label` was looked at:
/// recorded if it passes the filter, without effect if not.
pub open spec fn observe(
    index: IndexView,
    entry: EntryView,
    label: Seq<char>,
    excludes: Seq<Seq<char>>,
    policy: DistinctFrom,
) -> IndexView {
    if passes_filter(entry.name, excludes) {
        record(index, entry.name, content_identity(entry, policy), label)
    } else {
        index
    }
}

/// The index after all `entries` of the archive labelled `label` were looked
/// at, in their order.
pub open spec fn record_all(
    index: IndexView,
    entries: Seq<EntryView>,
    label: Seq<char>,
    excludes: Seq<Seq<char>>,
    policy: DistinctFrom,
) -> IndexView
    decreases entries.len(),
{
    if entries.len() == 0 {
        index
    } else {
        observe(
            record_all(index, entries.drop_last(), label, excludes, policy),
            entries.last(),
            label,
            excludes,
            policy,
        )
    }
}

/// Looks at the entries of one archive in their order and records those
/// that pass the filter. Nothing is removed and nothing is deduplicated.
pub fn record_entries(
    index: &mut ConflictIndex,
    entries: &Vec<EntryMeta>,
    label: &Rc<String>,
    excludes: &Vec<String>,
    policy: DistinctFrom,
)
    ensures
        final(index)@ == record_all(
            old(index)@,
            entries_view(entries@),
            label@,
            excludes.deep_view(),
            policy,
        ),
{
    let ghost all = entries_view(entries@);
    let mut i: usize = 0;
    while i < entries.len()
        invariant
            i <= entries.len(),
            all == entries_view(entries@),
            index@ == record_all(old(index)@, all.take(i as int), label@, excludes.deep_view(), policy),
        decreases entries.len() - i,
    {
        let entry = &entries[i];
        proof {
            assert(all.take(i + 1).drop_last() =~= all.take(i as int));
            assert(all.take(i + 1).last() == entry@);
        }
        if filter(entry.name.as_str(), excludes) {
            let identity = get_distinct_from(entry, policy);
            index.insert_observation(entry.name.as_str(), identity, label.clone());
        }
        i = i + 1;
    }
    proof {
        assert(all.take(entries.len() as int) =~= all);
    }
}

/// The listing of one archive: its label and the metadata of its entries,
/// in the archive's own order.
pub struct ArchiveListing {
    pub label: Rc<String>,
    pub entries: Vec<EntryMeta>,
}

/// The mathematical value of an [`ArchiveListing`].
pub ghost struct ArchiveView {
    pub label: Seq<char>,
    pub entries: Seq<EntryView>,
}

impl View for ArchiveListing {
    type V = ArchiveView;

    open spec fn view(&self) -> ArchiveView {
        ArchiveView { label: self.label@, entries: entries_view(self.entries@) }
    }
}

/// The values of a run of listings.
pub open spec fn archives_view(archives: Seq<ArchiveListing>) -> Seq<ArchiveView> {
    Seq::new(archives.len(), |i: int| archives[i]@)
}

/// The index of a classpath: the archives are gone through in their order,
/// each one's entries in theirs, starting from the empty index.
pub open spec fn collect_spec(
    archives: Seq<ArchiveView>,
    excludes: Seq<Seq<char>>,
    policy: DistinctFrom,
) -> IndexView
    decreases archives.len(),
{
    if archives.len() == 0 {
        Map::empty()
    } else {
        record_all(
            collect_spec(archives.drop_last(), excludes, policy),
            archives.last().entries,
            archives.last().label,
            excludes,
            policy,
        )
    }
}

/// Builds the index of a classpath from the listings of its archives.
pub fn collect_listings(
    archives: &Vec<ArchiveListing>,
    excludes: &Vec<String>,
    policy: DistinctFrom,
) -> (index: ConflictIndex)
    ensures
        index@ == collect_spec(archives_view(archives@), excludes.deep_view(), policy),
{
    let ghost all = archives_view(archives@);
    let mut index = ConflictIndex::new();
    let mut i: usize = 0;
    while i < archives.len()
        invariant
            i <= archives.len(),
            all == archives_view(archives@),
            index@ == collect_spec(all.take(i as int), excludes.deep_view(), policy),
        decreases archives.len() - i,
    {
        let archive = &archives[i];
        proof {
            assert(all.take(i + 1).drop_last() =~= all.take(i as int));
            assert(all.take(i + 1).last() == archive@);
        }
        record_entries(&mut index, &archive.entries, &archive.label, excludes, policy);
        i = i + 1;
    }
    proof {
        assert(all.take(archives.len() as int) =~= all);
    }
    index
}

} // verus!
