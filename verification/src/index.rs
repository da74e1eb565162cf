//! The conflict index: for every entry name, in lexical order, the
//! content-identity buckets seen for it, each with the labels of the archives
//! that contributed an entry of that name and identity.

use crate::text::{compare_names, lemma_precedes_connected, lemma_precedes_irreflexive,
    lemma_precedes_transitive, precedes, Lexical};
use std::rc::Rc;
use vstd::prelude::*;

verus! {

/// One content-identity bucket of a name: the identity and, in the order in
/// which they were recorded, the labels of the archives that hold it.
pub struct Bucket {
    pub identity: u64,
    pub archives: Vec<Rc<String>>,
}

/// A name of the index with its buckets, in the order in which the
/// identities were first seen.
pub struct NameEntry {
    pub name: String,
    pub buckets: Vec<Bucket>,
}

/// The mathematical value of a [`Bucket`].
pub ghost struct BucketView {
    pub identity: u64,
    pub archives: Seq<Seq<char>>,
}

/// The mathematical value of a [`NameEntry`].
pub ghost struct NameGroup {
    pub name: Seq<char>,
    pub buckets: Seq<BucketView>,
}

/// The index as a mathematical value: entry name to buckets.
pub type IndexView = Map<Seq<char>, Seq<BucketView>>;

impl View for Bucket {
    type V = BucketView;

    open spec fn view(&self) -> BucketView {
        BucketView { identity: self.identity, archives: self.archives.deep_view() }
    }
}

/// The values of a run of buckets.
pub open spec fn buckets_view(buckets: Seq<Bucket>) -> Seq<BucketView> {
    Seq::new(buckets.len(), |i: int| buckets[i]@)
}

impl View for NameEntry {
    type V = NameGroup;

    open spec fn view(&self) -> NameGroup {
        NameGroup { name: self.name@, buckets: buckets_view(self.buckets@) }
    }
}

/// The values of a run of name entries.
pub open spec fn groups_view(entries: Seq<NameEntry>) -> Seq<NameGroup> {
    Seq::new(entries.len(), |i: int| entries[i]@)
}

/// The buckets after one more archive `label` was seen with `identity`: the
/// label joins the first bucket of that identity, or opens a new bucket at
/// the end.
pub open spec fn add_label(buckets: Seq<BucketView>, identity: u64, label: Seq<char>) -> Seq<
    BucketView,
>
    decreases buckets.len(),
{
    if buckets.len() == 0 {
        seq![BucketView { identity, archives: seq![label] }]
    } else if buckets[0].identity == identity {
        buckets.update(0, BucketView { identity, archives: buckets[0].archives.push(label) })
    } else {
        seq![buckets[0]] + add_label(buckets.drop_first(), identity, label)
    }
}

/// The index after the observation "`name` with `identity` in the archive
/// labelled `label`" was recorded: missing levels are created, nothing is
/// removed.
pub open spec fn record(index: IndexView, name: Seq<char>, identity: u64, label: Seq<char>)
    -> IndexView {
    let seen = if index.contains_key(name) {
        index[name]
    } else {
        Seq::<BucketView>::empty()
    };
    index.insert(name, add_label(seen, identity, label))
}

/// Names in strictly increasing lexical order.
pub open spec fn strictly_sorted(groups: Seq<NameGroup>) -> bool {
    forall|i: int, j: int|
        0 <= i < j < groups.len() ==> precedes(#[trigger] groups[i].name, #[trigger] groups[j].name)
}

/// The map that a sorted listing stands for.
pub open spec fn listing_map(groups: Seq<NameGroup>) -> IndexView {
    Map::new(
        |name: Seq<char>| exists|i: int| 0 <= i < groups.len() && #[trigger] groups[i].name == name,
        |name: Seq<char>|
            groups[choose|i: int| 0 <= i < groups.len() && #[trigger] groups[i].name == name].buckets,
    )
}

/// In a sorted listing every name stands at one place only, so the map holds
/// at each listed name the buckets listed with it.
pub proof fn lemma_listing_map_at(groups: Seq<NameGroup>, i: int)
    requires
        strictly_sorted(groups),
        0 <= i < groups.len(),
    ensures
        listing_map(groups).contains_key(groups[i].name),
        listing_map(groups)[groups[i].name] == groups[i].buckets,
{
    let name = groups[i].name;
    let k = choose|k: int| 0 <= k < groups.len() && #[trigger] groups[k].name == name;
    lemma_precedes_irreflexive(name);
    if k < i {
        assert(precedes(groups[k].name, groups[i].name));
    } else if i < k {
        assert(precedes(groups[i].name, groups[k].name));
    }
}

/// Where a name stands in a sorted listing, or where it would have to be put.
enum Place {
    At(usize),
    Gap(usize),
}

/// Binary search for `name` among sorted entries.
fn locate(entries: &Vec<NameEntry>, name: &str) -> (place: Place)
    requires
        strictly_sorted(groups_view(entries@)),
    ensures
        match place {
            Place::At(k) => k < entries.len() && entries[k as int].name@ == name@,
            Place::Gap(k) => {
                &&& k <= entries.len()
                &&& forall|i: int| 0 <= i < k ==> precedes(#[trigger] entries[i].name@, name@)
                &&& forall|i: int|
                    k <= i < entries.len() ==> precedes(name@, #[trigger] entries[i].name@)
            },
        },
{
    let ghost groups = groups_view(entries@);
    let mut low: usize = 0;
    let mut high: usize = entries.len();
    while low < high
        invariant
            groups == groups_view(entries@),
            strictly_sorted(groups),
            low <= high <= entries.len(),
            forall|i: int| 0 <= i < low ==> precedes(#[trigger] entries[i].name@, name@),
            forall|i: int| high <= i < entries.len() ==> precedes(name@, #[trigger] entries[i].name@),
        decreases high - low,
    {
        let mid = low + (high - low) / 2;
        match compare_names(entries[mid].name.as_str(), name) {
            Lexical::Same => {
                return Place::At(mid);
            },
            Lexical::Before => {
                assert forall|i: int| 0 <= i < mid + 1 implies precedes(
                    #[trigger] entries[i].name@,
                    name@,
                ) by {
                    if i < mid {
                        assert(precedes(groups[i].name, groups[mid as int].name));
                        lemma_precedes_transitive(entries[i].name@, entries[mid as int].name@, name@);
                    }
                }
                low = mid + 1;
            },
            Lexical::After => {
                proof {
                    lemma_precedes_connected(entries[mid as int].name@, name@);
                }
                assert forall|i: int| mid <= i < entries.len() implies precedes(
                    name@,
                    #[trigger] entries[i].name@,
                ) by {
                    if mid < i {
                        assert(precedes(groups[mid as int].name, groups[i].name));
                        lemma_precedes_transitive(name@, entries[mid as int].name@, entries[i].name@);
                    }
                }
                high = mid;
            },
        }
    }
    Place::Gap(low)
}

/// Adds `archive` to the bucket of `identity`, opening the bucket if it is
/// not there yet.
fn add_to_buckets(buckets: &mut Vec<Bucket>, identity: u64, archive: Rc<String>)
    ensures
        buckets_view(final(buckets)@) == add_label(buckets_view(old(buckets)@), identity, archive@),
{
    let ghost before = buckets_view(buckets@);
    let mut j: usize = 0;
    proof {
        assert(before.skip(0) =~= before);
        assert(before.take(0) + add_label(before, identity, archive@) =~= add_label(
            before,
            identity,
            archive@,
        ));
    }
    while j < buckets.len()
        invariant
            j <= buckets.len(),
            buckets_view(buckets@) == before,
            buckets@ == old(buckets)@,
            forall|i: int| 0 <= i < j ==> before[i].identity != identity,
            add_label(before, identity, archive@) == before.take(j as int) + add_label(
                before.skip(j as int),
                identity,
                archive@,
            ),
        decreases buckets.len() - j,
    {
        if buckets[j].identity == identity {
            let ghost rest = before.skip(j as int);
            let bucket = &mut buckets[j];
            bucket.archives.push(archive);
            proof {
                assert(rest[0] == before[j as int]);
                assert(buckets@[j as int].archives.deep_view() =~= rest[0].archives.push(archive@));
                assert forall|i: int| 0 <= i < buckets.len() && i != j implies buckets_view(
                    buckets@,
                )[i] == before[i] by {
                    assert(buckets@[i] == old(buckets)@[i]);
                }
                assert(buckets_view(buckets@) =~= before.take(j as int) + rest.update(
                    0,
                    BucketView { identity, archives: rest[0].archives.push(archive@) },
                ));
            }
            return ;
        }
        proof {
            let rest = before.skip(j as int);
            assert(rest.drop_first() =~= before.skip(j + 1));
            assert(before.take(j + 1) =~= before.take(j as int) + seq![rest[0]]);
            assert(before.take(j as int) + (seq![rest[0]] + add_label(
                rest.drop_first(),
                identity,
                archive@,
            )) =~= before.take(j + 1) + add_label(before.skip(j + 1), identity, archive@));
        }
        j = j + 1;
    }
    let mut archives: Vec<Rc<String>> = Vec::new();
    archives.push(archive);
    assert(archives.deep_view() =~= seq![archive@]);
    buckets.push(Bucket { identity, archives });
    proof {
        assert(add_label(Seq::<BucketView>::empty(), identity, archive@) =~= seq![
            BucketView { identity, archives: seq![archive@] },
        ]);
        assert(before.skip(before.len() as int) =~= Seq::<BucketView>::empty());
        assert(buckets_view(buckets@) =~= before.take(before.len() as int) + seq![
            BucketView { identity, archives: seq![archive@] },
        ]);
    }
}

/// Replacing the buckets listed with a name replaces them in the map and
/// keeps the listing sorted.
proof fn lemma_listing_update(groups: Seq<NameGroup>, k: int, buckets: Seq<BucketView>)
    requires
        strictly_sorted(groups),
        0 <= k < groups.len(),
    ensures
        strictly_sorted(groups.update(k, NameGroup { name: groups[k].name, buckets })),
        listing_map(groups.update(k, NameGroup { name: groups[k].name, buckets })) == listing_map(
            groups,
        ).insert(groups[k].name, buckets),
{
    let name = groups[k].name;
    let after = groups.update(k, NameGroup { name, buckets });
    assert forall|i: int, j: int| 0 <= i < j < after.len() implies precedes(
        #[trigger] after[i].name,
        #[trigger] after[j].name,
    ) by {
        assert(precedes(groups[i].name, groups[j].name));
    }
    let expected = listing_map(groups).insert(name, buckets);
    assert forall|n: Seq<char>| #[trigger] listing_map(after).contains_key(n) implies expected.contains_key(n)
        && expected[n] == listing_map(after)[n] by {
        let i = choose|i: int| 0 <= i < after.len() && #[trigger] after[i].name == n;
        lemma_listing_map_at(after, i);
        assert(groups[i].name == n);
        lemma_listing_map_at(groups, i);
        lemma_listing_map_at(groups, k);
        if i != k {
            lemma_precedes_irreflexive(n);
            if i < k {
                assert(precedes(groups[i].name, groups[k].name));
            } else {
                assert(precedes(groups[k].name, groups[i].name));
            }
        }
    }
    assert forall|n: Seq<char>| #[trigger] expected.contains_key(n) implies listing_map(
        after,
    ).contains_key(n) by {
        if n == name {
            assert(after[k].name == n);
        } else {
            let i = choose|i: int| 0 <= i < groups.len() && #[trigger] groups[i].name == n;
            assert(after[i].name == n);
        }
    }
    assert(listing_map(after) =~= expected);
}

/// Putting a new name into its gap adds it to the map and keeps the listing
/// sorted.
proof fn lemma_listing_insert(groups: Seq<NameGroup>, k: int, group: NameGroup)
    requires
        strictly_sorted(groups),
        0 <= k <= groups.len(),
        forall|i: int| 0 <= i < k ==> precedes(#[trigger] groups[i].name, group.name),
        forall|i: int| k <= i < groups.len() ==> precedes(group.name, #[trigger] groups[i].name),
    ensures
        strictly_sorted(groups.insert(k, group)),
        !listing_map(groups).contains_key(group.name),
        listing_map(groups.insert(k, group)) == listing_map(groups).insert(
            group.name,
            group.buckets,
        ),
{
    let after = groups.insert(k, group);
    assert forall|i: int, j: int| 0 <= i < j < after.len() implies precedes(
        #[trigger] after[i].name,
        #[trigger] after[j].name,
    ) by {
        if j < k {
            assert(precedes(groups[i].name, groups[j].name));
        } else if j == k {
            assert(precedes(groups[i].name, group.name));
        } else if i < k {
            assert(precedes(groups[i].name, groups[j - 1].name));
        } else if i == k {
            assert(precedes(group.name, groups[j - 1].name));
        } else {
            assert(precedes(groups[i - 1].name, groups[j - 1].name));
        }
    }
    if listing_map(groups).contains_key(group.name) {
        let i = choose|i: int| 0 <= i < groups.len() && #[trigger] groups[i].name == group.name;
        lemma_precedes_irreflexive(group.name);
    }
    let expected = listing_map(groups).insert(group.name, group.buckets);
    assert forall|n: Seq<char>| #[trigger] listing_map(after).contains_key(n) implies expected.contains_key(n)
        && expected[n] == listing_map(after)[n] by {
        let i = choose|i: int| 0 <= i < after.len() && #[trigger] after[i].name == n;
        lemma_listing_map_at(after, i);
        if i < k {
            assert(groups[i].name == n);
            lemma_listing_map_at(groups, i);
        } else if i > k {
            assert(groups[i - 1].name == n);
            lemma_listing_map_at(groups, i - 1);
        }
    }
    assert forall|n: Seq<char>| #[trigger] expected.contains_key(n) implies listing_map(
        after,
    ).contains_key(n) by {
        if n == group.name {
            assert(after[k].name == n);
        } else {
            let i = choose|i: int| 0 <= i < groups.len() && #[trigger] groups[i].name == n;
            if i < k {
                assert(after[i].name == n);
            } else {
                assert(after[i + 1].name == n);
            }
        }
    }
    assert(listing_map(after) =~= expected);
}

/// The index. Its names are kept in strictly increasing lexical order, so a
/// walk over [`ConflictIndex::entries`] is deterministic.
pub struct ConflictIndex {
    entries: Vec<NameEntry>,
}

impl View for ConflictIndex {
    type V = IndexView;

    closed spec fn view(&self) -> IndexView {
        listing_map(groups_view(self.entries@))
    }
}

impl ConflictIndex {
    #[verifier::type_invariant]
    spec fn names_ascend(self) -> bool {
        strictly_sorted(groups_view(self.entries@))
    }

    /// The empty index.
    pub fn new() -> (index: Self)
        ensures
            index@ == Map::<Seq<char>, Seq<BucketView>>::empty(),
    {
        let index = ConflictIndex { entries: Vec::new() };
        assert(index@ =~= Map::<Seq<char>, Seq<BucketView>>::empty());
        index
    }

    /// The names of the index with their buckets, in lexical order of the
    /// names. The listing is sorted and stands for exactly the index's map.
    pub fn entries(&self) -> (listing: &Vec<NameEntry>)
        ensures
            strictly_sorted(groups_view(listing@)),
            self@ == listing_map(groups_view(listing@)),
    {
        proof {
            use_type_invariant(self);
        }
        &self.entries
    }

    /// Records that `name` was seen with `identity` in the archive labelled
    /// `archive`: the bucket of the name and the sub-bucket of the identity
    /// are found or made, and the label is appended to the sub-bucket.
    pub fn insert_observation(&mut self, name: &str, identity: u64, archive: Rc<String>)
        ensures
            final(self)@ == record(old(self)@, name@, identity, archive@),
    {
        proof {
            use_type_invariant(&*self);
        }
        let mut entries: Vec<NameEntry> = Vec::new();
        std::mem::swap(&mut entries, &mut self.entries);
        let ghost groups = groups_view(entries@);
        match locate(&entries, name) {
            Place::At(k) => {
                let entry = &mut entries[k];
                add_to_buckets(&mut entry.buckets, identity, archive);
                proof {
                    lemma_listing_map_at(groups, k as int);
                    let buckets = add_label(groups[k as int].buckets, identity, archive@);
                    lemma_listing_update(groups, k as int, buckets);
                    assert(groups_view(entries@) =~= groups.update(
                        k as int,
                        NameGroup { name: name@, buckets },
                    ));
                }
            },
            Place::Gap(k) => {
                let mut buckets: Vec<Bucket> = Vec::new();
                add_to_buckets(&mut buckets, identity, archive);
                let entry = NameEntry { name: name.to_owned(), buckets };
                let ghost group = entry@;
                entries.insert(k, entry);
                proof {
                    assert(buckets_view(Seq::<Bucket>::empty()) =~= Seq::<BucketView>::empty());
                    lemma_listing_insert(groups, k as int, group);
                    assert(groups_view(entries@) =~= groups.insert(k as int, group));
                }
            },
        }
        self.entries = entries;
    }
}

} // verus!
