//! The conflict reporter: which names of a finished index are conflicts
//! under the run's policy, and the ordered report of them.

use crate::index::{groups_view, lemma_listing_map_at, listing_map, strictly_sorted, Bucket,
    BucketView, ConflictIndex, IndexView, NameEntry, NameGroup, buckets_view};
use crate::policy::{DistinctFrom, DISTINCT_FROM_NONE};
use crate::text::precedes;
use vstd::prelude::*;

verus! {

/// How many archive labels the buckets of a name hold, all identities
/// together.
pub open spec fn total_archives(buckets: Seq<BucketView>) -> nat
    decreases buckets.len(),
{
    if buckets.len() == 0 {
        0
    } else {
        total_archives(buckets.drop_last()) + buckets.last().archives.len()
    }
}

/// How many archive labels the sentinel bucket holds: the first bucket whose
/// identity is the sentinel. Zero where there is none.
pub open spec fn sentinel_archives(buckets: Seq<BucketView>) -> nat
    decreases buckets.len(),
{
    if buckets.len() == 0 {
        0
    } else if buckets[0].identity == DISTINCT_FROM_NONE {
        buckets[0].archives.len()
    } else {
        sentinel_archives(buckets.drop_first())
    }
}

/// Whether a name with these buckets is a conflict. With content ignored
/// only the sentinel bucket is looked at, and it must hold two labels or
/// more. Otherwise the name must have been seen twice or more, under
/// whatever identities.
pub open spec fn reportable(buckets: Seq<BucketView>, policy: DistinctFrom) -> bool {
    match policy {
        DistinctFrom::Nothing => sentinel_archives(buckets) >= 2,
        _ => total_archives(buckets) >= 2,
    }
}

/// The part of the index that is reported: the reportable names, each with
/// all its buckets.
pub open spec fn report_spec(index: IndexView, policy: DistinctFrom) -> IndexView {
    Map::new(
        |name: Seq<char>| index.contains_key(name) && reportable(index[name], policy),
        |name: Seq<char>| index[name],
    )
}

/// A leading part of the buckets holds no more labels than all of them.
proof fn lemma_total_archives_grows(buckets: Seq<BucketView>, upto: int)
    requires
        0 <= upto <= buckets.len(),
    ensures
        total_archives(buckets.take(upto)) <= total_archives(buckets),
    decreases buckets.len(),
{
    if upto == buckets.len() {
        assert(buckets.take(upto) =~= buckets);
    } else {
        assert(buckets.drop_last().take(upto) =~= buckets.take(upto));
        lemma_total_archives_grows(buckets.drop_last(), upto);
    }
}

/// Decides whether a name with these buckets is a conflict under `policy`.
pub fn is_reportable(buckets: &Vec<Bucket>, policy: DistinctFrom) -> (conflict: bool)
    ensures
        conflict == reportable(buckets_view(buckets@), policy),
{
    let ghost all = buckets_view(buckets@);
    match policy {
        DistinctFrom::Nothing => {
            let mut j: usize = 0;
            assert(all.skip(0) =~= all);
            while j < buckets.len()
                invariant
                    j <= buckets.len(),
                    all == buckets_view(buckets@),
                    policy == DistinctFrom::Nothing,
                    sentinel_archives(all) == sentinel_archives(all.skip(j as int)),
                decreases buckets.len() - j,
            {
                if buckets[j].identity == DISTINCT_FROM_NONE {
                    assert(all.skip(j as int)[0] == buckets[j as int]@);
                    assert(buckets[j as int]@.archives.len() == buckets[j as int].archives.len());
                    return buckets[j].archives.len() >= 2;
                }
                proof {
                    assert(all.skip(j as int)[0] == buckets[j as int]@);
                    assert(all.skip(j as int).drop_first() =~= all.skip(j + 1));
                }
                j = j + 1;
            }
            false
        },
        _ => {
            let mut seen: usize = 0;
            let mut j: usize = 0;
            assert(all.take(0) =~= Seq::<BucketView>::empty());
            while j < buckets.len()
                invariant
                    j <= buckets.len(),
                    all == buckets_view(buckets@),
                    policy != DistinctFrom::Nothing,
                    seen == total_archives(all.take(j as int)),
                    seen < 2,
                decreases buckets.len() - j,
            {
                let here = buckets[j].archives.len();
                proof {
                    assert(all.take(j + 1).drop_last() =~= all.take(j as int));
                    assert(all.take(j + 1).last() == buckets[j as int]@);
                    assert(buckets[j as int]@.archives.len() == here);
                    lemma_total_archives_grows(all, j + 1);
                }
                if here >= 2 {
                    return true;
                }
                seen = seen + here;
                if seen >= 2 {
                    return true;
                }
                j = j + 1;
            }
            proof {
                assert(all.take(buckets.len() as int) =~= all);
            }
            false
        },
    }
}

/// The values of a run of borrowed name entries.
pub open spec fn report_view(lines: Seq<&NameEntry>) -> Seq<NameGroup> {
    Seq::new(lines.len(), |i: int| lines[i]@)
}

/// Produces the report: the reportable names in lexical order, each with its
/// buckets and their archive lists as the index holds them. The result is
/// sorted and stands for exactly the reported part of the index, which fixes
/// it line by line.
pub fn report<'a>(index: &'a ConflictIndex, policy: DistinctFrom) -> (lines: Vec<&'a NameEntry>)
    ensures
        strictly_sorted(report_view(lines@)),
        listing_map(report_view(lines@)) == report_spec(index@, policy),
{
    let entries = index.entries();
    let ghost groups = groups_view(entries@);
    let mut lines: Vec<&'a NameEntry> = Vec::new();
    let ghost mut picked: Seq<int> = Seq::empty();
    let mut i: usize = 0;
    while i < entries.len()
        invariant
            i <= entries.len(),
            groups == groups_view(entries@),
            strictly_sorted(groups),
            picked.len() == lines.len(),
            forall|j: int| 0 <= j < picked.len() ==> 0 <= #[trigger] picked[j] < i,
            forall|j: int|
                0 <= j < picked.len() ==> report_view(lines@)[j] == groups[#[trigger] picked[j]],
            forall|j: int|
                0 <= j < picked.len() ==> reportable(groups[#[trigger] picked[j]].buckets, policy),
            forall|k: int|
                0 <= k < i && reportable((#[trigger] groups[k]).buckets, policy) ==> picked.contains(k),
            strictly_sorted(report_view(lines@)),
        decreases entries.len() - i,
    {
        let entry = &entries[i];
        if is_reportable(&entry.buckets, policy) {
            let ghost before = report_view(lines@);
            let ghost chosen = picked;
            lines.push(entry);
            proof {
                picked = picked.push(i as int);
                let after = report_view(lines@);
                assert(after =~= before.push(groups[i as int]));
                assert forall|a: int, b: int| 0 <= a < b < after.len() implies precedes(
                    #[trigger] after[a].name,
                    #[trigger] after[b].name,
                ) by {
                    if b < before.len() {
                        assert(precedes(before[a].name, before[b].name));
                    } else {
                        assert(before[a] == groups[chosen[a]]);
                        assert(precedes(groups[chosen[a]].name, groups[i as int].name));
                    }
                }
                assert forall|k: int|
                    0 <= k < i + 1 && reportable((#[trigger] groups[k]).buckets, policy) implies picked.contains(
                    k,
                ) by {
                    if k < i {
                        assert(chosen.contains(k));
                        let j = choose|j: int| 0 <= j < chosen.len() && chosen[j] == k;
                        assert(picked[j] == k);
                    } else {
                        assert(picked[picked.len() - 1] == k);
                    }
                }
            }
        }
        i = i + 1;
    }
    proof {
        let shown = report_view(lines@);
        let expected = report_spec(index@, policy);
        assert forall|name: Seq<char>| #[trigger] listing_map(shown).contains_key(name) implies expected.contains_key(name)
            && expected[name] == listing_map(shown)[name] by {
            let j = choose|j: int| 0 <= j < shown.len() && #[trigger] shown[j].name == name;
            lemma_listing_map_at(shown, j);
            assert(shown[j] == groups[picked[j]]);
            lemma_listing_map_at(groups, picked[j]);
        }
        assert forall|name: Seq<char>| #[trigger] expected.contains_key(name) implies listing_map(
            shown,
        ).contains_key(name) by {
            let k = choose|k: int| 0 <= k < groups.len() && #[trigger] groups[k].name == name;
            lemma_listing_map_at(groups, k);
            assert(picked.contains(k));
            let j = choose|j: int| 0 <= j < picked.len() && picked[j] == k;
            assert(shown[j].name == name);
        }
        assert(listing_map(shown) =~= expected);
    }
    lines
}

} // verus!
