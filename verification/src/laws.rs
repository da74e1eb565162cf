//! What holds of every run: when a name is reported, what an exclusion
//! prefix does, and what the order of prefixes and archives cannot change.

use crate::collector::{collect_spec, observe, passes_filter, record_all, ArchiveView};
use crate::index::{add_label, BucketView, IndexView};
use crate::policy::{content_identity, DistinctFrom, EntryView, DISTINCT_FROM_NONE};
use crate::report::{report_spec, sentinel_archives, total_archives};
use vstd::multiset::Multiset;
use vstd::prelude::*;

verus! {

/// Whether `entry` is an observation of `name`: it bears the name and passes
/// the filter.
pub open spec fn observes(entry: EntryView, excludes: Seq<Seq<char>>, name: Seq<char>) -> bool {
    entry.name == name && passes_filter(name, excludes)
}

/// How often `name` is observed among the entries of one archive.
pub open spec fn occurrences_in(entries: Seq<EntryView>, excludes: Seq<Seq<char>>, name: Seq<char>)
    -> nat
    decreases entries.len(),
{
    if entries.len() == 0 {
        0
    } else {
        occurrences_in(entries.drop_last(), excludes, name) + if observes(
            entries.last(),
            excludes,
            name,
        ) {
            1nat
        } else {
            0nat
        }
    }
}

/// How often `name` is observed in the whole classpath.
pub open spec fn occurrences(archives: Seq<ArchiveView>, excludes: Seq<Seq<char>>, name: Seq<char>)
    -> nat
    decreases archives.len(),
{
    if archives.len() == 0 {
        0
    } else {
        occurrences(archives.drop_last(), excludes, name) + occurrences_in(
            archives.last().entries,
            excludes,
            name,
        )
    }
}

/// In how many archives of the classpath `name` is observed at least once.
pub open spec fn holders(archives: Seq<ArchiveView>, excludes: Seq<Seq<char>>, name: Seq<char>)
    -> nat
    decreases archives.len(),
{
    if archives.len() == 0 {
        0
    } else {
        holders(archives.drop_last(), excludes, name) + if occurrences_in(
            archives.last().entries,
            excludes,
            name,
        ) > 0 {
            1nat
        } else {
            0nat
        }
    }
}

/// How many archive labels the index holds for `name`, all buckets together.
pub open spec fn labels_seen(index: IndexView, name: Seq<char>) -> nat {
    if index.contains_key(name) {
        total_archives(index[name])
    } else {
        0
    }
}

/// Whether a run over `archives` reports `name`.
pub open spec fn reported(
    archives: Seq<ArchiveView>,
    excludes: Seq<Seq<char>>,
    policy: DistinctFrom,
    name: Seq<char>,
) -> bool {
    report_spec(collect_spec(archives, excludes, policy), policy).contains_key(name)
}

/// The labels of a bucket put in front of others count with theirs.
proof fn lemma_total_archives_cons(first: BucketView, rest: Seq<BucketView>)
    ensures
        total_archives(seq![first] + rest) == first.archives.len() + total_archives(rest),
    decreases rest.len(),
{
    let all = seq![first] + rest;
    if rest.len() == 0 {
        assert(all.drop_last() =~= Seq::<BucketView>::empty());
        assert(all.last() == first);
        assert(total_archives(all.drop_last()) == 0);
        assert(total_archives(rest) == 0);
    } else {
        assert(all.drop_last() =~= seq![first] + rest.drop_last());
        assert(all.last() == rest.last());
        lemma_total_archives_cons(first, rest.drop_last());
    }
}

/// Recording one observation adds one label, whichever bucket takes it.
proof fn lemma_add_label_counts_one(buckets: Seq<BucketView>, identity: u64, label: Seq<char>)
    ensures
        total_archives(add_label(buckets, identity, label)) == total_archives(buckets) + 1,
    decreases buckets.len(),
{
    if buckets.len() == 0 {
        let made = BucketView { identity, archives: seq![label] };
        lemma_total_archives_cons(made, Seq::<BucketView>::empty());
        assert(seq![made] + Seq::<BucketView>::empty() =~= seq![made]);
        assert(add_label(buckets, identity, label) =~= seq![made]);
    } else {
        let rest = buckets.drop_first();
        assert(buckets =~= seq![buckets[0]] + rest);
        lemma_total_archives_cons(buckets[0], rest);
        if buckets[0].identity == identity {
            let grown = BucketView { identity, archives: buckets[0].archives.push(label) };
            assert(buckets.update(0, grown) =~= seq![grown] + rest);
            lemma_total_archives_cons(grown, rest);
        } else {
            lemma_add_label_counts_one(rest, identity, label);
            lemma_total_archives_cons(buckets[0], add_label(rest, identity, label));
        }
    }
}

/// Going through the entries of an archive adds to the labels of a name one
/// for each observation of it, and makes the name known exactly when it was
/// known before or is observed.
proof fn lemma_record_all_counts(
    index: IndexView,
    entries: Seq<EntryView>,
    label: Seq<char>,
    excludes: Seq<Seq<char>>,
    policy: DistinctFrom,
    name: Seq<char>,
)
    ensures
        labels_seen(record_all(index, entries, label, excludes, policy), name) == labels_seen(
            index,
            name,
        ) + occurrences_in(entries, excludes, name),
        record_all(index, entries, label, excludes, policy).contains_key(name) <==> (
        index.contains_key(name) || occurrences_in(entries, excludes, name) > 0),
    decreases entries.len(),
{
    if entries.len() > 0 {
        let before = record_all(index, entries.drop_last(), label, excludes, policy);
        lemma_record_all_counts(index, entries.drop_last(), label, excludes, policy, name);
        let entry = entries.last();
        if passes_filter(entry.name, excludes) {
            let seen = if before.contains_key(entry.name) {
                before[entry.name]
            } else {
                Seq::<BucketView>::empty()
            };
            lemma_add_label_counts_one(seen, content_identity(entry, policy), label);
        }
    }
}

/// The index of a classpath holds for each name as many labels as the name is
/// observed, and knows exactly the names that are observed.
pub proof fn lemma_collect_counts(
    archives: Seq<ArchiveView>,
    excludes: Seq<Seq<char>>,
    policy: DistinctFrom,
    name: Seq<char>,
)
    ensures
        labels_seen(collect_spec(archives, excludes, policy), name) == occurrences(
            archives,
            excludes,
            name,
        ),
        collect_spec(archives, excludes, policy).contains_key(name) <==> occurrences(
            archives,
            excludes,
            name,
        ) > 0,
    decreases archives.len(),
{
    if archives.len() > 0 {
        lemma_collect_counts(archives.drop_last(), excludes, policy, name);
        lemma_record_all_counts(
            collect_spec(archives.drop_last(), excludes, policy),
            archives.last().entries,
            archives.last().label,
            excludes,
            policy,
            name,
        );
    }
}

/// Buckets as they are when content is ignored: at most the one sentinel
/// bucket.
spec fn sentinel_only(buckets: Seq<BucketView>) -> bool {
    buckets.len() == 0 || (buckets.len() == 1 && buckets[0].identity == DISTINCT_FROM_NONE)
}

/// An index all of whose names have at most the one sentinel bucket.
spec fn all_sentinel_only(index: IndexView) -> bool {
    forall|name: Seq<char>| index.contains_key(name) ==> sentinel_only(#[trigger] index[name])
}

/// With content ignored every observation goes to the sentinel bucket.
proof fn lemma_record_all_sentinel_only(
    index: IndexView,
    entries: Seq<EntryView>,
    label: Seq<char>,
    excludes: Seq<Seq<char>>,
)
    requires
        all_sentinel_only(index),
    ensures
        all_sentinel_only(record_all(index, entries, label, excludes, DistinctFrom::Nothing)),
    decreases entries.len(),
{
    if entries.len() > 0 {
        let before = record_all(index, entries.drop_last(), label, excludes, DistinctFrom::Nothing);
        lemma_record_all_sentinel_only(index, entries.drop_last(), label, excludes);
        let entry = entries.last();
        let after = observe(before, entry, label, excludes, DistinctFrom::Nothing);
        if passes_filter(entry.name, excludes) {
            let seen = if before.contains_key(entry.name) {
                before[entry.name]
            } else {
                Seq::<BucketView>::empty()
            };
            assert(sentinel_only(seen));
            let grown = add_label(seen, DISTINCT_FROM_NONE, label);
            if seen.len() == 1 {
                assert(seen.drop_first().len() == 0);
            }
            assert(sentinel_only(grown));
            assert forall|name: Seq<char>| after.contains_key(name) implies sentinel_only(
                #[trigger] after[name],
            ) by {
                if name != entry.name {
                    assert(before.contains_key(name));
                    assert(after[name] == before[name]);
                }
            }
        }
    }
}

/// With content ignored the index of a classpath has at most the sentinel
/// bucket under each name.
proof fn lemma_collect_sentinel_only(archives: Seq<ArchiveView>, excludes: Seq<Seq<char>>)
    ensures
        all_sentinel_only(collect_spec(archives, excludes, DistinctFrom::Nothing)),
    decreases archives.len(),
{
    if archives.len() > 0 {
        lemma_collect_sentinel_only(archives.drop_last(), excludes);
        lemma_record_all_sentinel_only(
            collect_spec(archives.drop_last(), excludes, DistinctFrom::Nothing),
            archives.last().entries,
            archives.last().label,
            excludes,
        );
    }
}

/// Where there is at most the sentinel bucket, it holds all the labels.
proof fn lemma_sentinel_holds_all(buckets: Seq<BucketView>)
    requires
        sentinel_only(buckets),
    ensures
        sentinel_archives(buckets) == total_archives(buckets),
{
    if buckets.len() == 1 {
        assert(buckets.drop_last().len() == 0);
        assert(total_archives(buckets.drop_last()) == 0);
    }
}

/// Under every policy a name is reported exactly when it is observed twice
/// or more in the classpath, in whatever archives and with whatever content.
pub proof fn law_reported_iff_observed_twice(
    archives: Seq<ArchiveView>,
    excludes: Seq<Seq<char>>,
    policy: DistinctFrom,
    name: Seq<char>,
)
    ensures
        reported(archives, excludes, policy, name) <==> occurrences(archives, excludes, name) >= 2,
{
    let index = collect_spec(archives, excludes, policy);
    lemma_collect_counts(archives, excludes, policy, name);
    if policy == DistinctFrom::Nothing {
        lemma_collect_sentinel_only(archives, excludes);
        if index.contains_key(name) {
            lemma_sentinel_holds_all(index[name]);
        }
    }
}

/// A name is held by no more archives than it is observed times, and by one
/// at least where it is observed at all.
pub proof fn lemma_holders_and_occurrences(
    archives: Seq<ArchiveView>,
    excludes: Seq<Seq<char>>,
    name: Seq<char>,
)
    ensures
        holders(archives, excludes, name) <= occurrences(archives, excludes, name),
        occurrences(archives, excludes, name) > 0 ==> holders(archives, excludes, name) > 0,
    decreases archives.len(),
{
    if archives.len() > 0 {
        lemma_holders_and_occurrences(archives.drop_last(), excludes, name);
    }
}

/// With content ignored, a name is reported exactly when two or more of the
/// input archives hold it after filtering. The one exception is left out: a
/// name that a single archive holds more than once, and no other archive
/// holds, is reported on the strength of that archive alone.
pub proof fn law_name_only_conflicts(
    archives: Seq<ArchiveView>,
    excludes: Seq<Seq<char>>,
    name: Seq<char>,
)
    requires
        !(holders(archives, excludes, name) == 1 && occurrences(archives, excludes, name) >= 2),
    ensures
        reported(archives, excludes, DistinctFrom::Nothing, name) <==> holders(
            archives,
            excludes,
            name,
        ) >= 2,
{
    law_reported_iff_observed_twice(archives, excludes, DistinctFrom::Nothing, name);
    lemma_holders_and_occurrences(archives, excludes, name);
}

/// With content told apart by size or by checksum, a name is reported
/// exactly when two or more of the input archives hold it, whether its
/// content is the same everywhere or not. The one exception is left out as
/// in [`law_name_only_conflicts`].
pub proof fn law_content_conflicts(
    archives: Seq<ArchiveView>,
    excludes: Seq<Seq<char>>,
    policy: DistinctFrom,
    name: Seq<char>,
)
    requires
        policy != DistinctFrom::Nothing,
        !(holders(archives, excludes, name) == 1 && occurrences(archives, excludes, name) >= 2),
    ensures
        reported(archives, excludes, policy, name) <==> holders(archives, excludes, name) >= 2,
{
    law_reported_iff_observed_twice(archives, excludes, policy, name);
    lemma_holders_and_occurrences(archives, excludes, name);
}

/// An observation at a known place counts.
proof fn lemma_occurrence_counts(
    entries: Seq<EntryView>,
    excludes: Seq<Seq<char>>,
    name: Seq<char>,
    at: int,
)
    requires
        0 <= at < entries.len(),
        observes(entries[at], excludes, name),
    ensures
        occurrences_in(entries, excludes, name) >= 1,
    decreases entries.len(),
{
    if at < entries.len() - 1 {
        lemma_occurrence_counts(entries.drop_last(), excludes, name, at);
    }
}

/// Two observations at different places count twice.
proof fn lemma_two_occurrences_count(
    entries: Seq<EntryView>,
    excludes: Seq<Seq<char>>,
    name: Seq<char>,
    first: int,
    second: int,
)
    requires
        0 <= first < second < entries.len(),
        observes(entries[first], excludes, name),
        observes(entries[second], excludes, name),
    ensures
        occurrences_in(entries, excludes, name) >= 2,
    decreases entries.len(),
{
    if second < entries.len() - 1 {
        lemma_two_occurrences_count(entries.drop_last(), excludes, name, first, second);
    } else {
        lemma_occurrence_counts(entries.drop_last(), excludes, name, first);
    }
}

/// What one archive observes, the classpath observes.
proof fn lemma_archive_counts(
    archives: Seq<ArchiveView>,
    excludes: Seq<Seq<char>>,
    name: Seq<char>,
    at: int,
)
    requires
        0 <= at < archives.len(),
    ensures
        occurrences(archives, excludes, name) >= occurrences_in(
            archives[at].entries,
            excludes,
            name,
        ),
    decreases archives.len(),
{
    if at < archives.len() - 1 {
        lemma_archive_counts(archives.drop_last(), excludes, name, at);
    }
}

/// What two different archives observe, the classpath observes together.
proof fn lemma_two_archives_count(
    archives: Seq<ArchiveView>,
    excludes: Seq<Seq<char>>,
    name: Seq<char>,
    first: int,
    second: int,
)
    requires
        0 <= first < second < archives.len(),
    ensures
        occurrences(archives, excludes, name) >= occurrences_in(
            archives[first].entries,
            excludes,
            name,
        ) + occurrences_in(archives[second].entries, excludes, name),
    decreases archives.len(),
{
    if second < archives.len() - 1 {
        lemma_two_archives_count(archives.drop_last(), excludes, name, first, second);
    } else {
        lemma_archive_counts(archives.drop_last(), excludes, name, first);
    }
}

/// With content told apart by size or by checksum, a name that is observed
/// with two different content identities is always reported. The two
/// observations are given by their places: archive and entry.
pub proof fn law_differing_content_is_reported(
    archives: Seq<ArchiveView>,
    excludes: Seq<Seq<char>>,
    policy: DistinctFrom,
    name: Seq<char>,
    archive_a: int,
    entry_a: int,
    archive_b: int,
    entry_b: int,
)
    requires
        policy != DistinctFrom::Nothing,
        0 <= archive_a < archives.len(),
        0 <= entry_a < archives[archive_a].entries.len(),
        0 <= archive_b < archives.len(),
        0 <= entry_b < archives[archive_b].entries.len(),
        observes(archives[archive_a].entries[entry_a], excludes, name),
        observes(archives[archive_b].entries[entry_b], excludes, name),
        content_identity(archives[archive_a].entries[entry_a], policy) != content_identity(
            archives[archive_b].entries[entry_b],
            policy,
        ),
    ensures
        reported(archives, excludes, policy, name),
{
    law_reported_iff_observed_twice(archives, excludes, policy, name);
    let entries_a = archives[archive_a].entries;
    let entries_b = archives[archive_b].entries;
    if archive_a == archive_b {
        if entry_a < entry_b {
            lemma_two_occurrences_count(entries_a, excludes, name, entry_a, entry_b);
        } else {
            lemma_two_occurrences_count(entries_a, excludes, name, entry_b, entry_a);
        }
        lemma_archive_counts(archives, excludes, name, archive_a);
    } else {
        lemma_occurrence_counts(entries_a, excludes, name, entry_a);
        lemma_occurrence_counts(entries_b, excludes, name, entry_b);
        if archive_a < archive_b {
            lemma_two_archives_count(archives, excludes, name, archive_a, archive_b);
        } else {
            lemma_two_archives_count(archives, excludes, name, archive_b, archive_a);
        }
    }
}

/// A name that the filter refuses is never observed.
proof fn lemma_refused_name_is_not_observed(
    archives: Seq<ArchiveView>,
    excludes: Seq<Seq<char>>,
    name: Seq<char>,
)
    requires
        !passes_filter(name, excludes),
    ensures
        occurrences(archives, excludes, name) == 0,
    decreases archives.len(),
{
    if archives.len() > 0 {
        lemma_refused_name_is_not_observed(archives.drop_last(), excludes, name);
        lemma_refused_entries(archives.last().entries, excludes, name);
    }
}

/// A name that the filter refuses is observed in no archive.
proof fn lemma_refused_entries(entries: Seq<EntryView>, excludes: Seq<Seq<char>>, name: Seq<char>)
    requires
        !passes_filter(name, excludes),
    ensures
        occurrences_in(entries, excludes, name) == 0,
    decreases entries.len(),
{
    if entries.len() > 0 {
        lemma_refused_entries(entries.drop_last(), excludes, name);
    }
}

/// One more prefix refuses the names that begin with it and changes nothing
/// for the others.
proof fn lemma_filter_with_one_more(excludes: Seq<Seq<char>>, prefix: Seq<char>, name: Seq<char>)
    ensures
        passes_filter(name, excludes.push(prefix)) == (passes_filter(name, excludes)
            && !prefix.is_prefix_of(name)),
{
    let more = excludes.push(prefix);
    assert(more[excludes.len() as int] == prefix);
    if passes_filter(name, excludes) && !prefix.is_prefix_of(name) {
        assert forall|i: int| 0 <= i < more.len() implies !(#[trigger] more[i]).is_prefix_of(
            name,
        ) by {
            if i < excludes.len() {
                assert(more[i] == excludes[i]);
            }
        }
    }
    if passes_filter(name, more) {
        assert forall|i: int| 0 <= i < excludes.len() implies !(#[trigger] excludes[i]).is_prefix_of(
            name,
        ) by {
            assert(more[i] == excludes[i]);
        }
    }
}

/// An exclusion prefix removes every occurrence of a name that begins with
/// it: whatever the archives hold, the index does not know the name.
pub proof fn law_exclusion_removes_every_occurrence(
    archives: Seq<ArchiveView>,
    excludes: Seq<Seq<char>>,
    policy: DistinctFrom,
    prefix: Seq<char>,
    name: Seq<char>,
)
    requires
        prefix.is_prefix_of(name),
    ensures
        !collect_spec(archives, excludes.push(prefix), policy).contains_key(name),
{
    lemma_filter_with_one_more(excludes, prefix, name);
    lemma_refused_name_is_not_observed(archives, excludes.push(prefix), name);
    lemma_collect_counts(archives, excludes.push(prefix), policy, name);
}

/// What an index holds for `name`, if anything.
spec fn held(index: IndexView, name: Seq<char>) -> Option<Seq<BucketView>> {
    if index.contains_key(name) {
        Some(index[name])
    } else {
        None
    }
}

/// What an archive adds for a name depends on the exclusions only through
/// whether they let the name pass.
proof fn lemma_record_all_for_name(
    index_a: IndexView,
    index_b: IndexView,
    entries: Seq<EntryView>,
    label: Seq<char>,
    excludes_a: Seq<Seq<char>>,
    excludes_b: Seq<Seq<char>>,
    policy: DistinctFrom,
    name: Seq<char>,
)
    requires
        held(index_a, name) == held(index_b, name),
        passes_filter(name, excludes_a) == passes_filter(name, excludes_b),
    ensures
        held(record_all(index_a, entries, label, excludes_a, policy), name) == held(
            record_all(index_b, entries, label, excludes_b, policy),
            name,
        ),
    decreases entries.len(),
{
    if entries.len() > 0 {
        lemma_record_all_for_name(
            index_a,
            index_b,
            entries.drop_last(),
            label,
            excludes_a,
            excludes_b,
            policy,
            name,
        );
    }
}

/// What a classpath gives for a name depends on the exclusions only through
/// whether they let the name pass.
proof fn lemma_collect_for_name(
    archives: Seq<ArchiveView>,
    excludes_a: Seq<Seq<char>>,
    excludes_b: Seq<Seq<char>>,
    policy: DistinctFrom,
    name: Seq<char>,
)
    requires
        passes_filter(name, excludes_a) == passes_filter(name, excludes_b),
    ensures
        held(collect_spec(archives, excludes_a, policy), name) == held(
            collect_spec(archives, excludes_b, policy),
            name,
        ),
    decreases archives.len(),
{
    if archives.len() > 0 {
        lemma_collect_for_name(archives.drop_last(), excludes_a, excludes_b, policy, name);
        lemma_record_all_for_name(
            collect_spec(archives.drop_last(), excludes_a, policy),
            collect_spec(archives.drop_last(), excludes_b, policy),
            archives.last().entries,
            archives.last().label,
            excludes_a,
            excludes_b,
            policy,
            name,
        );
    }
}

/// Exclusion lists that let the same names pass give the same index.
proof fn lemma_collect_for_equal_filters(
    archives: Seq<ArchiveView>,
    excludes_a: Seq<Seq<char>>,
    excludes_b: Seq<Seq<char>>,
    policy: DistinctFrom,
)
    requires
        forall|name: Seq<char>|
            passes_filter(name, excludes_a) == #[trigger] passes_filter(name, excludes_b),
    ensures
        collect_spec(archives, excludes_a, policy) == collect_spec(archives, excludes_b, policy),
{
    let index_a = collect_spec(archives, excludes_a, policy);
    let index_b = collect_spec(archives, excludes_b, policy);
    assert forall|name: Seq<char>| #[trigger]
        index_a.dom().contains(name) == index_b.dom().contains(name) by {
        assert(passes_filter(name, excludes_a) == passes_filter(name, excludes_b));
        lemma_collect_for_name(archives, excludes_a, excludes_b, policy, name);
    }
    assert forall|name: Seq<char>| #[trigger]
        index_a.dom().contains(name) implies index_a[name] == index_b[name] by {
        assert(passes_filter(name, excludes_a) == passes_filter(name, excludes_b));
        lemma_collect_for_name(archives, excludes_a, excludes_b, policy, name);
    }
    assert(index_a =~= index_b);
}

/// An exclusion prefix takes nothing from a name that does not begin with
/// it: the name is known as before, with the same buckets.
pub proof fn law_exclusion_spares_other_names(
    archives: Seq<ArchiveView>,
    excludes: Seq<Seq<char>>,
    policy: DistinctFrom,
    prefix: Seq<char>,
    name: Seq<char>,
)
    requires
        !prefix.is_prefix_of(name),
    ensures
        collect_spec(archives, excludes.push(prefix), policy).contains_key(name) == collect_spec(
            archives,
            excludes,
            policy,
        ).contains_key(name),
        collect_spec(archives, excludes, policy).contains_key(name) ==> collect_spec(
            archives,
            excludes.push(prefix),
            policy,
        )[name] == collect_spec(archives, excludes, policy)[name],
{
    lemma_filter_with_one_more(excludes, prefix, name);
    lemma_collect_for_name(archives, excludes.push(prefix), excludes, policy, name);
}

/// Exclusion is idempotent: a prefix given a second time changes nothing.
pub proof fn law_exclusion_is_idempotent(
    archives: Seq<ArchiveView>,
    excludes: Seq<Seq<char>>,
    policy: DistinctFrom,
    prefix: Seq<char>,
)
    ensures
        collect_spec(archives, excludes.push(prefix).push(prefix), policy) == collect_spec(
            archives,
            excludes.push(prefix),
            policy,
        ),
{
    let once = excludes.push(prefix);
    let twice = once.push(prefix);
    assert forall|name: Seq<char>| passes_filter(name, twice) == #[trigger] passes_filter(
        name,
        once,
    ) by {
        lemma_filter_with_one_more(excludes, prefix, name);
        lemma_filter_with_one_more(once, prefix, name);
    }
    lemma_collect_for_equal_filters(archives, twice, once, policy);
}

/// Only the set of exclusion prefixes counts for the filter.
proof fn lemma_filter_of_same_set(
    excludes_a: Seq<Seq<char>>,
    excludes_b: Seq<Seq<char>>,
    name: Seq<char>,
)
    requires
        excludes_a.to_set() == excludes_b.to_set(),
        passes_filter(name, excludes_a),
    ensures
        passes_filter(name, excludes_b),
{
    assert forall|i: int| 0 <= i < excludes_b.len() implies !(#[trigger] excludes_b[i]).is_prefix_of(
        name,
    ) by {
        let prefix = excludes_b[i];
        assert(excludes_b.contains(prefix));
        assert(excludes_b.to_set().contains(prefix));
        assert(excludes_a.to_set().contains(prefix));
        assert(excludes_a.contains(prefix));
        let k = choose|k: int| 0 <= k < excludes_a.len() && excludes_a[k] == prefix;
        assert(!excludes_a[k].is_prefix_of(name));
    }
}

/// The order of the exclusion prefixes, and how often each is given, does
/// not matter: two lists of the same prefixes give the same index.
pub proof fn law_exclusion_order_is_irrelevant(
    archives: Seq<ArchiveView>,
    excludes_a: Seq<Seq<char>>,
    excludes_b: Seq<Seq<char>>,
    policy: DistinctFrom,
)
    requires
        excludes_a.to_set() == excludes_b.to_set(),
    ensures
        collect_spec(archives, excludes_a, policy) == collect_spec(archives, excludes_b, policy),
{
    assert forall|name: Seq<char>| passes_filter(name, excludes_a) == #[trigger] passes_filter(
        name,
        excludes_b,
    ) by {
        if passes_filter(name, excludes_a) {
            lemma_filter_of_same_set(excludes_a, excludes_b, name);
        }
        if passes_filter(name, excludes_b) {
            lemma_filter_of_same_set(excludes_b, excludes_a, name);
        }
    }
    lemma_collect_for_equal_filters(archives, excludes_a, excludes_b, policy);
}

/// The observations of a name, summed archive by archive.
spec fn add_archive(excludes: Seq<Seq<char>>, name: Seq<char>) -> spec_fn(nat, ArchiveView) -> nat {
    |sum: nat, archive: ArchiveView| sum + occurrences_in(archive.entries, excludes, name)
}

/// The count of observations is a fold over the archives.
proof fn lemma_occurrences_is_fold(
    archives: Seq<ArchiveView>,
    excludes: Seq<Seq<char>>,
    name: Seq<char>,
)
    ensures
        occurrences(archives, excludes, name) == archives.fold_left(
            0nat,
            add_archive(excludes, name),
        ),
    decreases archives.len(),
{
    if archives.len() > 0 {
        lemma_occurrences_is_fold(archives.drop_last(), excludes, name);
    }
}

/// The order of the input archives does not change how often a name is
/// observed.
pub proof fn lemma_occurrences_of_permutation(
    archives_a: Seq<ArchiveView>,
    archives_b: Seq<ArchiveView>,
    excludes: Seq<Seq<char>>,
    name: Seq<char>,
)
    requires
        archives_a.to_multiset() == archives_b.to_multiset(),
    ensures
        occurrences(archives_a, excludes, name) == occurrences(archives_b, excludes, name),
{
    let f = add_archive(excludes, name);
    lemma_occurrences_is_fold(archives_a, excludes, name);
    lemma_occurrences_is_fold(archives_b, excludes, name);
    assert(vstd::seq_lib::commutative_foldl(f)) by {
        assert forall|x: ArchiveView, y: ArchiveView, v: nat| #[trigger] f(f(v, x), y) == f(
            f(v, y),
            x,
        ) by {}
    }
    vstd::seq_lib::lemma_fold_left_permutation(archives_a, archives_b, f, 0nat);
}

/// The order of the input archives does not change which names are known,
/// how many labels each has, or which names are reported.
pub proof fn law_archive_order_keeps_conflicts(
    archives_a: Seq<ArchiveView>,
    archives_b: Seq<ArchiveView>,
    excludes: Seq<Seq<char>>,
    policy: DistinctFrom,
    name: Seq<char>,
)
    requires
        archives_a.to_multiset() == archives_b.to_multiset(),
    ensures
        reported(archives_a, excludes, policy, name) == reported(
            archives_b,
            excludes,
            policy,
            name,
        ),
        collect_spec(archives_a, excludes, policy).contains_key(name) == collect_spec(
            archives_b,
            excludes,
            policy,
        ).contains_key(name),
        labels_seen(collect_spec(archives_a, excludes, policy), name) == labels_seen(
            collect_spec(archives_b, excludes, policy),
            name,
        ),
{
    lemma_occurrences_of_permutation(archives_a, archives_b, excludes, name);
    law_reported_iff_observed_twice(archives_a, excludes, policy, name);
    law_reported_iff_observed_twice(archives_b, excludes, policy, name);
    lemma_collect_counts(archives_a, excludes, policy, name);
    lemma_collect_counts(archives_b, excludes, policy, name);
}

/// The archive labels recorded under `identity`: those of the first bucket of
/// that identity, in their order. Empty where there is no such bucket.
pub open spec fn labels_of(buckets: Seq<BucketView>, identity: u64) -> Seq<Seq<char>>
    decreases buckets.len(),
{
    if buckets.len() == 0 {
        Seq::empty()
    } else if buckets[0].identity == identity {
        buckets[0].archives
    } else {
        labels_of(buckets.drop_first(), identity)
    }
}

/// What the index attributes `name` with `identity` to: the archive labels,
/// each as often as it was recorded, without their order.
pub open spec fn attribution(index: IndexView, name: Seq<char>, identity: u64) -> Multiset<
    Seq<char>,
> {
    if index.contains_key(name) {
        labels_of(index[name], identity).to_multiset()
    } else {
        Multiset::empty()
    }
}

/// What one archive contributes to the attribution of `name` with
/// `identity`: its label, once for each such observation.
pub open spec fn contributed_in(
    entries: Seq<EntryView>,
    label: Seq<char>,
    excludes: Seq<Seq<char>>,
    policy: DistinctFrom,
    name: Seq<char>,
    identity: u64,
) -> Multiset<Seq<char>>
    decreases entries.len(),
{
    if entries.len() == 0 {
        Multiset::empty()
    } else {
        let before = contributed_in(entries.drop_last(), label, excludes, policy, name, identity);
        if observes(entries.last(), excludes, name) && content_identity(entries.last(), policy)
            == identity {
            before.insert(label)
        } else {
            before
        }
    }
}

/// What the whole classpath contributes to the attribution of `name` with
/// `identity`.
pub open spec fn contributed(
    archives: Seq<ArchiveView>,
    excludes: Seq<Seq<char>>,
    policy: DistinctFrom,
    name: Seq<char>,
    identity: u64,
) -> Multiset<Seq<char>>
    decreases archives.len(),
{
    if archives.len() == 0 {
        Multiset::empty()
    } else {
        contributed(archives.drop_last(), excludes, policy, name, identity).add(
            contributed_in(
                archives.last().entries,
                archives.last().label,
                excludes,
                policy,
                name,
                identity,
            ),
        )
    }
}

/// One more label goes to the bucket of its identity and to no other.
proof fn lemma_add_label_goes_to_its_bucket(
    buckets: Seq<BucketView>,
    identity: u64,
    label: Seq<char>,
    other: u64,
)
    ensures
        labels_of(add_label(buckets, identity, label), other) == if other == identity {
            labels_of(buckets, identity).push(label)
        } else {
            labels_of(buckets, other)
        },
    decreases buckets.len(),
{
    let grown = add_label(buckets, identity, label);
    if buckets.len() == 0 {
        assert(grown.len() == 1 && grown[0].identity == identity);
        assert(grown[0].archives == seq![label]);
        assert(grown.drop_first().len() == 0);
        assert(labels_of(grown.drop_first(), other) == Seq::<Seq<char>>::empty());
        assert(labels_of(buckets, other) == Seq::<Seq<char>>::empty());
        assert(labels_of(buckets, identity).push(label) =~= seq![label]);
    } else if buckets[0].identity == identity {
        assert(grown.len() == buckets.len());
        assert(grown[0].identity == identity);
        assert(grown[0].archives == buckets[0].archives.push(label));
        assert(grown.drop_first() =~= buckets.drop_first());
    } else {
        let rest = buckets.drop_first();
        assert(grown[0] == buckets[0]);
        assert(grown.drop_first() =~= add_label(rest, identity, label));
        lemma_add_label_goes_to_its_bucket(rest, identity, label, other);
    }
}

/// Going through the entries of an archive adds to the attribution of a name
/// and identity what the archive contributes to it.
proof fn lemma_record_all_attributes(
    index: IndexView,
    entries: Seq<EntryView>,
    label: Seq<char>,
    excludes: Seq<Seq<char>>,
    policy: DistinctFrom,
    name: Seq<char>,
    identity: u64,
)
    ensures
        attribution(record_all(index, entries, label, excludes, policy), name, identity)
            == attribution(index, name, identity).add(
            contributed_in(entries, label, excludes, policy, name, identity),
        ),
    decreases entries.len(),
{
    let whole = attribution(record_all(index, entries, label, excludes, policy), name, identity);
    let start = attribution(index, name, identity);
    if entries.len() == 0 {
        assert(whole =~= start.add(Multiset::empty()));
    } else {
        let before = record_all(index, entries.drop_last(), label, excludes, policy);
        lemma_record_all_attributes(index, entries.drop_last(), label, excludes, policy, name, identity);
        let entry = entries.last();
        let earlier = contributed_in(entries.drop_last(), label, excludes, policy, name, identity);
        if passes_filter(entry.name, excludes) && entry.name == name {
            let seen = if before.contains_key(name) {
                before[name]
            } else {
                Seq::<BucketView>::empty()
            };
            let here = content_identity(entry, policy);
            lemma_add_label_goes_to_its_bucket(seen, here, label, identity);
            if here == identity {
                vstd::seq_lib::to_multiset_build(labels_of(seen, identity), label);
                assert(labels_of(Seq::<BucketView>::empty(), identity).to_multiset()
                    =~= Multiset::empty()) by {
                    broadcast use vstd::seq_lib::group_to_multiset_ensures;

                }
                assert(whole =~= start.add(earlier).insert(label));
                assert(whole =~= start.add(earlier.insert(label)));
            } else {
                assert(labels_of(Seq::<BucketView>::empty(), identity).to_multiset()
                    =~= Multiset::empty()) by {
                    broadcast use vstd::seq_lib::group_to_multiset_ensures;

                }
                assert(whole =~= start.add(earlier));
            }
        }
    }
}

/// The index of a classpath attributes each name and identity to what the
/// archives contribute to it.
proof fn lemma_collect_attributes(
    archives: Seq<ArchiveView>,
    excludes: Seq<Seq<char>>,
    policy: DistinctFrom,
    name: Seq<char>,
    identity: u64,
)
    ensures
        attribution(collect_spec(archives, excludes, policy), name, identity) == contributed(
            archives,
            excludes,
            policy,
            name,
            identity,
        ),
    decreases archives.len(),
{
    if archives.len() > 0 {
        lemma_collect_attributes(archives.drop_last(), excludes, policy, name, identity);
        lemma_record_all_attributes(
            collect_spec(archives.drop_last(), excludes, policy),
            archives.last().entries,
            archives.last().label,
            excludes,
            policy,
            name,
            identity,
        );
        let earlier = contributed(archives.drop_last(), excludes, policy, name, identity);
        let last = contributed_in(
            archives.last().entries,
            archives.last().label,
            excludes,
            policy,
            name,
            identity,
        );
        assert(attribution(collect_spec(archives, excludes, policy), name, identity)
            =~= earlier.add(last));
    }
}

/// The contributions to a name and identity, summed archive by archive.
spec fn add_contribution(
    excludes: Seq<Seq<char>>,
    policy: DistinctFrom,
    name: Seq<char>,
    identity: u64,
) -> spec_fn(Multiset<Seq<char>>, ArchiveView) -> Multiset<Seq<char>> {
    |sum: Multiset<Seq<char>>, archive: ArchiveView|
        sum.add(contributed_in(archive.entries, archive.label, excludes, policy, name, identity))
}

/// The contributions of a classpath are a fold over its archives.
proof fn lemma_contributed_is_fold(
    archives: Seq<ArchiveView>,
    excludes: Seq<Seq<char>>,
    policy: DistinctFrom,
    name: Seq<char>,
    identity: u64,
)
    ensures
        contributed(archives, excludes, policy, name, identity) == archives.fold_left(
            Multiset::empty(),
            add_contribution(excludes, policy, name, identity),
        ),
    decreases archives.len(),
{
    if archives.len() > 0 {
        lemma_contributed_is_fold(archives.drop_last(), excludes, policy, name, identity);
    }
}

/// The order of the input archives changes attribution lists in their order
/// only: under each name and identity the index holds the same archive
/// labels, each as often as before.
pub proof fn law_archive_order_keeps_attribution(
    archives_a: Seq<ArchiveView>,
    archives_b: Seq<ArchiveView>,
    excludes: Seq<Seq<char>>,
    policy: DistinctFrom,
    name: Seq<char>,
    identity: u64,
)
    requires
        archives_a.to_multiset() == archives_b.to_multiset(),
    ensures
        attribution(collect_spec(archives_a, excludes, policy), name, identity) == attribution(
            collect_spec(archives_b, excludes, policy),
            name,
            identity,
        ),
{
    let f = add_contribution(excludes, policy, name, identity);
    lemma_collect_attributes(archives_a, excludes, policy, name, identity);
    lemma_collect_attributes(archives_b, excludes, policy, name, identity);
    lemma_contributed_is_fold(archives_a, excludes, policy, name, identity);
    lemma_contributed_is_fold(archives_b, excludes, policy, name, identity);
    assert(vstd::seq_lib::commutative_foldl(f)) by {
        assert forall|x: ArchiveView, y: ArchiveView, v: Multiset<Seq<char>>| #[trigger]
            f(f(v, x), y) == f(f(v, y), x) by {
            assert(f(f(v, x), y) =~= f(f(v, y), x));
        }
    }
    vstd::seq_lib::lemma_fold_left_permutation(archives_a, archives_b, f, Multiset::empty());
}

} // verus!
