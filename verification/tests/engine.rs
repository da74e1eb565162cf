use jcd::collector::{collect_listings, filter, record_entries, ArchiveListing};
use jcd::index::{ConflictIndex, NameEntry};
use jcd::policy::{get_distinct_from, DistinctFrom, EntryMeta, DISTINCT_FROM_NONE};
use jcd::report::{is_reportable, report};
use std::rc::Rc;

type Line = (String, Vec<(u64, Vec<String>)>);

fn entry(name: &str, size: u64, crc32: u32) -> EntryMeta {
    EntryMeta { name: name.to_string(), size, crc32 }
}

fn listing(label: &str, entries: Vec<EntryMeta>) -> ArchiveListing {
    ArchiveListing { label: Rc::new(label.to_string()), entries }
}

fn line(entry: &NameEntry) -> Line {
    let buckets = entry
        .buckets
        .iter()
        .map(|bucket| {
            let labels = bucket.archives.iter().map(|label| label.to_string()).collect();
            (bucket.identity, labels)
        })
        .collect();
    (entry.name.clone(), buckets)
}

fn lines_of(index: &ConflictIndex) -> Vec<Line> {
    index.entries().iter().map(line).collect()
}

fn run(archives: &Vec<ArchiveListing>, excludes: &[&str], policy: DistinctFrom) -> Vec<Line> {
    let excludes: Vec<String> = excludes.iter().map(|prefix| prefix.to_string()).collect();
    let index = collect_listings(archives, &excludes, policy);
    report(&index, policy).into_iter().map(line).collect()
}

fn names(lines: &Vec<Line>) -> Vec<String> {
    lines.iter().map(|line| line.0.clone()).collect()
}

fn labels(list: &[&str]) -> Vec<String> {
    list.iter().map(|label| label.to_string()).collect()
}

#[test]
fn same_size_in_two_archives_is_one_bucket_of_both() {
    let archives = vec![
        listing("A", vec![entry("Foo.class", 10, 1)]),
        listing("B", vec![entry("Foo.class", 10, 2)]),
    ];
    let lines = run(&archives, &[], DistinctFrom::Size);
    assert_eq!(lines, vec![("Foo.class".to_string(), vec![(10, labels(&["A", "B"]))])]);
}

#[test]
fn different_sizes_are_two_buckets() {
    let archives = vec![
        listing("A", vec![entry("Foo.class", 10, 1)]),
        listing("B", vec![entry("Foo.class", 20, 1)]),
    ];
    let lines = run(&archives, &[], DistinctFrom::Size);
    assert_eq!(
        lines,
        vec![("Foo.class".to_string(), vec![(10, labels(&["A"])), (20, labels(&["B"]))])]
    );
}

#[test]
fn metadata_only_archives_give_an_empty_report() {
    let archives = vec![
        listing("A", vec![entry("META-INF/MANIFEST.MF", 10, 1)]),
        listing("B", vec![entry("META-INF/MANIFEST.MF", 10, 1)]),
    ];
    for policy in [DistinctFrom::Size, DistinctFrom::Crc, DistinctFrom::Nothing] {
        let excludes: Vec<String> = Vec::new();
        let index = collect_listings(&archives, &excludes, policy);
        assert!(index.entries().is_empty());
        assert!(report(&index, policy).is_empty());
    }
}

#[test]
fn metadata_classes_are_filtered_too() {
    let archives = vec![
        listing("A", vec![entry("META-INF/versions/9/Foo.class", 10, 1)]),
        listing("B", vec![entry("META-INF/versions/9/Foo.class", 10, 1)]),
    ];
    assert!(run(&archives, &[], DistinctFrom::Size).is_empty());
}

#[test]
fn crc_policy_buckets_by_checksum() {
    let archives = vec![
        listing("A", vec![entry("p/Foo.class", 10, 0xDEADBEEF)]),
        listing("B", vec![entry("p/Foo.class", 99, 0xDEADBEEF)]),
        listing("C", vec![entry("p/Foo.class", 10, 7)]),
    ];
    let lines = run(&archives, &[], DistinctFrom::Crc);
    assert_eq!(
        lines,
        vec![(
            "p/Foo.class".to_string(),
            vec![(0xDEADBEEF, labels(&["A", "B"])), (7, labels(&["C"]))]
        )]
    );
}

#[test]
fn none_policy_has_one_sentinel_bucket() {
    let archives = vec![
        listing("A", vec![entry("p/Foo.class", 10, 1), entry("p/Bar.class", 1, 1)]),
        listing("B", vec![entry("p/Foo.class", 20, 2)]),
    ];
    let lines = run(&archives, &[], DistinctFrom::Nothing);
    assert_eq!(
        lines,
        vec![("p/Foo.class".to_string(), vec![(DISTINCT_FROM_NONE, labels(&["A", "B"]))])]
    );
}

#[test]
fn none_policy_reports_iff_name_in_two_archives() {
    let archives = vec![
        listing("A", vec![entry("One.class", 1, 1), entry("Two.class", 1, 1), entry("Three.class", 5, 5)]),
        listing("B", vec![entry("Two.class", 2, 2), entry("Three.class", 5, 5)]),
        listing("C", vec![entry("Three.class", 6, 6), entry("Four.class", 1, 1)]),
    ];
    let lines = run(&archives, &[], DistinctFrom::Nothing);
    assert_eq!(names(&lines), vec!["Three.class".to_string(), "Two.class".to_string()]);
    assert_eq!(lines[0].1, vec![(0, labels(&["A", "B", "C"]))]);
    assert_eq!(lines[1].1, vec![(0, labels(&["A", "B"]))]);
}

#[test]
fn size_policy_reports_iff_name_seen_twice() {
    let archives = vec![
        listing("A", vec![entry("Same.class", 3, 1), entry("Differ.class", 3, 1), entry("Alone.class", 3, 1)]),
        listing("B", vec![entry("Same.class", 3, 9), entry("Differ.class", 4, 1)]),
    ];
    for policy in [DistinctFrom::Size, DistinctFrom::Crc] {
        let lines = run(&archives, &[], policy);
        assert_eq!(names(&lines), vec!["Differ.class".to_string(), "Same.class".to_string()]);
    }
}

#[test]
fn duplicate_entry_in_one_archive_is_reported() {
    let archives = vec![
        listing("A", vec![entry("Dup.class", 3, 1), entry("Dup.class", 3, 1)]),
        listing("B", vec![entry("Other.class", 3, 1)]),
    ];
    let lines = run(&archives, &[], DistinctFrom::Size);
    assert_eq!(lines, vec![("Dup.class".to_string(), vec![(3, labels(&["A", "A"]))])]);
    let lines = run(&archives, &[], DistinctFrom::Nothing);
    assert_eq!(lines, vec![("Dup.class".to_string(), vec![(0, labels(&["A", "A"]))])]);
}

#[test]
fn report_is_in_lexical_order_of_names() {
    let archives = vec![
        listing("A", vec![entry("z/Z.class", 1, 1), entry("a/B.class", 1, 1), entry("a/A.class", 1, 1), entry("B.class", 1, 1)]),
        listing("B", vec![entry("a/A.class", 1, 1), entry("B.class", 1, 1), entry("z/Z.class", 1, 1), entry("a/B.class", 1, 1)]),
    ];
    let lines = run(&archives, &[], DistinctFrom::Size);
    assert_eq!(
        names(&lines),
        vec!["B.class".to_string(), "a/A.class".to_string(), "a/B.class".to_string(), "z/Z.class".to_string()]
    );
}

#[test]
fn buckets_keep_insertion_order() {
    let archives = vec![
        listing("A", vec![entry("X.class", 30, 1)]),
        listing("B", vec![entry("X.class", 10, 1)]),
        listing("C", vec![entry("X.class", 20, 1)]),
        listing("D", vec![entry("X.class", 10, 1)]),
    ];
    let lines = run(&archives, &[], DistinctFrom::Size);
    assert_eq!(
        lines,
        vec![(
            "X.class".to_string(),
            vec![(30, labels(&["A"])), (10, labels(&["B", "D"])), (20, labels(&["C"]))]
        )]
    );
}

#[test]
fn exclusion_removes_every_occurrence() {
    let archives = vec![
        listing("A", vec![entry("com/x/Foo.class", 1, 1), entry("com/y/Bar.class", 1, 1)]),
        listing("B", vec![entry("com/x/Foo.class", 2, 2), entry("com/y/Bar.class", 1, 1)]),
    ];
    let excludes = vec!["com/x/".to_string()];
    let index = collect_listings(&archives, &excludes, DistinctFrom::Size);
    let kept = lines_of(&index);
    assert_eq!(kept, vec![("com/y/Bar.class".to_string(), vec![(1, labels(&["A", "B"]))])]);
}

#[test]
fn exclusion_spares_other_names_and_is_idempotent() {
    let archives = vec![
        listing("A", vec![entry("com/x/Foo.class", 1, 1), entry("com/y/Bar.class", 1, 1)]),
        listing("B", vec![entry("com/x/Foo.class", 2, 2), entry("com/y/Bar.class", 3, 1)]),
    ];
    let none: Vec<String> = Vec::new();
    let once = vec!["com/x/".to_string()];
    let twice = vec!["com/x/".to_string(), "com/x/".to_string()];
    let all = lines_of(&collect_listings(&archives, &none, DistinctFrom::Size));
    let with_once = lines_of(&collect_listings(&archives, &once, DistinctFrom::Size));
    let with_twice = lines_of(&collect_listings(&archives, &twice, DistinctFrom::Size));
    assert_eq!(with_once, with_twice);
    let spared: Vec<Line> = all.into_iter().filter(|line| !line.0.starts_with("com/x/")).collect();
    assert_eq!(with_once, spared);
}

#[test]
fn exclusion_order_does_not_matter() {
    let archives = vec![
        listing("A", vec![entry("a/A.class", 1, 1), entry("b/B.class", 1, 1), entry("c/C.class", 1, 1)]),
        listing("B", vec![entry("a/A.class", 1, 1), entry("b/B.class", 1, 1), entry("c/C.class", 1, 1)]),
    ];
    let forward = vec!["a/".to_string(), "b/".to_string()];
    let backward = vec!["b/".to_string(), "a/".to_string(), "b/".to_string()];
    let first = lines_of(&collect_listings(&archives, &forward, DistinctFrom::Crc));
    let second = lines_of(&collect_listings(&archives, &backward, DistinctFrom::Crc));
    assert_eq!(first, second);
    assert_eq!(names(&first), vec!["c/C.class".to_string()]);
}

#[test]
fn archive_order_changes_attribution_only() {
    let a = || listing("A", vec![entry("X.class", 1, 1), entry("Y.class", 5, 5), entry("Z.class", 1, 1)]);
    let b = || listing("B", vec![entry("X.class", 2, 2), entry("Y.class", 5, 5)]);
    let c = || listing("C", vec![entry("Y.class", 5, 5), entry("W.class", 1, 1)]);
    for policy in [DistinctFrom::Size, DistinctFrom::Crc, DistinctFrom::Nothing] {
        let forward = run(&vec![a(), b(), c()], &[], policy);
        let backward = run(&vec![c(), b(), a()], &[], policy);
        assert_eq!(names(&forward), names(&backward));
        assert_eq!(names(&forward), vec!["X.class".to_string(), "Y.class".to_string()]);
    }
    let forward = run(&vec![a(), b(), c()], &[], DistinctFrom::Size);
    let backward = run(&vec![c(), b(), a()], &[], DistinctFrom::Size);
    assert_eq!(forward[1].1, vec![(5, labels(&["A", "B", "C"]))]);
    assert_eq!(backward[1].1, vec![(5, labels(&["C", "B", "A"]))]);
}

#[test]
fn empty_prefix_excludes_everything() {
    let archives = vec![
        listing("A", vec![entry("X.class", 1, 1)]),
        listing("B", vec![entry("X.class", 1, 1)]),
    ];
    assert!(run(&archives, &[""], DistinctFrom::Size).is_empty());
}

#[test]
fn filter_cases() {
    let none: Vec<String> = Vec::new();
    let some = vec!["com/x/".to_string(), "org/".to_string()];
    assert!(filter("Foo.class", &none));
    assert!(filter("com/y/Foo.class", &some));
    assert!(!filter("com/x/Foo.class", &some));
    assert!(!filter("org/Foo.class", &some));
    assert!(!filter("Foo.java", &none));
    assert!(!filter("Foo.class/", &none));
    assert!(!filter("META-INF/Foo.class", &none));
    assert!(!filter("META-INFO.class", &none));
    assert!(filter("meta-inf/Foo.class", &none));
    assert!(filter(".class", &none));
    assert!(!filter("", &none));
}

#[test]
fn content_identity_by_policy() {
    let e = entry("Foo.class", 1234, 0xFFFF_FFFF);
    assert_eq!(get_distinct_from(&e, DistinctFrom::Size), 1234);
    assert_eq!(get_distinct_from(&e, DistinctFrom::Crc), 4294967295);
    assert_eq!(get_distinct_from(&e, DistinctFrom::Nothing), 0);
    let big = entry("Big.class", u64::MAX, 0);
    assert_eq!(get_distinct_from(&big, DistinctFrom::Size), u64::MAX);
    assert_eq!(get_distinct_from(&big, DistinctFrom::Crc), 0);
}

#[test]
fn insert_observation_builds_both_levels() {
    let mut index = ConflictIndex::new();
    assert!(index.entries().is_empty());
    let a = Rc::new("a.jar".to_string());
    let b = Rc::new("b.jar".to_string());
    index.insert_observation("m/M.class", 7, a.clone());
    index.insert_observation("a/A.class", 7, a.clone());
    index.insert_observation("m/M.class", 8, b.clone());
    index.insert_observation("m/M.class", 7, b.clone());
    index.insert_observation("z/Z.class", 1, b.clone());
    index.insert_observation("a/A.class", 7, a.clone());
    assert_eq!(
        lines_of(&index),
        vec![
            ("a/A.class".to_string(), vec![(7, labels(&["a.jar", "a.jar"]))]),
            ("m/M.class".to_string(), vec![(7, labels(&["a.jar", "b.jar"])), (8, labels(&["b.jar"]))]),
            ("z/Z.class".to_string(), vec![(1, labels(&["b.jar"]))]),
        ]
    );
}

#[test]
fn labels_are_shared_not_copied() {
    let mut index = ConflictIndex::new();
    let label = Rc::new("a.jar".to_string());
    let entries = vec![entry("A.class", 1, 1), entry("B.class", 1, 1), entry("C.txt", 1, 1)];
    let excludes: Vec<String> = Vec::new();
    record_entries(&mut index, &entries, &label, &excludes, DistinctFrom::Size);
    assert_eq!(Rc::strong_count(&label), 3);
    assert!(Rc::ptr_eq(&index.entries()[0].buckets[0].archives[0], &label));
}

#[test]
fn record_entries_adds_to_what_is_there() {
    let mut index = ConflictIndex::new();
    let excludes = vec!["skip/".to_string()];
    let a = Rc::new("A".to_string());
    let b = Rc::new("B".to_string());
    record_entries(&mut index, &vec![entry("X.class", 1, 1), entry("skip/S.class", 1, 1)], &a, &excludes, DistinctFrom::Size);
    record_entries(&mut index, &vec![entry("X.class", 1, 1), entry("readme.txt", 1, 1)], &b, &excludes, DistinctFrom::Size);
    assert_eq!(lines_of(&index), vec![("X.class".to_string(), vec![(1, labels(&["A", "B"]))])]);
}

#[test]
fn reportable_looks_at_the_sentinel_bucket_only_when_content_is_ignored() {
    let mut index = ConflictIndex::new();
    let a = Rc::new("A".to_string());
    index.insert_observation("X.class", 5, a.clone());
    index.insert_observation("X.class", 6, a.clone());
    index.insert_observation("Y.class", 5, a.clone());
    index.insert_observation("Y.class", 0, a.clone());
    index.insert_observation("Y.class", 0, a.clone());
    let x = &index.entries()[0];
    let y = &index.entries()[1];
    assert!(is_reportable(&x.buckets, DistinctFrom::Size));
    assert!(is_reportable(&x.buckets, DistinctFrom::Crc));
    assert!(!is_reportable(&x.buckets, DistinctFrom::Nothing));
    assert!(is_reportable(&y.buckets, DistinctFrom::Nothing));
    assert!(is_reportable(&y.buckets, DistinctFrom::Size));
    assert!(!is_reportable(&Vec::new(), DistinctFrom::Size));
    assert!(!is_reportable(&Vec::new(), DistinctFrom::Nothing));
}
