use ksero::candidate::{consider, ContentKey, FileCandidate};
use ksero::config::{ConfigError, ScanConfig};
use ksero::digest::{prefix_digest, HashWriter, PREFIX_LEN};
use ksero::pipeline::PrefixStage;
use ksero::report::{DuplicateGroup, Report, RunCounters};

/// A file as the tests see it: `content` is `None` where reading fails.
struct Entry {
    path: &'static str,
    size: u64,
    content: Option<Vec<u8>>,
}

fn file(path: &'static str, content: &[u8]) -> Entry {
    Entry { path, size: content.len() as u64, content: Some(content.to_vec()) }
}

fn unreadable(path: &'static str, size: u64) -> Entry {
    Entry { path, size, content: None }
}

fn full_digest(content: &[u8]) -> u64 {
    let mut writer = HashWriter::new();
    for piece in content.chunks(100) {
        assert!(writer.write(piece));
    }
    writer.finish()
}

fn content_of<'a>(disk: &'a [Entry], path: &str) -> Option<&'a Vec<u8>> {
    disk.iter().find(|e| e.path == path).and_then(|e| e.content.as_ref())
}

fn scan(disk: &[Entry]) -> Vec<FileCandidate> {
    disk.iter().filter_map(|e| consider(e.path.to_string(), true, Some(e.size))).collect()
}

fn run(disk: &[Entry]) -> Report {
    let stage = PrefixStage::begin(scan(disk));
    let prefix: Vec<Option<u64>> = (0..stage.work_len())
        .map(|w| {
            let item = stage.work_item(w).unwrap();
            content_of(disk, &item.path).map(|c| prefix_digest(c))
        })
        .collect();
    let stage = stage.advance(&prefix);
    let full: Vec<Option<u64>> = (0..stage.work_len())
        .map(|w| {
            let item = stage.work_item(w).unwrap();
            content_of(disk, &item.path).map(|c| full_digest(c))
        })
        .collect();
    stage.finish(&full)
}

fn paths(group: &DuplicateGroup) -> Vec<&str> {
    group.paths.iter().map(|p| p.as_str()).collect()
}

fn long_content(len: usize, salt: u8) -> Vec<u8> {
    (0..len).map(|i| (i % 251) as u8 ^ salt).collect()
}

#[test]
fn two_equal_files_and_one_different_of_the_same_size() {
    let disk = [file("a.txt", b"hello"), file("b.txt", b"hello"), file("c.txt", b"world")];
    let report = run(&disk);
    assert_eq!(
        report.groups,
        vec![DuplicateGroup {
            key: ContentKey { hash: full_digest(b"hello"), size: 5 },
            count: 2,
            bytes: 10,
            paths: vec!["a.txt".to_string(), "b.txt".to_string()],
        }]
    );
    assert_eq!(
        report.counters,
        RunCounters {
            files_considered: 3,
            bytes_considered: 15,
            files_skipped: 0,
            bytes_skipped: 0,
            files_nibbled: 3,
            bytes_nibbled: 15,
            files_hashed: 2,
            bytes_hashed: 10,
        }
    );
}

#[test]
fn the_work_lists_shrink_stage_by_stage() {
    let disk = [
        file("a.txt", b"hello"),
        file("b.txt", b"hello"),
        file("c.txt", b"world"),
        file("d.txt", b"unique size"),
    ];
    let stage = PrefixStage::begin(scan(&disk));
    assert_eq!(stage.work_len(), 3);
    let listed: Vec<&str> =
        (0..3).map(|w| stage.work_item(w).unwrap().path.as_str()).collect();
    assert_eq!(listed, vec!["a.txt", "b.txt", "c.txt"]);
    assert_eq!(stage.work_item(3), None);
    let prefix: Vec<Option<u64>> =
        listed.iter().map(|p| content_of(&disk, p).map(|c| prefix_digest(c))).collect();
    let stage = stage.advance(&prefix);
    assert_eq!(stage.work_len(), 2);
    assert_eq!(stage.work_item(0), Some(&FileCandidate { path: "a.txt".to_string(), size: 5 }));
    assert_eq!(stage.work_item(1), Some(&FileCandidate { path: "b.txt".to_string(), size: 5 }));
    assert_eq!(stage.work_item(2), None);
}

#[test]
fn an_empty_file_is_no_candidate() {
    assert_eq!(consider("empty".to_string(), true, Some(0)), None);
    let disk = [file("empty", b""), file("other-empty", b""), file("a", b"x"), file("b", b"x")];
    let candidates = scan(&disk);
    assert_eq!(candidates.len(), 2);
    let report = run(&disk);
    assert_eq!(report.counters.files_considered, 2);
    assert_eq!(report.counters.bytes_considered, 2);
    assert_eq!(report.groups.len(), 1);
    assert_eq!(paths(&report.groups[0]), vec!["a", "b"]);
}

#[test]
fn only_readable_regular_files_are_candidates() {
    assert_eq!(
        consider("file".to_string(), true, Some(7)),
        Some(FileCandidate { path: "file".to_string(), size: 7 })
    );
    assert_eq!(consider("dir".to_string(), false, Some(4096)), None);
    assert_eq!(consider("gone".to_string(), true, None), None);
    assert_eq!(consider("dir-gone".to_string(), false, None), None);
    assert_eq!(
        consider("huge".to_string(), true, Some(u64::MAX)),
        Some(FileCandidate { path: "huge".to_string(), size: u64::MAX })
    );
}

#[test]
fn files_that_agree_on_the_prefix_only_are_told_apart() {
    let mut first = long_content(PREFIX_LEN + 500, 0);
    let mut second = first.clone();
    first[PREFIX_LEN + 100] = 1;
    second[PREFIX_LEN + 100] = 2;
    let disk = [file("first", &first), file("second", &second)];
    let stage = PrefixStage::begin(scan(&disk));
    assert_eq!(stage.work_len(), 2);
    let prefix = vec![Some(prefix_digest(&first)), Some(prefix_digest(&second))];
    assert_eq!(prefix[0], prefix[1]);
    let stage = stage.advance(&prefix);
    assert_eq!(stage.work_len(), 2);
    let report = stage.finish(&vec![Some(full_digest(&first)), Some(full_digest(&second))]);
    assert_eq!(report.groups, vec![]);
    assert_eq!(report.counters.files_nibbled, 2);
    assert_eq!(report.counters.files_hashed, 2);
    assert_eq!(report.counters.bytes_hashed, 2 * (PREFIX_LEN as u128 + 500));
}

#[test]
fn a_file_that_cannot_be_read_is_dropped_silently() {
    let disk = [
        file("a", b"same content"),
        unreadable("locked", 12),
        file("b", b"same content"),
    ];
    let report = run(&disk);
    assert_eq!(report.groups.len(), 1);
    assert_eq!(paths(&report.groups[0]), vec!["a", "b"]);
    assert_eq!(
        report.counters,
        RunCounters {
            files_considered: 3,
            bytes_considered: 36,
            files_skipped: 1,
            bytes_skipped: 12,
            files_nibbled: 2,
            bytes_nibbled: 24,
            files_hashed: 2,
            bytes_hashed: 24,
        }
    );
}

#[test]
fn a_file_that_turns_unreadable_before_the_full_read_is_dropped() {
    let candidates = vec![
        FileCandidate { path: "a".to_string(), size: 3 },
        FileCandidate { path: "b".to_string(), size: 3 },
        FileCandidate { path: "c".to_string(), size: 3 },
    ];
    let stage = PrefixStage::begin(candidates);
    let stage = stage.advance(&vec![Some(1), Some(1), Some(1)]);
    assert_eq!(stage.work_len(), 3);
    let report = stage.finish(&vec![Some(9), None, Some(9)]);
    assert_eq!(
        report.groups,
        vec![DuplicateGroup {
            key: ContentKey { hash: 9, size: 3 },
            count: 2,
            bytes: 6,
            paths: vec!["a".to_string(), "c".to_string()],
        }]
    );
    assert_eq!(report.counters.files_nibbled, 3);
    assert_eq!(report.counters.files_hashed, 2);
    assert_eq!(report.counters.bytes_hashed, 6);
}

#[test]
fn a_file_of_unique_size_is_never_read() {
    let disk = [
        file("one", b"1"),
        file("two", b"22"),
        file("also-two", b"22"),
        file("three", b"333"),
    ];
    let stage = PrefixStage::begin(scan(&disk));
    let listed: Vec<&str> =
        (0..stage.work_len()).map(|w| stage.work_item(w).unwrap().path.as_str()).collect();
    assert_eq!(listed, vec!["two", "also-two"]);
    let report = run(&disk);
    assert_eq!(report.counters.files_considered, 4);
    assert_eq!(report.counters.bytes_considered, 8);
    assert_eq!(report.counters.files_skipped, 2);
    assert_eq!(report.counters.bytes_skipped, 4);
    assert_eq!(report.counters.files_nibbled, 2);
    assert_eq!(report.counters.bytes_nibbled, 4);
    assert_eq!(report.groups.len(), 1);
    assert_eq!(report.groups[0].bytes, 4);
}

#[test]
fn no_candidates_give_an_empty_report() {
    let report = run(&[]);
    assert_eq!(report.groups, vec![]);
    assert_eq!(
        report.counters,
        RunCounters {
            files_considered: 0,
            bytes_considered: 0,
            files_skipped: 0,
            bytes_skipped: 0,
            files_nibbled: 0,
            bytes_nibbled: 0,
            files_hashed: 0,
            bytes_hashed: 0,
        }
    );
}

#[test]
fn equal_digests_of_different_sizes_do_not_meet() {
    let candidates = vec![
        FileCandidate { path: "a".to_string(), size: 10 },
        FileCandidate { path: "b".to_string(), size: 20 },
        FileCandidate { path: "c".to_string(), size: 10 },
        FileCandidate { path: "d".to_string(), size: 20 },
    ];
    let stage = PrefixStage::begin(candidates);
    let listed: Vec<&str> =
        (0..stage.work_len()).map(|w| stage.work_item(w).unwrap().path.as_str()).collect();
    assert_eq!(listed, vec!["a", "c", "b", "d"]);
    let stage = stage.advance(&vec![Some(7), Some(7), Some(7), Some(7)]);
    assert_eq!(stage.work_len(), 4);
    let report = stage.finish(&vec![Some(7), Some(7), Some(7), Some(7)]);
    assert_eq!(report.groups.len(), 2);
    assert_eq!(report.groups[0].key, ContentKey { hash: 7, size: 10 });
    assert_eq!(paths(&report.groups[0]), vec!["a", "c"]);
    assert_eq!(report.groups[0].bytes, 20);
    assert_eq!(report.groups[1].key, ContentKey { hash: 7, size: 20 });
    assert_eq!(paths(&report.groups[1]), vec!["b", "d"]);
    assert_eq!(report.groups[1].bytes, 40);
}

#[test]
fn a_missing_outcome_counts_as_unreadable_and_a_spare_one_is_ignored() {
    let candidates = vec![
        FileCandidate { path: "a".to_string(), size: 4 },
        FileCandidate { path: "b".to_string(), size: 4 },
        FileCandidate { path: "c".to_string(), size: 4 },
    ];
    let stage = PrefixStage::begin(candidates.clone());
    let stage = stage.advance(&vec![Some(1), Some(1)]);
    assert_eq!(stage.work_len(), 2);
    let report = stage.finish(&vec![Some(2), Some(2), Some(2), Some(2)]);
    assert_eq!(report.groups.len(), 1);
    assert_eq!(paths(&report.groups[0]), vec!["a", "b"]);
    assert_eq!(report.counters.files_nibbled, 2);
    assert_eq!(report.counters.files_skipped, 1);
    assert_eq!(report.counters.files_hashed, 2);

    let stage = PrefixStage::begin(candidates);
    let report = stage.advance(&vec![]).finish(&vec![]);
    assert_eq!(report.groups, vec![]);
    assert_eq!(report.counters.files_nibbled, 0);
    assert_eq!(report.counters.files_skipped, 3);
    assert_eq!(report.counters.bytes_skipped, 12);
}

#[test]
fn group_bytes_do_not_overflow_on_huge_files() {
    let candidates = vec![
        FileCandidate { path: "a".to_string(), size: u64::MAX },
        FileCandidate { path: "b".to_string(), size: u64::MAX },
        FileCandidate { path: "c".to_string(), size: u64::MAX },
    ];
    let stage = PrefixStage::begin(candidates);
    let report = stage.advance(&vec![Some(0), Some(0), Some(0)]).finish(&vec![
        Some(5),
        Some(5),
        Some(5),
    ]);
    assert_eq!(report.groups.len(), 1);
    assert_eq!(report.groups[0].count, 3);
    assert_eq!(report.groups[0].bytes, 3 * (u64::MAX as u128));
    assert_eq!(report.counters.bytes_considered, 3 * (u64::MAX as u128));
    assert_eq!(report.counters.bytes_hashed, 3 * (u64::MAX as u128));
    assert_eq!(report.counters.bytes_skipped, 0);
}

#[test]
fn every_group_has_two_members_or_more_that_share_size_and_content() {
    let big = long_content(3000, 3);
    let disk = [
        file("a1", b"alpha"),
        file("b1", b"bravo"),
        file("a2", b"alpha"),
        file("big1", &big),
        file("b2", b"bravo"),
        file("a3", b"alpha"),
        file("big2", &big),
        file("lonely", b"zulu!"),
    ];
    let report = run(&disk);
    assert_eq!(report.groups.len(), 3);
    let mut members = 0;
    for group in &report.groups {
        assert!(group.count >= 2);
        assert_eq!(group.count, group.paths.len());
        assert_eq!(group.bytes, group.key.size as u128 * group.count as u128);
        for path in &group.paths {
            let content = content_of(&disk, path).unwrap();
            assert_eq!(content.len() as u64, group.key.size);
            assert_eq!(full_digest(content), group.key.hash);
        }
        members += group.count;
    }
    assert_eq!(paths(&report.groups[0]), vec!["a1", "a2", "a3"]);
    assert_eq!(paths(&report.groups[1]), vec!["b1", "b2"]);
    assert_eq!(paths(&report.groups[2]), vec!["big1", "big2"]);
    let counters = report.counters;
    assert_eq!(counters.files_skipped + counters.files_nibbled, counters.files_considered);
    assert_eq!(counters.bytes_skipped + counters.bytes_nibbled, counters.bytes_considered);
    assert!(counters.files_nibbled >= counters.files_hashed);
    assert!(counters.bytes_nibbled >= counters.bytes_hashed);
    assert!(counters.files_hashed >= members);
    assert_eq!(counters.files_considered, 8);
    assert_eq!(counters.files_nibbled, 8);
    assert_eq!(counters.files_hashed, 7);
    assert_eq!(members, 7);
}

#[test]
fn running_twice_gives_the_same_report() {
    let disk = [
        file("x", b"one two three"),
        file("y", b"one two three"),
        file("z", b"three two one"),
        unreadable("w", 13),
    ];
    assert_eq!(run(&disk), run(&disk));
}

#[test]
fn the_order_of_traversal_does_not_change_the_groups() {
    let forward = [
        file("p", b"same"),
        file("q", b"else"),
        file("r", b"same"),
        file("s", b"else"),
        file("t", b"solo"),
    ];
    let backward = [
        file("t", b"solo"),
        file("s", b"else"),
        file("r", b"same"),
        file("q", b"else"),
        file("p", b"same"),
    ];
    let mut first: Vec<(ContentKey, Vec<String>)> = run(&forward)
        .groups
        .into_iter()
        .map(|g| {
            let mut members = g.paths;
            members.sort();
            (g.key, members)
        })
        .collect();
    let mut second: Vec<(ContentKey, Vec<String>)> = run(&backward)
        .groups
        .into_iter()
        .map(|g| {
            let mut members = g.paths;
            members.sort();
            (g.key, members)
        })
        .collect();
    first.sort_by_key(|g| g.0.hash);
    second.sort_by_key(|g| g.0.hash);
    assert_eq!(first.len(), 2);
    assert_eq!(first, second);
}

#[test]
fn a_configuration_needs_a_root() {
    assert_eq!(ScanConfig::new(vec![]), Err(ConfigError::NoRoots));
    let config = ScanConfig::new(vec!["left".to_string(), "right".to_string()]).unwrap();
    assert_eq!(config.roots(), &vec!["left".to_string(), "right".to_string()]);
    assert!(!config.follow_links());
    let config = config.with_follow_links(true);
    assert!(config.follow_links());
    assert_eq!(config.roots().len(), 2);
    let config = config.with_follow_links(false);
    assert!(!config.follow_links());
}
