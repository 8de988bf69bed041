use dupfind::checksum::{checksum, same_digest};
use dupfind::duplicates::{as_path_iterator, group_by_len, mode1, same_size_to_checksums, Duplicates, Same};
use dupfind::order::{compare_least, least_index, path_le, present};
use dupfind::summary::{tally, Summary};
use dupfind::walker::{Entry, Listed, Walker};
use std::cmp::Ordering;

fn p(s: &str) -> Vec<u8> {
    s.as_bytes().to_vec()
}

fn file(path: &str, len: u64) -> Entry<String> {
    Entry::File { path: p(path), len }
}

fn fold(entries: Vec<Entry<String>>) -> Duplicates {
    let mut d = Duplicates::new();
    for e in entries {
        d = group_by_len(d, e);
    }
    d
}

/// The digests that entry `i` needs, from the contents of its paths.
fn digests_for(d: &Duplicates, contents: &dyn Fn(&[u8]) -> Option<Vec<u8>>) -> Vec<Vec<Option<[u8; 32]>>> {
    let mut all = Vec::new();
    for i in 0..d.len() {
        let mut ds = Vec::new();
        if let (_, Same::SameSize(ps)) = d.entry_at(i) {
            if ps.len() > 1 {
                for path in ps {
                    ds.push(contents(path).map(|c| checksum(&c)));
                }
            }
        }
        all.push(ds);
    }
    all
}

fn run(entries: Vec<Entry<String>>, contents: &dyn Fn(&[u8]) -> Option<Vec<u8>>) -> (Vec<Vec<Vec<u8>>>, Summary) {
    let pass1 = fold(entries);
    let ds = digests_for(&pass1, contents);
    let pass2 = mode1(pass1, ds);
    let summary = pass2.summarize().unwrap();
    (pass2.into_presentation(), summary)
}

fn abc(path: &[u8]) -> Option<Vec<u8>> {
    match path {
        b"a.txt" | b"b.txt" => Some(b"x".to_vec()),
        b"c.txt" => Some(b"y".to_vec()),
        _ => None,
    }
}

#[test]
fn scenario_three_files_one_duplicate() {
    let (groups, s) = run(vec![file("a.txt", 1), file("b.txt", 1), file("c.txt", 1)], &abc);
    assert_eq!(groups, vec![vec![p("a.txt"), p("b.txt")], vec![p("c.txt")]]);
    let dup: Vec<_> = groups.iter().filter(|g| g.len() > 1).collect();
    assert_eq!(dup.len(), 1);
    assert_eq!(s.files, 3);
    assert_eq!(s.candidates, 1);
    assert_eq!(s.bytes, 1);
    assert_eq!(s.unique(), 2);
}

#[test]
fn scenario_empty_directory() {
    let mut w: Walker<u32> = Walker::new(0);
    let top = w.take_top().unwrap();
    assert!(w.step::<String>(top, Listed::Exhausted).is_none());
    assert!(w.is_done());
    assert!(w.take_top().is_none());
    let (groups, s) = run(vec![], &abc);
    assert!(groups.is_empty());
    assert_eq!((s.files, s.candidates, s.bytes), (0, 0, 0));
}

/// Drives a walker over scripted listings: cursor `c` yields `script[c]` in
/// order, then is exhausted.
fn walk(script: Vec<Vec<Listed<usize, String>>>) -> Vec<Entry<String>> {
    let mut script: Vec<std::collections::VecDeque<Listed<usize, String>>> =
        script.into_iter().map(|v| v.into_iter().collect()).collect();
    let mut w = Walker::new(0usize);
    let mut out = Vec::new();
    while let Some(top) = w.take_top() {
        let ev = script[top].pop_front().unwrap_or(Listed::Exhausted);
        if let Some(e) = w.step(top, ev) {
            out.push(e);
        }
    }
    out
}

fn dir(path: &str, c: usize) -> Listed<usize, String> {
    Listed::Directory { path: p(path), opened: Ok(c) }
}

fn reg(path: &str, len: u64) -> Listed<usize, String> {
    Listed::RegularFile { path: p(path), len }
}

#[test]
fn scenario_deep_duplicates_are_found() {
    let entries = walk(vec![
        vec![dir("r/d1", 1), reg("r/top", 7)],
        vec![dir("r/d1/d2", 2)],
        vec![dir("r/d1/d2/d3", 3)],
        vec![reg("r/d1/d2/d3/x", 4), reg("r/d1/d2/d3/y", 4)],
    ]);
    let paths: Vec<Vec<u8>> = entries
        .iter()
        .map(|e| match e {
            Entry::File { path, .. } => path.clone(),
            Entry::Error { .. } => panic!("no error expected"),
        })
        .collect();
    assert_eq!(paths, vec![p("r/d1/d2/d3/x"), p("r/d1/d2/d3/y"), p("r/top")]);
    let (groups, s) = run(entries, &|_| Some(b"same".to_vec()));
    assert_eq!(groups, vec![vec![p("r/d1/d2/d3/x"), p("r/d1/d2/d3/y")], vec![p("r/top")]]);
    assert_eq!((s.files, s.candidates, s.bytes), (3, 1, 4));
}

#[test]
fn scenario_unreadable_subdirectory_is_skipped() {
    let entries = walk(vec![
        vec![
            Listed::Directory { path: p("r/locked"), opened: Err("denied".to_string()) },
            dir("r/open", 1),
        ],
        vec![reg("r/open/a", 3), reg("r/open/b", 3)],
    ]);
    assert_eq!(entries.len(), 3);
    match &entries[0] {
        Entry::Error { path, err } => {
            assert_eq!(path, &p("r/locked"));
            assert_eq!(err, "denied");
        }
        Entry::File { .. } => panic!("expected the error first"),
    }
    let (groups, s) = run(entries, &|_| Some(b"abc".to_vec()));
    assert_eq!(groups, vec![vec![p("r/open/a"), p("r/open/b")]]);
    assert_eq!((s.files, s.candidates, s.bytes), (2, 1, 3));
}

#[test]
fn walker_skips_other_entries_and_reports_errors() {
    let entries = walk(vec![vec![
        Listed::Other,
        Listed::Unreadable { err: "io".to_string() },
        Listed::Unclassified { path: p("r/q"), err: "stat".to_string() },
        reg("r/f", 2),
    ]]);
    assert_eq!(entries.len(), 3);
    assert!(matches!(&entries[0], Entry::Error { path, err } if path.is_empty() && err == "io"));
    assert!(matches!(&entries[1], Entry::Error { path, err } if path == &p("r/q") && err == "stat"));
    assert!(matches!(&entries[2], Entry::File { path, len: 2 } if path == &p("r/f")));
}

#[test]
fn walker_descends_before_siblings() {
    let entries = walk(vec![
        vec![reg("a", 1), dir("b", 1), reg("c", 1)],
        vec![reg("b/x", 1)],
    ]);
    let paths: Vec<Vec<u8>> = entries
        .iter()
        .map(|e| match e {
            Entry::File { path, .. } => path.clone(),
            Entry::Error { .. } => Vec::new(),
        })
        .collect();
    assert_eq!(paths, vec![p("a"), p("b/x"), p("c")]);
}

#[test]
fn errors_leave_buckets_unchanged() {
    let d = fold(vec![file("a", 5), Entry::Error { path: p("z"), err: "e".to_string() }, file("b", 5), file("c", 6)]);
    assert_eq!(d.len(), 2);
    match d.entry_at(0) {
        (5, Same::SameSize(ps)) => assert_eq!(ps, &vec![p("a"), p("b")]),
        _ => panic!("bucket of length 5 expected first"),
    }
    match d.entry_at(1) {
        (6, Same::SameSize(ps)) => assert_eq!(ps, &vec![p("c")]),
        _ => panic!("bucket of length 6 expected"),
    }
}

#[test]
fn same_length_different_content_are_split() {
    let (groups, s) = run(vec![file("m", 4), file("n", 4), file("o", 4)], &|path| match path {
        b"m" | b"o" => Some(b"aaaa".to_vec()),
        _ => Some(b"bbbb".to_vec()),
    });
    assert_eq!(groups, vec![vec![p("m"), p("o")], vec![p("n")]]);
    assert_eq!((s.files, s.candidates, s.bytes), (3, 1, 4));
}

#[test]
fn unreadable_content_is_dropped() {
    let (groups, s) = run(vec![file("a", 2), file("b", 2), file("c", 2)], &|path| match path {
        b"b" => None,
        _ => Some(b"zz".to_vec()),
    });
    assert_eq!(groups, vec![vec![p("a"), p("c")]]);
    assert_eq!((s.files, s.candidates, s.bytes), (2, 1, 2));
}

#[test]
fn summary_formula_over_groups() {
    let (_, s) = run(
        vec![file("a", 10), file("b", 10), file("c", 10), file("d", 3), file("e", 3), file("f", 1)],
        &|_| Some(b"k".to_vec()),
    );
    assert_eq!(s.files, 6);
    assert_eq!(s.candidates, 3);
    assert_eq!(s.bytes, 10 * 2 + 3);
    assert_eq!(s.unique(), 3);
}

#[test]
fn presentation_does_not_depend_on_discovery_order() {
    let contents = |path: &[u8]| Some(path[..1].to_vec());
    let (g1, s1) = run(vec![file("b1", 2), file("a2", 2), file("a1", 2), file("c", 9), file("b2", 2)], &contents);
    let (g2, s2) = run(vec![file("c", 9), file("a1", 2), file("b2", 2), file("a2", 2), file("b1", 2)], &contents);
    let keys1: Vec<Vec<Vec<u8>>> = g1.iter().map(|g| { let mut g = g.clone(); g.sort(); g }).collect();
    let keys2: Vec<Vec<Vec<u8>>> = g2.iter().map(|g| { let mut g = g.clone(); g.sort(); g }).collect();
    assert_eq!(keys1, keys2);
    assert_eq!(keys1, vec![vec![p("a1"), p("a2")], vec![p("b1"), p("b2")], vec![p("c")]]);
    assert_eq!((s1.files, s1.candidates, s1.bytes), (s2.files, s2.candidates, s2.bytes));
    let (g3, _) = run(vec![file("b1", 2), file("a2", 2), file("a1", 2), file("c", 9), file("b2", 2)], &contents);
    assert_eq!(g1, g3);
}

#[test]
fn presentation_orders_by_least_path_and_keeps_discovery_order() {
    let out = present(vec![vec![p("z"), p("b")], vec![p("c")], vec![p("a")]]);
    assert_eq!(out, vec![vec![p("a")], vec![p("z"), p("b")], vec![p("c")]]);
}

#[test]
fn checksum_is_sha256() {
    let d = checksum(b"abc");
    let hex: String = d.iter().map(|b| format!("{:02x}", b)).collect();
    assert_eq!(hex, "ba7816bf8f01cfea414140de5dae2223b00361a396177a9cb410ff61f20015ad");
    assert!(same_digest(&checksum(b"x"), &checksum(b"x")));
    assert!(!same_digest(&checksum(b"x"), &checksum(b"y")));
}

#[test]
fn single_member_bucket_passes_through() {
    let (size, same) = same_size_to_checksums((4, Same::SameSize(vec![p("only")])), &vec![]);
    assert_eq!(size, 4);
    assert!(matches!(same, Same::SameSize(ps) if ps == vec![p("only")]));
}

#[test]
fn path_iterator_lists_each_digest_group() {
    let (_, same) = same_size_to_checksums(
        (1, Same::SameSize(vec![p("a"), p("b"), p("c")])),
        &vec![Some(checksum(b"1")), Some(checksum(b"2")), Some(checksum(b"1"))],
    );
    let lists = as_path_iterator(same);
    assert_eq!(lists, vec![vec![p("a"), p("c")], vec![p("b")]]);
}

#[test]
fn lexicographic_path_order() {
    assert!(path_le(b"a", b"ab"));
    assert!(!path_le(b"ab", b"a"));
    assert!(path_le(b"", b""));
    assert!(path_le(b"a/b", b"a0"));
    assert_eq!(least_index(&vec![p("q"), p("b"), p("c")]), 1);
    assert_eq!(compare_least(&vec![p("q"), p("b")], &vec![p("c")]), Ordering::Less);
    assert_eq!(compare_least(&vec![p("d")], &vec![p("c")]), Ordering::Greater);
    assert_eq!(compare_least(&vec![p("c")], &vec![p("c")]), Ordering::Equal);
}

#[test]
fn tally_reports_overflow() {
    let s = Summary { files: 1, candidates: 0, bytes: 0 };
    assert!(tally(s, u64::MAX, 3).is_none());
    let s = Summary { files: 1, candidates: 0, bytes: 0 };
    let t = tally(s, 5, 3).unwrap();
    assert_eq!((t.files, t.candidates, t.bytes), (4, 2, 10));
}

#[test]
fn summary_overflow_is_reported() {
    let pass1 = fold(vec![file("a", u64::MAX), file("b", u64::MAX), file("c", u64::MAX)]);
    let ds = digests_for(&pass1, &|_| Some(b"q".to_vec()));
    let pass2 = mode1(pass1, ds);
    assert!(pass2.summarize().is_none());
}
