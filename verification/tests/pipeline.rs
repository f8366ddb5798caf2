use dupfinder::compare::{compare_files, select_strategy, DuplicateGroup, Strategy};
use dupfinder::filter::{is_hidden_name, passes_hidden_rule, size_in_range, InodeFilter};
use dupfinder::hashes::HashAggregator;
use dupfinder::report::Totals;
use dupfinder::sample::{sparse_digest, sparse_sample, BLOCK, GAP};
use dupfinder::sizes::SizeMap;

fn groups_as_sets(out: &[DuplicateGroup]) -> Vec<(u64, Vec<String>)> {
    let mut v: Vec<(u64, Vec<String>)> = out
        .iter()
        .map(|g| {
            let mut paths: Vec<String> = g.paths.clone();
            paths.sort();
            (g.size, paths)
        })
        .collect();
    v.sort();
    v
}

fn bytes(n: usize, fill: u8) -> Vec<u8> {
    vec![fill; n]
}

#[test]
fn trivial_pair_is_reported() {
    let data: Vec<u8> = (0..10240).map(|i| (i * 37 % 251) as u8).collect();
    let files = vec![
        ("/t/a".to_string(), data.clone()),
        ("/t/b".to_string(), data.clone()),
    ];
    let mut out = Vec::new();
    compare_files(10240, files, &mut out);
    assert_eq!(out.len(), 1);
    assert_eq!(out[0].size, 10240);
    let mut paths = out[0].paths.clone();
    paths.sort();
    assert_eq!(paths, vec!["/t/a".to_string(), "/t/b".to_string()]);
}

#[test]
fn unique_sizes_spawn_no_jobs() {
    let mut sizes = SizeMap::new();
    assert_eq!(sizes.observe(1000, "/t/a".to_string()).len(), 0);
    assert_eq!(sizes.observe(2000, "/t/b".to_string()).len(), 0);
    assert_eq!(sizes.observe(3000, "/t/c".to_string()).len(), 0);
    let totals = Totals::new();
    assert_eq!(totals.dupes, 0);
}

#[test]
fn second_sighting_promotes_the_first_path() {
    let mut sizes = SizeMap::new();
    assert_eq!(sizes.observe(500, "/t/a".to_string()).len(), 0);
    let jobs = sizes.observe(500, "/t/b".to_string());
    assert_eq!(jobs.len(), 2);
    assert_eq!(jobs[0], (500, "/t/a".to_string()));
    assert_eq!(jobs[1], (500, "/t/b".to_string()));
    let jobs = sizes.observe(500, "/t/c".to_string());
    assert_eq!(jobs.len(), 1);
    assert_eq!(jobs[0], (500, "/t/c".to_string()));
}

#[test]
fn false_sparse_positive_is_weeded_out() {
    // two files agreeing on every sampled stretch but differing inside
    // the first skipped gap
    let size = 200 * 1024;
    let mut a = bytes(size, 7);
    let b = a.clone();
    a[5000] = 9;
    assert_eq!(sparse_sample(&a), sparse_sample(&b));
    assert_eq!(sparse_digest(&a), sparse_digest(&b));
    let files = vec![("/t/a".to_string(), a), ("/t/b".to_string(), b)];
    let mut out = Vec::new();
    compare_files(size as u64, files, &mut out);
    assert_eq!(out.len(), 0);
}

#[test]
fn hardlink_is_seen_once() {
    let mut inodes = InodeFilter::new();
    assert!(inodes.check_inode(2049, 177));
    assert!(!inodes.check_inode(2049, 177));
    assert!(inodes.check_inode(2049, 178));
    assert!(inodes.check_inode(2050, 177));
}

#[test]
fn three_way_partition() {
    let ab = bytes(4096 * 3, 1);
    let mut cd = bytes(4096 * 3, 1);
    cd[0] = 2;
    let files = vec![
        ("/t/a".to_string(), ab.clone()),
        ("/t/b".to_string(), ab.clone()),
        ("/t/c".to_string(), cd.clone()),
        ("/t/d".to_string(), cd.clone()),
    ];
    let mut out = Vec::new();
    compare_files(4096 * 3, files, &mut out);
    let got = groups_as_sets(&out);
    assert_eq!(
        got,
        vec![
            (4096 * 3, vec!["/t/a".to_string(), "/t/b".to_string()]),
            (4096 * 3, vec!["/t/c".to_string(), "/t/d".to_string()]),
        ]
    );
}

#[test]
fn divergence_at_the_last_byte_still_partitions() {
    let a = bytes(8192, 5);
    let mut b = a.clone();
    b[8191] = 6;
    let files = vec![("/t/a".to_string(), a), ("/t/b".to_string(), b)];
    let mut out = Vec::new();
    compare_files(8192, files, &mut out);
    assert_eq!(out.len(), 0);
}

#[test]
fn zero_length_files_are_all_equal() {
    let files = vec![
        ("/t/a".to_string(), Vec::new()),
        ("/t/b".to_string(), Vec::new()),
        ("/t/c".to_string(), Vec::new()),
    ];
    let mut out = Vec::new();
    compare_files(0, files, &mut out);
    assert_eq!(out.len(), 1);
    assert_eq!(out[0].paths.len(), 3);
    // included exactly when the minimum size is zero
    assert!(size_in_range(0, 0, u64::MAX));
    assert!(!size_in_range(0, 1, u64::MAX));
}

#[test]
fn short_files_are_sampled_whole() {
    let data: Vec<u8> = (0..3000).map(|i| (i % 256) as u8).collect();
    assert!(data.len() <= BLOCK);
    assert_eq!(sparse_sample(&data), data);
}

#[test]
fn sparse_digest_matches_the_reference_digest() {
    let data: Vec<u8> = (0..2000).map(|i| (i % 256) as u8).collect();
    let d = sparse_digest(&data);
    assert_eq!(d.len(), 32);
    // data shorter than one block is sampled whole
    assert_eq!(d.as_slice(), blake3::hash(&data).as_bytes());
    // a longer file is not hashed whole: only the sampled stretches count
    let long = bytes(BLOCK + GAP + 100, 3);
    let mut sampled = long[..BLOCK].to_vec();
    sampled.extend_from_slice(&long[BLOCK + GAP..]);
    assert_eq!(
        sparse_digest(&long).as_slice(),
        blake3::hash(&sampled).as_bytes()
    );
}

#[test]
fn strategy_switches_at_one_hundred() {
    assert!(matches!(select_strategy(2), Strategy::Fast));
    assert!(matches!(select_strategy(99), Strategy::Fast));
    assert!(matches!(select_strategy(100), Strategy::Slow));
    assert!(matches!(select_strategy(250), Strategy::Slow));
}

#[test]
fn a_large_group_compares_under_the_slow_strategy() {
    let data = bytes(5000, 8);
    let mut files = Vec::new();
    for i in 0..120 {
        files.push((format!("/t/f{}", i), data.clone()));
    }
    let mut out = Vec::new();
    compare_files(5000, files, &mut out);
    assert_eq!(out.len(), 1);
    assert_eq!(out[0].paths.len(), 120);
}

#[test]
fn grand_total_counts_two_groups() {
    let mut totals = Totals::new();
    totals.record(1048576, 2);
    totals.record(1048576, 2);
    assert_eq!(totals.dupes, 2);
    assert_eq!(totals.files, 2);
    assert_eq!(totals.size, 2 * 1048576);
}

#[test]
fn totals_saturate_instead_of_wrapping() {
    let mut totals = Totals::new();
    totals.record(u64::MAX, 3);
    assert_eq!(totals.size, u64::MAX);
    totals.record(10, 2);
    assert_eq!(totals.size, u64::MAX);
    assert_eq!(totals.dupes, 2);
    assert_eq!(totals.files, 3);
}

#[test]
fn hidden_names_are_recognised() {
    assert!(is_hidden_name(".bashrc"));
    assert!(!is_hidden_name("bashrc"));
    assert!(!is_hidden_name(""));
    assert!(!passes_hidden_rule(true, ".cache"));
    assert!(passes_hidden_rule(false, ".cache"));
    assert!(passes_hidden_rule(true, "cache"));
}

#[test]
fn aggregator_buckets_by_size_and_digest() {
    let mut agg = HashAggregator::new();
    let d1 = vec![1u8; 32];
    let d2 = vec![2u8; 32];
    agg.insert(100, d1.clone(), "/t/a".to_string());
    agg.insert(100, d1.clone(), "/t/b".to_string());
    agg.insert(100, d2.clone(), "/t/c".to_string());
    agg.insert(200, d1.clone(), "/t/d".to_string());
    let buckets = agg.take_buckets();
    assert_eq!(buckets.len(), 3);
    assert_eq!(buckets[0].paths, vec!["/t/a".to_string(), "/t/b".to_string()]);
    assert_eq!(buckets[1].paths, vec!["/t/c".to_string()]);
    assert_eq!(buckets[2].paths, vec!["/t/d".to_string()]);
}

#[test]
fn running_twice_reports_the_same_groups() {
    let ab = bytes(9000, 4);
    let mut c = bytes(9000, 4);
    c[100] = 5;
    let files1 = vec![
        ("/t/a".to_string(), ab.clone()),
        ("/t/b".to_string(), ab.clone()),
        ("/t/c".to_string(), c.clone()),
    ];
    let files2 = files1.clone();
    let mut out1 = Vec::new();
    let mut out2 = Vec::new();
    compare_files(9000, files1, &mut out1);
    compare_files(9000, files2, &mut out2);
    assert_eq!(groups_as_sets(&out1), groups_as_sets(&out2));
    assert_eq!(out1.len(), 1);
}

#[test]
fn swapping_contents_moves_membership() {
    let x = bytes(6000, 1);
    let y = bytes(6000, 2);
    // before the swap: a and b are the duplicates
    let before = vec![
        ("/t/a".to_string(), x.clone()),
        ("/t/b".to_string(), x.clone()),
        ("/t/c".to_string(), y.clone()),
    ];
    let mut out = Vec::new();
    compare_files(6000, before, &mut out);
    assert_eq!(
        groups_as_sets(&out),
        vec![(6000, vec!["/t/a".to_string(), "/t/b".to_string()])]
    );
    // after swapping b's and c's contents: a and c are the duplicates
    let after = vec![
        ("/t/a".to_string(), x.clone()),
        ("/t/b".to_string(), y.clone()),
        ("/t/c".to_string(), x.clone()),
    ];
    let mut out = Vec::new();
    compare_files(6000, after, &mut out);
    assert_eq!(
        groups_as_sets(&out),
        vec![(6000, vec!["/t/a".to_string(), "/t/c".to_string()])]
    );
}
