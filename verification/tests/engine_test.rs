use superdiff::cli::{Cli, ReportingMode};
use superdiff::comp::{comparison_lambda, get_matches_from_2_files, get_max_block_size, ComparisonFn};
use superdiff::merge::{update_matches, Matches, MatchesLookup};
use superdiff::report::{JsonBlockInfo, JsonMatch, JsonRoot};
use superdiff::threadpool::{get_all_matches, ThreadPool};
use superdiff::types::{CompFile, FileCache, Match};

fn args_with(lev: usize, line: usize, block: usize, files: Vec<&str>) -> Cli {
    Cli {
        lev_threshold: lev,
        line_threshold: line,
        block_threshold: block,
        verbose: false,
        worker_threads: 1,
        files: files.into_iter().map(|s| s.to_string()).collect(),
        reporting_mode: ReportingMode::Json,
    }
}

fn cache_of(entries: Vec<(&str, Vec<&str>)>) -> FileCache {
    let mut cache = FileCache::new();
    for (file, lines) in entries {
        cache.insert(
            file.to_string(),
            lines.into_iter().map(|s| s.to_string()).collect(),
        );
    }
    cache
}

fn cluster_sizes(matches: &Matches) -> Vec<usize> {
    let mut sizes: Vec<usize> = matches.0.iter().map(|(_, v)| v.len() + 1).collect();
    sizes.sort();
    sizes
}

fn lines_of_cluster(cluster: &(Match, Vec<Match>)) -> Vec<usize> {
    let mut lines = vec![cluster.0.line];
    for m in &cluster.1 {
        lines.push(m.line);
    }
    lines.sort();
    lines
}

#[test]
fn one_line_blocks_within_edit_distance_three_form_one_cluster() {
    let args = args_with(3, 1, 1, vec!["a.txt", "b.txt"]);
    let cache = cache_of(vec![("a.txt", vec!["kitten"]), ("b.txt", vec!["sitting"])]);
    let (_, matches) = get_all_matches(&args, &cache);
    assert_eq!(cluster_sizes(&matches), vec![2]);
}

#[test]
fn one_line_blocks_past_edit_distance_two_form_no_cluster() {
    let args = args_with(2, 1, 1, vec!["a.txt", "b.txt"]);
    let cache = cache_of(vec![("a.txt", vec!["kitten"]), ("b.txt", vec!["sitting"])]);
    let (_, matches) = get_all_matches(&args, &cache);
    assert_eq!(matches.0.len(), 0);
}

#[test]
fn twelve_identical_lines_give_three_nonoverlapping_members() {
    let args = args_with(0, 1, 4, vec!["twelve.txt"]);
    let line = "let x = x + 1;";
    let cache = cache_of(vec![("twelve.txt", vec![line; 12])]);
    let (_, matches) = get_all_matches(&args, &cache);
    assert_eq!(matches.0.len(), 1);
    assert_eq!(lines_of_cluster(&matches.0[0]), vec![1, 5, 9]);
    assert_eq!(matches.0[0].0.size, 4);
    for m in &matches.0[0].1 {
        assert_eq!(m.size, 4);
    }
}

#[test]
fn a_shared_twenty_line_block_pairs_two_files() {
    let block: Vec<String> = (0..20).map(|k| format!("shared line number {k}")).collect();
    let mut a_lines: Vec<String> = vec!["a filler one".to_string(), "a filler two".to_string()];
    a_lines.extend(block.iter().cloned());
    let mut b_lines: Vec<String> = (0..6).map(|k| format!("b filler {k}")).collect();
    b_lines.extend(block.iter().cloned());

    let mut cache = FileCache::new();
    cache.insert("a.txt".to_string(), a_lines);
    cache.insert("b.txt".to_string(), b_lines);

    let args = args_with(0, 1, 10, vec!["a.txt", "b.txt"]);
    let (_, matches) = get_all_matches(&args, &cache);
    assert_eq!(matches.0.len(), 1);
    let cluster = &matches.0[0];
    assert_eq!(cluster.1.len(), 1);
    let mut found = vec![
        (cluster.0.file.clone(), cluster.0.line, cluster.0.size),
        (cluster.1[0].file.clone(), cluster.1[0].line, cluster.1[0].size),
    ];
    found.sort();
    assert_eq!(
        found,
        vec![("a.txt".to_string(), 3, 20), ("b.txt".to_string(), 7, 20)]
    );
}

#[test]
fn three_near_identical_regions_merge_transitively() {
    let base: Vec<String> = (0..10).map(|k| format!("some long enough line {k}")).collect();
    let tweaked: Vec<String> = (0..10).map(|k| format!("some long enougX line {k}")).collect();
    let tweaked_more: Vec<String> = (0..10).map(|k| format!("some lonX enouXX line {k}")).collect();

    let mut cache = FileCache::new();
    cache.insert("one.txt".to_string(), base);
    cache.insert("two.txt".to_string(), tweaked);
    cache.insert("three.txt".to_string(), tweaked_more);

    let args = args_with(5, 1, 10, vec!["one.txt", "two.txt", "three.txt"]);
    let (_, matches) = get_all_matches(&args, &cache);
    assert_eq!(cluster_sizes(&matches), vec![3]);
}

#[test]
fn adjacent_identical_blocks_give_one_cluster_of_two() {
    let block = vec!["alpha line", "beta line", "gamma line", "delta line", "epsilon line"];
    let mut lines = block.clone();
    lines.extend(block.iter().cloned());
    let cache = cache_of(vec![("double.txt", lines)]);
    let args = args_with(0, 1, 5, vec!["double.txt"]);
    let (_, matches) = get_all_matches(&args, &cache);
    assert_eq!(matches.0.len(), 1);
    assert_eq!(lines_of_cluster(&matches.0[0]), vec![1, 6]);
    assert_eq!(matches.0[0].0.size, 5);
}

#[test]
fn an_empty_file_list_yields_an_empty_report() {
    let args = args_with(0, 1, 20, vec![]);
    let cache = FileCache::new();
    let (lookup, matches) = get_all_matches(&args, &cache);
    assert_eq!(lookup.0.len(), 0);
    assert_eq!(matches.0.len(), 0);
    let root = JsonRoot::from(matches);
    assert_eq!(root.unique_matches(), 0);
    assert_eq!(root.files.len(), 0);
    assert_eq!(root.matches.len(), 0);
}

#[test]
fn worker_count_does_not_change_the_clusters() {
    let line = "a line that is repeated";
    let mut cache = FileCache::new();
    cache.insert("x.txt".to_string(), vec![line.to_string(); 8]);
    cache.insert("y.txt".to_string(), vec![line.to_string(); 8]);

    // the serial driver ignores the worker count entirely; the partition
    // covers the same pairs for any count
    let mut one = args_with(0, 1, 4, vec!["x.txt", "y.txt"]);
    one.worker_threads = 1;
    let mut four = args_with(0, 1, 4, vec!["x.txt", "y.txt"]);
    four.worker_threads = 4;

    let (_, m1) = get_all_matches(&one, &cache);
    let (_, m4) = get_all_matches(&four, &cache);
    assert_eq!(cluster_sizes(&m1), cluster_sizes(&m4));

    let pool1 = ThreadPool::from(one);
    let pool4 = ThreadPool::from(four);
    let mut pairs1: Vec<(String, String)> =
        pool1.partition_file_combinations().into_iter().flatten().collect();
    let mut pairs4: Vec<(String, String)> =
        pool4.partition_file_combinations().into_iter().flatten().collect();
    pairs1.sort();
    pairs4.sort();
    assert_eq!(pairs1, pairs4);
}

#[test]
fn partition_deals_pairs_round_robin() {
    let args = args_with(0, 1, 10, vec!["a", "b", "c"]);
    let pool = ThreadPool::from(Cli { worker_threads: 2, ..args });
    let buckets = pool.partition_file_combinations();
    assert_eq!(buckets.len(), 2);
    let s = |x: &str, y: &str| (x.to_string(), y.to_string());
    assert_eq!(buckets[0], vec![s("a", "a"), s("a", "c"), s("b", "c")]);
    assert_eq!(buckets[1], vec![s("a", "b"), s("b", "b"), s("c", "c")]);
}

#[test]
fn comparison_lambda_picks_the_relation() {
    let exact = args_with(0, 1, 10, vec![]);
    let fuzzy = args_with(2, 1, 10, vec![]);
    let c_exact = comparison_lambda(&exact);
    let c_fuzzy = comparison_lambda(&fuzzy);
    assert!(c_exact.compare(&"same".to_string(), &"same".to_string()));
    assert!(!c_exact.compare(&"same".to_string(), &"sane".to_string()));
    assert!(c_fuzzy.compare(&"same".to_string(), &"sane".to_string()));
    assert!(!c_fuzzy.compare(&"same".to_string(), &"entirely else".to_string()));
}

#[test]
fn block_extension_respects_the_self_overlap_rule() {
    let comp = ComparisonFn::Equality;
    let lines: Vec<String> = vec!["x"; 10].into_iter().map(|s| s.to_string()).collect();
    let f1 = CompFile { file: "f.txt".to_string(), lines: lines.clone(), start: 0 };
    let f2 = CompFile { file: "f.txt".to_string(), lines, start: 4 };
    // identical lines everywhere, but the block may not eat its twin
    assert_eq!(get_max_block_size(&comp, &f1, &f2), 4);
}

#[test]
fn block_extension_stops_at_end_of_file() {
    let comp = ComparisonFn::Equality;
    let a: Vec<String> = vec!["p", "q", "r"].into_iter().map(|s| s.to_string()).collect();
    let b: Vec<String> = vec!["p", "q"].into_iter().map(|s| s.to_string()).collect();
    let f1 = CompFile { file: "a.txt".to_string(), lines: a, start: 0 };
    let f2 = CompFile { file: "b.txt".to_string(), lines: b, start: 0 };
    assert_eq!(get_max_block_size(&comp, &f1, &f2), 2);
}

#[test]
fn scanner_emits_each_qualifying_pair() {
    let args = args_with(0, 1, 1, vec![]);
    let comp = comparison_lambda(&args);
    let a = CompFile {
        file: "a.txt".to_string(),
        lines: vec!["x".to_string(), "x".to_string()],
        start: 0,
    };
    let b = CompFile { file: "b.txt".to_string(), lines: vec!["x".to_string()], start: 0 };
    let pairs = get_matches_from_2_files(&args, &comp, (a, b));
    assert_eq!(pairs.len(), 2);
    assert_eq!((pairs[0].0.line, pairs[0].0.size, pairs[0].1.line), (1, 1, 1));
    assert_eq!((pairs[1].0.line, pairs[1].0.size, pairs[1].1.line), (2, 1, 1));
}

#[test]
fn scanner_skips_lines_under_the_length_threshold() {
    let args = args_with(0, 5, 1, vec![]);
    let comp = comparison_lambda(&args);
    let a = CompFile { file: "a.txt".to_string(), lines: vec!["ab".to_string()], start: 0 };
    let b = CompFile { file: "b.txt".to_string(), lines: vec!["ab".to_string()], start: 0 };
    let pairs = get_matches_from_2_files(&args, &comp, (a, b));
    assert_eq!(pairs.len(), 0);
}

fn m(file: &str, line: usize, size: usize) -> Match {
    Match { file: file.to_string(), line, size }
}

#[test]
fn matches_compare_by_all_three_fields() {
    assert!(m("f", 1, 2) == m("f", 1, 2));
    assert!(m("f", 1, 2) != m("g", 1, 2));
    assert!(m("f", 1, 2) != m("f", 3, 2));
    assert!(m("f", 1, 2) != m("f", 1, 5));
    let copy = m("f", 4, 7).clone();
    assert_eq!(copy, m("f", 4, 7));
}

#[test]
fn the_cache_serves_what_was_put_in() {
    let mut cache = FileCache::new();
    cache.insert("a.txt".to_string(), vec!["one".to_string(), "two".to_string()]);
    assert_eq!(cache.get(&"a.txt".to_string()), Some(&vec!["one".to_string(), "two".to_string()]));
    assert_eq!(cache.get(&"b.txt".to_string()), None);

    let pair = CompFile::from_files(&"a.txt".to_string(), &"a.txt".to_string(), &cache);
    let (f1, f2) = pair.expect("both files are cached");
    assert_eq!(f1.start, 0);
    assert_eq!(f2.start, 0);
    assert_eq!(f1.current_line(), "one");
    assert_eq!(f1.lines, f2.lines);
    assert!(CompFile::from_files(&"a.txt".to_string(), &"b.txt".to_string(), &cache).is_none());
}

#[test]
fn a_cluster_record_tallies_by_file() {
    let record = JsonMatch::from((m("x", 1, 3), vec![m("y", 4, 3), m("x", 9, 3)]));
    assert_eq!(record.files.len(), 2);
    assert_eq!(record.files[0].0, "x");
    assert_eq!(record.files[0].1.count_blocks, 2);
    assert_eq!(record.files[1].0, "y");
    assert_eq!(record.files[1].1.count_blocks, 1);
    let x_starts: Vec<usize> = record.blocks[0].1.iter().map(|b| b.starting_line).collect();
    assert_eq!(x_starts, vec![1, 9]);
    assert_eq!(record.blocks[1].1[0].starting_line, 4);
    assert_eq!(record.blocks[1].1[0].block_length, 3);
}

#[test]
fn update_matches_covers_all_four_cases() {
    let mut lookup = MatchesLookup::new();
    let mut table = Matches::new();

    // both new: a cluster keyed by the second match
    update_matches((m("f", 1, 2), m("f", 5, 2)), &mut lookup, &mut table);
    assert_eq!(table.0.len(), 1);
    assert_eq!(table.0[0].0, m("f", 5, 2));
    assert_eq!(table.0[0].1, vec![m("f", 1, 2)]);

    // one known: the new match joins the existing bucket
    update_matches((m("f", 1, 2), m("g", 9, 2)), &mut lookup, &mut table);
    assert_eq!(table.0.len(), 1);
    assert_eq!(table.0[0].1, vec![m("f", 1, 2), m("g", 9, 2)]);

    // a separate cluster, then a pair bridging both: the buckets merge
    update_matches((m("h", 2, 2), m("h", 7, 2)), &mut lookup, &mut table);
    assert_eq!(table.0.len(), 2);
    update_matches((m("f", 1, 2), m("h", 2, 2)), &mut lookup, &mut table);
    assert_eq!(table.0.len(), 1);
    assert_eq!(table.0[0].1.len(), 4);

    // both already together: nothing changes
    let before = table.0[0].1.len();
    update_matches((m("g", 9, 2), m("h", 7, 2)), &mut lookup, &mut table);
    assert_eq!(table.0.len(), 1);
    assert_eq!(table.0[0].1.len(), before);

    // the lookup invariant: every known match points at the cluster's key,
    // the key included
    let key = &table.0[0].0;
    assert_eq!(lookup.0.len(), 5);
    for (_, pointed) in &lookup.0 {
        assert_eq!(pointed, key);
    }
}

#[test]
fn report_tallies_blocks_per_file() {
    let args = args_with(0, 1, 4, vec!["twelve.txt"]);
    let line = "let x = x + 1;";
    let cache = cache_of(vec![("twelve.txt", vec![line; 12])]);
    let (_, matches) = get_all_matches(&args, &cache);
    let root = JsonRoot::from(matches);
    assert_eq!(root.version, "0.1.0");
    assert_eq!(root.unique_matches(), 1);
    assert_eq!(root.files.len(), 1);
    assert_eq!(root.files[0].0, "twelve.txt");
    assert_eq!(root.files[0].1.count_blocks, 3);
    let record = &root.matches[0];
    assert_eq!(record.files.len(), 1);
    assert_eq!(record.files[0].1.count_blocks, 3);
    let mut starts: Vec<usize> = record.blocks[0].1.iter().map(|b| b.starting_line).collect();
    starts.sort();
    assert_eq!(starts, vec![1, 5, 9]);
    for b in &record.blocks[0].1 {
        assert_eq!(b.block_length, 4);
    }
}

#[test]
fn report_equality_reads_blocks_as_multisets() {
    let args = args_with(0, 1, 4, vec!["twelve.txt"]);
    let line = "let x = x + 1;";
    let cache = cache_of(vec![("twelve.txt", vec![line; 12])]);
    let (_, matches) = get_all_matches(&args, &cache);
    let root = JsonRoot::from(matches);

    let mut shuffled = JsonRoot::from(get_all_matches(&args, &cache).1);
    shuffled.matches[0].blocks[0].1.reverse();
    assert!(root == shuffled);

    let mut altered = JsonRoot::from(get_all_matches(&args, &cache).1);
    altered.matches[0].blocks[0].1[0] = JsonBlockInfo { starting_line: 2, block_length: 4 };
    assert!(root != altered);
}

#[test]
fn file_order_leaves_these_clusters_unchanged() {
    let block: Vec<String> = (0..12).map(|k| format!("line number {k} of the block")).collect();
    let mut cache = FileCache::new();
    cache.insert("p.txt".to_string(), block.clone());
    cache.insert("q.txt".to_string(), block.clone());
    cache.insert("r.txt".to_string(), block);

    let fwd = args_with(0, 1, 10, vec!["p.txt", "q.txt", "r.txt"]);
    let rev = args_with(0, 1, 10, vec!["r.txt", "p.txt", "q.txt"]);
    let (_, mf) = get_all_matches(&fwd, &cache);
    let (_, mr) = get_all_matches(&rev, &cache);
    assert_eq!(cluster_sizes(&mf), cluster_sizes(&mr));
    assert!(JsonRoot::from(mf) == JsonRoot::from(mr));
}
