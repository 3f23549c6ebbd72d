use rclonedirstat::node::{Directory, File, Node};
use rclonedirstat::listing::{parse_i64, parse_input, parse_line, ParseFailure};
use rclonedirstat::path::split_segments;
use rclonedirstat::trie::{FSTrieMap, NotFound};

fn sample() -> FSTrieMap {
    let mut t = FSTrieMap::new();
    t.insert("/a/x.txt", 5);
    t.insert("/a/y.txt", 7);
    t.insert("/b.txt", 3);
    t
}

fn names(nodes: &Vec<Node>) -> Vec<String> {
    nodes.iter().map(|n| n.name().to_string()).collect()
}

#[test]
fn root_children_in_insertion_order() {
    let t = sample();
    let cs = t.children(None).unwrap();
    assert_eq!(names(cs), vec!["a".to_string(), "b.txt".to_string()]);
    assert!(cs[0].is_directory());
    assert!(!cs[1].is_directory());
}

#[test]
fn root_children_sizes() {
    let mut t = sample();
    let lines = t.render(0);
    assert_eq!(lines[0].name, "a");
    assert_eq!(lines[0].size, 12);
    assert_eq!(lines[1].name, "b.txt");
    assert_eq!(lines[1].size, 3);
}

#[test]
fn children_of_subdirectory() {
    let t = sample();
    let cs = t.children(Some("/a")).unwrap();
    assert_eq!(names(cs), vec!["x.txt".to_string(), "y.txt".to_string()]);
    let same = t.children(Some("a//")).unwrap();
    assert_eq!(names(same), vec!["x.txt".to_string(), "y.txt".to_string()]);
}

#[test]
fn children_not_found() {
    let t = sample();
    assert!(matches!(t.children(Some("/zz")), Err(NotFound)));
    assert!(matches!(t.children(Some("/b.txt")), Err(NotFound)));
    assert!(matches!(t.children(Some("/a/x.txt/q")), Err(NotFound)));
}

#[test]
fn size_under_prefixes() {
    let t = sample();
    assert_eq!(t.size_under("/a"), 12);
    assert_eq!(t.size_under("/"), 15);
    assert_eq!(t.size_under("/zz"), 0);
}

#[test]
fn size_under_is_plain_string_prefix() {
    let mut t = FSTrieMap::new();
    t.insert("/a/f", 1);
    t.insert("/ab/g", 2);
    t.insert("/c", 4);
    assert_eq!(t.size_under("/a"), 3);
    assert_eq!(t.size_under("/a/"), 1);
    assert_eq!(t.size_under(""), 7);
}

#[test]
fn render_depth_zero_stops_at_top_level() {
    let mut t = sample();
    let lines = t.render(0);
    assert_eq!(lines.len(), 2);
    assert_eq!((lines[0].depth, lines[0].name.as_str(), lines[0].size), (0, "a", 12));
    assert_eq!((lines[1].depth, lines[1].name.as_str(), lines[1].size), (0, "b.txt", 3));
}

#[test]
fn render_depth_one_visits_children_in_order() {
    let mut t = sample();
    let lines = t.render(1);
    let got: Vec<(usize, String, u64)> =
        lines.iter().map(|l| (l.depth, l.name.clone(), l.size)).collect();
    assert_eq!(
        got,
        vec![
            (0, "a".to_string(), 12),
            (1, "x.txt".to_string(), 5),
            (1, "y.txt".to_string(), 7),
            (0, "b.txt".to_string(), 3),
        ]
    );
}

#[test]
fn root_size_is_sum_of_files() {
    let mut t = sample();
    assert_eq!(t.size(), 15);
    let mut u = FSTrieMap::new();
    u.insert("/d1/d2/d3/f", 100);
    u.insert("d1/g", 20);
    u.insert("/d1/d2/h", 3);
    assert_eq!(u.size(), 123);
}

#[test]
fn empty_tree_has_size_zero() {
    let mut t = FSTrieMap::new();
    assert_eq!(t.size(), 0);
    assert!(t.children(None).unwrap().is_empty());
    assert_eq!(t.render(3).len(), 0);
}

#[test]
fn memo_of_ancestor_is_not_invalidated() {
    let mut t = sample();
    assert_eq!(t.size(), 15);
    t.insert("/a/z.txt", 10);
    // The root keeps its memo: only `a` was appended to.
    assert_eq!(t.size(), 15);
    // `a` itself recomputes.
    let lines = t.render(0);
    assert_eq!(lines[0].size, 22);
}

#[test]
fn appending_to_a_memoized_directory_invalidates_it() {
    let mut t = sample();
    assert_eq!(t.size(), 15);
    t.insert("/c.txt", 1);
    assert_eq!(t.size(), 16);
}

#[test]
fn size_twice_gives_same_value() {
    let mut t = sample();
    let first = t.size();
    let second = t.size();
    assert_eq!(first, 15);
    assert_eq!(first, second);
}

#[test]
fn index_keeps_paths_verbatim() {
    let mut t = FSTrieMap::new();
    t.insert("/a//b", 4);
    t.insert("a/c", 6);
    assert_eq!(t.get("/a//b"), Some(4));
    assert_eq!(t.get("a/c"), Some(6));
    assert_eq!(t.get("/a/b"), None);
    assert_eq!(t.get("/a/c"), None);
    let cs = t.children(Some("/a")).unwrap();
    assert_eq!(names(cs), vec!["b".to_string(), "c".to_string()]);
}

#[test]
fn last_insert_wins_in_index() {
    let mut t = FSTrieMap::new();
    t.insert("/a/x", 1);
    t.insert("/a/x", 9);
    assert_eq!(t.get("/a/x"), Some(9));
    // The tree keeps the first file.
    assert_eq!(t.children(Some("/a")).unwrap().len(), 1);
    assert_eq!(t.render(1)[1].size, 1);
}

#[test]
fn empty_path_only_reaches_index() {
    let mut t = FSTrieMap::new();
    t.insert("", 5);
    t.insert("///", 6);
    assert_eq!(t.get(""), Some(5));
    assert_eq!(t.get("///"), Some(6));
    assert!(t.children(None).unwrap().is_empty());
    assert_eq!(t.size(), 0);
}

#[test]
fn inner_segment_naming_a_file_leaves_tree_unchanged() {
    let mut t = sample();
    t.insert("/b.txt/inner", 50);
    assert_eq!(t.get("/b.txt/inner"), Some(50));
    assert_eq!(t.children(None).unwrap().len(), 2);
    assert_eq!(t.size(), 15);
}

#[test]
fn path_segments_drop_empty_ones() {
    assert_eq!(split_segments("/a//b/"), vec!["a".to_string(), "b".to_string()]);
    assert_eq!(split_segments("a/b"), vec!["a".to_string(), "b".to_string()]);
    assert!(split_segments("").is_empty());
    assert!(split_segments("//").is_empty());
    assert_eq!(split_segments("dir with space/é"), vec!["dir with space".to_string(), "é".to_string()]);
}

#[test]
fn node_size_memoizes() {
    let mut d = Directory::new("d".to_string());
    assert_eq!(d.size(), 0);
    d.add_child(Node::File(File::new("f".to_string(), 8)));
    assert!(!d.size_is_cached);
    assert_eq!(d.size(), 8);
    assert!(d.size_is_cached);
    // A change made behind the directory's back is not seen until it is
    // appended to again.
    if let Node::File(f) = &mut d.children[0] {
        f.size = 100;
    }
    assert_eq!(d.size(), 8);
    d.add_child(Node::File(File::new("g".to_string(), 1)));
    assert_eq!(d.size(), 101);
    let mut n = Node::Directory(d);
    assert!(n.try_as_directory().is_some());
    assert_eq!(n.size(), 101);
    let mut f = Node::File(File::new("x".to_string(), 2));
    assert!(f.try_as_directory().is_none());
    assert_eq!(f.size(), 2);
}

#[test]
fn parse_listing_lines() {
    let lines = vec![
        "  100 home/user/file.txt\n".to_string(),
        "1200 home/user/dir/my file.txt\n".to_string(),
        "-5 neg\n".to_string(),
        "7\n".to_string(),
    ];
    let got = parse_input(&lines).unwrap();
    assert_eq!(
        got,
        vec![
            (100, "/home/user/file.txt".to_string()),
            (1200, "/home/user/dir/my file.txt".to_string()),
            (0, "/neg".to_string()),
            (7, "/".to_string()),
        ]
    );
}

#[test]
fn parse_listing_rejects_malformed_line() {
    let lines = vec!["1 /ok\n".to_string(), "abc /bad\n".to_string(), "x".to_string()];
    assert_eq!(parse_input(&lines), Err(ParseFailure { line: 1 }));
    let empty = vec!["\n".to_string()];
    assert_eq!(parse_input(&empty), Err(ParseFailure { line: 0 }));
}

#[test]
fn parse_integers() {
    assert_eq!(parse_i64("0"), Some(0));
    assert_eq!(parse_i64("+42"), Some(42));
    assert_eq!(parse_i64("-42"), Some(-42));
    assert_eq!(parse_i64("9223372036854775807"), Some(i64::MAX));
    assert_eq!(parse_i64("-9223372036854775808"), Some(i64::MIN));
    assert_eq!(parse_i64("9223372036854775808"), None);
    assert_eq!(parse_i64("99999999999999999999999"), None);
    assert_eq!(parse_i64(""), None);
    assert_eq!(parse_i64("-"), None);
    assert_eq!(parse_i64("1a"), None);
}

#[test]
fn parse_line_splits_at_first_space() {
    assert_eq!(parse_line("12 a b"), Some((12, "/a b".to_string())));
    assert_eq!(parse_line("12  a"), Some((12, "/ a".to_string())));
    assert_eq!(parse_line("x a"), None);
}
