use treewalk::pattern::Matcher;
use treewalk::tree::walk_tree;
use treewalk::tree::DirEntry;
use treewalk::tree::Node;
use treewalk::walker::Walker;

fn file(name: &str) -> DirEntry {
    DirEntry { name: name.to_string(), node: Node::File }
}

fn dir(name: &str, children: Vec<DirEntry>) -> DirEntry {
    DirEntry { name: name.to_string(), node: Node::Dir(children) }
}

fn sorted(mut v: Vec<String>) -> Vec<String> {
    v.sort();
    v
}

fn sample_tree() -> Node {
    Node::Dir(vec![
        dir("a", vec![file("x.txt"), file("y.log")]),
        dir("b", vec![file("z.txt")]),
    ])
}

#[test]
fn scenario_txt_pattern() {
    let tree = sample_tree();
    let m = Matcher::new("*.txt").unwrap();
    let out = walk_tree(".".to_string(), &tree, &Some(m));
    assert_eq!(sorted(out), vec!["./a/x.txt".to_string(), "./b/z.txt".to_string()]);
}

#[test]
fn no_pattern_lists_every_entry() {
    let tree = sample_tree();
    let out = walk_tree(".".to_string(), &tree, &None);
    assert_eq!(
        sorted(out),
        vec![
            "./a".to_string(),
            "./a/x.txt".to_string(),
            "./a/y.log".to_string(),
            "./b".to_string(),
            "./b/z.txt".to_string(),
        ]
    );
}

#[test]
fn directories_traversed_without_matching() {
    let tree = Node::Dir(vec![dir("build", vec![file("notes.txt")])]);
    let m = Matcher::new("*.txt").unwrap();
    let out = walk_tree(".".to_string(), &tree, &Some(m));
    assert!(!out.contains(&"./build".to_string()));
    assert!(out.contains(&"./build/notes.txt".to_string()));
    assert_eq!(out.len(), 1);
}

#[test]
fn repeated_walk_same_multiset() {
    let tree = sample_tree();
    let m1 = Matcher::new("*").unwrap();
    let m2 = Matcher::new("*").unwrap();
    let first = walk_tree(".".to_string(), &tree, &Some(m1));
    let second = walk_tree(".".to_string(), &tree, &Some(m2));
    assert_eq!(sorted(first), sorted(second));
}

#[test]
fn invalid_pattern_rejected() {
    assert!(Matcher::new("[abc").is_err());
}

#[test]
fn invalid_pattern_reports_detail() {
    let err = match Matcher::new("[abc") {
        Ok(_) => panic!("pattern should be rejected"),
        Err(e) => e,
    };
    assert!(!err.is_empty());
}

#[test]
fn valid_pattern_accepted() {
    assert!(Matcher::new("*.txt").is_ok());
    assert!(Matcher::new("c?t").is_ok());
    assert!(Matcher::new("[0-9]*").is_ok());
}

#[test]
fn star_matches_any_run() {
    let m = Matcher::new("*.txt").unwrap();
    assert!(m.matches("x.txt"));
    assert!(m.matches(".txt"));
    assert!(!m.matches("y.log"));
    assert!(!m.matches("txt"));
}

#[test]
fn question_mark_matches_one_character() {
    let m = Matcher::new("c?t").unwrap();
    assert!(m.matches("cat"));
    assert!(m.matches("cut"));
    assert!(!m.matches("ct"));
    assert!(!m.matches("cart"));
}

#[test]
fn character_class_matches_one_from_set() {
    let m = Matcher::new("[abc].txt").unwrap();
    assert!(m.matches("a.txt"));
    assert!(m.matches("c.txt"));
    assert!(!m.matches("d.txt"));
    let range = Matcher::new("log[0-9]").unwrap();
    assert!(range.matches("log7"));
    assert!(!range.matches("logx"));
}

#[test]
fn file_root_prints_nothing() {
    let out = walk_tree(".".to_string(), &Node::File, &None);
    assert!(out.is_empty());
}

#[test]
fn empty_directory_prints_nothing() {
    let out = walk_tree(".".to_string(), &Node::Dir(vec![]), &None);
    assert!(out.is_empty());
}

#[test]
fn duplicate_names_printed_per_occurrence() {
    let tree = Node::Dir(vec![file("x.txt"), file("x.txt")]);
    let m = Matcher::new("*.txt").unwrap();
    let out = walk_tree(".".to_string(), &tree, &Some(m));
    assert_eq!(out, vec!["./x.txt".to_string(), "./x.txt".to_string()]);
}

#[test]
fn deep_tree_paths_joined_per_level() {
    let tree = Node::Dir(vec![dir("a", vec![dir("b", vec![file("c.txt")])])]);
    let m = Matcher::new("c.txt").unwrap();
    let out = walk_tree(".".to_string(), &tree, &Some(m));
    assert_eq!(out, vec!["./a/b/c.txt".to_string()]);
}

#[test]
fn walker_visits_stack_order() {
    let mut w = Walker::new(".".to_string(), None);
    assert_eq!(w.next_dir(), Some(".".to_string()));
    assert!(w.on_entry("./a".to_string(), Some("a"), true));
    assert!(w.on_entry("./f".to_string(), Some("f"), false));
    assert!(w.on_entry("./b".to_string(), Some("b"), true));
    assert_eq!(w.next_dir(), Some("./b".to_string()));
    assert_eq!(w.next_dir(), Some("./a".to_string()));
    assert_eq!(w.next_dir(), None);
}

#[test]
fn walker_queues_unmatched_directories() {
    let m = Matcher::new("*.txt").unwrap();
    let mut w = Walker::new(".".to_string(), Some(m));
    assert_eq!(w.next_dir(), Some(".".to_string()));
    assert!(!w.on_entry("./build".to_string(), Some("build"), true));
    assert!(w.on_entry("./a.txt".to_string(), Some("a.txt"), false));
    assert_eq!(w.next_dir(), Some("./build".to_string()));
    assert_eq!(w.next_dir(), None);
}

#[test]
fn unreadable_name_never_matches_a_pattern() {
    let m = Matcher::new("*").unwrap();
    let mut w = Walker::new(".".to_string(), Some(m));
    assert_eq!(w.next_dir(), Some(".".to_string()));
    assert!(!w.on_entry("./odd".to_string(), None, false));
}

#[test]
fn unreadable_name_matches_without_pattern() {
    let mut w = Walker::new(".".to_string(), None);
    assert_eq!(w.next_dir(), Some(".".to_string()));
    assert!(w.on_entry("./odd".to_string(), None, false));
}
