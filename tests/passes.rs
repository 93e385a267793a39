use rflatten::filter::FilterRules;
use rflatten::flatten::{flatten_directory_by_traversal, Action, Event, FlattenPass};
use rflatten::summary::{collect_file_summary, FileSummary, SummaryPass};
use rflatten::walk::{Entry, EntryKind};

/// A directory tree held in memory; entries are listed in the order added.
#[derive(Clone, Debug)]
enum Node {
    File(String),
    Dir(Vec<(String, Node)>),
}

struct Tree {
    root: Vec<(String, Node)>,
    /// Names in the root that refuse to be renamed onto.
    blocked_renames: Vec<String>,
    printed: Vec<String>,
}

impl Tree {
    fn new() -> Tree {
        Tree { root: Vec::new(), blocked_renames: Vec::new(), printed: Vec::new() }
    }

    fn dir_mut(&mut self, path: &[&str]) -> &mut Vec<(String, Node)> {
        let mut cur = &mut self.root;
        for name in path {
            let idx = cur.iter().position(|(n, _)| n == name).expect("no such directory");
            cur = match &mut cur[idx].1 {
                Node::Dir(children) => children,
                Node::File(_) => panic!("not a directory"),
            };
        }
        cur
    }

    fn add_dir(&mut self, parent: &[&str], name: &str) {
        self.dir_mut(parent).push((name.to_string(), Node::Dir(Vec::new())));
    }

    fn add_file(&mut self, parent: &[&str], name: &str, content: &str) {
        self.dir_mut(parent).push((name.to_string(), Node::File(content.to_string())));
    }

    fn dir_at(&self, path: &[String]) -> &Vec<(String, Node)> {
        let mut cur = &self.root;
        for name in path {
            let idx = cur.iter().position(|(n, _)| n == name).expect("no such directory");
            cur = match &cur[idx].1 {
                Node::Dir(children) => children,
                Node::File(_) => panic!("not a directory"),
            };
        }
        cur
    }

    fn list(&self, path: &[String]) -> Vec<Entry> {
        self.dir_at(path)
            .iter()
            .map(|(n, node)| Entry {
                name: n.clone(),
                kind: match node {
                    Node::File(_) => EntryKind::File,
                    Node::Dir(_) => EntryKind::Dir,
                },
            })
            .collect()
    }

    fn lookup(&self, path: &[&str]) -> Option<&Node> {
        let (last, dirs) = path.split_last()?;
        let dirs: Vec<String> = dirs.iter().map(|s| s.to_string()).collect();
        self.dir_at(&dirs).iter().find(|(n, _)| n == last).map(|(_, node)| node)
    }

    fn has(&self, path: &[&str]) -> bool {
        self.lookup(path).is_some()
    }

    fn content(&self, path: &[&str]) -> String {
        match self.lookup(path) {
            Some(Node::File(c)) => c.clone(),
            _ => panic!("no such file"),
        }
    }

    fn rename_into_root(&mut self, from: &[String], to: &str) -> bool {
        if self.blocked_renames.iter().any(|b| b == to) {
            return false;
        }
        if let Some((_, Node::Dir(_))) = self.root.iter().find(|(n, _)| n == to) {
            return false;
        }
        let (last, dirs) = from.split_last().unwrap();
        let dirs: Vec<&str> = dirs.iter().map(|s| s.as_str()).collect();
        let parent = self.dir_mut(&dirs);
        let idx = parent.iter().position(|(n, _)| n == last).unwrap();
        let (_, node) = parent.remove(idx);
        self.root.retain(|(n, _)| n != to);
        self.root.push((to.to_string(), node));
        true
    }

    fn remove_top_level_dir(&mut self, name: &str) {
        self.root.retain(|(n, node)| !(n == name && matches!(node, Node::Dir(_))));
    }
}

fn rules(includes: &[&str], excludes: &[&str]) -> FilterRules {
    let to_list = |p: &[&str]| {
        if p.is_empty() {
            None
        } else {
            Some(p.iter().map(|s| s.to_string()).collect::<Vec<String>>())
        }
    };
    FilterRules::new(to_list(includes), to_list(excludes)).unwrap()
}

fn summarize(tree: &Tree, max_depth: Option<usize>, rules: FilterRules) -> FileSummary {
    let mut pass = SummaryPass::new(max_depth, rules);
    let mut dir: Vec<String> = Vec::new();
    while let Some(next) = collect_file_summary(&mut pass, &tree.list(&dir)) {
        dir = next;
    }
    assert!(pass.is_finished());
    pass.summary
}

fn flatten(tree: &mut Tree, max_depth: Option<usize>, rules: FilterRules, quiet: bool) -> usize {
    let mut pass = FlattenPass::new(max_depth, rules);
    let mut event = Event::Listed(tree.list(&[]));
    loop {
        assert!(pass.accepts(&event));
        match flatten_directory_by_traversal(&mut pass, event) {
            Action::ReadDir(path) => event = Event::Listed(tree.list(&path)),
            Action::Probe(name) => event = Event::Probed(tree.has(&[name.as_str()])),
            Action::Rename(from, to) => {
                let ok = tree.rename_into_root(&from, &to);
                if ok && !quiet {
                    tree.printed.push(format!("Moved: {} -> {}", from.join("/"), to));
                }
                event = Event::Renamed(ok);
            }
            Action::Finish(moved) => return moved,
        }
    }
}

/// Summary, flatten, then removal of the recorded top-level directories.
fn run_all(tree: &mut Tree, max_depth: Option<usize>, includes: &[&str], excludes: &[&str]) -> (FileSummary, usize) {
    let summary = summarize(tree, max_depth, rules(includes, excludes));
    let moved = flatten(tree, max_depth, rules(includes, excludes), true);
    for dir in summary.top_level_dirs.iter() {
        tree.remove_top_level_dir(dir);
    }
    (summary, moved)
}

fn create_test_structure() -> Tree {
    let mut t = Tree::new();
    t.add_file(&[], "file0.txt", "root level");
    t.add_dir(&[], "level1");
    t.add_file(&["level1"], "file1.txt", "depth 1");
    t.add_dir(&["level1"], "level2");
    t.add_file(&["level1", "level2"], "file2.txt", "depth 2");
    t.add_dir(&["level1", "level2"], "level3");
    t.add_file(&["level1", "level2", "level3"], "file3.txt", "depth 3");
    t.add_dir(&["level1", "level2", "level3"], "level4");
    t.add_file(&["level1", "level2", "level3", "level4"], "file4.txt", "depth 4");
    t
}

fn create_multi_dir_structure() -> Tree {
    let mut t = Tree::new();
    t.add_dir(&[], "docs");
    t.add_file(&["docs"], "readme.txt", "docs");
    t.add_dir(&[], "src");
    t.add_file(&["src"], "main.rs", "src");
    t.add_dir(&[], "tests");
    t.add_file(&["tests"], "test1.rs", "tests");
    t.add_dir(&[], "documentation");
    t.add_file(&["documentation"], "guide.txt", "documentation");
    t
}

#[test]
fn test_collect_summary_unlimited_depth() {
    let t = create_test_structure();
    let summary = summarize(&t, None, rules(&[], &[]));
    assert_eq!(summary.file_count, 4);
    assert_eq!(summary.top_level_dirs.len(), 1);
    assert!(summary.contains_top_level_dir("level1"));
}

#[test]
fn test_collect_summary_max_depth_1() {
    let t = create_test_structure();
    let summary = summarize(&t, Some(1), rules(&[], &[]));
    assert_eq!(summary.file_count, 1);
}

#[test]
fn test_collect_summary_max_depth_2() {
    let t = create_test_structure();
    let summary = summarize(&t, Some(2), rules(&[], &[]));
    assert_eq!(summary.file_count, 2);
}

#[test]
fn test_collect_summary_max_depth_0() {
    let t = create_test_structure();
    let summary = summarize(&t, Some(0), rules(&[], &[]));
    assert_eq!(summary.file_count, 0);
}

#[test]
fn test_collect_summary_with_include() {
    let t = create_multi_dir_structure();
    let summary = summarize(&t, None, rules(&["src"], &[]));
    assert_eq!(summary.file_count, 1);
    assert!(summary.contains_top_level_dir("src"));
    assert!(!summary.contains_top_level_dir("docs"));
}

#[test]
fn test_collect_summary_with_prefix_include() {
    let t = create_multi_dir_structure();
    let summary = summarize(&t, None, rules(&["doc"], &[]));
    assert_eq!(summary.file_count, 2);
    assert!(summary.contains_top_level_dir("docs"));
    assert!(summary.contains_top_level_dir("documentation"));
    assert!(!summary.contains_top_level_dir("src"));
}

#[test]
fn test_collect_summary_with_exclude() {
    let t = create_multi_dir_structure();
    let summary = summarize(&t, None, rules(&[], &["src"]));
    assert_eq!(summary.file_count, 3);
    assert!(!summary.contains_top_level_dir("src"));
    assert!(summary.contains_top_level_dir("docs"));
}

#[test]
fn test_collect_summary_empty_directory() {
    let t = Tree::new();
    let summary = summarize(&t, None, rules(&[], &[]));
    assert_eq!(summary.file_count, 0);
    assert_eq!(summary.top_level_dirs.len(), 0);
}

#[test]
fn test_flatten_no_conflicts() {
    let mut t = Tree::new();
    t.add_dir(&[], "subdir");
    t.add_file(&["subdir"], "test1.txt", "content1");
    t.add_file(&["subdir"], "test2.txt", "content2");
    let moved_count = flatten(&mut t, None, rules(&[], &[]), false);
    assert_eq!(moved_count, 2);
    assert!(t.has(&["test1.txt"]));
    assert!(t.has(&["test2.txt"]));
    assert_eq!(t.content(&["test1.txt"]), "content1");
    assert_eq!(t.content(&["test2.txt"]), "content2");
}

#[test]
fn test_flatten_with_conflicts() {
    let mut t = Tree::new();
    t.add_file(&[], "test.txt", "root content");
    t.add_dir(&[], "subdir");
    t.add_file(&["subdir"], "test.txt", "subdir content");
    let moved_count = flatten(&mut t, None, rules(&[], &[]), false);
    assert_eq!(moved_count, 1);
    assert_eq!(t.content(&["test.txt"]), "root content");
    assert!(t.has(&["test_1.txt"]));
    assert_eq!(t.content(&["test_1.txt"]), "subdir content");
}

#[test]
fn test_flatten_multiple_conflicts() {
    let mut t = Tree::new();
    t.add_file(&[], "test.txt", "root");
    t.add_dir(&[], "subdir1");
    t.add_file(&["subdir1"], "test.txt", "content1");
    t.add_dir(&[], "subdir2");
    t.add_file(&["subdir2"], "test.txt", "content2");
    let moved_count = flatten(&mut t, None, rules(&[], &[]), false);
    assert_eq!(moved_count, 2);
    assert!(t.has(&["test.txt"]));
    assert!(t.has(&["test_1.txt"]));
    assert!(t.has(&["test_2.txt"]));
}

#[test]
fn test_flatten_with_max_depth() {
    let mut t = create_test_structure();
    let moved_count = flatten(&mut t, Some(2), rules(&[], &[]), false);
    assert_eq!(moved_count, 2);
    assert!(t.has(&["file1.txt"]));
    assert!(t.has(&["file2.txt"]));
    assert!(!t.has(&["file3.txt"]));
    assert!(!t.has(&["file4.txt"]));
}

#[test]
fn test_flatten_with_include_filter() {
    let mut t = create_multi_dir_structure();
    let moved_count = flatten(&mut t, None, rules(&["src"], &[]), false);
    assert_eq!(moved_count, 1);
    assert!(t.has(&["main.rs"]));
    assert!(!t.has(&["readme.txt"]));
    assert!(!t.has(&["test1.rs"]));
}

#[test]
fn test_flatten_with_exclude_filter() {
    let mut t = create_multi_dir_structure();
    let moved_count = flatten(&mut t, None, rules(&[], &["src"]), false);
    assert_eq!(moved_count, 3);
    assert!(!t.has(&["main.rs"]));
    assert!(t.has(&["readme.txt"]));
    assert!(t.has(&["test1.rs"]));
    assert!(t.has(&["guide.txt"]));
}

#[test]
fn test_flatten_empty_directory() {
    let mut t = Tree::new();
    let moved_count = flatten(&mut t, None, rules(&[], &[]), false);
    assert_eq!(moved_count, 0);
}

#[test]
fn test_flatten_quiet_mode_basic() {
    let mut t = Tree::new();
    t.add_dir(&[], "subdir");
    t.add_file(&["subdir"], "test1.txt", "content1");
    t.add_file(&["subdir"], "test2.txt", "content2");
    let moved_count = flatten(&mut t, None, rules(&[], &[]), true);
    assert_eq!(moved_count, 2);
    assert!(t.has(&["test1.txt"]));
    assert!(t.has(&["test2.txt"]));
    assert_eq!(t.content(&["test1.txt"]), "content1");
    assert_eq!(t.content(&["test2.txt"]), "content2");
}

#[test]
fn test_flatten_quiet_mode_with_conflicts() {
    let mut t = Tree::new();
    t.add_file(&[], "test.txt", "root content");
    t.add_dir(&[], "subdir");
    t.add_file(&["subdir"], "test.txt", "subdir content");
    let moved_count = flatten(&mut t, None, rules(&[], &[]), true);
    assert_eq!(moved_count, 1);
    assert_eq!(t.content(&["test.txt"]), "root content");
    assert!(t.has(&["test_1.txt"]));
    assert_eq!(t.content(&["test_1.txt"]), "subdir content");
}

#[test]
fn test_flatten_quiet_mode_with_depth() {
    let mut t = create_test_structure();
    let moved_count = flatten(&mut t, Some(2), rules(&[], &[]), true);
    assert_eq!(moved_count, 2);
    assert!(t.has(&["file1.txt"]));
    assert!(t.has(&["file2.txt"]));
    assert!(!t.has(&["file3.txt"]));
    assert!(!t.has(&["file4.txt"]));
}

#[test]
fn test_flatten_quiet_mode_with_include_filter() {
    let mut t = create_multi_dir_structure();
    let moved_count = flatten(&mut t, None, rules(&["src"], &[]), true);
    assert_eq!(moved_count, 1);
    assert!(t.has(&["main.rs"]));
    assert!(!t.has(&["readme.txt"]));
    assert!(!t.has(&["test1.rs"]));
}

#[test]
fn test_flatten_quiet_mode_with_exclude_filter() {
    let mut t = create_multi_dir_structure();
    let moved_count = flatten(&mut t, None, rules(&[], &["src"]), true);
    assert_eq!(moved_count, 3);
    assert!(!t.has(&["main.rs"]));
    assert!(t.has(&["readme.txt"]));
    assert!(t.has(&["test1.rs"]));
    assert!(t.has(&["guide.txt"]));
}

#[test]
fn test_flatten_quiet_vs_normal_same_result() {
    let build = || {
        let mut t = Tree::new();
        t.add_dir(&[], "subdir");
        t.add_file(&["subdir"], "file1.txt", "content1");
        t.add_file(&["subdir"], "file2.txt", "content2");
        t
    };
    let mut t1 = build();
    let mut t2 = build();
    let count1 = flatten(&mut t1, None, rules(&[], &[]), false);
    let count2 = flatten(&mut t2, None, rules(&[], &[]), true);
    assert_eq!(count1, count2);
    assert_eq!(count1, 2);
    assert!(t1.has(&["file1.txt"]));
    assert!(t1.has(&["file2.txt"]));
    assert!(t2.has(&["file1.txt"]));
    assert!(t2.has(&["file2.txt"]));
    assert_eq!(t1.content(&["file1.txt"]), t2.content(&["file1.txt"]));
    assert_eq!(t1.content(&["file2.txt"]), t2.content(&["file2.txt"]));
    assert_eq!(t1.printed.len(), 2);
    assert_eq!(t2.printed.len(), 0);
}

#[test]
fn failed_rename_is_skipped_and_the_run_goes_on() {
    let mut t = Tree::new();
    t.add_dir(&[], "subdir");
    t.add_file(&["subdir"], "blocked.txt", "will fail to move");
    t.add_file(&["subdir"], "success.txt", "will move successfully");
    t.blocked_renames.push("blocked.txt".to_string());
    let moved_count = flatten(&mut t, None, rules(&[], &[]), true);
    assert_eq!(moved_count, 1);
    assert_eq!(t.content(&["success.txt"]), "will move successfully");
    assert!(t.has(&["subdir", "blocked.txt"]));
    assert!(!t.has(&["blocked.txt"]));
}

#[test]
fn directory_in_the_way_counts_as_taken() {
    let mut t = Tree::new();
    t.add_dir(&[], "subdir");
    t.add_file(&["subdir"], "blocked.txt", "moves aside");
    t.add_dir(&[], "blocked.txt");
    let moved_count = flatten(&mut t, None, rules(&[], &[]), true);
    assert_eq!(moved_count, 1);
    assert_eq!(t.content(&["blocked_1.txt"]), "moves aside");
}

#[test]
fn root_files_are_never_moved() {
    let mut t = Tree::new();
    t.add_file(&[], "a.txt", "a");
    t.add_file(&[], "b.txt", "b");
    t.add_dir(&[], "d");
    t.add_file(&["d"], "c.txt", "c");
    let moved = flatten(&mut t, None, rules(&[], &[]), true);
    assert_eq!(moved, 1);
    assert_eq!(t.content(&["a.txt"]), "a");
    assert_eq!(t.content(&["b.txt"]), "b");
    assert!(!t.has(&["a_1.txt"]));
}

#[test]
fn depth_bound_counts_directory_levels() {
    for (bound, expected) in [(0usize, 0usize), (1, 1), (2, 2), (3, 3), (4, 4), (5, 4)] {
        let t = create_test_structure();
        let summary = summarize(&t, Some(bound), rules(&[], &[]));
        assert_eq!(summary.file_count, expected);
        let mut t = create_test_structure();
        assert_eq!(flatten(&mut t, Some(bound), rules(&[], &[]), true), expected);
    }
}

#[test]
fn collision_takes_the_next_free_suffix() {
    let mut t = Tree::new();
    t.add_file(&[], "test.txt", "root");
    t.add_file(&[], "test_1.txt", "one");
    t.add_dir(&[], "sub");
    t.add_file(&["sub"], "test.txt", "new");
    let moved = flatten(&mut t, None, rules(&[], &[]), true);
    assert_eq!(moved, 1);
    assert_eq!(t.content(&["test_1.txt"]), "one");
    assert_eq!(t.content(&["test_2.txt"]), "new");
}

#[test]
fn already_flat_root_is_left_alone() {
    let mut t = Tree::new();
    t.add_file(&[], "a.txt", "a");
    t.add_file(&[], "b.txt", "b");
    let before = t.root.len();
    let (summary, moved) = run_all(&mut t, None, &[], &[]);
    assert_eq!(moved, 0);
    assert_eq!(summary.file_count, 0);
    assert_eq!(summary.top_level_dirs.len(), 0);
    assert_eq!(t.root.len(), before);
}

#[test]
fn nested_levels_end_up_in_root() {
    let mut t = Tree::new();
    t.add_file(&[], "file0.txt", "zero");
    t.add_dir(&[], "level1");
    t.add_file(&["level1"], "file1.txt", "one");
    t.add_dir(&["level1"], "level2");
    t.add_file(&["level1", "level2"], "file2.txt", "two");
    let (summary, moved) = run_all(&mut t, None, &[], &[]);
    assert_eq!(moved, 2);
    assert_eq!(summary.file_count, 2);
    assert_eq!(t.content(&["file0.txt"]), "zero");
    assert_eq!(t.content(&["file1.txt"]), "one");
    assert_eq!(t.content(&["file2.txt"]), "two");
    assert!(!t.has(&["level1"]));
    assert_eq!(t.root.len(), 3);
}

#[test]
fn same_names_are_numbered_in_visit_order() {
    let mut t = Tree::new();
    t.add_file(&[], "test.txt", "root");
    t.add_dir(&[], "subdir1");
    t.add_file(&["subdir1"], "test.txt", "a");
    t.add_dir(&[], "subdir2");
    t.add_file(&["subdir2"], "test.txt", "b");
    let (_, moved) = run_all(&mut t, None, &[], &[]);
    assert_eq!(moved, 2);
    assert_eq!(t.content(&["test.txt"]), "root");
    assert_eq!(t.content(&["test_1.txt"]), "a");
    assert_eq!(t.content(&["test_2.txt"]), "b");
    assert!(!t.has(&["subdir1"]));
    assert!(!t.has(&["subdir2"]));
}

#[test]
fn include_list_leaves_other_directories() {
    let mut t = Tree::new();
    t.add_dir(&[], "src");
    t.add_dir(&["src"], "inner");
    t.add_file(&["src", "inner"], "lib.rs", "lib");
    t.add_dir(&[], "src_extra");
    t.add_file(&["src_extra"], "x.rs", "x");
    t.add_dir(&[], "docs");
    t.add_file(&["docs"], "readme.txt", "docs");
    let (summary, moved) = run_all(&mut t, None, &["src"], &[]);
    assert_eq!(moved, 2);
    assert_eq!(summary.top_level_dirs.len(), 2);
    assert!(t.has(&["lib.rs"]));
    assert!(t.has(&["x.rs"]));
    assert!(!t.has(&["src"]));
    assert!(t.has(&["docs", "readme.txt"]));
    assert!(!t.has(&["readme.txt"]));
}

#[test]
fn depth_bound_removes_unflattened_files_with_their_directory() {
    let mut t = create_test_structure();
    let (summary, moved) = run_all(&mut t, Some(1), &[], &[]);
    assert_eq!(moved, 1);
    assert_eq!(summary.file_count, 1);
    assert!(t.has(&["file1.txt"]));
    assert!(!t.has(&["level1"]));
}

#[test]
fn other_entries_are_ignored() {
    let mut pass = SummaryPass::new(None, rules(&[], &[]));
    let listing = vec![
        Entry { name: "link".to_string(), kind: EntryKind::Other },
        Entry { name: "d".to_string(), kind: EntryKind::Dir },
    ];
    let next = collect_file_summary(&mut pass, &listing);
    assert_eq!(next, Some(vec!["d".to_string()]));
    let inner = vec![
        Entry { name: "sock".to_string(), kind: EntryKind::Other },
        Entry { name: "f".to_string(), kind: EntryKind::File },
    ];
    assert_eq!(collect_file_summary(&mut pass, &inner), None);
    assert_eq!(pass.summary.file_count, 1);
    assert!(pass.summary.contains_top_level_dir("d"));
}

#[test]
fn flatten_actions_in_order() {
    let mut pass = FlattenPass::new(None, rules(&[], &[]));
    let root = vec![
        Entry { name: "top.txt".to_string(), kind: EntryKind::File },
        Entry { name: "d".to_string(), kind: EntryKind::Dir },
    ];
    let a = flatten_directory_by_traversal(&mut pass, Event::Listed(root));
    assert!(matches!(&a, Action::ReadDir(p) if p == &vec!["d".to_string()]));
    let inner = vec![Entry { name: "x.txt".to_string(), kind: EntryKind::File }];
    let a = flatten_directory_by_traversal(&mut pass, Event::Listed(inner));
    assert!(matches!(&a, Action::Probe(n) if n == "x.txt"));
    let a = flatten_directory_by_traversal(&mut pass, Event::Probed(true));
    assert!(matches!(&a, Action::Probe(n) if n == "x_1.txt"));
    let a = flatten_directory_by_traversal(&mut pass, Event::Probed(false));
    assert!(matches!(&a, Action::Rename(from, to) if from == &vec!["d".to_string(), "x.txt".to_string()] && to == "x_1.txt"));
    let a = flatten_directory_by_traversal(&mut pass, Event::Renamed(true));
    assert!(matches!(a, Action::Finish(1)));
    assert!(!pass.accepts(&Event::Probed(true)));
}
