use trie_search::codec::NodeParts;
use trie_search::events::{handle_event, ChangeKind, IgnoreRules, IndexAction};
use trie_search::index::{plan_build, search_files, shard_file_name, shard_key, BuildPlan, IndexBuilder};
use trie_search::paths::{file_name, FileResult};
use trie_search::trie::{Trie, TrieNode};

fn s(x: &str) -> String {
    x.to_string()
}

fn sorted(mut v: Vec<String>) -> Vec<String> {
    v.sort();
    v
}

#[test]
fn insert_then_prefix_queries_find_path() {
    let mut shard = Trie::new();
    let p = s("C:\\Users\\a\\report.txt");
    shard.insert_file(s("report.txt"), p.clone());
    assert_eq!(shard.starts_with(s("r")), vec![p.clone()]);
    assert_eq!(shard.starts_with(s("rep")), vec![p.clone()]);
    assert_eq!(shard.starts_with(s("report.txt")), vec![p.clone()]);
    assert!(shard.starts_with(s("report.txtx")).is_empty());
    assert!(shard.starts_with(s("rx")).is_empty());
}

#[test]
fn query_of_other_first_byte_misses() {
    let mut b = IndexBuilder::new();
    assert!(b.add_entry(s("C:\\Users\\a\\report.txt")));
    let shard = &b.shards[b'x' as usize];
    assert!(shard.starts_with(s("x")).is_empty());
    assert_eq!(b.shards[b'r' as usize].starts_with(s("r")), vec![s("C:\\Users\\a\\report.txt")]);
}

#[test]
fn whole_trie_insert_and_collect() {
    let mut t = Trie::new();
    t.insert(s("report.txt"), s("C:\\a\\report.txt"));
    t.insert(s("readme.md"), s("C:\\b\\readme.md"));
    assert_eq!(sorted(t.collect_prefix(s("re"))), vec![s("C:\\a\\report.txt"), s("C:\\b\\readme.md")]);
    assert_eq!(t.collect_prefix(s("rep")), vec![s("C:\\a\\report.txt")]);
    assert!(t.collect_prefix(s("x")).is_empty());
    assert_eq!(t.collect_prefix(s("")).len(), 2);
}

#[test]
fn shards_are_isolated() {
    let mut b = IndexBuilder::new();
    assert!(b.add_entry(s("C:\\d\\apple.txt")));
    assert!(b.add_entry(s("C:\\d\\banana.txt")));
    let a = &b.shards[b'a' as usize];
    let ba = &b.shards[b'b' as usize];
    assert_eq!(a.starts_with(s("a")), vec![s("C:\\d\\apple.txt")]);
    assert_eq!(ba.starts_with(s("b")), vec![s("C:\\d\\banana.txt")]);
    assert!(a.starts_with(s("b")).iter().all(|x| x != "C:\\d\\banana.txt"));
    assert!(ba.starts_with(s("a")).iter().all(|x| x != "C:\\d\\apple.txt"));
    assert!(!a.is_empty());
    assert!(b.shards[b'c' as usize].is_empty());
}

#[test]
fn removal_keeps_other_location_of_same_name() {
    let mut shard = Trie::new();
    let p = s("C:\\one\\report.txt");
    let p2 = s("C:\\two\\report.txt");
    shard.insert_file(s("report.txt"), p.clone());
    shard.insert_file(s("report.txt"), p2.clone());
    shard.remove_file(s("report.txt"), p.clone());
    assert_eq!(shard.starts_with(s("report")), vec![p2.clone()]);
    shard.remove_file(s("report.txt"), p2.clone());
    assert!(shard.starts_with(s("report")).is_empty());
}

#[test]
fn removing_unknown_name_changes_nothing() {
    let mut shard = Trie::new();
    shard.insert_file(s("a.txt"), s("C:\\a.txt"));
    shard.remove_file(s("zzz"), s("C:\\zzz"));
    shard.remove_file(s("a.txt"), s("C:\\other\\a.txt"));
    assert_eq!(shard.starts_with(s("a")), vec![s("C:\\a.txt")]);
}

#[test]
fn same_name_keeps_every_location() {
    let mut shard = Trie::new();
    shard.insert_file(s("a.txt"), s("C:\\x\\a.txt"));
    shard.insert_file(s("a.txt"), s("C:\\y\\a.txt"));
    assert_eq!(shard.starts_with(s("a.txt")), vec![s("C:\\x\\a.txt"), s("C:\\y\\a.txt")]);
}

#[test]
fn repeated_insert_keeps_duplicates() {
    let mut t = Trie::new();
    t.insert(s("a"), s("C:\\a"));
    t.insert(s("a"), s("C:\\a"));
    assert_eq!(t.collect_prefix(s("a")), vec![s("C:\\a"), s("C:\\a")]);
    t.remove(s("a"), s("C:\\a"));
    assert!(t.collect_prefix(s("a")).is_empty());
}

#[test]
fn built_volume_is_not_scanned_again() {
    assert!(matches!(plan_build(true), BuildPlan::Reuse));
    assert!(matches!(plan_build(false), BuildPlan::Scan));
}

#[test]
fn encode_decode_round_trip() {
    let mut t = Trie::new();
    t.insert_file(s("report.txt"), s("C:\\a\\report.txt"));
    t.insert_file(s("readme.md"), s("C:\\b\\readme.md"));
    t.insert_file(s("readme.md"), s("C:\\c\\readme.md"));
    let mut copy = Trie::new();
    copy.insert_file(s("report.txt"), s("C:\\a\\report.txt"));
    copy.insert_file(s("readme.md"), s("C:\\b\\readme.md"));
    copy.insert_file(s("readme.md"), s("C:\\c\\readme.md"));
    let bytes = t.encode();
    assert!(!bytes.is_empty());
    let back = Trie::decode(&bytes);
    let a: Vec<NodeParts> = back.into_parts();
    let b: Vec<NodeParts> = copy.into_parts();
    assert_eq!(a, b);
}

#[test]
fn garbage_decodes_to_empty_shard() {
    let back = Trie::decode(&vec![1, 2, 3]);
    assert!(back.is_empty());
    assert!(back.starts_with(s("ab")).is_empty());
}

#[test]
fn malformed_arena_is_rejected() {
    let bad = Trie {
        nodes: vec![TrieNode { children: vec![(b'a', 0)], is_end: false, location: vec![], parent: 0, byte: 0 }],
    };
    assert!(!bad.is_well_formed());
    assert!(Trie::new().is_well_formed());
    let empty = Trie { nodes: vec![] };
    assert!(!empty.is_well_formed());
    let loaded = Trie::load_or_empty(Some(bad));
    assert!(loaded.is_empty());
}

#[test]
fn parts_round_trip_keeps_structure() {
    let mut t = Trie::new();
    t.insert(s("ab"), s("C:\\ab"));
    let parts = t.into_parts();
    assert_eq!(parts.len(), 3);
    assert_eq!(parts[0].0, vec![(b'a', 1)]);
    assert_eq!(parts[2].2, vec![s("C:\\ab")]);
    let back = Trie::from_parts(parts.clone());
    assert!(back.is_well_formed());
    assert_eq!(back.into_parts(), parts);
}

#[test]
fn file_result_parts() {
    let r = FileResult::get_file_result(s("C:\\Users\\a\\report.txt"));
    assert_eq!(r.name, "report.txt");
    assert_eq!(r.path, "C:\\Users\\a\\report.txt");
    assert_eq!(r.location, "C:\\Users\\a");
    assert_eq!(r.file_type, "txt");
    let h = FileResult::get_file_result(s("/home/u/.bashrc"));
    assert_eq!(h.name, ".bashrc");
    assert_eq!(h.location, "/home/u");
    assert_eq!(h.file_type, "");
    let bare = FileResult::get_file_result(s("archive.tar.gz"));
    assert_eq!(bare.location, "");
    assert_eq!(bare.file_type, "gz");
    assert_eq!(file_name("C:\\x\\y"), "y");
    let root = FileResult::get_file_result(s("/foo"));
    assert_eq!(root.name, "foo");
    assert_eq!(root.location, "/");
    let drive = FileResult::get_file_result(s("C:\\x"));
    assert_eq!(drive.location, "C:\\");
    let trailing = FileResult::get_file_result(s("C:\\d\\"));
    assert_eq!(trailing.name, "d");
    assert_eq!(trailing.location, "C:\\");
    let bare = FileResult::get_file_result(s("C:\\"));
    assert_eq!(bare.name, "");
    assert_eq!(bare.location, "");
    let doubled = FileResult::get_file_result(s("a\\\\b"));
    assert_eq!(doubled.location, "a");
}

#[test]
fn ignore_rules_screen_paths() {
    let ev = IgnoreRules::standard();
    assert!(ev.is_ignored("C:\\Users\\a\\AppData\\x"));
    assert!(ev.is_ignored("C:\\repo\\.git\\HEAD"));
    assert!(ev.is_ignored("./C/97.data"));
    assert!(ev.is_ignored("System Volume Information"));
    assert!(ev.is_ignored("C:\\p\\node_modules\\x"));
    assert!(ev.is_ignored("C:\\Windows\\System32"));
    assert!(!ev.is_ignored("C:\\Users\\a\\report.txt"));
}

#[test]
fn events_become_index_actions() {
    let rules = IgnoreRules::standard();
    let paths = vec![s("C:\\Users\\a\\report.txt")];
    match handle_event(ChangeKind::Create, &paths, &rules) {
        IndexAction::Insert(c) => {
            assert_eq!(c.volume, 'C');
            assert_eq!(c.name, "report.txt");
            assert_eq!(c.location, "C:\\Users\\a\\report.txt");
        },
        _ => panic!("expected an insert"),
    }
    assert!(matches!(handle_event(ChangeKind::RenameTo, &paths, &rules), IndexAction::Insert(_)));
    assert!(matches!(handle_event(ChangeKind::Remove, &paths, &rules), IndexAction::Remove(_)));
    assert!(matches!(handle_event(ChangeKind::RenameFrom, &paths, &rules), IndexAction::Remove(_)));
    assert!(matches!(handle_event(ChangeKind::Modify, &paths, &rules), IndexAction::Skip));
    assert!(matches!(handle_event(ChangeKind::Other, &paths, &rules), IndexAction::Skip));
    let noisy = vec![s("C:\\Windows\\x.dll")];
    assert!(matches!(handle_event(ChangeKind::Create, &noisy, &rules), IndexAction::Skip));
    assert!(matches!(handle_event(ChangeKind::Create, &vec![], &rules), IndexAction::Skip));
    assert!(matches!(handle_event(ChangeKind::Create, &vec![s("C:\\")], &rules), IndexAction::Skip));
    match handle_event(ChangeKind::Create, &vec![s("C:\\d\\")], &rules) {
        IndexAction::Insert(c) => assert_eq!(c.name, "d"),
        _ => panic!("expected an insert"),
    }
}

#[test]
fn search_over_volumes() {
    let mut c = Trie::new();
    c.insert_file(s("report.txt"), s("C:\\a\\report.txt"));
    let mut d = Trie::new();
    d.insert_file(s("readme.md"), s("D:\\readme.md"));
    let found = search_files(&vec![c, d], s("re"));
    assert_eq!(found.len(), 2);
    assert_eq!(found[0].path, "C:\\a\\report.txt");
    assert_eq!(found[1].name, "readme.md");
    assert_eq!(found[1].file_type, "md");
    assert!(search_files(&vec![Trie::new()], s("")).is_empty());
}

#[test]
fn serialized_inserts_keep_both() {
    let mut shard = Trie::new();
    shard.insert_file(s("notes.txt"), s("C:\\a\\notes.txt"));
    shard.insert_file(s("notebook"), s("C:\\b\\notebook"));
    assert_eq!(sorted(shard.starts_with(s("note"))), vec![s("C:\\a\\notes.txt"), s("C:\\b\\notebook")]);
    let mut other = Trie::new();
    other.insert_file(s("notebook"), s("C:\\b\\notebook"));
    other.insert_file(s("notes.txt"), s("C:\\a\\notes.txt"));
    assert_eq!(sorted(other.starts_with(s("note"))), vec![s("C:\\a\\notes.txt"), s("C:\\b\\notebook")]);
}

#[test]
fn arena_with_bad_links_is_rejected() {
    let dup = Trie {
        nodes: vec![
            TrieNode { children: vec![(b'a', 1), (b'a', 2)], is_end: false, location: vec![], parent: 0, byte: 0 },
            TrieNode { children: vec![], is_end: true, location: vec![s("x")], parent: 0, byte: b'a' },
            TrieNode { children: vec![], is_end: true, location: vec![s("y")], parent: 0, byte: b'a' },
        ],
    };
    assert!(!dup.is_well_formed());
    let wrong_parent = Trie {
        nodes: vec![
            TrieNode { children: vec![(b'a', 1)], is_end: false, location: vec![], parent: 0, byte: 0 },
            TrieNode { children: vec![], is_end: true, location: vec![s("x")], parent: 0, byte: b'b' },
        ],
    };
    assert!(!wrong_parent.is_well_formed());
    let stray = Trie {
        nodes: vec![TrieNode { children: vec![], is_end: false, location: vec![s("x")], parent: 0, byte: 0 }],
    };
    assert!(!stray.is_well_formed());
    let good = Trie {
        nodes: vec![
            TrieNode { children: vec![(b'a', 1)], is_end: false, location: vec![], parent: 0, byte: 0 },
            TrieNode { children: vec![], is_end: true, location: vec![s("x")], parent: 0, byte: b'a' },
        ],
    };
    assert!(good.is_well_formed());
    assert_eq!(good.collect_prefix(s("a")), vec![s("x")]);
}

#[test]
fn removing_last_location_clears_terminal_but_keeps_children() {
    let mut t = Trie::new();
    t.insert(s("ab"), s("C:\\ab"));
    t.insert(s("abc"), s("C:\\abc"));
    t.remove(s("ab"), s("C:\\ab"));
    assert_eq!(t.collect_prefix(s("ab")), vec![s("C:\\abc")]);
    assert!(t.is_well_formed());
}

#[test]
fn shard_key_and_file_name() {
    assert_eq!(shard_key("report.txt"), Some(b'r'));
    assert_eq!(shard_key(""), None);
    assert_eq!(shard_file_name(0), "0.data");
    assert_eq!(shard_file_name(7), "7.data");
    assert_eq!(shard_file_name(97), "97.data");
    assert_eq!(shard_file_name(114), "114.data");
    assert_eq!(shard_file_name(255), "255.data");
}

#[test]
fn new_trie_is_lone_root() {
    let t = Trie::new();
    assert_eq!(t.nodes.len(), 1);
    assert!(t.nodes[0].children.is_empty());
    assert!(!t.nodes[0].is_end);
    assert!(t.nodes[0].location.is_empty());
    let b = IndexBuilder::new();
    assert!(b.shards.iter().all(|s| s.is_empty()));
}

#[test]
fn insert_adds_only_prefix_nodes_and_remove_keeps_them() {
    let mut t = Trie::new();
    t.insert(s("abc"), s("C:\\abc"));
    assert_eq!(t.nodes.len(), 4);
    assert!(t.nodes[3].is_end);
    assert!(!t.nodes[1].is_end && !t.nodes[2].is_end);
    t.insert(s("ab"), s("C:\\ab"));
    assert_eq!(t.nodes.len(), 4);
    assert!(t.nodes[2].is_end);
    t.remove(s("abc"), s("C:\\abc"));
    assert_eq!(t.nodes.len(), 4);
    assert!(!t.nodes[3].is_end);
    assert!(t.nodes[3].location.is_empty());
    let before = t.encode();
    let mut again = Trie::decode(&before);
    again.remove(s("zz"), s("C:\\zz"));
    assert_eq!(again.encode(), before);
}
