use std::path::PathBuf;
use std::sync::Arc;

use tree_magic_rs::basetype;
use tree_magic_rs::db::borrowed_db_types::{BorrowedAlias, BorrowedBuildableDb, BorrowedMagicRule, BorrowedSubclass};
use tree_magic_rs::db::buildable_db_provider::BuildeableDbProvider;
use tree_magic_rs::db::db_traits::{Alias, MagicRule as RuleRecord, Subclass};
use tree_magic_rs::db::owned_db_types::{OwnedAlias, OwnedBuildableDb, OwnedMagicRule, OwnedSubclass};
use tree_magic_rs::db::parse_magic_rule::MagicRuleParseError;
use tree_magic_rs::db::shared_mime_db_provider::{
    count_errs, dir_result, dirs_result, load_magic_rules_bytes, magic_file_result, sum, until_err,
    LoadResult, SharedMimeDbProviderError,
};
use tree_magic_rs::db::shared_mime_db_types::SharedMimeMagicRule;
use tree_magic_rs::db_guts::{BuildeableDb, LoadXdbSharedMagicError};
use tree_magic_rs::fdo_magic::{
    get_aliaslist, get_subclasses, get_supported, read_pairs, resolve_subclasses, scan_len, FdoMagic,
};
use tree_magic_rs::magic::MagicRule;
use tree_magic_rs::names::{dedup_names, has_top_level, position};
use tree_magic_rs::ruleset::{can_check, to_string, to_u32};
use tree_magic_rs::runtime::LoadedDatabase;
use tree_magic_rs::tree_magic::{alias_of, aliases_init, Checker, MimeDatabase, Subject};
use tree_magic_rs::typegraph::graph_init;

fn pair(a: &str, b: &str) -> (String, String) {
    (a.to_string(), b.to_string())
}

fn names(list: &[&str]) -> Vec<String> {
    list.iter().map(|s| s.to_string()).collect()
}

fn rule(start_off: u32, val: &[u8], region_len: u32) -> MagicRule {
    MagicRule {
        indent_level: 0,
        start_off,
        val_len: val.len() as u16,
        val: val.to_vec(),
        mask: None,
        word_len: 1,
        region_len,
    }
}

fn magic_file(entries: &[(&str, &[u8])]) -> Vec<u8> {
    let mut out = b"MIME-Magic\0\n".to_vec();
    for (name, val) in entries {
        out.extend_from_slice(format!("[50:{}]\n", name).as_bytes());
        out.extend_from_slice(b">0=");
        out.push((val.len() >> 8) as u8);
        out.push((val.len() & 0xff) as u8);
        out.extend_from_slice(val);
        out.push(b'\n');
    }
    out
}

fn edge_names(graph: &tree_magic_rs::graph::TypeStruct) -> Vec<(String, String)> {
    graph
        .raw_edges()
        .iter()
        .map(|e| (graph[e.source()].clone(), graph[e.target()].clone()))
        .collect()
}

#[test]
fn graph_nodes_are_sorted_and_distinct_with_builtins_at_the_end() {
    let graph = graph_init(&names(&["image/png", "a/b", "image/png", "text/x-c", "all/all"]), &Vec::new());
    let found: Vec<String> = graph.node_indices().map(|n| graph[n].clone()).collect();
    assert_eq!(
        found,
        names(&[
            "a/b",
            "all/all",
            "image/png",
            "text/x-c",
            "text/plain",
            "application/octet-stream",
            "all/allfiles"
        ])
    );
}

#[test]
fn graph_edges_are_declared_then_synthesized() {
    let mimes = names(&["image/png", "a/b", "text/x-c", "inode/socket", "a/c"]);
    let raw = vec![
        pair("a/b", "a/c"),
        pair("a/b", "no/such"),
        pair("a/b", "a/c"),
        pair("image/png", "a/b"),
        pair("all/all", "image/png"),
    ];
    let graph = graph_init(&mimes, &raw);
    assert_eq!(
        edge_names(&graph),
        vec![
            pair("a/b", "a/c"),
            pair("image/png", "a/b"),
            pair("application/octet-stream", "image/png"),
            pair("all/all", "inode/socket"),
            pair("text/plain", "text/x-c"),
        ]
    );
}

#[test]
fn every_type_but_the_builtins_gets_a_parent() {
    let mimes = names(&["image/png", "a/b", "text/x-c", "inode/socket", "textual/x", "text"]);
    let graph = graph_init(&mimes, &vec![pair("a/b", "image/png")]);
    let edges = edge_names(&graph);
    for n in graph.node_indices() {
        let name = &graph[n];
        let builtin = ["text/plain", "application/octet-stream", "all/all", "all/allfiles"].contains(&name.as_str());
        let parents: Vec<&(String, String)> = edges.iter().filter(|e| &e.1 == name).collect();
        if builtin {
            assert_eq!(parents.len(), 0);
        } else {
            assert_eq!(parents.len(), 1);
        }
    }
    assert!(edges.contains(&pair("application/octet-stream", "textual/x")));
    assert!(edges.contains(&pair("text/plain", "text")));
    assert!(edges.contains(&pair("application/octet-stream", "a/b")));
}

#[test]
fn database_edges_by_name() {
    let rules = vec![("image/png".to_string(), vec![rule(0, b"\x89PNG", 0)])];
    let db = MimeDatabase::new(rules, Vec::new(), &Vec::new()).unwrap();
    let mut edges = db.subclass_edges();
    edges.sort();
    assert_eq!(
        edges,
        vec![
            pair("all/all", "all/allfiles"),
            pair("all/all", "inode/directory"),
            pair("all/allfiles", "application/octet-stream"),
            pair("application/octet-stream", "image/png"),
            pair("application/octet-stream", "text/plain"),
        ]
    );
    let types = db.supported_types();
    for (parent, child) in &edges {
        assert!(types.contains(parent));
        assert!(types.contains(child));
    }
    let root = db.supported_types()[db.root_node() as usize].clone();
    assert_eq!(root, "all/all");
    for t in &types {
        let has_parent = edges.iter().any(|e| &e.1 == t);
        assert_eq!(has_parent, t != "all/all");
    }
}

#[test]
fn hot_types_are_tested_first() {
    let rules = vec![
        ("a/first".to_string(), vec![rule(0, b"X", 0)]),
        ("image/gif".to_string(), vec![rule(0, b"X", 0)]),
        ("image/png".to_string(), vec![rule(0, b"X", 0)]),
        ("z/last".to_string(), vec![rule(0, b"X", 0)]),
    ];
    let db = MimeDatabase::new(rules, Vec::new(), &Vec::new()).unwrap();
    assert_eq!(db.from_u8(b"X\0"), "image/png");
    let rules = vec![
        ("a/first".to_string(), vec![rule(0, b"X", 0)]),
        ("image/gif".to_string(), vec![rule(0, b"X", 0)]),
        ("application/pdf".to_string(), vec![rule(0, b"X", 0)]),
    ];
    let db = MimeDatabase::new(rules, Vec::new(), &Vec::new()).unwrap();
    assert_eq!(db.from_u8(b"X\0"), "image/gif");
}

#[test]
fn children_outside_the_hot_list_come_latest_edge_first() {
    let rules = vec![
        ("a/first".to_string(), vec![rule(0, b"X", 0)]),
        ("z/last".to_string(), vec![rule(0, b"X", 0)]),
    ];
    let db = MimeDatabase::new(rules, Vec::new(), &Vec::new()).unwrap();
    assert_eq!(db.from_u8(b"X\0"), "z/last");
}

#[test]
fn walk_depth_is_a_cutoff() {
    let rules = vec![("image/png".to_string(), vec![rule(0, b"\x89PNG", 0)])];
    let db = MimeDatabase::new(rules, Vec::new(), &Vec::new()).unwrap();
    let subject = Subject::Bytes(b"\x89PNG\0");
    let root = db.root_node();
    let types = db.supported_types();
    let name = |v: Option<u32>| v.map(|v| types[v as usize].clone());
    assert_eq!(name(db.typegraph_walker(root, &subject, 0)), None);
    assert_eq!(name(db.typegraph_walker(root, &subject, 1)), Some("all/allfiles".to_string()));
    assert_eq!(name(db.typegraph_walker(root, &subject, 2)), Some("application/octet-stream".to_string()));
    assert_eq!(name(db.typegraph_walker(root, &subject, 3)), Some("image/png".to_string()));
    assert_eq!(name(db.typegraph_walker(root, &subject, 100)), Some("image/png".to_string()));
    assert_eq!(db.from_u8_node(db.node("application/octet-stream").unwrap(), b"\x89PNG\0"), Some("image/png"));
    assert_eq!(db.from_u8_node(db.node("image/png").unwrap(), b"\x89PNG\0"), None);
}

#[test]
fn which_part_tests_a_type() {
    let rules = vec![
        ("image/png".to_string(), vec![rule(0, b"\x89PNG", 0)]),
        ("text/plain".to_string(), vec![rule(0, b"never", 0)]),
    ];
    let db = MimeDatabase::new(rules, Vec::new(), &Vec::new()).unwrap();
    assert_eq!(db.checker_support("image/png"), Some(Checker::FdoMagic));
    assert_eq!(db.checker_support("text/plain"), Some(Checker::BaseType));
    assert_eq!(db.checker_support("inode/directory"), Some(Checker::BaseType));
    assert_eq!(db.checker_support("no/such"), None);
    assert!(db.match_u8("text/plain", b"built-in test wins"));
    assert!(!db.match_u8("no/such", b"anything"));
    assert!(!db.match_u8("all/all", b"anything"));
    assert!(db.match_noalias("all/all", &Subject::Directory));
    assert!(db.match_noalias("inode/directory", &Subject::Directory));
    assert!(!db.match_noalias("inode/directory", &Subject::Other));
    assert!(!db.match_noalias("image/png", &Subject::Directory));
    assert_eq!(db.from_subject(&Subject::Directory), "inode/directory");
    assert_eq!(db.from_subject(&Subject::Other), "all/all");
    assert_eq!(db.scan_len("image/png"), Some(4));
    assert_eq!(db.scan_len("no/such"), None);
}

#[test]
fn built_in_types() {
    assert_eq!(
        basetype::get_supported(),
        names(&["all/all", "all/allfiles", "inode/directory", "text/plain", "application/octet-stream"])
    );
    assert_eq!(
        basetype::get_subclasses(),
        vec![
            pair("all/all", "all/allfiles"),
            pair("all/all", "inode/directory"),
            pair("all/allfiles", "application/octet-stream"),
            pair("application/octet-stream", "text/plain"),
        ]
    );
    assert!(basetype::get_aliaslist().is_empty());
    assert!(basetype::can_check(&"text/plain".to_string()));
    assert!(!basetype::can_check(&"text/html".to_string()));
    assert!(basetype::from_u8(b"\0", &"application/octet-stream".to_string()));
    assert!(basetype::from_u8(b"", &"all/allfiles".to_string()));
    assert!(basetype::from_u8(b"", &"text/plain".to_string()));
    assert!(basetype::from_u8(b"abc", &"text/plain".to_string()));
    assert!(!basetype::from_u8(b"a\0c", &"text/plain".to_string()));
    assert!(!basetype::from_u8(b"abc", &"all/all".to_string()));
    assert!(!basetype::from_u8(b"abc", &"inode/directory".to_string()));
    assert!(basetype::is_text_plain_from_u8(b"abc"));
}

#[test]
fn alias_tables_are_merged_in_order() {
    let merged = aliases_init(&vec![
        vec![pair("a/x", "a/one"), pair("b/x", "b/one")],
        Vec::new(),
        vec![pair("a/x", "a/two")],
    ]);
    assert_eq!(merged, vec![pair("a/x", "a/one"), pair("b/x", "b/one"), pair("a/x", "a/two")]);
    assert_eq!(alias_of(&merged, "a/x"), "a/two");
    assert_eq!(alias_of(&merged, "b/x"), "b/one");
    assert_eq!(alias_of(&merged, "c/x"), "c/x");
}

#[test]
fn pairs_of_words_are_read_line_by_line() {
    let text = b"a/x a/one\n\n  b/x\tb/one  ignored\r\nlonely\n \nc/x c/one";
    assert_eq!(read_pairs(text), vec![pair("a/x", "a/one"), pair("b/x", "b/one"), pair("c/x", "c/one")]);
    assert!(read_pairs(b"").is_empty());
    assert!(read_pairs(b"\n\n\n").is_empty());
    assert!(read_pairs(b"\xff\xfe a/one\n").is_empty());
}

#[test]
fn subclass_lines_become_pairs_with_the_parent_first() {
    let ldb = LoadedDatabase::new(
        Vec::new(),
        "image/x-png image/png\ntext/x-old text/new\n".to_string(),
        "image/x-png application/octet-stream\ntext/child text/x-old\n".to_string(),
    );
    assert_eq!(ldb.aliases(), "image/x-png image/png\ntext/x-old text/new\n");
    assert_eq!(ldb.subclasses(), "image/x-png application/octet-stream\ntext/child text/x-old\n");
    assert_eq!(get_aliaslist(&ldb), vec![pair("image/x-png", "image/png"), pair("text/x-old", "text/new")]);
    assert_eq!(
        get_subclasses(&ldb),
        vec![pair("application/octet-stream", "image/png"), pair("text/new", "text/child")]
    );
    assert_eq!(
        resolve_subclasses(&vec![pair("c", "p")], &vec![pair("p", "q"), pair("q", "r")]),
        vec![pair("q", "c")]
    );
}

#[test]
fn scan_length_is_the_longest_reach() {
    assert_eq!(scan_len(&Vec::new()), 0);
    assert_eq!(scan_len(&vec![rule(0, b"abc", 1)]), 4);
    assert_eq!(scan_len(&vec![rule(0, b"abc", 1), rule(100, b"0123456789", 7), rule(5, b"", 0)]), 117);
    let far = scan_len(&vec![rule(u32::MAX, b"ab", u32::MAX)]);
    assert_eq!(far as u128, 2 * (u32::MAX as u128) + 2);
}

#[test]
fn loaded_database_end_to_end() {
    let first = magic_file(&[("image/jpeg", &[0xff, 0xd8, 0xff]), ("image/gif", b"GIF89a")]);
    let second = magic_file(&[("image/gif", b"GIF87a"), ("application/x-epub", b"EPUB")]);
    let ldb = LoadedDatabase::new(
        vec![first, second],
        "image/jpg image/jpeg\n".to_string(),
        "application/x-epub application/zip\nimage/jpg image/x-base\n".to_string(),
    );
    let table = ldb.rules().unwrap();
    assert_eq!(get_supported(&table), names(&["image/jpeg", "image/gif", "application/x-epub"]));
    assert!(can_check(&table, "image/gif"));
    assert!(!can_check(&table, "image/png"));
    let db = MimeDatabase::new(table, get_aliaslist(&ldb), &get_subclasses(&ldb)).unwrap();
    assert_eq!(db.from_u8(&[0xff, 0xd8, 0xff, 0xe0]), "image/jpeg");
    assert_eq!(db.from_u8(b"GIF87a\0"), "image/gif");
    assert_eq!(db.from_u8(b"GIF89a\0"), "image/gif");
    assert_eq!(db.from_u8(b"EPUB\0"), "application/x-epub");
    assert!(db.match_u8("image/jpg", &[0xff, 0xd8, 0xff, 0xe0]));

    let checker = FdoMagic::new(Arc::new(ldb));
    assert!(checker.from_u8(b"GIF87a", "image/gif"));
    assert!(checker.from_u8(b"GIF89a", "image/gif"));
    assert!(!checker.from_u8(b"GIF90a", "image/gif"));
    assert!(!checker.from_u8(b"GIF89a", "image/png"));
    assert_eq!(checker.scan_len("image/gif"), Some(7));
    assert_eq!(checker.scan_len("image/png"), None);
    assert_eq!(checker.get_supported(), names(&["image/jpeg", "image/gif", "application/x-epub"]));
    assert_eq!(checker.get_aliaslist(), vec![pair("image/jpg", "image/jpeg")]);
    assert_eq!(
        checker.get_subclasses(),
        vec![pair("application/zip", "application/x-epub"), pair("image/x-base", "image/jpeg")]
    );
}

#[test]
fn text_numbers() {
    assert_eq!(to_string(b"abc"), Ok("abc"));
    assert!(to_string(b"\xff\xfe").is_err());
    assert_eq!(to_u32(to_string(b"42"), 0), 42);
    assert_eq!(to_u32(to_string(b"x42"), 9), 9);
    assert_eq!(to_u32(to_string(b"\xff"), 9), 9);
}

#[test]
fn load_counts_add_up() {
    let a = LoadResult { magic_rules_num: 1, aliases_num: 2, subclasses_num: 3 };
    let b = LoadResult { magic_rules_num: 10, aliases_num: 20, subclasses_num: 30 };
    assert_eq!(a + b, LoadResult { magic_rules_num: 11, aliases_num: 22, subclasses_num: 33 });
    assert_eq!(LoadResult::zero(), LoadResult { magic_rules_num: 0, aliases_num: 0, subclasses_num: 0 });
    assert_eq!(sum(&Vec::new()), LoadResult::zero());
    assert_eq!(sum(&vec![a, b, a]), LoadResult { magic_rules_num: 12, aliases_num: 24, subclasses_num: 36 });
}

#[test]
fn errors_are_collected_with_the_counts() {
    let ok: Result<LoadResult, (LoadResult, Vec<&str>)> = dir_result(Ok(1), Ok(2), Ok(3));
    assert_eq!(ok, Ok(LoadResult { magic_rules_num: 1, aliases_num: 2, subclasses_num: 3 }));
    let bad = dir_result(Err((1, "magic")), Ok(2), Err((3, "subclasses")));
    assert_eq!(
        bad,
        Err((LoadResult { magic_rules_num: 1, aliases_num: 2, subclasses_num: 3 }, vec!["magic", "subclasses"]))
    );
    let all = dirs_result(vec![ok.clone(), bad.clone(), ok.clone()]);
    assert_eq!(
        all,
        Err((LoadResult { magic_rules_num: 3, aliases_num: 6, subclasses_num: 9 }, vec!["magic", "subclasses"]))
    );
    assert_eq!(
        dirs_result(vec![ok.clone(), ok.clone()]),
        Ok(LoadResult { magic_rules_num: 2, aliases_num: 4, subclasses_num: 6 })
    );
    assert_eq!(dirs_result::<&str>(Vec::new()), Ok(LoadResult::zero()));

    let mut err: Result<(), &str> = Ok(());
    assert_eq!(until_err(&mut err, Ok(5)), Some(5));
    assert_eq!(err, Ok(()));
    assert_eq!(until_err::<u8, &str>(&mut err, Err("broken")), None);
    assert_eq!(err, Err("broken"));
    let mut errs: Vec<&str> = Vec::new();
    assert_eq!(count_errs(&mut errs, Ok(5)), Some(5));
    assert_eq!(count_errs::<u8, &str>(&mut errs, Err("one")), None);
    assert_eq!(count_errs::<u8, &str>(&mut errs, Err("two")), None);
    assert_eq!(errs, vec!["one", "two"]);
}

#[test]
fn magic_file_is_loaded_into_a_database() {
    let mut db = OwnedBuildableDb::new();
    let bytes = magic_file(&[("image/gif", b"GIF89a"), ("image/png", b"\x89PNG")]);
    let out = load_magic_rules_bytes(&mut db, PathBuf::from("magic"), &bytes, None);
    assert!(matches!(out, Ok(2)));
    assert_eq!(db.magic_rules_mut().len(), 2);
    assert_eq!(db.magic_rules_mut()[1].mime_type(), "image/png");

    let out = load_magic_rules_bytes(&mut db, PathBuf::from("other"), b"junk", None);
    match out {
        Err((0, SharedMimeDbProviderError::MagicRuleParseError { file_path, source })) => {
            assert_eq!(file_path, PathBuf::from("other"));
            assert_eq!(source, MagicRuleParseError::MissingHeader { offset: 0 });
        }
        _ => panic!("junk is no magic file"),
    }
    assert_eq!(db.magic_rules_mut().len(), 2);

    let broken = std::io::Error::new(std::io::ErrorKind::Other, "broken");
    let out = load_magic_rules_bytes(&mut db, PathBuf::from("third"), &bytes[..45], Some(broken));
    match out {
        Err((1, SharedMimeDbProviderError::IoError { file_path, source })) => {
            assert_eq!(file_path, PathBuf::from("third"));
            assert_eq!(source.kind(), std::io::ErrorKind::Other);
        }
        _ => panic!("reading ended in an error"),
    }
    assert_eq!(db.magic_rules_mut().len(), 3);
    assert!(matches!(magic_file_result(PathBuf::from("x"), None, Ok(7)), Ok(7)));
}

#[test]
fn raw_database_is_filled_piece_by_piece() {
    let mut db = BuildeableDb::new();
    db.add_magic_rules(b"MIME-Magic\0\n");
    db.add_magic_rules(b"[50:a/b]\n");
    db.add_aliases("a/x a/b\n");
    db.add_aliases("a/y a/b\n");
    db.add_subclasses("a/b a/c\n");
    let error = LoadXdbSharedMagicError::NotFound { file: PathBuf::from("/nowhere") };
    assert_eq!(error, LoadXdbSharedMagicError::NotFound { file: PathBuf::from("/nowhere") });
    assert_ne!(error, LoadXdbSharedMagicError::UnsupportedPlatform { unsupported_platform: "none" });
}

#[test]
fn records_give_back_what_they_were_made_of() {
    let owned = OwnedMagicRule::new(50, "image/png".to_string(), 1, 2, vec![3, 4], vec![5, 6], 7, 8);
    assert_eq!(owned.priority(), 50);
    assert_eq!(owned.mime_type(), "image/png");
    assert_eq!(owned.indent_level(), 1);
    assert_eq!(owned.start_off(), 2);
    assert_eq!(owned.val(), &[3, 4]);
    assert_eq!(owned.mask(), &[5, 6]);
    assert_eq!(owned.word_len(), 7);
    assert_eq!(owned.region_len(), 8);

    let val = [3u8, 4];
    let mask = [5u8, 6];
    let borrowed = BorrowedMagicRule::new(50, "image/png", 1, 2, &val, &mask, 7, 8);
    assert_eq!(borrowed.priority(), 50);
    assert_eq!(borrowed.mime_type(), "image/png");
    assert_eq!(borrowed.indent_level(), 1);
    assert_eq!(borrowed.start_off(), 2);
    assert_eq!(borrowed.val(), &[3, 4]);
    assert_eq!(borrowed.mask(), &[5, 6]);
    assert_eq!(borrowed.word_len(), 7);
    assert_eq!(borrowed.region_len(), 8);

    let shared = SharedMimeMagicRule::new(50, "image/png", 1, 2, vec![3, 4], vec![5, 6], 7, 8);
    assert_eq!(shared.priority(), 50);
    assert_eq!(shared.mime_type(), "image/png");
    assert_eq!(shared.indent_level(), 1);
    assert_eq!(shared.start_off(), 2);
    assert_eq!(shared.val(), &[3, 4]);
    assert_eq!(shared.mask(), &[5, 6]);
    assert_eq!(shared.word_len(), 7);
    assert_eq!(shared.region_len(), 8);

    let alias = OwnedAlias::new("a/x".to_string(), "a/b".to_string());
    assert_eq!((alias.alias(), alias.name()), ("a/x", "a/b"));
    let alias = BorrowedAlias::new("a/x", "a/b");
    assert_eq!((alias.alias(), alias.name()), ("a/x", "a/b"));
    assert_eq!(OwnedSubclass::new().str(), "");
    assert_eq!(BorrowedSubclass::new().str(), "");
}

#[test]
fn record_lists_are_changed_in_place() {
    let mut db: BorrowedBuildableDb = BuildeableDbProvider::new();
    db.magic_rules_mut().push(BorrowedMagicRule::new(1, "a/b", 0, 0, b"x", b"", 1, 1));
    db.aliases_mut().push(BorrowedAlias::new("a/x", "a/b"));
    db.aliases_mut().push(BorrowedAlias::new("a/y", "a/b"));
    db.subclasses_mut().push(BorrowedSubclass::new());
    assert_eq!(db.magic_rules_mut().len(), 1);
    assert_eq!(db.aliases_mut().len(), 2);
    assert_eq!(db.subclasses_mut().len(), 1);
    db.clear();
    assert_eq!(db.magic_rules_mut().len(), 0);
    assert_eq!(db.aliases_mut().len(), 0);
    assert_eq!(db.subclasses_mut().len(), 0);
}

#[test]
fn top_level_of_a_name() {
    assert!(has_top_level("text/x-c", "text"));
    assert!(has_top_level("text", "text"));
    assert!(has_top_level("/x", ""));
    assert!(!has_top_level("textual/x", "text"));
    assert!(!has_top_level("tex", "text"));
    assert!(!has_top_level("a/b/c", "a/b"));
    assert!(!has_top_level("inode/directory", "text"));
    assert!(has_top_level("inode/directory", "inode"));
    let list = names(&["b", "a", "b", "c", "a"]);
    assert_eq!(dedup_names(&list), names(&["b", "a", "c"]));
    assert_eq!(position(&list, &"a".to_string()), Some(1));
    assert_eq!(position(&list, &"z".to_string()), None);
}
