use tree_magic_rs::check::{from_u8 as forest_matches, from_vec_u8, from_vec_u8_singlerule};
use tree_magic_rs::db::db_traits::MagicRule as RuleRecord;
use tree_magic_rs::db::owned_db_types::OwnedMagicRule;
use tree_magic_rs::db::parse_magic_rule::{parse_magic_file, parse_magic_file1};
use tree_magic_rs::db::shared_mime_db_types::SharedMimeMagicRule;
use tree_magic_rs::magic::MagicRule;
use tree_magic_rs::ruleset::{
    buf_to_u32, from_multiple, from_u8, from_u8_to_tuple_vec, magic_rules, magic_rules_indent_level,
    magic_rules_start_off, mime, MagicRuleParseError,
};

const HEADER: &[u8] = b"MIME-Magic\0\n";

fn file(parts: &[&[u8]]) -> Vec<u8> {
    let mut out = HEADER.to_vec();
    for p in parts {
        out.extend_from_slice(p);
    }
    out
}

fn rule_line(indent: &str, offset: &str, val: &[u8], tail: &[u8]) -> Vec<u8> {
    let mut out = Vec::new();
    out.extend_from_slice(indent.as_bytes());
    out.push(b'>');
    out.extend_from_slice(offset.as_bytes());
    out.push(b'=');
    out.push((val.len() >> 8) as u8);
    out.push((val.len() & 0xff) as u8);
    out.extend_from_slice(val);
    out.extend_from_slice(tail);
    out.push(b'\n');
    out
}

#[test]
fn mime_test() {
    let input = &b"[90:text/plain]\n"[..];
    let (name, next) = mime(input, 0).unwrap();
    assert_eq!((&input[next..], name.as_str()), (&b""[..], "text/plain"));
}

#[test]
fn indent_level_test() {
    assert_eq!(magic_rules_indent_level(&b"0>fgh"[..], 0).unwrap().0, 0);
    assert_eq!(magic_rules_indent_level(&b"42>fgh"[..], 0).unwrap().0, 42);
    assert_eq!(magic_rules_indent_level(&b">fgh"[..], 0).unwrap().0, 0);
    assert_eq!(magic_rules_indent_level(&b"xyz>fgh"[..], 0).is_err(), true);
}

#[test]
fn start_off_test() {
    assert_eq!(magic_rules_start_off(&b"0="[..], 0).unwrap().0, 0);
    assert_eq!(magic_rules_start_off(&b"42="[..], 0).unwrap().0, 42);
}

#[test]
fn numbers_fall_back_to_the_default() {
    assert_eq!(buf_to_u32(b"123", 7), 123);
    assert_eq!(buf_to_u32(b"4294967295", 7), 4294967295);
    assert_eq!(buf_to_u32(b"4294967296", 7), 7);
    assert_eq!(buf_to_u32(b"", 7), 7);
    assert_eq!(buf_to_u32(b"12a", 7), 7);
    assert_eq!(buf_to_u32(b"000", 7), 0);
}

#[test]
fn rule_line_with_defaults() {
    let line = rule_line("", "0", &[0xff, 0xd8, 0xff], b"");
    let (rule, next) = magic_rules(&line, 0).unwrap();
    assert_eq!(next, line.len());
    assert_eq!(rule.indent_level, 0);
    assert_eq!(rule.start_off, 0);
    assert_eq!(rule.val_len, 3);
    assert_eq!(rule.val, vec![0xff, 0xd8, 0xff]);
    assert_eq!(rule.mask, None);
    assert_eq!(rule.word_len, 1);
    assert_eq!(rule.region_len, 1);
}

#[test]
fn rule_line_with_everything() {
    let line = rule_line("2", "16", b"ab", b"&\xff\x0f~2+40");
    let (rule, next) = magic_rules(&line, 0).unwrap();
    assert_eq!(next, line.len());
    assert_eq!(rule.indent_level, 2);
    assert_eq!(rule.start_off, 16);
    assert_eq!(rule.val, b"ab".to_vec());
    assert_eq!(rule.mask, Some(vec![0xff, 0x0f]));
    assert_eq!(rule.word_len, 2);
    assert_eq!(rule.region_len, 40);
}

#[test]
fn literal_may_hold_any_byte() {
    let line = rule_line("0", "0", b"[\n&~+", b"");
    let (rule, next) = magic_rules(&line, 0).unwrap();
    assert_eq!(next, line.len());
    assert_eq!(rule.val, b"[\n&~+".to_vec());
}

#[test]
fn rule_line_errors_carry_their_place() {
    assert_eq!(
        magic_rules(b"1x=", 0).unwrap_err(),
        MagicRuleParseError::Expected { offset: 1, byte: b'>' }
    );
    assert_eq!(
        magic_rules(b"1>5", 0).unwrap_err(),
        MagicRuleParseError::Expected { offset: 3, byte: b'=' }
    );
    assert_eq!(magic_rules(b"1>5=\x00", 0).unwrap_err(), MagicRuleParseError::Truncated { offset: 4 });
    assert_eq!(
        magic_rules(b"1>5=\x00\x04ab", 0).unwrap_err(),
        MagicRuleParseError::Truncated { offset: 6 }
    );
    assert_eq!(
        magic_rules(b"1>5=\x00\x02ab&c", 0).unwrap_err(),
        MagicRuleParseError::Truncated { offset: 9 }
    );
    assert_eq!(
        magic_rules(b"1>5=\x00\x02abX\n", 0).unwrap_err(),
        MagicRuleParseError::Expected { offset: 8, byte: b'\n' }
    );
    assert_eq!(MagicRuleParseError::Truncated { offset: 9 }.offset(), 9);
}

#[test]
fn missing_header_is_an_error_at_the_start() {
    let (entries, error) = from_u8_to_tuple_vec(b"[50:image/png]\n");
    assert_eq!(entries.len(), 0);
    assert_eq!(error, Some(MagicRuleParseError::MissingHeader { offset: 0 }));
    let mut rules: Vec<OwnedMagicRule> = Vec::new();
    let out = parse_magic_file(b"MIME-Magic\n", &mut rules);
    assert_eq!(out, Err((0, MagicRuleParseError::MissingHeader { offset: 0 })));
    assert_eq!(rules.len(), 0);
    assert!(matches!(from_u8(b""), Err((t, MagicRuleParseError::MissingHeader { offset: 0 })) if t.is_empty()));
}

#[test]
fn header_alone_is_an_empty_file() {
    let (entries, error) = from_u8_to_tuple_vec(HEADER);
    assert_eq!(entries.len(), 0);
    assert_eq!(error, None);
}

#[test]
fn entries_and_rules_are_read_in_order() {
    let input = file(&[
        b"[50:image/png]\n",
        &rule_line("0", "0", b"\x89PNG", b""),
        b"[60:image/gif]\n",
        &rule_line("", "0", b"GIF8", b""),
        &rule_line("1", "4", b"7a", b""),
        &rule_line("1", "4", b"9a", b""),
    ]);
    let (entries, error) = from_u8_to_tuple_vec(&input);
    assert_eq!(error, None);
    assert_eq!(entries.len(), 2);
    assert_eq!(entries[0].priority, 50);
    assert_eq!(entries[0].mime, "image/png");
    assert_eq!(entries[0].rules.len(), 1);
    assert_eq!(entries[1].priority, 60);
    assert_eq!(entries[1].mime, "image/gif");
    assert_eq!(entries[1].rules.len(), 3);
    assert_eq!(entries[1].rules[2].indent_level, 1);
    assert_eq!(entries[1].rules[2].start_off, 4);
    assert_eq!(entries[1].rules[2].val, b"9a".to_vec());
}

#[test]
fn what_was_read_before_an_error_is_kept() {
    let input = file(&[
        b"[50:image/png]\n",
        &rule_line("0", "0", b"\x89PNG", b""),
        b"[60:image/gif]\n",
        &rule_line("", "0", b"GIF8", b""),
        b"garbage\n",
        &rule_line("1", "4", b"9a", b""),
    ]);
    let at = input.windows(7).position(|w| w == b"garbage").unwrap();
    let (entries, error) = from_u8_to_tuple_vec(&input);
    assert_eq!(error, Some(MagicRuleParseError::Expected { offset: at, byte: b'>' }));
    assert_eq!(entries.len(), 2);
    assert_eq!(entries[1].rules.len(), 1);

    let mut rules: Vec<OwnedMagicRule> = Vec::new();
    let out = parse_magic_file(&input, &mut rules);
    assert_eq!(out, Err((2, MagicRuleParseError::Expected { offset: at, byte: b'>' })));
    assert_eq!(rules.len(), 2);
    assert_eq!(rules[1].mime_type(), "image/gif");
    assert_eq!(rules[1].priority(), 60);
    assert_eq!(rules[1].val(), b"GIF8");
    assert_eq!(rules[1].mask(), b"");
    assert_eq!(rules[1].indent_level(), 0);
    assert_eq!(rules[1].start_off(), 0);
    assert_eq!(rules[1].word_len(), 1);
    assert_eq!(rules[1].region_len(), 1);
}

#[test]
fn entry_head_errors() {
    let (_, error) = from_u8_to_tuple_vec(&file(&[b"0>0=\x00\x01a\n"]));
    assert_eq!(error, Some(MagicRuleParseError::Expected { offset: 12, byte: b'[' }));
    let (_, error) = from_u8_to_tuple_vec(&file(&[b"[:image/png]\n"]));
    assert_eq!(error, Some(MagicRuleParseError::BadPriority { offset: 13 }));
    let (_, error) = from_u8_to_tuple_vec(&file(&[b"[99999999999:image/png]\n"]));
    assert_eq!(error, Some(MagicRuleParseError::BadPriority { offset: 13 }));
    let (_, error) = from_u8_to_tuple_vec(&file(&[b"[50;image/png]\n"]));
    assert_eq!(error, Some(MagicRuleParseError::Expected { offset: 15, byte: b':' }));
    let (_, error) = from_u8_to_tuple_vec(&file(&[b"[50:image/png\n"]));
    assert_eq!(error, Some(MagicRuleParseError::Expected { offset: 26, byte: b']' }));
    let (_, error) = from_u8_to_tuple_vec(&file(&[b"[50:image/\xff\xfe]\n"]));
    assert_eq!(error, Some(MagicRuleParseError::BadMimeType { offset: 16 }));
    let (_, error) = from_u8_to_tuple_vec(&file(&[b"[50:image/png]x"]));
    assert_eq!(error, Some(MagicRuleParseError::Expected { offset: 26, byte: b'\n' }));
}

#[test]
fn parsed_rules_are_appended_to_what_is_there() {
    let input = file(&[b"[50:image/png]\n", &rule_line("0", "0", b"\x89PNG", b"&\xff\xff\xff\x00")]);
    let mut rules = vec![OwnedMagicRule::new(1, "a/b".to_string(), 0, 0, vec![1], vec![], 1, 1)];
    assert_eq!(parse_magic_file(&input, &mut rules), Ok(1));
    assert_eq!(rules.len(), 2);
    assert_eq!(rules[0].mime_type(), "a/b");
    assert_eq!(rules[1].mime_type(), "image/png");
    assert_eq!(rules[1].mask(), &[0xff, 0xff, 0xff, 0x00]);
}

#[test]
fn rules_of_two_files_for_one_type_are_joined_in_file_order() {
    let first = file(&[
        b"[50:image/x-thing]\n",
        &rule_line("0", "0", b"AAAA", b""),
        b"[50:image/png]\n",
        &rule_line("0", "0", b"\x89PNG", b""),
    ]);
    let second = file(&[b"[50:image/x-thing]\n", &rule_line("0", "0", b"BBBB", b"")]);
    let table = from_multiple(&vec![first, second]).unwrap();
    assert_eq!(table.len(), 2);
    assert_eq!(table[0].0, "image/x-thing");
    assert_eq!(table[1].0, "image/png");
    assert_eq!(table[0].1.len(), 2);
    assert_eq!(table[0].1[0].val, b"AAAA".to_vec());
    assert_eq!(table[0].1[1].val, b"BBBB".to_vec());
    assert!(forest_matches(b"AAAA....", &table[0].1));
    assert!(forest_matches(b"BBBB....", &table[0].1));
    assert!(!forest_matches(b"CCCC....", &table[0].1));
}

#[test]
fn error_in_one_file_does_not_stop_the_next() {
    let first = b"no header".to_vec();
    let second = file(&[b"[50:image/png]\n", &rule_line("0", "0", b"\x89PNG", b"")]);
    match from_multiple(&vec![first, second]) {
        Err((table, error)) => {
            assert_eq!(error, MagicRuleParseError::MissingHeader { offset: 0 });
            assert_eq!(table.len(), 1);
            assert_eq!(table[0].0, "image/png");
        }
        Ok(_) => panic!("the first file has no header"),
    }
}

fn plain(indent_level: u32, start_off: u32, val: &[u8], region_len: u32) -> MagicRule {
    MagicRule {
        indent_level,
        start_off,
        val_len: val.len() as u16,
        val: val.to_vec(),
        mask: None,
        word_len: 1,
        region_len,
    }
}

#[test]
fn single_rule_window() {
    let file = b"0123456789".to_vec();
    assert!(from_vec_u8_singlerule(&file, &plain(0, 0, b"012", 0)));
    assert!(!from_vec_u8_singlerule(&file, &plain(0, 0, b"123", 0)));
    assert!(from_vec_u8_singlerule(&file, &plain(0, 0, b"123", 1)));
    assert!(!from_vec_u8_singlerule(&file, &plain(0, 0, b"234", 1)));
    assert!(from_vec_u8_singlerule(&file, &plain(0, 0, b"234", 2)));
    assert!(from_vec_u8_singlerule(&file, &plain(0, 7, b"789", 0)));
    assert!(from_vec_u8_singlerule(&file, &plain(0, 5, b"789", 100)));
    assert!(!from_vec_u8_singlerule(&file, &plain(0, 8, b"789", 100)));
    assert!(!from_vec_u8_singlerule(&file, &plain(0, 8, b"89x", 0)));
    assert!(!from_vec_u8_singlerule(&file, &plain(0, 4000000000, b"0", 4000000000)));
    assert!(!from_vec_u8_singlerule(&Vec::new(), &plain(0, 0, b"0", 0)));
    assert!(from_vec_u8_singlerule(&Vec::new(), &plain(0, 0, b"", 0)));
    assert!(!from_vec_u8_singlerule(&Vec::new(), &plain(0, 1, b"", 0)));
}

#[test]
fn mask_applies_to_both_sides() {
    let mut rule = plain(0, 0, &[0x12, 0x34], 0);
    rule.mask = Some(vec![0xf0, 0x0f]);
    assert!(from_vec_u8_singlerule(&vec![0x1f, 0xf4], &rule));
    assert!(!from_vec_u8_singlerule(&vec![0x2f, 0xf4], &rule));
    rule.mask = Some(vec![0xf0]);
    assert!(from_vec_u8_singlerule(&vec![0x1f, 0x34], &rule));
    assert!(!from_vec_u8_singlerule(&vec![0x1f, 0x35], &rule));
}

#[test]
fn flat_forest_is_an_or_of_its_rules() {
    let rules = vec![plain(0, 0, b"AA", 0), plain(0, 0, b"BB", 0), plain(0, 0, b"CC", 0)];
    assert!(from_vec_u8(b"AA..".to_vec(), "x/y", rules.clone()));
    assert!(from_vec_u8(b"BB..".to_vec(), "x/y", rules.clone()));
    assert!(from_vec_u8(b"CC..".to_vec(), "x/y", rules.clone()));
    assert!(!from_vec_u8(b"DD..".to_vec(), "x/y", rules.clone()));
    assert!(!from_vec_u8(b"AA..".to_vec(), "x/y", Vec::new()));
}

#[test]
fn rule_with_deeper_rules_below_is_a_condition_for_them() {
    let rules = vec![plain(0, 0, b"AA", 0), plain(1, 2, b"11", 0), plain(1, 2, b"22", 0)];
    assert!(!from_vec_u8(b"AA33".to_vec(), "x/y", rules.clone()));
    assert!(from_vec_u8(b"AA11".to_vec(), "x/y", rules.clone()));
    assert!(from_vec_u8(b"AA22".to_vec(), "x/y", rules.clone()));
    assert!(!from_vec_u8(b"BB11".to_vec(), "x/y", rules.clone()));
    assert!(!from_vec_u8(b"BB22".to_vec(), "x/y", rules.clone()));
}

#[test]
fn nested_rule_does_not_count_where_the_rule_above_fails() {
    let mut png = plain(0, 0, b"PNG", 1);
    png.word_len = 1;
    let gif = plain(1, 0, b"GIF8", 1);
    assert!(!from_vec_u8(b"GIF89a".to_vec(), "x/y", vec![png.clone(), gif.clone()]));
    assert!(!from_vec_u8(b"PNG".to_vec(), "x/y", vec![png, gif]));
}

#[test]
fn every_rule_above_has_to_match() {
    let rules = vec![
        plain(0, 0, b"A", 0),
        plain(1, 1, b"B", 0),
        plain(2, 2, b"C", 0),
        plain(2, 2, b"D", 0),
        plain(1, 1, b"E", 0),
        plain(0, 0, b"F", 0),
        plain(3, 1, b"G", 0),
    ];
    assert!(from_vec_u8(b"ABC".to_vec(), "x/y", rules.clone()));
    assert!(from_vec_u8(b"ABD".to_vec(), "x/y", rules.clone()));
    assert!(from_vec_u8(b"AE".to_vec(), "x/y", rules.clone()));
    assert!(from_vec_u8(b"FG".to_vec(), "x/y", rules.clone()));
    assert!(!from_vec_u8(b"AB".to_vec(), "x/y", rules.clone()));
    assert!(!from_vec_u8(b"AXC".to_vec(), "x/y", rules.clone()));
    assert!(!from_vec_u8(b"XBC".to_vec(), "x/y", rules.clone()));
    assert!(!from_vec_u8(b"XE".to_vec(), "x/y", rules.clone()));
    assert!(!from_vec_u8(b"AG".to_vec(), "x/y", rules.clone()));
    assert!(!from_vec_u8(b"F".to_vec(), "x/y", rules.clone()));
    assert!(!from_vec_u8(b"XG".to_vec(), "x/y", rules.clone()));
}

#[test]
fn records_borrow_the_names_of_their_types() {
    let input = file(&[
        b"[50:image/png]\n",
        &rule_line("0", "0", b"\x89PNG", b""),
        b"[60:image/gif]\n",
        &rule_line("", "0", b"GIF8", b"&\xff\xff\xff\xf0"),
        &rule_line("1", "4", b"9a", b""),
        b"[70:a/empty]\n",
    ]);
    let mut names = vec!["kept".to_string()];
    let mut rules: Vec<SharedMimeMagicRule> = Vec::new();
    assert_eq!(parse_magic_file1(&input, &mut names, &mut rules), Ok(3));
    assert_eq!(names, vec!["kept", "image/png", "image/gif", "a/empty"]);
    assert_eq!(rules.len(), 3);
    assert_eq!(rules[0].mime_type(), "image/png");
    assert_eq!(rules[0].priority(), 50);
    assert_eq!(rules[1].mime_type(), "image/gif");
    assert_eq!(rules[1].priority(), 60);
    assert_eq!(rules[1].val(), b"GIF8");
    assert_eq!(rules[1].mask(), &[0xff, 0xff, 0xff, 0xf0]);
    assert_eq!(rules[2].mime_type(), "image/gif");
    assert_eq!(rules[2].indent_level(), 1);
    assert_eq!(rules[2].start_off(), 4);
    assert_eq!(rules[2].val(), b"9a");
    assert_eq!(rules[2].mask(), b"");

    let broken = file(&[b"[50:image/png]\n", &rule_line("0", "0", b"\x89PNG", b""), b"[60:image/gif\n"]);
    let mut names: Vec<String> = Vec::new();
    let mut rules: Vec<SharedMimeMagicRule> = Vec::new();
    let out = parse_magic_file1(&broken, &mut names, &mut rules);
    assert_eq!(out, Err((1, MagicRuleParseError::Expected { offset: broken.len(), byte: b']' })));
    assert_eq!(names, vec!["image/png"]);
    assert_eq!(rules.len(), 1);
    let mut names: Vec<String> = Vec::new();
    let mut rules: Vec<SharedMimeMagicRule> = Vec::new();
    assert_eq!(
        parse_magic_file1(b"junk", &mut names, &mut rules),
        Err((0, MagicRuleParseError::MissingHeader { offset: 0 }))
    );
    assert!(names.is_empty() && rules.is_empty());
}

#[test]
fn parsed_rules_keep_the_length_of_their_literal() {
    let input = file(&[
        b"[50:image/png]\n",
        &rule_line("0", "0", b"\x89PNG", b"&\xff\xff\xff\xff"),
        &rule_line("0", "0", b"", b"&"),
    ]);
    let table = from_u8(&input).unwrap();
    for (_, rules) in &table {
        for rule in rules {
            assert_eq!(rule.val_len as usize, rule.val.len());
            assert_eq!(rule.mask.is_none(), rule.mask.as_ref().map_or(true, |m| m.is_empty()));
        }
    }
    assert_eq!(table[0].1[0].mask, Some(vec![0xff; 4]));
    assert_eq!(table[0].1[1].mask, None);
}
