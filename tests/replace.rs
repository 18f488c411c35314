use search_replace::pattern::compile_pattern;
use search_replace::replace::{
    get_matched_groups, replace, replace_append, replace_captures, replace_file, splice, Span,
};
use search_replace::types::{Cmd, Error, File, Groups, MatchedGroup, PosGroups};
use std::cmp::Ordering;

fn pos(entries: &[(usize, &str)]) -> PosGroups {
    let mut m = PosGroups::new();
    for (k, v) in entries {
        m.insert(*k, v.as_bytes().to_vec());
    }
    m
}

fn do_replace(c: &Cmd, d: &[u8]) -> String {
    String::from_utf8(replace(c, d)).unwrap()
}

fn group(start: usize, end: usize, replace: &str, group_id: usize) -> MatchedGroup {
    MatchedGroup { start, end, replace: replace.as_bytes().to_vec(), group_id }
}

#[test]
fn test_replace() {
    let data = b"start. group1 is g1, group2 is g2. end";
    let pat = "group1 is (g1), group2 is (g2)";
    let groups = pos(&[(1, "r1"), (2, "r2")]);
    // both groups existing
    {
        let cmd = Cmd::simple(pat, groups.clone()).unwrap();
        let expected = "start. group1 is r1, group2 is r2. end";
        let result = do_replace(&cmd, data);
        assert_eq!(result, expected);
    }

    // only group 1
    {
        let mut groups = groups.clone();
        groups.remove(&2);
        let cmd = Cmd::simple(pat, groups).unwrap();
        let expected = "start. group1 is r1, group2 is g2. end";
        let result = do_replace(&cmd, data);
        assert_eq!(result, expected);
    }

    // only group 2
    {
        let mut groups = groups.clone();
        groups.remove(&1);
        let cmd = Cmd::simple(pat, groups).unwrap();
        let expected = "start. group1 is g1, group2 is r2. end";
        let result = do_replace(&cmd, data);
        assert_eq!(result, expected);
    }

    // g0 = ALL
    {
        let mut groups = groups.clone();
        groups.insert(0, "ALL".as_bytes().to_vec());
        let cmd = Cmd::simple(pat, groups).unwrap();
        let expected = "start. ALL. end";
        let result = do_replace(&cmd, data);
        assert_eq!(result, expected);
    }
}

#[test]
fn every_match_is_replaced() {
    let cmd = Cmd::simple("(a)(b)?", pos(&[(1, "X")])).unwrap();
    assert_eq!(do_replace(&cmd, b"ab-a-cab"), "Xb-X-cXb");
}

#[test]
fn no_match_leaves_document_unchanged() {
    let cmd = Cmd::simple("(zzz)", pos(&[(1, "X")])).unwrap();
    let data = b"nothing to see \xff here".to_vec();
    assert_eq!(replace(&cmd, &data), data);
}

#[test]
fn invalid_pattern_is_reported() {
    match compile_pattern("(unclosed") {
        Err(Error::InvalidPattern(msg)) => assert!(!msg.is_empty()),
        other => panic!("unexpected {:?}", other.map(|_| ())),
    }
    assert!(Cmd::simple("a(", PosGroups::new()).is_err());
}

#[test]
fn help_example_replaces_both_groups() {
    let cmd = Cmd::simple(
        "The (cat) went over the (hill)",
        pos(&[(1, "dog"), (2, "bridge")]),
    )
    .unwrap();
    assert_eq!(
        do_replace(&cmd, b"The cat went over the hill to find his friend"),
        "The dog went over the bridge to find his friend"
    );
}

#[test]
fn replace_file_keeps_path() {
    let cmd = Cmd::simple("(b)", pos(&[(1, "B")])).unwrap();
    let f = File { path: "some/file.txt".to_string(), data: b"abcb".to_vec() };
    let r = replace_file(&cmd, &f);
    assert_eq!(r.path, "some/file.txt");
    assert_eq!(r.data, b"aBcB".to_vec());
}

#[test]
fn splice_without_groups_is_identity() {
    let mut dst = b"pre:".to_vec();
    splice(b"matched bytes", 40, &Vec::new(), &mut dst);
    assert_eq!(dst, b"pre:matched bytes".to_vec());
}

#[test]
fn splice_keeps_gaps_and_length() {
    // whole = "0123456789" at document offset 10
    let ms = vec![group(11, 13, "ab", 1), group(15, 16, "XYZ", 2), group(19, 20, "", 3)];
    let mut dst = Vec::new();
    splice(b"0123456789", 10, &ms, &mut dst);
    assert_eq!(dst, b"0ab34XYZ678".to_vec());
    // 10 bytes, +0 for the first group, +2 for the second, -1 for the third
    assert_eq!(dst.len(), 11);
}

#[test]
fn splice_with_own_bytes_rebuilds_match() {
    let ms = vec![group(0, 3, "abc", 1), group(3, 5, "de", 2), group(7, 7, "", 3)];
    let mut dst = Vec::new();
    splice(b"abcdefgh", 0, &ms, &mut dst);
    assert_eq!(dst, b"abcdefgh".to_vec());
}

#[test]
fn outer_group_suppresses_inner_groups() {
    let caps: Vec<Span> = vec![Some((0, 10)), Some((2, 8)), Some((3, 5)), Some((6, 7))];
    let m = get_matched_groups(&pos(&[(1, "A"), (2, "B"), (3, "C")]), &caps);
    assert_eq!(m.len(), 1);
    assert_eq!((m[0].start, m[0].end, m[0].group_id), (2, 8, 1));
}

#[test]
fn resolved_groups_increase_in_start() {
    let caps: Vec<Span> = vec![Some((0, 20)), Some((12, 15)), Some((2, 9)), Some((3, 4)), None];
    let m = get_matched_groups(&pos(&[(1, "a"), (2, "b"), (3, "c"), (4, "d")]), &caps);
    let starts: Vec<usize> = m.iter().map(|g| g.start).collect();
    assert_eq!(starts, vec![2, 12]);
    assert_eq!(m[0].group_id, 2);
    assert_eq!(m[1].group_id, 1);
}

#[test]
fn absent_and_unrequested_groups_are_ignored() {
    let caps: Vec<Span> = vec![Some((0, 4)), None, Some((1, 2))];
    let m = get_matched_groups(&pos(&[(1, "x"), (5, "y")]), &caps);
    assert!(m.is_empty());
}

#[test]
fn replace_captures_exact_output() {
    let data = b"xx ab yy ab zz";
    let all: Vec<Vec<Span>> = vec![
        vec![Some((3, 5)), Some((3, 4)), None],
        vec![Some((9, 11)), Some((9, 10)), Some((10, 11))],
    ];
    let out = replace_captures(&pos(&[(1, "1"), (2, "2")]), data, &all);
    assert_eq!(out, b"xx 1b yy 12 zz".to_vec());
    let unchanged = replace_captures(&pos(&[(1, "1")]), data, &Vec::new());
    assert_eq!(unchanged, data.to_vec());
}

#[test]
fn replace_append_writes_one_match() {
    let mut dst = b"<".to_vec();
    let caps: Vec<Span> = vec![Some((2, 6)), Some((3, 5))];
    replace_append(&Groups::Pos(pos(&[(0, "whole"), (1, "in")])), b"..abcd..", &caps, &mut dst);
    assert_eq!(dst, b"<whole".to_vec());
}

#[test]
fn superset_needs_containment_and_lower_id() {
    assert!(group(0, 10, "", 0).is_superset(&group(2, 5, "", 1)));
    assert!(!group(2, 5, "", 1).is_superset(&group(0, 10, "", 0)));
    assert!(!group(0, 10, "", 2).is_superset(&group(2, 5, "", 1)));
    assert!(!group(0, 4, "", 0).is_superset(&group(2, 5, "", 1)));
}

#[test]
fn groups_compare_by_start() {
    let a = group(3, 4, "a", 1);
    let b = group(3, 9, "b", 2);
    let c = group(5, 6, "c", 0);
    assert!(a == b);
    assert!(a != c);
    assert_eq!(a.partial_cmp(&c), Some(Ordering::Less));
    assert_eq!(c.partial_cmp(&a), Some(Ordering::Greater));
    assert_eq!(a.partial_cmp(&b), Some(Ordering::Equal));
}

#[test]
fn whole_match_group_suppresses_every_inner_group() {
    let caps: Vec<Span> = vec![Some((4, 12)), Some((4, 6)), None, Some((8, 12)), Some((9, 10))];
    let m = get_matched_groups(&pos(&[(0, "W"), (1, "a"), (3, "b"), (4, "c")]), &caps);
    assert_eq!(m.len(), 1);
    assert_eq!((m[0].start, m[0].end, m[0].group_id), (4, 12, 0));
    assert_eq!(m[0].replace, b"W".to_vec());
}

#[test]
fn compiled_pattern_is_accepted() {
    assert!(compile_pattern("group1 is (g1)").is_ok());
    assert!(Cmd::simple("(?P<name>x)", PosGroups::new()).is_ok());
}
