use utools::diff::{text_difference, ChangeKind, Granularity};

fn segment_texts(r: &utools::diff::DiffResult) -> Vec<(String, ChangeKind)> {
    let chars: Vec<char> = r.text.chars().collect();
    r.segments
        .iter()
        .map(|s| (chars[s.start..s.end].iter().collect::<String>(), s.kind))
        .collect()
}

#[test]
fn identical_inputs_give_one_equal_segment() {
    for g in [Granularity::Character, Granularity::Word, Granularity::Line] {
        let r = text_difference("some shared text\nlines too", "some shared text\nlines too", g);
        assert_eq!(r.text, "some shared text\nlines too");
        assert_eq!(r.segments.len(), 1);
        assert_eq!(r.segments[0].start, 0);
        assert_eq!(r.segments[0].end, r.text.chars().count());
        assert_eq!(r.segments[0].kind, ChangeKind::Equal);
    }
}

#[test]
fn empty_inputs_give_empty_output() {
    let r = text_difference("", "", Granularity::Word);
    assert_eq!(r.text, "");
    assert!(r.segments.is_empty());
}

#[test]
fn disjoint_inputs_delete_then_insert() {
    let r = text_difference("cat", "dog", Granularity::Character);
    assert_eq!(r.text, "catdog");
    assert_eq!(
        segment_texts(&r),
        vec![
            (String::from("cat"), ChangeKind::Delete),
            (String::from("dog"), ChangeKind::Insert),
        ]
    );
}

#[test]
fn ranges_partition_the_output() {
    let cases = [
        ("the quick brown fox", "the slow brown ox", Granularity::Word),
        ("abc", "axc", Granularity::Character),
        ("a\nb\nc\n", "a\nx\nc\n", Granularity::Line),
        ("", "something", Granularity::Word),
        ("something", "", Granularity::Word),
    ];
    for (a, b, g) in cases {
        let r = text_difference(a, b, g);
        let mut expected_start = 0;
        for s in &r.segments {
            assert_eq!(s.start, expected_start);
            assert!(s.start < s.end);
            expected_start = s.end;
        }
        assert_eq!(expected_start, r.text.chars().count());
    }
}

#[test]
fn sides_reassemble_from_segments() {
    let r = text_difference("the quick brown fox", "the slow brown ox", Granularity::Word);
    let mut original = String::new();
    let mut modified = String::new();
    for (text, kind) in segment_texts(&r) {
        match kind {
            ChangeKind::Equal => {
                original.push_str(&text);
                modified.push_str(&text);
            }
            ChangeKind::Delete => original.push_str(&text),
            ChangeKind::Insert => modified.push_str(&text),
        }
    }
    assert_eq!(original, "the quick brown fox");
    assert_eq!(modified, "the slow brown ox");
}

#[test]
fn word_diff_keeps_common_words_equal() {
    let r = text_difference("a b", "a c", Granularity::Word);
    let segs = segment_texts(&r);
    assert_eq!(segs[0], (String::from("a "), ChangeKind::Equal));
    assert!(segs.contains(&(String::from("b"), ChangeKind::Delete)));
    assert!(segs.contains(&(String::from("c"), ChangeKind::Insert)));
}

#[test]
fn line_diff_changes_whole_lines() {
    let r = text_difference("one\ntwo\nthree\n", "one\n2\nthree\n", Granularity::Line);
    let segs = segment_texts(&r);
    assert!(segs.contains(&(String::from("two\n"), ChangeKind::Delete)));
    assert!(segs.contains(&(String::from("2\n"), ChangeKind::Insert)));
    assert_eq!(segs[0], (String::from("one\n"), ChangeKind::Equal));
}
