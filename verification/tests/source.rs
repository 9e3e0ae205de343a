use burn::util::source::find_line;

#[test]
fn source_test() {
    let source = "foo僯\nbar\nbaz";
    let check = |i: usize, s: &str| {
        let l = find_line(source, i);
        let f = format!("{}|{}", &source[l.start..l.offset], &source[l.offset..l.end]);
        assert!(f == s.to_string());
    };

    check(0, "|foo僯");
    check(1, "f|oo僯");
    check(2, "fo|o僯");
    check(3, "foo|僯");
    check(4, "foo僯|");
    check(5, "|bar");
    check(6, "b|ar");
    check(7, "ba|r");
    check(8, "bar|");
    check(9, "|baz");
    check(10, "b|az");
    check(11, "ba|z");
    check(12, "baz|");
    check(13, "baz|");
    check(14, "baz|");
}

#[test]
fn find_line_counts_lines() {
    let source = "a\nb\n\nc";
    assert_eq!(find_line(source, 0).no, 1);
    assert_eq!(find_line(source, 2).no, 2);
    assert_eq!(find_line(source, 4).no, 3);
    assert_eq!(find_line(source, 5).no, 4);
    assert_eq!(find_line(source, 99).no, 4);
    let l = find_line(source, 1);
    assert_eq!((l.offset, l.start, l.end), (1, 0, 1));
}
