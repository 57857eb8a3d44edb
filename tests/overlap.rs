use string_overlap::plain::overlap;

#[test]
fn it_works() {
    let background = "...\n...\n...";
    let foreground = "foo\n  o\n  f";
    assert_eq!(overlap(background, foreground), "foo\n..o\n..f\n");
}

#[test]
fn both_empty_gives_empty() {
    assert_eq!(overlap("", ""), "");
}

#[test]
fn line_count_is_that_of_longer_block() {
    let out = overlap("a\nb\nc", "x");
    assert_eq!(out, "x\nb\nc\n");
    assert_eq!(out.lines().count(), 3);
    let out = overlap("a", "x\ny\nz");
    assert_eq!(out, "x\ny\nz\n");
}

#[test]
fn every_line_is_terminated() {
    let out = overlap("ab\ncd\n", "  \n");
    assert_eq!(out, "ab\ncd\n");
    assert!(out.ends_with('\n'));
    assert_eq!(out.matches('\n').count(), 2);
}

#[test]
fn empty_foreground_keeps_background() {
    assert_eq!(overlap("one\ntwo", ""), "one\ntwo\n");
    assert_eq!(overlap("one\r\ntwo\n", ""), "one\ntwo\n");
}

#[test]
fn overlay_on_itself() {
    let a = "a b\n  c\n\nd  ";
    assert_eq!(overlap(a, a), "a b\n  c\n\nd  \n");
}

#[test]
fn whitespace_is_transparent() {
    assert_eq!(overlap("abcd", " \t  "), "abcd\n");
    assert_eq!(overlap("ab", "    "), "ab  \n");
    assert_eq!(overlap("abc", "\u{3000}x\u{a0}"), "axc\n");
}

#[test]
fn longer_foreground_line_extends() {
    assert_eq!(overlap("..", "  xyz"), "..xyz\n");
    assert_eq!(overlap(".....", "x"), "x....\n");
}

#[test]
fn crlf_line_endings() {
    assert_eq!(overlap("..\r\n..\r\n", "x\r\n y"), "x.\n.y\n");
}
