use ravenna::strip_markup;

#[test]
fn strips_tags() {
    assert_eq!(strip_markup("a<b>c</b>d"), "acd");
    assert_eq!(strip_markup("plain text"), "plain text");
    assert_eq!(strip_markup(""), "");
}

#[test]
fn reducing_twice_equals_reducing_once() {
    for s in ["a<b>c</b>d", "x<y", "<<a>>b>c", "1 > 0 < 2", "<p>Hi</p>", "é<i>ü</i>"] {
        let once = strip_markup(s);
        assert_eq!(strip_markup(&once), once);
    }
}

#[test]
fn unterminated_tag_hides_the_rest() {
    assert_eq!(strip_markup("x<y"), "x");
    assert_eq!(strip_markup("ab<cd efg"), "ab");
}

#[test]
fn brackets_are_never_emitted() {
    assert_eq!(strip_markup("1 > 0"), "1  0");
    assert_eq!(strip_markup("a>b"), "ab");
}

#[test]
fn quoted_bracket_ends_the_tag_early() {
    assert_eq!(strip_markup("<a title=\"x>y\">z</a>"), "y\"z");
}
