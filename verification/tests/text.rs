use tosh::text::{field_bounds, from_chars, to_chars};

#[test]
fn text_to_characters_and_back() {
    assert_eq!(to_chars("a:b"), vec!['a', ':', 'b']);
    assert_eq!(to_chars(""), Vec::<char>::new());
    assert_eq!(to_chars("é\u{1f600}"), vec!['é', '\u{1f600}']);
    assert_eq!(from_chars(&vec!['f', 'e', '8', '0']), "fe80");
    assert_eq!(from_chars(&to_chars("fd15::x")), "fd15::x");
}

#[test]
fn fields_between_separators() {
    let t = to_chars("ab:c::d:");
    assert_eq!(field_bounds(&t, 0, t.len(), ':'), vec![(0, 2), (3, 4), (5, 5), (6, 7), (8, 8)]);
    assert_eq!(field_bounds(&t, 0, 2, ':'), vec![(0, 2)]);
    assert_eq!(field_bounds(&t, 3, 3, ':'), vec![(3, 3)]);
    assert_eq!(field_bounds(&t, 2, 6, ':'), vec![(2, 2), (3, 4), (5, 5), (6, 6)]);
    assert_eq!(field_bounds(&t, 0, t.len(), '.'), vec![(0, 8)]);
}
