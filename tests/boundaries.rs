use charabia::boundaries::Boundaries;

#[test]
fn entries_are_char_starts_then_the_end() {
    let mut b = Boundaries::new("aé€😀");
    let mut entries = Vec::new();
    while let Some(e) = b.next_entry() {
        entries.push(e);
    }
    assert_eq!(entries, [0, 1, 3, 6, 10]);
    assert_eq!(b.next_entry(), None);
}

#[test]
fn nth_skips_like_an_iterator() {
    let mut b = Boundaries::new("日本語");
    assert_eq!(b.nth(0), Some(0));
    assert_eq!(b.nth(1), Some(6));
    assert_eq!(b.nth(0), Some(9));
    assert_eq!(b.nth(0), None);
}

#[test]
fn nth_past_the_end_is_none() {
    let mut b = Boundaries::new("ab");
    assert_eq!(b.nth(3), None);
    let mut b = Boundaries::new("ab");
    assert_eq!(b.nth(2), Some(2));
}

#[test]
fn empty_text_has_only_the_end_entry() {
    let mut b = Boundaries::new("");
    assert_eq!(b.next_entry(), Some(0));
    assert_eq!(b.next_entry(), None);
}
