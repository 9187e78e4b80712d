use charabia::reconcile::{reconcile, ExhaustionPolicy, ReconcileError, Segment};
use charabia::token::{Script, Text, TokenKind};

fn seg(word: &str, start: usize, end: usize) -> Segment<'_> {
    Segment { word, start, end }
}

#[test]
fn ascii_segments_become_byte_spans() {
    let orig = "The quick fox";
    let segs = vec![seg("The", 0, 3), seg(" ", 3, 4), seg("quick", 4, 9), seg(" ", 9, 10), seg("fox", 10, 13)];
    let tokens = reconcile(orig, &segs, ExhaustionPolicy::Fault).unwrap();
    let spans: Vec<(usize, usize)> = tokens.iter().map(|t| (t.byte_start, t.byte_end)).collect();
    assert_eq!(spans, [(0, 3), (3, 4), (4, 9), (9, 10), (10, 13)]);
    let starts: Vec<usize> = tokens.iter().map(|t| t.char_index).collect();
    assert_eq!(starts, [0, 3, 4, 9, 10]);
    assert!(tokens.iter().all(|t| t.kind == TokenKind::Word && t.script == Script::Other));
    assert_eq!(tokens[2].lemma, Text::Borrowed("quick"));
}

#[test]
fn multibyte_characters_get_their_widths() {
    let orig = "hé€😀x";
    let segs = vec![seg("h", 0, 1), seg("é€", 1, 3), seg("😀", 3, 4), seg("x", 4, 5)];
    let tokens = reconcile(orig, &segs, ExhaustionPolicy::Fault).unwrap();
    let spans: Vec<(usize, usize)> = tokens.iter().map(|t| (t.byte_start, t.byte_end)).collect();
    assert_eq!(spans, [(0, 1), (1, 6), (6, 10), (10, 11)]);
    let rebuilt: String = tokens.iter().map(|t| &orig[t.byte_start..t.byte_end]).collect();
    assert_eq!(rebuilt, orig);
}

#[test]
fn processed_text_may_differ_from_original() {
    let orig = "ÀB c";
    let segs = vec![seg("AB", 0, 2), seg(" ", 2, 3), seg("c", 3, 4)];
    let tokens = reconcile(orig, &segs, ExhaustionPolicy::Fault).unwrap();
    assert_eq!(&orig[tokens[0].byte_start..tokens[0].byte_end], "ÀB");
    assert_eq!(tokens[0].lemma, Text::Borrowed("AB"));
    assert_eq!((tokens[2].byte_start, tokens[2].byte_end), (4, 5));
}

#[test]
fn first_segment_jumps_to_its_absolute_end() {
    let orig = "abcdef";
    let segs = vec![seg("cd", 2, 4), seg("ef", 4, 6)];
    let tokens = reconcile(orig, &segs, ExhaustionPolicy::Fault).unwrap();
    assert_eq!((tokens[0].byte_start, tokens[0].byte_end, tokens[0].char_index), (0, 4, 2));
    assert_eq!((tokens[1].byte_start, tokens[1].byte_end, tokens[1].char_index), (4, 6, 4));
}

#[test]
fn exhaustion_faults_with_the_segment_index() {
    let orig = "ab";
    let segs = vec![seg("a", 0, 1), seg("bc", 1, 3)];
    assert_eq!(
        reconcile(orig, &segs, ExhaustionPolicy::Fault),
        Err(ReconcileError::OffsetExhausted { index: 1 })
    );
}

#[test]
fn exhaustion_truncates_when_permissive() {
    let orig = "ab";
    let segs = vec![seg("a", 0, 1), seg("bc", 1, 3), seg("d", 3, 4)];
    let tokens = reconcile(orig, &segs, ExhaustionPolicy::Truncate).unwrap();
    assert_eq!(tokens.len(), 1);
    assert_eq!((tokens[0].byte_start, tokens[0].byte_end), (0, 1));
}

#[test]
fn first_segment_past_the_end_faults() {
    let segs = vec![seg("abc", 0, 3)];
    assert_eq!(
        reconcile("ab", &segs, ExhaustionPolicy::Fault),
        Err(ReconcileError::OffsetExhausted { index: 0 })
    );
    assert_eq!(reconcile("ab", &segs, ExhaustionPolicy::Truncate).unwrap().len(), 0);
}

#[test]
fn empty_later_segment_cannot_be_placed() {
    let segs = vec![seg("a", 0, 1), seg("", 1, 1)];
    assert_eq!(
        reconcile("ab", &segs, ExhaustionPolicy::Fault),
        Err(ReconcileError::OffsetExhausted { index: 1 })
    );
}

#[test]
fn segments_ending_at_the_last_boundary_fit() {
    let orig = "日本";
    let segs = vec![seg("日本", 0, 2)];
    let tokens = reconcile(orig, &segs, ExhaustionPolicy::Fault).unwrap();
    assert_eq!((tokens[0].byte_start, tokens[0].byte_end), (0, 6));
}

#[test]
fn no_segments_no_tokens() {
    let segs: Vec<Segment> = Vec::new();
    assert_eq!(reconcile("abc", &segs, ExhaustionPolicy::Fault).unwrap().len(), 0);
}
