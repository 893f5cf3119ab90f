use thai_practice::requests::{
    review_outcome, review_request, word_fields, ReviewBody, WordBody,
};

fn body(thai: Option<&str>, meaning: Option<&str>, phonetic: Option<&str>) -> WordBody {
    WordBody {
        thai: thai.map(String::from),
        meaning: meaning.map(String::from),
        phonetic: phonetic.map(String::from),
    }
}

#[test]
fn word_fields_are_trimmed() {
    let r = word_fields(&body(Some(" น้ำ "), Some("\twater\n"), Some(" nam"))).unwrap();
    assert_eq!(r, ("น้ำ".to_string(), "water".to_string(), "nam".to_string()));
}

#[test]
fn missing_phonetic_is_empty() {
    let r = word_fields(&body(Some("ไป"), Some("go"), None)).unwrap();
    assert_eq!(r, ("ไป".to_string(), "go".to_string(), String::new()));
}

#[test]
fn blank_thai_is_refused() {
    let r = word_fields(&body(Some(" "), Some("water"), None));
    assert_eq!(r, Err("thai and meaning are required".to_string()));
}

#[test]
fn missing_meaning_is_refused() {
    let r = word_fields(&body(Some("น้ำ"), None, Some("nam")));
    assert_eq!(r, Err("thai and meaning are required".to_string()));
    let r = word_fields(&body(Some("น้ำ"), Some("\u{3000}\u{a0}"), Some("nam")));
    assert_eq!(r, Err("thai and meaning are required".to_string()));
}

#[test]
fn unicode_white_space_is_trimmed_like_std() {
    let s = "\u{2003}\u{85} water \u{200a}\u{2028}";
    let r = word_fields(&body(Some(s), Some(s), Some(s))).unwrap();
    assert_eq!(r.0, s.trim());
    assert_eq!(r.2, "water");
}

fn review(word_id: Option<i64>, mode: Option<&str>, correct: Option<bool>) -> ReviewBody {
    ReviewBody { word_id, mode: mode.map(String::from), correct }
}

#[test]
fn review_is_validated_in_order() {
    let r = review_request(&review(None, Some("hack"), None));
    assert_eq!(r.err(), Some("word_id required".to_string()));
    let r = review_request(&review(Some(1), Some("hack"), None));
    assert_eq!(r.err(), Some("correct required".to_string()));
    let r = review_request(&review(Some(1), Some("hack"), Some(true)));
    assert_eq!(r.err(), Some("unknown mode 'hack'".to_string()));
    let r = review_request(&review(Some(1), None, Some(true)));
    assert_eq!(r.err(), Some("unknown mode ''".to_string()));
}

#[test]
fn valid_review_is_accepted() {
    let r = review_request(&review(Some(7), Some("spell"), Some(false))).unwrap();
    assert_eq!(r.word_id, 7);
    assert_eq!(r.mode, "spell");
    assert!(!r.correct);
}

#[test]
fn review_outcome_schedules_the_word() {
    let now = 1_700_000_000;
    let o = review_outcome(None, true, now);
    assert_eq!((o.new_box, o.due_at), (2, now + 86_400));
    let o = review_outcome(Some(3), true, now);
    assert_eq!((o.new_box, o.due_at), (4, now + 7 * 86_400));
    let o = review_outcome(Some(4), false, now);
    assert_eq!((o.new_box, o.due_at), (1, now));
    let o = review_outcome(Some(5), true, now);
    assert_eq!((o.new_box, o.due_at), (5, now + 21 * 86_400));
}
