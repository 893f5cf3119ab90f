use thai_practice::listing::{
    attach_boxes, select_quiz, ProgressRow, QuizCandidate, WordRow, QUIZ_SIZE,
};
use thai_practice::requests::review_outcome;

fn word(id: i64, thai: &str) -> WordRow {
    WordRow { id, thai: thai.to_string(), meaning: format!("m{id}"), phonetic: String::new() }
}

fn progress(word_id: i64, mode: &str, leitner_box: i64) -> ProgressRow {
    ProgressRow { word_id, mode: mode.to_string(), leitner_box }
}

#[test]
fn words_get_their_boxes_per_mode() {
    let p = vec![progress(1, "spell", 1), progress(2, "read", 3), progress(1, "read", 2)];
    let w = vec![word(2, "ไป"), word(1, "น้ำ"), word(3, "มา")];
    let r = attach_boxes(&p, &w);
    assert_eq!(r.len(), 3);
    assert_eq!(r[0].id, 2);
    assert_eq!(r[0].boxes, vec![("read".to_string(), 3)]);
    assert_eq!(r[1].thai, "น้ำ");
    assert_eq!(r[1].meaning, "m1");
    assert_eq!(r[1].boxes, vec![("spell".to_string(), 1), ("read".to_string(), 2)]);
    assert!(r[2].boxes.is_empty());
}

#[test]
fn a_repeated_id_gets_its_boxes_once() {
    let p = vec![progress(1, "spell", 4)];
    let w = vec![word(1, "a"), word(1, "b")];
    let r = attach_boxes(&p, &w);
    assert_eq!(r[0].boxes, vec![("spell".to_string(), 4)]);
    assert!(r[1].boxes.is_empty());
}

fn candidate(id: i64, phonetic: &str, leitner_box: Option<i64>, due_at: Option<i64>) -> QuizCandidate {
    QuizCandidate {
        id,
        thai: format!("t{id}"),
        meaning: format!("m{id}"),
        phonetic: phonetic.to_string(),
        leitner_box,
        due_at,
    }
}

#[test]
fn quiz_serves_due_words_in_order() {
    let now = 1000;
    let c = vec![
        candidate(1, "", None, None),
        candidate(2, "a", Some(3), Some(1001)),
        candidate(3, "b", Some(2), Some(1000)),
        candidate(4, "", Some(1), Some(5)),
    ];
    let r = select_quiz(&c, "spell", now);
    let ids: Vec<i64> = r.iter().map(|w| w.id).collect();
    assert_eq!(ids, vec![1, 3, 4]);
    assert_eq!(r[0].leitner_box, 1);
    assert_eq!(r[1].leitner_box, 2);
    assert_eq!(r[1].thai, "t3");
}

#[test]
fn phonetic_quiz_needs_a_phonetic() {
    let c = vec![candidate(1, "nam", None, None), candidate(2, "", None, None)];
    let ids: Vec<i64> = select_quiz(&c, "phonetic", 0).iter().map(|w| w.id).collect();
    assert_eq!(ids, vec![1]);
    let ids: Vec<i64> = select_quiz(&c, "pspell", 0).iter().map(|w| w.id).collect();
    assert_eq!(ids, vec![1, 2]);
}

#[test]
fn quiz_holds_at_most_twenty_words() {
    let c: Vec<QuizCandidate> = (0..50).map(|i| candidate(i, "x", None, None)).collect();
    let r = select_quiz(&c, "read", 0);
    assert_eq!(r.len(), QUIZ_SIZE);
    assert_eq!(r.len(), 20);
    let ids: Vec<i64> = r.iter().map(|w| w.id).collect();
    assert_eq!(ids, (0..20).collect::<Vec<i64>>());
    assert!(select_quiz(&Vec::new(), "read", 0).is_empty());
}

#[test]
fn reviewed_word_leaves_and_returns_to_the_quiz() {
    let now = 1_700_000_000;
    let right = review_outcome(None, true, now);
    let c = vec![candidate(1, "", Some(right.new_box), Some(right.due_at))];
    assert!(select_quiz(&c, "spell", now).is_empty());
    assert!(select_quiz(&c, "spell", now + 86_399).is_empty());
    assert_eq!(select_quiz(&c, "spell", now + 86_400).len(), 1);
    let wrong = review_outcome(Some(right.new_box), false, now);
    let c = vec![candidate(1, "", Some(wrong.new_box), Some(wrong.due_at))];
    let r = select_quiz(&c, "spell", now);
    assert_eq!(r.len(), 1);
    assert_eq!(r[0].leitner_box, 1);
}
