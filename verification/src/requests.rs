//! Validation of request bodies: the fields of a word, and a review.

use vstd::prelude::*;

use crate::schedule::{check_mode, interval_secs, is_mode, leitner, next_box, unknown_mode_message};
use crate::text::{trim, trim_str};

verus! {

/// The string fields of a word as a request body carries them: `None` where
/// the field is missing or is not a string.
pub struct WordBody {
    pub thai: Option<String>,
    pub meaning: Option<String>,
    pub phonetic: Option<String>,
}

/// The text of an optional field, empty where it is missing.
pub open spec fn text_or_empty(field: Option<String>) -> Seq<char> {
    match field {
        Some(s) => s@,
        None => Seq::empty(),
    }
}

/// The message with which a word without Thai or without a meaning is refused.
pub open spec fn missing_fields_message() -> Seq<char> {
    "thai and meaning are required"@
}

/// The trimmed text of an optional field.
fn trimmed_field(field: &Option<String>) -> (r: String)
    ensures
        r@ == trim(text_or_empty(*field)),
{
    match field {
        Some(s) => trim_str(s.as_str()),
        None => {
            let r = String::new();
            assert(trim(Seq::<char>::empty()) =~= Seq::<char>::empty());
            r
        },
    }
}

/// Extracts and validates the fields of a word: each is trimmed, a missing
/// one counts as empty, and Thai and meaning must not be empty.
/// Returns `(thai, meaning, phonetic)`.
pub fn word_fields(body: &WordBody) -> (r: Result<(String, String, String), String>)
    ensures
        r is Ok <==> trim(text_or_empty(body.thai)).len() > 0 && trim(
            text_or_empty(body.meaning),
        ).len() > 0,
        r matches Ok(f) ==> {
            &&& f.0@ == trim(text_or_empty(body.thai))
            &&& f.1@ == trim(text_or_empty(body.meaning))
            &&& f.2@ == trim(text_or_empty(body.phonetic))
        },
        r matches Err(msg) ==> msg@ == missing_fields_message(),
{
    let thai = trimmed_field(&body.thai);
    let meaning = trimmed_field(&body.meaning);
    let phonetic = trimmed_field(&body.phonetic);
    if thai.as_str().is_empty() || meaning.as_str().is_empty() {
        return Err(String::from_str("thai and meaning are required"));
    }
    Ok((thai, meaning, phonetic))
}

/// The fields of a review as a request body carries them: `None` where a
/// field is missing or has the wrong type.
pub struct ReviewBody {
    pub word_id: Option<i64>,
    pub mode: Option<String>,
    pub correct: Option<bool>,
}

/// A validated review: the word, the mode it was practised in, and whether
/// the answer was right.
pub struct Review {
    pub word_id: i64,
    pub mode: String,
    pub correct: bool,
}

/// The message with which a review without a word id is refused.
pub open spec fn word_id_required_message() -> Seq<char> {
    "word_id required"@
}

/// The message with which a review without a verdict is refused.
pub open spec fn correct_required_message() -> Seq<char> {
    "correct required"@
}

/// Validates a review. The word id is checked first, then the verdict, then
/// the mode (a missing mode counts as the empty name, which no mode has).
pub fn review_request(body: &ReviewBody) -> (r: Result<Review, String>)
    ensures
        body.word_id is None ==> (r matches Err(msg) && msg@ == word_id_required_message()),
        body.word_id is Some && body.correct is None ==> (r matches Err(msg) && msg@
            == correct_required_message()),
        body.word_id is Some && body.correct is Some && !is_mode(text_or_empty(body.mode)) ==> (r
            matches Err(msg) && msg@ == unknown_mode_message(text_or_empty(body.mode))),
        r is Ok <==> body.word_id is Some && body.correct is Some && is_mode(
            text_or_empty(body.mode),
        ),
        r matches Ok(rv) ==> {
            &&& rv.word_id == body.word_id->0
            &&& rv.mode@ == text_or_empty(body.mode)
            &&& rv.correct == body.correct->0
        },
{
    let word_id = match body.word_id {
        Some(id) => id,
        None => {
            return Err(String::from_str("word_id required"));
        },
    };
    let mode = match &body.mode {
        Some(m) => m.clone(),
        None => String::new(),
    };
    let correct = match body.correct {
        Some(c) => c,
        None => {
            return Err(String::from_str("correct required"));
        },
    };
    match check_mode(mode.as_str()) {
        Ok(()) => Ok(Review { word_id, mode, correct }),
        Err(msg) => Err(msg),
    }
}

/// The box a word is taken to sit in: the stored one, or box 1 where none is
/// stored yet.
pub open spec fn stored_box(current_box: Option<i64>) -> int {
    match current_box {
        Some(b) => b as int,
        None => 1,
    }
}

/// Where a review leaves a word: its new box and the time at which it is due
/// again.
pub struct ReviewOutcome {
    pub new_box: i64,
    pub due_at: i64,
}

/// The outcome of a review answered at time `now` (in seconds) for a word
/// whose stored box is `current_box`.
pub fn review_outcome(current_box: Option<i64>, correct: bool, now: i64) -> (r: ReviewOutcome)
    requires
        now + interval_secs(next_box(stored_box(current_box), correct)) <= i64::MAX,
    ensures
        r.new_box == next_box(stored_box(current_box), correct),
        r.due_at == now + interval_secs(r.new_box as int),
        !correct ==> r.new_box == 1 && r.due_at == now,
        correct && current_box is None ==> r.new_box == 2,
        correct && current_box is Some && 1 <= current_box->0 <= 4 ==> r.new_box
            == current_box->0 + 1,
        correct && current_box is Some && current_box->0 <= 1 ==> r.new_box == 2,
        correct && current_box is Some && current_box->0 >= 5 ==> r.new_box == 5,
        r.new_box == 1 ==> r.due_at == now,
        r.new_box == 2 ==> r.due_at == now + 86400,
        r.new_box == 3 ==> r.due_at == now + 3 * 86400,
        r.new_box == 4 ==> r.due_at == now + 7 * 86400,
        r.new_box == 5 ==> r.due_at == now + 21 * 86400,
{
    let current = match current_box {
        Some(b) => b,
        None => 1,
    };
    let (new_box, secs) = leitner(current, correct);
    ReviewOutcome { new_box, due_at: now + secs }
}

/// A review starts from the box stored for the word, and from box 1 when
/// none is stored: a correct answer moves a stored box 1 to 4 up by one.
pub proof fn lemma_review_starts_from_stored_box(b: i64)
    ensures
        stored_box(Some(b)) == b,
        stored_box(None) == 1,
        1 <= b <= 4 ==> next_box(stored_box(Some(b)), true) == b + 1,
{
}

} // verus!
