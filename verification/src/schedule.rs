//! Leitner spaced repetition. Boxes run from 1 to 5; a correct answer moves a
//! word up one box, a wrong answer sends it back to box 1 with interval 0 so
//! that it comes around again in the current session.
//!
//! The modes starting with `p` are for students who know only the phonetic
//! transliteration and no Thai script.

use vstd::prelude::*;

use crate::text::str_eq;

verus! {

/// Every quiz mode the trainer knows.
pub const MODES: [&'static str; 8] = [
    "spell",
    "read",
    "translate",
    "phonetic",
    "listen",
    "pspell",
    "ptranslate",
    "plisten",
];

/// The highest Leitner box.
pub const MAX_BOX: i64 = 5;

/// Seconds in a day.
pub const DAY_SECS: i64 = 86400;

/// The quiz modes, as sequences of characters.
pub open spec fn mode_names() -> Seq<Seq<char>> {
    seq![
        "spell"@,
        "read"@,
        "translate"@,
        "phonetic"@,
        "listen"@,
        "pspell"@,
        "ptranslate"@,
        "plisten"@,
    ]
}

/// `m` names one of the quiz modes.
pub open spec fn is_mode(m: Seq<char>) -> bool {
    mode_names().contains(m)
}

/// Modes that prompt with or answer in Thai script (listening speaks the
/// script aloud, so it needs it too).
pub open spec fn thai_mode(m: Seq<char>) -> bool {
    ||| m == "spell"@
    ||| m == "read"@
    ||| m == "translate"@
    ||| m == "phonetic"@
    ||| m == "listen"@
    ||| m == "plisten"@
}

/// Modes that prompt with or answer in the phonetic transliteration.
pub open spec fn phonetic_mode(m: Seq<char>) -> bool {
    ||| m == "phonetic"@
    ||| m == "pspell"@
    ||| m == "ptranslate"@
    ||| m == "plisten"@
}

/// The box a word lands in after an answer. A box read back from storage
/// that lies outside 1..=5 is first clamped into that range.
pub open spec fn next_box(current: int, correct: bool) -> int {
    if correct {
        let clamped = if current < 1 { 1 } else if current > 5 { 5 } else { current };
        if clamped + 1 > 5 { 5 } else { clamped + 1 }
    } else {
        1
    }
}

/// Review interval, in days, of each box: 0, 1, 3, 7 and 21.
pub open spec fn interval_days(b: int) -> int {
    if b <= 1 { 0 } else if b == 2 { 1 } else if b == 3 { 3 } else if b == 4 { 7 } else { 21 }
}

/// Seconds until a word in box `b` is due again.
pub open spec fn interval_secs(b: int) -> int {
    interval_days(b) * 86400
}

/// Whether `mode` prompts with or answers in Thai script.
pub fn needs_thai(mode: &str) -> (r: bool)
    ensures
        r == thai_mode(mode@),
{
    str_eq(mode, "spell") || str_eq(mode, "read") || str_eq(mode, "translate") || str_eq(
        mode,
        "phonetic",
    ) || str_eq(mode, "listen") || str_eq(mode, "plisten")
}

/// Whether `mode` prompts with or answers in the phonetic transliteration.
pub fn needs_phonetic(mode: &str) -> (r: bool)
    ensures
        r == phonetic_mode(mode@),
{
    str_eq(mode, "phonetic") || str_eq(mode, "pspell") || str_eq(mode, "ptranslate") || str_eq(
        mode,
        "plisten",
    )
}

/// The message with which an unknown mode is refused.
pub open spec fn unknown_mode_message(mode: Seq<char>) -> Seq<char> {
    "unknown mode '"@ + mode + "'"@
}

/// Accepts exactly the names in `MODES`.
pub fn check_mode(mode: &str) -> (r: Result<(), String>)
    ensures
        r is Ok <==> is_mode(mode@),
        r matches Err(msg) ==> msg@ == unknown_mode_message(mode@),
{
    let mut i: usize = 0;
    while i < MODES.len()
        invariant
            i <= 8,
            MODES@ == seq![
                "spell",
                "read",
                "translate",
                "phonetic",
                "listen",
                "pspell",
                "ptranslate",
                "plisten",
            ],
            forall|j: int| 0 <= j < i ==> mode@ != #[trigger] mode_names()[j],
        decreases 8 - i,
    {
        if str_eq(mode, MODES[i]) {
            assert(mode_names()[i as int] == mode@);
            return Ok(());
        }
        i = i + 1;
    }
    assert(!mode_names().contains(mode@));
    let mut msg = String::from_str("unknown mode '");
    msg.append(mode);
    msg.append("'");
    Err(msg)
}

/// Review interval, in days, of box `b` (1 to 5).
fn box_interval_days(b: i64) -> (r: i64)
    requires
        1 <= b <= 5,
    ensures
        r == interval_days(b as int),
{
    if b == 1 {
        0
    } else if b == 2 {
        1
    } else if b == 3 {
        3
    } else if b == 4 {
        7
    } else {
        21
    }
}

/// Returns the new box of a word and the seconds until it is due again,
/// after a correct or a wrong answer given while it sat in `current_box`.
pub fn leitner(current_box: i64, correct: bool) -> (r: (i64, i64))
    ensures
        r.0 == next_box(current_box as int, correct),
        r.1 == interval_secs(r.0 as int),
        1 <= r.0 <= 5,
        !correct ==> r == (1i64, 0i64),
        correct && 1 <= current_box <= 4 ==> r.0 == current_box + 1,
        correct && current_box <= 1 ==> r.0 == 2,
        correct && current_box >= 5 ==> r.0 == 5,
        r.0 == 1 ==> r.1 == 0,
        r.0 == 2 ==> r.1 == 86400,
        r.0 == 3 ==> r.1 == 3 * 86400,
        r.0 == 4 ==> r.1 == 7 * 86400,
        r.0 == 5 ==> r.1 == 21 * 86400,
{
    let new_box = if correct {
        let clamped = if current_box < 1 {
            1
        } else if current_box > MAX_BOX {
            MAX_BOX
        } else {
            current_box
        };
        if clamped + 1 > MAX_BOX {
            MAX_BOX
        } else {
            clamped + 1
        }
    } else {
        1
    };
    (new_box, box_interval_days(new_box) * DAY_SECS)
}

/// The box a word reaches after `n` correct answers in a row from `b`.
pub open spec fn after_correct_answers(b: int, n: nat) -> int
    decreases n,
{
    if n == 0 {
        b
    } else {
        next_box(after_correct_answers(b, (n - 1) as nat), true)
    }
}

/// Every mode prompts with or answers in at least one of the two scripts, so
/// every mode needs some field of a word.
pub proof fn lemma_every_mode_needs_a_field(m: Seq<char>)
    requires
        is_mode(m),
    ensures
        thai_mode(m) || phonetic_mode(m),
{
    let i = choose|i: int| 0 <= i < mode_names().len() && mode_names()[i] == m;
    assert(0 <= i < 8);
}

/// The accepted modes are exactly those that need the Thai script or the
/// phonetic transliteration.
pub proof fn lemma_modes_are_those_needing_a_field(m: Seq<char>)
    ensures
        is_mode(m) <==> (thai_mode(m) || phonetic_mode(m)),
{
    if is_mode(m) {
        lemma_every_mode_needs_a_field(m);
    }
    if m == "spell"@ { assert(mode_names()[0] == m); }
    if m == "read"@ { assert(mode_names()[1] == m); }
    if m == "translate"@ { assert(mode_names()[2] == m); }
    if m == "phonetic"@ { assert(mode_names()[3] == m); }
    if m == "listen"@ { assert(mode_names()[4] == m); }
    if m == "pspell"@ { assert(mode_names()[5] == m); }
    if m == "ptranslate"@ { assert(mode_names()[6] == m); }
    if m == "plisten"@ { assert(mode_names()[7] == m); }
}

/// Whatever box a word sat in, a box outside 1..=5 included, it lands in
/// 1..=5 after any answer.
pub proof fn lemma_box_stays_in_range(current: int, correct: bool)
    ensures
        1 <= next_box(current, correct) <= 5,
{
}

/// A wrong answer sends the word back to box 1 and makes it due at once.
pub proof fn lemma_wrong_answer_resets(current: int)
    ensures
        next_box(current, false) == 1,
        interval_secs(next_box(current, false)) == 0,
{
}

/// A correct answer moves a word up exactly one box, and a word in the top
/// box stays there.
pub proof fn lemma_correct_answer_climbs_one_box(current: int)
    requires
        1 <= current <= 5,
    ensures
        current < 5 ==> next_box(current, true) == current + 1,
        current == 5 ==> next_box(current, true) == 5,
{
}

/// After a correct answer a word is due no sooner than a day later.
pub proof fn lemma_correct_answer_defers(current: int)
    ensures
        interval_secs(next_box(current, true)) >= 86400,
{
}

/// A higher box never has a shorter interval.
pub proof fn lemma_interval_grows_with_box(a: int, b: int)
    requires
        a <= b,
    ensures
        interval_secs(a) <= interval_secs(b),
{
}

/// Four correct answers in a row take a word from any box to the top box,
/// and further correct answers keep it there.
pub proof fn lemma_correct_answers_reach_top_box(b: int, n: nat)
    requires
        n >= 4,
    ensures
        after_correct_answers(b, n) == 5,
    decreases n,
{
    if n == 4 {
        reveal_with_fuel(after_correct_answers, 5);
    } else {
        lemma_correct_answers_reach_top_box(b, (n - 1) as nat);
    }
}

} // verus!
