//! What the word list and the quiz show: each word with its box in every mode
//! it has been practised in, and the words due for practice in a mode.

use vstd::prelude::*;

use crate::schedule::{interval_secs, next_box};
use crate::text::str_eq;

verus! {

/// A stored word.
pub struct WordRow {
    pub id: i64,
    pub thai: String,
    pub meaning: String,
    pub phonetic: String,
}

/// The box a word sits in for one mode.
pub struct ProgressRow {
    pub word_id: i64,
    pub mode: String,
    pub leitner_box: i64,
}

/// A word as the word list shows it: with `(mode, box)` for each mode it has
/// been practised in, in the order of the progress rows.
pub struct WordEntry {
    pub id: i64,
    pub thai: String,
    pub meaning: String,
    pub phonetic: String,
    pub boxes: Vec<(String, i64)>,
}

/// The `(mode, box)` pairs of the progress rows of word `id`, in order.
pub open spec fn boxes_of(progress: Seq<ProgressRow>, id: i64) -> Seq<(String, i64)>
    decreases progress.len(),
{
    if progress.len() == 0 {
        Seq::empty()
    } else {
        let init = boxes_of(progress.drop_last(), id);
        let row = progress.last();
        if row.word_id == id {
            init.push((row.mode, row.leitner_box))
        } else {
            init
        }
    }
}

/// An earlier word of the list has the same id as word `i`.
pub open spec fn id_seen_before(words: Seq<WordRow>, i: int) -> bool {
    exists|j: int| 0 <= j < i && #[trigger] words[j].id == words[i].id
}

/// The boxes the word list shows for word `i`: those of its id, given to the
/// first word with that id only.
pub open spec fn shown_boxes(progress: Seq<ProgressRow>, words: Seq<WordRow>, i: int) -> Seq<
    (String, i64),
> {
    if id_seen_before(words, i) {
        Seq::empty()
    } else {
        boxes_of(progress, words[i].id)
    }
}

/// The pairs for word `id`, collected from the progress rows.
fn collect_boxes(progress: &Vec<ProgressRow>, id: i64) -> (r: Vec<(String, i64)>)
    ensures
        r@ == boxes_of(progress@, id),
{
    let mut r: Vec<(String, i64)> = Vec::new();
    let mut k: usize = 0;
    assert(progress@.take(0) =~= Seq::<ProgressRow>::empty());
    while k < progress.len()
        invariant
            k <= progress@.len(),
            r@ == boxes_of(progress@.take(k as int), id),
        decreases progress@.len() - k,
    {
        let row = &progress[k];
        proof {
            let t = progress@.take(k + 1);
            assert(t.drop_last() =~= progress@.take(k as int));
            assert(t.last() == progress@[k as int]);
        }
        if row.word_id == id {
            r.push((row.mode.clone(), row.leitner_box));
        }
        k = k + 1;
    }
    assert(progress@.take(progress@.len() as int) =~= progress@);
    r
}

/// The progress rows of word `id`, in order.
pub open spec fn rows_of(progress: Seq<ProgressRow>, id: i64) -> Seq<ProgressRow> {
    progress.filter(|p: ProgressRow| p.word_id == id)
}

/// The boxes shown for a word are its progress rows, every one of them, in
/// order, as `(mode, box)`: none is dropped or added.
pub proof fn lemma_boxes_are_the_rows_of_the_word(progress: Seq<ProgressRow>, id: i64)
    ensures
        boxes_of(progress, id) == rows_of(progress, id).map_values(
            |p: ProgressRow| (p.mode, p.leitner_box),
        ),
        boxes_of(progress, id).len() == rows_of(progress, id).len(),
        forall|k: int|
            0 <= k < progress.len() && (#[trigger] progress[k]).word_id == id ==> boxes_of(
                progress,
                id,
            ).contains((progress[k].mode, progress[k].leitner_box)),
    decreases progress.len(),
{
    reveal_with_fuel(Seq::filter, 1);
    let f = |p: ProgressRow| (p.mode, p.leitner_box);
    if progress.len() > 0 {
        let d = progress.drop_last();
        lemma_boxes_are_the_rows_of_the_word(d, id);
        let rd = rows_of(d, id);
        assert(rows_of(progress, id) == if progress.last().word_id == id {
            rd.push(progress.last())
        } else {
            rd
        });
        if progress.last().word_id == id {
            assert(rd.push(progress.last()).map_values(f) =~= rd.map_values(f).push(
                f(progress.last()),
            ));
        }
        assert forall|k: int|
            0 <= k < progress.len() && (#[trigger] progress[k]).word_id == id implies boxes_of(
            progress,
            id,
        ).contains((progress[k].mode, progress[k].leitner_box)) by {
            if k < d.len() {
                assert(progress[k] == d[k]);
                let m = choose|m: int|
                    0 <= m < boxes_of(d, id).len() && boxes_of(d, id)[m] == (
                        d[k].mode,
                        d[k].leitner_box,
                    );
                if progress.last().word_id == id {
                    assert(boxes_of(progress, id)[m] == boxes_of(d, id)[m]);
                }
            } else {
                assert(progress[k] == progress.last());
                let b = boxes_of(progress, id);
                assert(b[b.len() - 1] == (progress[k].mode, progress[k].leitner_box));
            }
        }
    } else {
        assert(rows_of(progress, id) =~= Seq::<ProgressRow>::empty());
    }
}

/// Whether a word before position `i` has the id of word `i`.
fn seen_before(words: &Vec<WordRow>, i: usize) -> (r: bool)
    requires
        i < words@.len(),
    ensures
        r == id_seen_before(words@, i as int),
{
    let mut j: usize = 0;
    while j < i
        invariant
            i < words@.len(),
            j <= i,
            forall|m: int| 0 <= m < j ==> words@[m].id != words@[i as int].id,
        decreases i - j,
    {
        if words[j].id == words[i].id {
            return true;
        }
        j = j + 1;
    }
    false
}

/// Gives each word of the list (in the list's order) the boxes it has
/// reached in each mode.
pub fn attach_boxes(progress: &Vec<ProgressRow>, words: &Vec<WordRow>) -> (r: Vec<WordEntry>)
    ensures
        r@.len() == words@.len(),
        forall|i: int|
            0 <= i < words@.len() ==> {
                &&& (#[trigger] r@[i]).id == words@[i].id
                &&& r@[i].thai == words@[i].thai
                &&& r@[i].meaning == words@[i].meaning
                &&& r@[i].phonetic == words@[i].phonetic
                &&& r@[i].boxes@ == shown_boxes(progress@, words@, i)
                &&& !id_seen_before(words@, i) ==> r@[i].boxes@ == rows_of(
                    progress@,
                    words@[i].id,
                ).map_values(|p: ProgressRow| (p.mode, p.leitner_box))
                &&& id_seen_before(words@, i) ==> r@[i].boxes@.len() == 0
            },
{
    let mut r: Vec<WordEntry> = Vec::new();
    let mut i: usize = 0;
    while i < words.len()
        invariant
            i <= words@.len(),
            r@.len() == i,
            forall|k: int|
                0 <= k < i ==> {
                    &&& (#[trigger] r@[k]).id == words@[k].id
                    &&& r@[k].thai == words@[k].thai
                    &&& r@[k].meaning == words@[k].meaning
                    &&& r@[k].phonetic == words@[k].phonetic
                    &&& r@[k].boxes@ == shown_boxes(progress@, words@, k)
                },
        decreases words@.len() - i,
    {
        let w = &words[i];
        let boxes = if seen_before(words, i) {
            Vec::new()
        } else {
            collect_boxes(progress, w.id)
        };
        r.push(
            WordEntry {
                id: w.id,
                thai: w.thai.clone(),
                meaning: w.meaning.clone(),
                phonetic: w.phonetic.clone(),
                boxes,
            },
        );
        i = i + 1;
    }
    proof {
        assert forall|i: int| 0 <= i < words@.len() implies !id_seen_before(words@, i) ==> r@[
            i
        ].boxes@ == rows_of(progress@, words@[i].id).map_values(
            |p: ProgressRow| (p.mode, p.leitner_box),
        ) by {
            lemma_boxes_are_the_rows_of_the_word(progress@, words@[i].id);
        }
    }
    r
}

/// A quiz candidate: a word with its box and due time in the quiz's mode,
/// `None` where it has not been practised in that mode yet.
pub struct QuizCandidate {
    pub id: i64,
    pub thai: String,
    pub meaning: String,
    pub phonetic: String,
    pub leitner_box: Option<i64>,
    pub due_at: Option<i64>,
}

/// A word as the quiz serves it, with its box (1 where it has none yet).
pub struct QuizWord {
    pub id: i64,
    pub thai: String,
    pub meaning: String,
    pub phonetic: String,
    pub leitner_box: i64,
}

/// The most words one quiz serves.
pub const QUIZ_SIZE: usize = 20;

/// A candidate is due at `now` in `mode`: it was never practised in the mode
/// or its due time has come, and the phonetic mode leaves out words without
/// a phonetic transliteration.
pub open spec fn is_due(c: QuizCandidate, mode: Seq<char>, now: i64) -> bool {
    &&& (c.due_at is None || c.due_at->0 <= now)
    &&& !(mode == "phonetic"@ && c.phonetic@.len() == 0)
}

/// The candidates due at `now` in `mode`, in their order.
pub open spec fn due_candidates(cs: Seq<QuizCandidate>, mode: Seq<char>, now: i64) -> Seq<
    QuizCandidate,
>
    decreases cs.len(),
{
    if cs.len() == 0 {
        Seq::empty()
    } else {
        let init = due_candidates(cs.drop_last(), mode, now);
        if is_due(cs.last(), mode, now) {
            init.push(cs.last())
        } else {
            init
        }
    }
}

/// A candidate as the quiz serves it.
pub open spec fn quiz_word_of(c: QuizCandidate) -> QuizWord {
    QuizWord {
        id: c.id,
        thai: c.thai,
        meaning: c.meaning,
        phonetic: c.phonetic,
        leitner_box: match c.leitner_box {
            Some(b) => b,
            None => 1,
        },
    }
}

/// What the quiz serves from candidates in a given (random) order: the
/// first `QUIZ_SIZE` of those that are due.
pub open spec fn quiz_selection(cs: Seq<QuizCandidate>, mode: Seq<char>, now: i64) -> Seq<
    QuizWord,
> {
    let due = due_candidates(cs, mode, now);
    let n = if due.len() < 20 {
        due.len() as int
    } else {
        20
    };
    due.take(n).map_values(|c: QuizCandidate| quiz_word_of(c))
}

/// Picks the words of a quiz in `mode` at time `now` from candidates in
/// random order: the first twenty that are due.
pub fn select_quiz(candidates: &Vec<QuizCandidate>, mode: &str, now: i64) -> (r: Vec<QuizWord>)
    ensures
        r@ == quiz_selection(candidates@, mode@, now),
        r@.len() <= QUIZ_SIZE,
        r@.len() == (if due_candidates(candidates@, mode@, now).len() < 20 {
            due_candidates(candidates@, mode@, now).len()
        } else {
            20
        }),
        forall|i: int|
            0 <= i < r@.len() ==> {
                let d = due_candidates(candidates@, mode@, now)[i];
                &&& is_due(d, mode@, now)
                &&& (#[trigger] r@[i]).id == d.id
                &&& r@[i].thai == d.thai
                &&& r@[i].meaning == d.meaning
                &&& r@[i].phonetic == d.phonetic
                &&& r@[i].leitner_box == (if d.leitner_box is Some {
                    d.leitner_box->0
                } else {
                    1
                })
            },
{
    let phonetic_mode = str_eq(mode, "phonetic");
    let mut r: Vec<QuizWord> = Vec::new();
    let mut i: usize = 0;
    assert(candidates@.take(0) =~= Seq::<QuizCandidate>::empty());
    while i < candidates.len()
        invariant
            i <= candidates@.len(),
            phonetic_mode == (mode@ == "phonetic"@),
            r@ == quiz_selection(candidates@.take(i as int), mode@, now),
        decreases candidates@.len() - i,
    {
        let c = &candidates[i];
        let ghost before = due_candidates(candidates@.take(i as int), mode@, now);
        proof {
            let t = candidates@.take(i + 1);
            assert(t.drop_last() =~= candidates@.take(i as int));
            assert(t.last() == candidates@[i as int]);
        }
        let due_now = match c.due_at {
            Some(d) => d <= now,
            None => true,
        };
        let excluded = phonetic_mode && c.phonetic.as_str().is_empty();
        if due_now && !excluded && r.len() < QUIZ_SIZE {
            let leitner_box = match c.leitner_box {
                Some(b) => b,
                None => 1,
            };
            r.push(
                QuizWord {
                    id: c.id,
                    thai: c.thai.clone(),
                    meaning: c.meaning.clone(),
                    phonetic: c.phonetic.clone(),
                    leitner_box,
                },
            );
            proof {
                let after = before.push(*c);
                assert(before.len() < 20);
                assert(after.take(after.len() as int) =~= after);
                assert(before.take(before.len() as int) =~= before);
                assert(r@ =~= after.take(after.len() as int).map_values(
                    |c: QuizCandidate| quiz_word_of(c),
                ));
            }
        } else if due_now && !excluded {
            proof {
                let after = before.push(*c);
                assert(after.take(20) =~= before.take(20));
            }
        }
        i = i + 1;
    }
    assert(candidates@.take(candidates@.len() as int) =~= candidates@);
    proof {
        lemma_due_candidates_are_due(candidates@, mode@, now);
    }
    r
}

/// The due candidates are exactly the candidates that are due, in their
/// order.
pub proof fn lemma_due_candidates_are_the_due_ones(cs: Seq<QuizCandidate>, mode: Seq<char>, now: i64)
    ensures
        due_candidates(cs, mode, now) == cs.filter(|c: QuizCandidate| is_due(c, mode, now)),
    decreases cs.len(),
{
    reveal_with_fuel(Seq::filter, 1);
    if cs.len() > 0 {
        lemma_due_candidates_are_the_due_ones(cs.drop_last(), mode, now);
    }
}

/// A word answered wrongly at time `t` is due again at once: in the quiz at
/// `t` and at every later time, unless the phonetic mode leaves it out.
pub proof fn lemma_wrong_answer_due_again(c: QuizCandidate, mode: Seq<char>, b: int, t: i64, now: i64)
    requires
        c.due_at == Some((t + interval_secs(next_box(b, false))) as i64),
        t <= now,
        !(mode == "phonetic"@ && c.phonetic@.len() == 0),
    ensures
        is_due(c, mode, now),
{
}

/// A word answered correctly at time `t` is not due for at least a day.
pub proof fn lemma_correct_answer_not_due_for_a_day(
    c: QuizCandidate,
    mode: Seq<char>,
    b: int,
    t: i64,
    now: i64,
)
    requires
        t + interval_secs(next_box(b, true)) <= i64::MAX,
        c.due_at == Some((t + interval_secs(next_box(b, true))) as i64),
        now < t + 86400,
    ensures
        !is_due(c, mode, now),
{
}

/// Everything the quiz serves is due, and it serves at most twenty words.
pub proof fn lemma_quiz_serves_due_words(cs: Seq<QuizCandidate>, mode: Seq<char>, now: i64)
    ensures
        quiz_selection(cs, mode, now).len() <= 20,
        forall|i: int|
            0 <= i < quiz_selection(cs, mode, now).len() ==> is_due(
                #[trigger] due_candidates(cs, mode, now)[i],
                mode,
                now,
            ) && quiz_selection(cs, mode, now)[i] == quiz_word_of(due_candidates(cs, mode, now)[i]),
{
    lemma_due_candidates_are_due(cs, mode, now);
}

proof fn lemma_due_candidates_are_due(cs: Seq<QuizCandidate>, mode: Seq<char>, now: i64)
    ensures
        forall|i: int|
            0 <= i < due_candidates(cs, mode, now).len() ==> is_due(
                #[trigger] due_candidates(cs, mode, now)[i],
                mode,
                now,
            ),
    decreases cs.len(),
{
    if cs.len() > 0 {
        let init = due_candidates(cs.drop_last(), mode, now);
        lemma_due_candidates_are_due(cs.drop_last(), mode, now);
        assert forall|i: int| 0 <= i < due_candidates(cs, mode, now).len() implies is_due(
            #[trigger] due_candidates(cs, mode, now)[i],
            mode,
            now,
        ) by {
            if i < init.len() {
                assert(due_candidates(cs, mode, now)[i] == init[i]);
            }
        }
    }
}

} // verus!
