//! Quiz blocks: whether one is sound, and the cards that it makes.

use vstd::prelude::*;
use vstd::string::*;
use vstd::utf8::*;

use crate::model::{
    answers_view, clip_view, clone_answers, clone_clip, clone_gaps, clone_text, gaps_view,
    AnswerView, CardClips, CardContent, CardDefinition, CardView, ChoiceAnswer, ChoiceMode,
    ClipRef, ClipView, ClipsView, ContentView, GapDefinition, GapView, Gaps, QuizDefinition,
};
use crate::outside::{
    blake3_hex, find_matches, groups_view, hash_bytes, matches_view, regex_matches, Groups,
};
use crate::parser::{clip_of, found_or_none, group, group_of, matches_in, parse_clip};
use crate::text::{
    decimal, decimal_text, glue3, lemma_decimal, number_in, opt_str_view, opt_view, parse_u64,
    starts_with, text_eq, text_starts_with, texts, to_chars, trim, trimmed,
};

verus! {

// ---------------------------------------------------------------------------
// Lists without repetition
// ---------------------------------------------------------------------------

/// The first occurrence of each text, in order.
pub open spec fn distinct(names: Seq<Seq<char>>) -> Seq<Seq<char>>
    decreases names.len(),
{
    if names.len() == 0 {
        Seq::empty()
    } else {
        let before = distinct(names.drop_last());
        if before.contains(names.last()) {
            before
        } else {
            before.push(names.last())
        }
    }
}

/// [`distinct`] holds what the list holds, each once.
pub proof fn lemma_distinct(names: Seq<Seq<char>>)
    ensures
        distinct(names).no_duplicates(),
        forall|n: Seq<char>| distinct(names).contains(n) <==> names.contains(n),
    decreases names.len(),
{
    if names.len() > 0 {
        let rest = names.drop_last();
        lemma_distinct(rest);
        let before = distinct(rest);
        assert forall|n: Seq<char>| distinct(names).contains(n) <==> names.contains(n) by {
            if names.contains(n) {
                let i = choose|i: int| 0 <= i < names.len() && names[i] == n;
                if i < rest.len() {
                    assert(rest[i] == n);
                    assert(rest.contains(n));
                    assert(before.contains(n));
                    let k = choose|k: int| 0 <= k < before.len() && before[k] == n;
                    assert(distinct(names)[k] == n);
                } else if !before.contains(n) {
                    assert(distinct(names)[before.len() as int] == n);
                }
            }
            if distinct(names).contains(n) {
                let k = choose|k: int| 0 <= k < distinct(names).len() && distinct(names)[k] == n;
                if k < before.len() {
                    assert(before[k] == n);
                    assert(rest.contains(n));
                    let i = choose|i: int| 0 <= i < rest.len() && rest[i] == n;
                    assert(names[i] == n);
                } else {
                    assert(names[names.len() - 1] == n);
                }
            }
        }
    }
}

/// Whether a list of texts holds one.
pub fn holds(list: &Vec<String>, name: &str) -> (r: bool)
    ensures
        r == texts(list@).contains(name@),
{
    let mut i: usize = 0;
    while i < list.len()
        invariant
            0 <= i <= list.len(),
            forall|j: int| 0 <= j < i ==> list@[j]@ != name@,
        decreases list.len() - i,
    {
        if text_eq(list[i].as_str(), name) {
            assert(texts(list@)[i as int] == name@);
            return true;
        }
        i += 1;
    }
    assert forall|j: int| 0 <= j < texts(list@).len() implies texts(list@)[j] != name@ by {
        assert(list@[j]@ != name@);
    }
    false
}

// ---------------------------------------------------------------------------
// Whether a quiz is sound
// ---------------------------------------------------------------------------

/// What is wrong with a quiz's id.
pub open spec fn id_errors(id: Seq<char>) -> Seq<Seq<char>> {
    if trimmed(id).len() == 0 {
        seq!["quiz ID must not be empty"@]
    } else {
        Seq::empty()
    }
}

/// What is wrong with a clip field. A clip is only useful if it names a moment
/// that can be played.
pub open spec fn clip_errors(
    field: Seq<char>,
    present: bool,
    clip: Option<ClipView>,
) -> Seq<Seq<char>> {
    if !present {
        Seq::empty()
    } else {
        match clip {
            None => seq!["`"@ + field + "` is empty"@],
            Some(c) => (if starts_with(c.url, "http://"@) || starts_with(c.url, "https://"@) {
                Seq::empty()
            } else {
                seq!["`"@ + field + "` must start with a URL"@]
            }) + (match c.end {
                Some(end) => if end <= c.start {
                    seq![
                        "`"@ + field + "` ends at "@ + decimal(end as nat)
                            + "s, which is not after its start of "@ + decimal(c.start as nat)
                            + "s"@,
                    ]
                } else {
                    Seq::empty()
                },
                None => Seq::empty(),
            }),
        }
    }
}

/// The number of correct answers.
pub open spec fn correct_count(answers: Seq<AnswerView>) -> nat
    decreases answers.len(),
{
    if answers.len() == 0 {
        0
    } else {
        correct_count(answers.drop_last()) + (if answers.last().correct {
            1nat
        } else {
            0nat
        })
    }
}

/// Whether no two answers carry the same id.
pub open spec fn ids_unique(answers: Seq<AnswerView>) -> bool {
    forall|i: int, j: int|
        0 <= i < j < answers.len() && (#[trigger] answers[i]).id is Some
            ==> answers[i].id != (#[trigger] answers[j]).id
}

/// What is wrong with the answers of a multiple-choice quiz.
pub open spec fn choice_errors(mode: ChoiceMode, answers: Seq<AnswerView>) -> Seq<Seq<char>> {
    let correct = correct_count(answers);
    (if answers.len() < 2 {
        seq!["multiple-choice quiz needs at least two answers"@]
    } else {
        Seq::empty()
    }) + (if correct == 0 {
        seq!["multiple-choice quiz has no correct answer"@]
    } else {
        Seq::empty()
    }) + (if mode == ChoiceMode::Single && correct != 1 {
        seq!["single-choice quiz must have exactly one correct answer"@]
    } else {
        Seq::empty()
    }) + (if ids_unique(answers) {
        Seq::empty()
    } else {
        seq!["answer IDs must be unique"@]
    })
}

/// The pattern of a gap in code.
pub open spec fn gap_pattern() -> Seq<char> {
    r"\{\{gap:([a-zA-Z0-9_-]+)\}\}"@
}

/// The pattern of a cloze marker.
pub open spec fn cloze_pattern() -> Seq<char> {
    r"\{\{c(\d+)::([^}:]+)(?:::[^}]+)?\}\}"@
}

/// The names in the matches of a pattern: what the first group matched.
pub open spec fn names_of(found: Seq<Seq<Option<Seq<char>>>>) -> Seq<Seq<char>>
    decreases found.len(),
{
    if found.len() == 0 {
        Seq::empty()
    } else {
        let before = names_of(found.drop_last());
        match group_of(found.last(), 1) {
            Some(name) => before.push(name),
            None => before,
        }
    }
}

/// Whether some gap has the name.
pub open spec fn defines(gaps: Seq<(Seq<char>, GapView)>, name: Seq<char>) -> bool {
    exists|i: int| 0 <= i < gaps.len() && (#[trigger] gaps[i]).0 == name
}

/// The used names that no gap defines.
pub open spec fn undefined_errors(
    used: Seq<Seq<char>>,
    gaps: Seq<(Seq<char>, GapView)>,
) -> Seq<Seq<char>>
    decreases used.len(),
{
    if used.len() == 0 {
        Seq::empty()
    } else {
        let before = undefined_errors(used.drop_last(), gaps);
        if defines(gaps, used.last()) {
            before
        } else {
            before.push("placeholder `"@ + used.last() + "` has no gap definition"@)
        }
    }
}

/// The gaps that the code does not use.
pub open spec fn unused_errors(
    used: Seq<Seq<char>>,
    gaps: Seq<(Seq<char>, GapView)>,
) -> Seq<Seq<char>>
    decreases gaps.len(),
{
    if gaps.len() == 0 {
        Seq::empty()
    } else {
        let before = unused_errors(used, gaps.drop_last());
        if used.contains(gaps.last().0) {
            before
        } else {
            before.push("gap definition `"@ + gaps.last().0 + "` is unused"@)
        }
    }
}

/// Whether a gap says what fills it.
pub open spec fn has_matcher(gap: GapView) -> bool {
    ||| gap.answer is Some
    ||| gap.answers is Some && gap.answers->0.len() > 0
    ||| gap.regex is Some
}

/// What is wrong with one gap, where `rejected` says that its pattern is none.
pub open spec fn gap_errors(name: Seq<char>, gap: GapView, rejected: bool) -> Seq<Seq<char>> {
    (if has_matcher(gap) {
        Seq::empty()
    } else {
        seq!["gap `"@ + name + "` has no answer or regex"@]
    }) + (if gap.regex is Some && rejected {
        seq!["gap `"@ + name + "` has an invalid regex"@]
    } else {
        Seq::empty()
    })
}

pub open spec fn all_gap_errors(
    gaps: Seq<(Seq<char>, GapView)>,
    rejected: Seq<bool>,
) -> Seq<Seq<char>>
    decreases gaps.len(),
{
    if gaps.len() == 0 {
        Seq::empty()
    } else {
        all_gap_errors(gaps.drop_last(), rejected) + gap_errors(
            gaps.last().0,
            gaps.last().1,
            rejected[gaps.len() - 1],
        )
    }
}

/// What is wrong with the gaps of a code quiz.
pub open spec fn code_errors(
    found: Seq<Seq<Option<Seq<char>>>>,
    gaps: Seq<(Seq<char>, GapView)>,
    rejected: Seq<bool>,
) -> Seq<Seq<char>> {
    let used = distinct(names_of(found));
    undefined_errors(used, gaps) + unused_errors(used, gaps) + all_gap_errors(gaps, rejected)
}

/// Whether the pattern of a gap is one that no match can be asked of.
pub open spec fn regex_rejected(gap: GapView) -> bool {
    match gap.regex {
        Some(pattern) => regex_matches(pattern, ""@) is None,
        None => false,
    }
}

/// Everything that is wrong with a quiz; nothing when it is sound.
pub open spec fn quiz_errors(quiz: QuizDefinition) -> Seq<Seq<char>> {
    let clip = quiz.spec_clip();
    let prompt_clip = quiz.spec_prompt_clip();
    id_errors(quiz.spec_id()) + clip_errors("clip"@, clip is Some, source_clip(clip))
        + clip_errors("prompt_clip"@, prompt_clip is Some, source_clip(prompt_clip)) + (
    match quiz {
        QuizDefinition::Cloze { prompt, .. } => if found_or_none(
            regex_matches(cloze_pattern(), prompt@),
        ).len() > 0 {
            Seq::empty()
        } else {
            seq!["cloze prompt has no valid {{cN::answer}} marker"@]
        },
        QuizDefinition::MultipleChoice { mode, answers, .. } => choice_errors(
            mode,
            answers_view(answers@),
        ),
        QuizDefinition::CodeGap { code, gaps, .. } => code_errors(
            found_or_none(regex_matches(gap_pattern(), code@)),
            gaps_view(gaps@),
            Seq::new(gaps@.len(), |i: int| regex_rejected(gaps@[i].1@)),
        ),
    })
}

/// The clip that a field's text stands for.
pub open spec fn source_clip(raw: Option<Seq<char>>) -> Option<ClipView> {
    match raw {
        Some(text) => clip_of(text),
        None => None,
    }
}

fn add_all(errors: &mut Vec<String>, more: Vec<String>)
    ensures
        texts(final(errors)@) == texts(old(errors)@) + texts(more@),
{
    let ghost before = texts(errors@);
    let ghost added = texts(more@);
    let mut more = more;
    errors.append(&mut more);
    assert(texts(errors@) == before + added);
}

/// The errors of one clip field.
pub fn clip_field_errors(field: &str, present: bool, clip: &Option<ClipRef>) -> (r: Vec<String>)
    ensures
        texts(r@) == clip_errors(field@, present, clip_view(*clip)),
{
    let mut r: Vec<String> = Vec::new();
    assert(texts(r@) == Seq::<Seq<char>>::empty());
    if !present {
        return r;
    }
    match clip {
        None => {
            let mut message = "`".to_owned();
            message.append(field);
            message.append("` is empty");
            r.push(message);
            assert(texts(r@) == clip_errors(field@, present, clip_view(*clip)));
        },
        Some(c) => {
            let ghost first = if starts_with(c.url@, "http://"@) || starts_with(
                c.url@,
                "https://"@,
            ) {
                Seq::<Seq<char>>::empty()
            } else {
                seq!["`"@ + field@ + "` must start with a URL"@]
            };
            if !text_starts_with(c.url.as_str(), "http://") && !text_starts_with(
                c.url.as_str(),
                "https://",
            ) {
                let mut message = "`".to_owned();
                message.append(field);
                message.append("` must start with a URL");
                r.push(message);
            }
            assert(texts(r@) == first);
            if let Some(end) = c.end {
                if end <= c.start {
                    let mut message = "`".to_owned();
                    message.append(field);
                    message.append("` ends at ");
                    let shown = decimal_text(end);
                    message.append(shown.as_str());
                    message.append("s, which is not after its start of ");
                    let shown = decimal_text(c.start);
                    message.append(shown.as_str());
                    message.append("s");
                    let ghost added = message@;
                    r.push(message);
                    assert(texts(r@) == first + seq![added]);
                }
            }
            assert(texts(r@) == clip_errors(field@, present, clip_view(*clip)));
        },
    }
    r
}

fn count_correct(answers: &Vec<ChoiceAnswer>) -> (r: usize)
    ensures
        r == correct_count(answers_view(answers@)),
{
    let ghost views = answers_view(answers@);
    let mut n: usize = 0;
    let mut i: usize = 0;
    assert(views.take(0) == Seq::<AnswerView>::empty());
    while i < answers.len()
        invariant
            0 <= i <= answers.len(),
            n <= i,
            views == answers_view(answers@),
            n == correct_count(views.take(i as int)),
        decreases answers.len() - i,
    {
        assert(views.take(i + 1).drop_last() == views.take(i as int));
        assert(views.take(i + 1).last() == answers@[i as int]@);
        if answers[i].correct {
            n += 1;
        }
        i += 1;
    }
    assert(views.take(answers.len() as int) == views);
    n
}

fn unique_ids(answers: &Vec<ChoiceAnswer>) -> (r: bool)
    ensures
        r == ids_unique(answers_view(answers@)),
{
    let ghost views = answers_view(answers@);
    let mut j: usize = 0;
    while j < answers.len()
        invariant
            0 <= j <= answers.len(),
            views == answers_view(answers@),
            forall|a: int, b: int|
                0 <= a < b < j && (#[trigger] views[a]).id is Some ==> views[a].id != (
                #[trigger] views[b]).id,
        decreases answers.len() - j,
    {
        if let Some(id) = &answers[j].id {
            let mut i: usize = 0;
            while i < j
                invariant
                    0 <= i <= j < answers.len(),
                    views == answers_view(answers@),
                    opt_view(answers@[j as int].id) == Some(id@),
                    forall|a: int| 0 <= a < i ==> (#[trigger] views[a]).id != Some(id@),
                decreases j - i,
            {
                if let Some(other) = &answers[i].id {
                    if text_eq(other.as_str(), id.as_str()) {
                        assert(views[i as int].id == views[j as int].id);
                        return false;
                    }
                }
                i += 1;
            }
            assert(views[j as int].id == Some(id@));
        } else {
            assert(views[j as int].id is None);
        }
        j += 1;
    }
    true
}

/// The errors of a multiple-choice quiz.
pub fn multiple_choice_errors(mode: ChoiceMode, answers: &Vec<ChoiceAnswer>) -> (r: Vec<String>)
    ensures
        texts(r@) == choice_errors(mode, answers_view(answers@)),
{
    let mut r: Vec<String> = Vec::new();
    let ghost views = answers_view(answers@);
    let ghost mut sum: Seq<Seq<char>> = Seq::empty();
    assert(texts(r@) == sum);
    if answers.len() < 2 {
        r.push("multiple-choice quiz needs at least two answers".to_owned());
        proof {
            sum = sum.push("multiple-choice quiz needs at least two answers"@);
        }
        assert(texts(r@) == sum);
    }
    let correct = count_correct(answers);
    if correct == 0 {
        r.push("multiple-choice quiz has no correct answer".to_owned());
        proof {
            sum = sum.push("multiple-choice quiz has no correct answer"@);
        }
        assert(texts(r@) == sum);
    }
    if mode == ChoiceMode::Single && correct != 1 {
        r.push("single-choice quiz must have exactly one correct answer".to_owned());
        proof {
            sum = sum.push("single-choice quiz must have exactly one correct answer"@);
        }
        assert(texts(r@) == sum);
    }
    if !unique_ids(answers) {
        r.push("answer IDs must be unique".to_owned());
        proof {
            sum = sum.push("answer IDs must be unique"@);
        }
        assert(texts(r@) == sum);
    }
    assert(sum == choice_errors(mode, views));
    r
}

/// The names in the matches of a pattern, each once.
pub fn distinct_names(found: &Vec<Groups>) -> (r: Vec<String>)
    ensures
        texts(r@) == distinct(names_of(matches_view(found@))),
{
    let ghost views = matches_view(found@);
    let mut r: Vec<String> = Vec::new();
    let mut i: usize = 0;
    assert(views.take(0) == Seq::<Seq<Option<Seq<char>>>>::empty());
    assert(texts(r@) == Seq::<Seq<char>>::empty());
    while i < found.len()
        invariant
            0 <= i <= found.len(),
            views == matches_view(found@),
            texts(r@) == distinct(names_of(views.take(i as int))),
        decreases found.len() - i,
    {
        let ghost before = texts(r@);
        assert(views.take(i + 1).drop_last() == views.take(i as int));
        assert(views.take(i + 1).last() == groups_view(found@[i as int]@));
        if let Some(name) = group(&found[i], 1) {
            let ghost names = names_of(views.take(i as int));
            assert(names.push(name@).drop_last() == names);
            if !holds(&r, name) {
                r.push(name.to_owned());
                assert(texts(r@) == before.push(name@));
            }
        }
        i += 1;
    }
    assert(views.take(found.len() as int) == views);
    r
}

fn is_defined(gaps: &Gaps, name: &str) -> (r: bool)
    ensures
        r == defines(gaps_view(gaps@), name@),
{
    let ghost views = gaps_view(gaps@);
    let mut i: usize = 0;
    while i < gaps.len()
        invariant
            0 <= i <= gaps.len(),
            views == gaps_view(gaps@),
            forall|j: int| 0 <= j < i ==> (#[trigger] views[j]).0 != name@,
        decreases gaps.len() - i,
    {
        assert(views[i as int].0 == gaps@[i as int].0@);
        if text_eq(gaps.name(i), name) {
            return true;
        }
        i += 1;
    }
    false
}

fn undefined(used: &Vec<String>, gaps: &Gaps) -> (r: Vec<String>)
    ensures
        texts(r@) == undefined_errors(texts(used@), gaps_view(gaps@)),
{
    let ghost names = texts(used@);
    let mut r: Vec<String> = Vec::new();
    let mut i: usize = 0;
    assert(names.take(0) == Seq::<Seq<char>>::empty());
    assert(texts(r@) == Seq::<Seq<char>>::empty());
    while i < used.len()
        invariant
            0 <= i <= used.len(),
            names == texts(used@),
            texts(r@) == undefined_errors(names.take(i as int), gaps_view(gaps@)),
        decreases used.len() - i,
    {
        let ghost before = texts(r@);
        assert(names.take(i + 1).drop_last() == names.take(i as int));
        assert(names.take(i + 1).last() == used@[i as int]@);
        if !is_defined(gaps, used[i].as_str()) {
            let message = glue3("placeholder `", used[i].as_str(), "` has no gap definition");
            let ghost added = message@;
            r.push(message);
            assert(texts(r@) == before.push(added));
        }
        i += 1;
    }
    assert(names.take(used.len() as int) == names);
    r
}

fn unused(used: &Vec<String>, gaps: &Gaps) -> (r: Vec<String>)
    ensures
        texts(r@) == unused_errors(texts(used@), gaps_view(gaps@)),
{
    let ghost views = gaps_view(gaps@);
    let mut r: Vec<String> = Vec::new();
    let mut i: usize = 0;
    assert(views.take(0) == Seq::<(Seq<char>, GapView)>::empty());
    assert(texts(r@) == Seq::<Seq<char>>::empty());
    while i < gaps.len()
        invariant
            0 <= i <= gaps.len(),
            views == gaps_view(gaps@),
            texts(r@) == unused_errors(texts(used@), views.take(i as int)),
        decreases gaps.len() - i,
    {
        let ghost before = texts(r@);
        assert(views.take(i + 1).drop_last() == views.take(i as int));
        assert(views.take(i + 1).last() == (gaps@[i as int].0@, gaps@[i as int].1@));
        if !holds(used, gaps.name(i)) {
            let message = glue3("gap definition `", gaps.name(i), "` is unused");
            let ghost added = message@;
            r.push(message);
            assert(texts(r@) == before.push(added));
        }
        i += 1;
    }
    assert(views.take(gaps.len() as int) == views);
    r
}

fn one_gap(name: &str, gap: &GapDefinition, rejected: bool) -> (r: Vec<String>)
    ensures
        texts(r@) == gap_errors(name@, gap@, rejected),
{
    let mut r: Vec<String> = Vec::new();
    assert(texts(r@) == Seq::<Seq<char>>::empty());
    let some_answer = match &gap.answers {
        Some(list) => list.len() > 0,
        None => false,
    };
    let matcher = gap.answer.is_some() || some_answer || gap.regex.is_some();
    assert(matcher == has_matcher(gap@));
    let ghost first = if has_matcher(gap@) {
        Seq::<Seq<char>>::empty()
    } else {
        seq!["gap `"@ + name@ + "` has no answer or regex"@]
    };
    if !matcher {
        r.push(glue3("gap `", name, "` has no answer or regex"));
    }
    assert(texts(r@) == first);
    if gap.regex.is_some() && rejected {
        let message = glue3("gap `", name, "` has an invalid regex");
        let ghost added = message@;
        r.push(message);
        assert(texts(r@) == first + seq![added]);
    }
    assert(texts(r@) == gap_errors(name@, gap@, rejected));
    r
}

/// The errors of a code quiz, from the placeholders found in its code and, for each
/// gap, whether its pattern was rejected.
pub fn code_gap_errors(found: &Vec<Groups>, gaps: &Gaps, rejected: &Vec<bool>) -> (r: Vec<
    String,
>)
    requires
        rejected.len() == gaps.len(),
    ensures
        texts(r@) == code_errors(matches_view(found@), gaps_view(gaps@), rejected@),
{
    let used = distinct_names(found);
    let mut r = undefined(&used, gaps);
    add_all(&mut r, unused(&used, gaps));
    let ghost front = texts(r@);
    let ghost views = gaps_view(gaps@);
    let mut i: usize = 0;
    assert(views.take(0) == Seq::<(Seq<char>, GapView)>::empty());
    assert(front + all_gap_errors(views.take(0), rejected@) == front);
    while i < gaps.len()
        invariant
            0 <= i <= gaps.len(),
            rejected.len() == gaps.len(),
            views == gaps_view(gaps@),
            texts(r@) == front + all_gap_errors(views.take(i as int), rejected@),
        decreases gaps.len() - i,
    {
        let ghost before = texts(r@);
        assert(views.take(i + 1).drop_last() == views.take(i as int));
        assert(views.take(i + 1).last() == (gaps@[i as int].0@, gaps@[i as int].1@));
        let more = one_gap(gaps.name(i), gaps.gap(i), rejected[i]);
        let ghost added = texts(more@);
        add_all(&mut r, more);
        assert(texts(r@) == front + (all_gap_errors(views.take(i as int), rejected@) + added));
        i += 1;
    }
    assert(views.take(gaps.len() as int) == views);
    r
}

fn rejected_patterns(gaps: &Gaps) -> (r: Vec<bool>)
    ensures
        r@ == Seq::new(gaps@.len(), |i: int| regex_rejected(gaps@[i].1@)),
{
    let mut r: Vec<bool> = Vec::new();
    let mut i: usize = 0;
    while i < gaps.len()
        invariant
            0 <= i <= gaps.len(),
            r.len() == i,
            forall|j: int| 0 <= j < i ==> r@[j] == regex_rejected(gaps@[j].1@),
        decreases gaps.len() - i,
    {
        let bad = match &gaps.gap(i).regex {
            Some(pattern) => find_matches(pattern.as_str(), "").is_none(),
            None => false,
        };
        r.push(bad);
        i += 1;
    }
    assert(r@ == Seq::new(gaps@.len(), |i: int| regex_rejected(gaps@[i].1@)));
    r
}

fn parse_source(raw: Option<&str>) -> (r: Option<ClipRef>)
    ensures
        clip_view(r) == source_clip(opt_str_view(raw)),
{
    match raw {
        Some(text) => parse_clip(text),
        None => None,
    }
}

/// Everything that is wrong with a quiz, as messages for its author.
pub fn validate_quiz(quiz: &QuizDefinition) -> (r: Vec<String>)
    ensures
        texts(r@) == quiz_errors(*quiz),
{
    let mut errors: Vec<String> = Vec::new();
    assert(texts(errors@) == Seq::<Seq<char>>::empty());
    let id = to_chars(quiz.id());
    if trim(&id).len() == 0 {
        errors.push("quiz ID must not be empty".to_owned());
    }
    assert(texts(errors@) == id_errors(quiz.spec_id()));
    let (clip, prompt_clip) = quiz.clip_sources();
    let parsed = parse_source(clip);
    add_all(&mut errors, clip_field_errors("clip", clip.is_some(), &parsed));
    let parsed = parse_source(prompt_clip);
    add_all(&mut errors, clip_field_errors("prompt_clip", prompt_clip.is_some(), &parsed));
    let ghost front = texts(errors@);
    match quiz {
        QuizDefinition::Cloze { prompt, .. } => {
            let found = matches_in(
                r"\{\{c(\d+)::([^}:]+)(?:::[^}]+)?\}\}",
                prompt.as_str(),
            );
            assert(matches_view(found@).len() == found.len());
            if found.len() == 0 {
                errors.push("cloze prompt has no valid {{cN::answer}} marker".to_owned());
                assert(texts(errors@) == front + seq![
                    "cloze prompt has no valid {{cN::answer}} marker"@,
                ]);
            } else {
                assert(texts(errors@) == front + Seq::<Seq<char>>::empty());
            }
        },
        QuizDefinition::MultipleChoice { mode, answers, .. } => {
            add_all(&mut errors, multiple_choice_errors(*mode, answers));
        },
        QuizDefinition::CodeGap { code, gaps, .. } => {
            let found = matches_in(r"\{\{gap:([a-zA-Z0-9_-]+)\}\}", code.as_str());
            let rejected = rejected_patterns(gaps);
            add_all(&mut errors, code_gap_errors(&found, gaps, &rejected));
        },
    }
    errors
}

// ---------------------------------------------------------------------------
// The cards of a quiz
// ---------------------------------------------------------------------------

/// The clips on the cards of a quiz. An explicit `clip:` wins over the one that the
/// section gives; a `prompt_clip:` is never inherited, since a video beside the
/// question is a choice about what the card tests.
pub open spec fn quiz_clips(quiz: QuizDefinition, inherited: Option<ClipView>) -> ClipsView {
    ClipsView {
        prompt: source_clip(quiz.spec_prompt_clip()),
        answer: match source_clip(quiz.spec_clip()) {
            Some(c) => Some(c),
            None => inherited,
        },
    }
}

/// The cloze numbers in the matches of [`cloze_pattern`], each once.
pub open spec fn variants_of(found: Seq<Seq<Option<Seq<char>>>>) -> Seq<u32>
    decreases found.len(),
{
    if found.len() == 0 {
        Seq::empty()
    } else {
        let before = variants_of(found.drop_last());
        match group_of(found.last(), 1) {
            Some(digits) => match number_in(digits, u32::MAX as int) {
                Some(n) => if before.contains(n as u32) {
                    before
                } else {
                    before.push(n as u32)
                },
                None => before,
            },
            None => before,
        }
    }
}

/// A card before its content has a hash.
#[derive(Debug)]
pub struct CardDraft {
    pub uid: String,
    pub section_uid: String,
    pub quiz_id: String,
    pub card_type: String,
    pub variant_key: String,
    pub content: CardContent,
}

/// What a [`CardDraft`] says.
#[verifier::ext_equal]
pub struct DraftView {
    pub uid: Seq<char>,
    pub section_uid: Seq<char>,
    pub quiz_id: Seq<char>,
    pub card_type: Seq<char>,
    pub variant_key: Seq<char>,
    pub content: ContentView,
}

impl View for CardDraft {
    type V = DraftView;

    open spec fn view(&self) -> DraftView {
        DraftView {
            uid: self.uid@,
            section_uid: self.section_uid@,
            quiz_id: self.quiz_id@,
            card_type: self.card_type@,
            variant_key: self.variant_key@,
            content: self.content@,
        }
    }
}

pub open spec fn drafts_view(v: Seq<CardDraft>) -> Seq<DraftView> {
    Seq::new(v.len(), |i: int| v[i]@)
}

/// The uid of a card: its section, its quiz and its variant.
pub open spec fn card_uid(section_uid: Seq<char>, quiz_id: Seq<char>, variant: Seq<char>) -> Seq<
    char,
> {
    section_uid + "/"@ + quiz_id + ":"@ + variant
}

pub open spec fn draft_of(
    section_uid: Seq<char>,
    quiz_id: Seq<char>,
    card_type: Seq<char>,
    variant: Seq<char>,
    content: ContentView,
) -> DraftView {
    DraftView {
        uid: card_uid(section_uid, quiz_id, variant),
        section_uid,
        quiz_id,
        card_type,
        variant_key: variant,
        content,
    }
}

/// The variant of a cloze number.
pub open spec fn cloze_variant(n: u32) -> Seq<char> {
    "c"@ + decimal(n as nat)
}

/// The cards of a quiz: one per cloze number, or one.
pub open spec fn quiz_cards(
    section_uid: Seq<char>,
    quiz: QuizDefinition,
    clips: ClipsView,
    variants: Seq<u32>,
) -> Seq<DraftView> {
    match quiz {
        QuizDefinition::Cloze { id, prompt, .. } => Seq::new(
            variants.len(),
            |i: int|
                draft_of(
                    section_uid,
                    id@,
                    "cloze"@,
                    cloze_variant(variants[i]),
                    ContentView::Cloze { prompt: prompt@, cloze: variants[i], clips },
                ),
        ),
        QuizDefinition::MultipleChoice { id, mode, question, answers, explanation, .. } => seq![
            draft_of(
                section_uid,
                id@,
                "multiple-choice"@,
                "main"@,
                ContentView::MultipleChoice {
                    mode,
                    question: question@,
                    answers: answers_view(answers@),
                    explanation: opt_view(explanation),
                    clips,
                },
            ),
        ],
        QuizDefinition::CodeGap { id, language, prompt, code, gaps, .. } => seq![
            draft_of(
                section_uid,
                id@,
                "code-gap"@,
                "main"@,
                ContentView::CodeGap {
                    language: language@,
                    prompt: opt_view(prompt),
                    code: code@,
                    gaps: gaps_view(gaps@),
                    clips,
                },
            ),
        ],
    }
}

/// The cloze numbers that a quiz asks for.
pub open spec fn quiz_variants(quiz: QuizDefinition) -> Seq<u32> {
    match quiz {
        QuizDefinition::Cloze { prompt, .. } => variants_of(
            found_or_none(regex_matches(cloze_pattern(), prompt@)),
        ),
        _ => Seq::empty(),
    }
}

/// The cloze numbers in matches of the cloze pattern, each once.
pub fn cloze_variants(found: &Vec<Groups>) -> (r: Vec<u32>)
    ensures
        r@ == variants_of(matches_view(found@)),
{
    let ghost views = matches_view(found@);
    let mut r: Vec<u32> = Vec::new();
    let mut i: usize = 0;
    assert(views.take(0) == Seq::<Seq<Option<Seq<char>>>>::empty());
    while i < found.len()
        invariant
            0 <= i <= found.len(),
            views == matches_view(found@),
            r@ == variants_of(views.take(i as int)),
        decreases found.len() - i,
    {
        assert(views.take(i + 1).drop_last() == views.take(i as int));
        assert(views.take(i + 1).last() == groups_view(found@[i as int]@));
        if let Some(digits) = group(&found[i], 1) {
            let text = to_chars(digits);
            if let Some(n) = parse_u64(&text) {
                if n <= u32::MAX as u64 {
                    let n: u32 = n as u32;
                    if !has_number(&r, n) {
                        r.push(n);
                    }
                }
            }
        }
        i += 1;
    }
    assert(views.take(found.len() as int) == views);
    r
}

fn has_number(list: &Vec<u32>, n: u32) -> (r: bool)
    ensures
        r == list@.contains(n),
{
    let mut i: usize = 0;
    while i < list.len()
        invariant
            0 <= i <= list.len(),
            forall|j: int| 0 <= j < i ==> list@[j] != n,
        decreases list.len() - i,
    {
        if list[i] == n {
            assert(list@[i as int] == n);
            return true;
        }
        i += 1;
    }
    false
}

fn draft(
    section_uid: &str,
    quiz_id: &str,
    card_type: &str,
    variant: &str,
    content: CardContent,
) -> (r: CardDraft)
    ensures
        r@ == draft_of(section_uid@, quiz_id@, card_type@, variant@, content@),
{
    let mut uid = section_uid.to_owned();
    uid.append("/");
    uid.append(quiz_id);
    uid.append(":");
    uid.append(variant);
    CardDraft {
        uid,
        section_uid: section_uid.to_owned(),
        quiz_id: quiz_id.to_owned(),
        card_type: card_type.to_owned(),
        variant_key: variant.to_owned(),
        content,
    }
}

/// The clips on the cards of a quiz.
pub fn clips_for(quiz: &QuizDefinition, inherited: &Option<ClipRef>) -> (r: CardClips)
    ensures
        r@ == quiz_clips(*quiz, clip_view(*inherited)),
{
    let (answer, prompt) = quiz.clip_sources();
    let prompt = parse_source(prompt);
    let answer = match parse_source(answer) {
        Some(c) => Some(c),
        None => clone_clip(inherited),
    };
    CardClips { prompt, answer }
}

/// The cards of a quiz, for the clips and cloze numbers given.
pub fn quiz_drafts(
    section_uid: &str,
    quiz: &QuizDefinition,
    clips: &CardClips,
    variants: &Vec<u32>,
) -> (r: Vec<CardDraft>)
    ensures
        drafts_view(r@) == quiz_cards(section_uid@, *quiz, clips@, variants@),
{
    let mut r: Vec<CardDraft> = Vec::new();
    match quiz {
        QuizDefinition::Cloze { id, prompt, .. } => {
            let mut i: usize = 0;
            let ghost all = quiz_cards(section_uid@, *quiz, clips@, variants@);
            while i < variants.len()
                invariant
                    0 <= i <= variants.len(),
                    r.len() == i,
                    all == quiz_cards(section_uid@, *quiz, clips@, variants@),
                    *quiz is Cloze,
                    quiz->Cloze_id == *id,
                    quiz->Cloze_prompt == *prompt,
                    forall|j: int| 0 <= j < i ==> (#[trigger] r@[j])@ == all[j],
                decreases variants.len() - i,
            {
                let mut variant = "c".to_owned();
                let shown = decimal_text(variants[i] as u64);
                variant.append(shown.as_str());
                let one = draft(
                    section_uid,
                    id.as_str(),
                    "cloze",
                    variant.as_str(),
                    CardContent::Cloze {
                        prompt: prompt.clone(),
                        cloze: variants[i],
                        clips: clips.clone(),
                    },
                );
                assert(one@ == all[i as int]);
                r.push(one);
                i += 1;
            }
            assert(drafts_view(r@) == all);
        },
        QuizDefinition::MultipleChoice { id, mode, question, answers, explanation, .. } => {
            let content = CardContent::MultipleChoice {
                mode: *mode,
                question: question.clone(),
                answers: clone_answers(answers),
                explanation: clone_text(explanation),
                clips: clips.clone(),
            };
            r.push(draft(section_uid, id.as_str(), "multiple-choice", "main", content));
            assert(drafts_view(r@) == quiz_cards(section_uid@, *quiz, clips@, variants@));
        },
        QuizDefinition::CodeGap { id, language, prompt, code, gaps, .. } => {
            let content = CardContent::CodeGap {
                language: language.clone(),
                prompt: clone_text(prompt),
                code: code.clone(),
                gaps: clone_gaps(gaps),
                clips: clips.clone(),
            };
            r.push(draft(section_uid, id.as_str(), "code-gap", "main", content));
            assert(drafts_view(r@) == quiz_cards(section_uid@, *quiz, clips@, variants@));
        },
    }
    r
}

/// The cards of a quiz in a section, where `inherited` is the clip of the section's
/// own video.
pub fn cards_from_quiz(
    section_uid: &str,
    quiz: &QuizDefinition,
    inherited: &Option<ClipRef>,
) -> (r: Vec<CardDraft>)
    ensures
        drafts_view(r@) == quiz_cards(
            section_uid@,
            *quiz,
            quiz_clips(*quiz, clip_view(*inherited)),
            quiz_variants(*quiz),
        ),
{
    let clips = clips_for(quiz, inherited);
    let variants = match quiz {
        QuizDefinition::Cloze { prompt, .. } => {
            let found = matches_in(
                r"\{\{c(\d+)::([^}:]+)(?:::[^}]+)?\}\}",
                prompt.as_str(),
            );
            cloze_variants(&found)
        },
        _ => Vec::new(),
    };
    quiz_drafts(section_uid, quiz, &clips, &variants)
}

/// Whether two quizzes say the same.
pub open spec fn same_quiz(a: QuizDefinition, b: QuizDefinition) -> bool {
    &&& a.spec_id() == b.spec_id()
    &&& a.spec_clip() == b.spec_clip()
    &&& a.spec_prompt_clip() == b.spec_prompt_clip()
    &&& match (a, b) {
        (QuizDefinition::Cloze { prompt: p, .. }, QuizDefinition::Cloze { prompt: q, .. }) => p@
            == q@,
        (
            QuizDefinition::MultipleChoice {
                mode: m,
                question: p,
                answers: s,
                explanation: e,
                ..
            },
            QuizDefinition::MultipleChoice {
                mode: n,
                question: q,
                answers: t,
                explanation: f,
                ..
            },
        ) => m == n && p@ == q@ && answers_view(s@) == answers_view(t@) && opt_view(e) == opt_view(
            f,
        ),
        (
            QuizDefinition::CodeGap { language: l, prompt: p, code: c, gaps: g, .. },
            QuizDefinition::CodeGap { language: m, prompt: q, code: d, gaps: h, .. },
        ) => l@ == m@ && opt_view(p) == opt_view(q) && c@ == d@ && gaps_view(g@) == gaps_view(h@),
        _ => false,
    }
}

/// Two quizzes that say the same have the same errors and the same variants, and make the
/// same cards.
pub proof fn lemma_same_quiz(
    a: QuizDefinition,
    b: QuizDefinition,
    section_uid: Seq<char>,
    clips: ClipsView,
)
    requires
        same_quiz(a, b),
    ensures
        quiz_errors(a) == quiz_errors(b),
        quiz_variants(a) == quiz_variants(b),
        quiz_cards(section_uid, a, clips, quiz_variants(a)) == quiz_cards(
            section_uid,
            b,
            clips,
            quiz_variants(b),
        ),
{
    match (a, b) {
        (QuizDefinition::CodeGap { gaps: g, .. }, QuizDefinition::CodeGap { gaps: h, .. }) => {
            assert(gaps_view(g@).len() == gaps_view(h@).len());
            assert forall|i: int| 0 <= i < g@.len() implies (#[trigger] g@[i]).1@ == h@[i].1@ by {
                assert(gaps_view(g@)[i] == gaps_view(h@)[i]);
            }
            assert(Seq::new(g@.len(), |i: int| regex_rejected(g@[i].1@)) == Seq::new(
                h@.len(),
                |i: int| regex_rejected(h@[i].1@),
            ));
        },
        _ => {},
    }
    assert(quiz_cards(section_uid, a, clips, quiz_variants(a)) =~= quiz_cards(
        section_uid,
        b,
        clips,
        quiz_variants(b),
    ));
}

/// The card that reviews a section as a whole.
pub open spec fn section_review_of(
    section_uid: Seq<char>,
    heading: Seq<char>,
    body: Seq<char>,
) -> DraftView {
    draft_of(
        section_uid,
        "section-review"@,
        "section-review"@,
        "main"@,
        ContentView::Section { title: heading, body },
    )
}

/// The card that reviews a section as a whole, before its content has a hash.
pub fn section_review(section_uid: &str, heading: &str, body: &str) -> (r: CardDraft)
    ensures
        r@ == section_review_of(section_uid@, heading@, body@),
{
    draft(
        section_uid,
        "section-review",
        "section-review",
        "main",
        CardContent::Section { title: heading.to_owned(), body: body.to_owned() },
    )
}

/// The card that a draft becomes, from its content written out as JSON.
pub open spec fn card_of(draft: DraftView, json: Seq<char>) -> CardView {
    CardView {
        uid: draft.uid,
        section_uid: draft.section_uid,
        quiz_id: draft.quiz_id,
        card_type: draft.card_type,
        variant_key: draft.variant_key,
        content_hash: blake3_hex(encode_utf8(json)),
        content: draft.content,
    }
}

/// Completes a card with the hash of its content, which is given as JSON.
pub fn make_card(draft: CardDraft, json: &str) -> (r: CardDefinition)
    ensures
        r@ == card_of(draft@, json@),
{
    CardDefinition {
        uid: draft.uid,
        section_uid: draft.section_uid,
        quiz_id: draft.quiz_id,
        card_type: draft.card_type,
        variant_key: draft.variant_key,
        content_hash: hash_bytes(json.as_bytes()),
        content: draft.content,
    }
}

// ---------------------------------------------------------------------------
// Laws
// ---------------------------------------------------------------------------

/// What a section gives reaches the answer side of a card alone: the prompt side is
/// the same whatever is inherited.
pub proof fn inheritance_never_fills_the_prompt(
    quiz: QuizDefinition,
    inherited: Option<ClipView>,
)
    ensures
        quiz_clips(quiz, inherited).prompt == source_clip(quiz.spec_prompt_clip()),
        quiz.spec_prompt_clip() is None ==> quiz_clips(quiz, inherited).prompt is None,
{
}

/// An explicit clip that reads as one beats whatever is inherited.
pub proof fn an_explicit_clip_wins(quiz: QuizDefinition, inherited: Option<ClipView>)
    requires
        source_clip(quiz.spec_clip()) is Some,
    ensures
        quiz_clips(quiz, inherited).answer == source_clip(quiz.spec_clip()),
{
}

proof fn lemma_variants_distinct(found: Seq<Seq<Option<Seq<char>>>>)
    ensures
        variants_of(found).no_duplicates(),
    decreases found.len(),
{
    if found.len() > 0 {
        lemma_variants_distinct(found.drop_last());
    }
}

/// No two cards of a quiz have the same uid.
pub proof fn cards_of_a_quiz_have_different_uids(
    section_uid: Seq<char>,
    quiz: QuizDefinition,
    clips: ClipsView,
    i: int,
    j: int,
)
    requires
        0 <= i < j < quiz_cards(section_uid, quiz, clips, quiz_variants(quiz)).len(),
    ensures
        quiz_cards(section_uid, quiz, clips, quiz_variants(quiz))[i].uid != quiz_cards(
            section_uid,
            quiz,
            clips,
            quiz_variants(quiz),
        )[j].uid,
{
    let variants = quiz_variants(quiz);
    let cards = quiz_cards(section_uid, quiz, clips, variants);
    match quiz {
        QuizDefinition::Cloze { id, prompt, .. } => {
            lemma_variants_distinct(found_or_none(regex_matches(cloze_pattern(), prompt@)));
            let a = variants[i];
            let b = variants[j];
            assert(a != b);
            lemma_decimal(a as nat);
            lemma_decimal(b as nat);
            assert(decimal(a as nat) != decimal(b as nat));
            let front = section_uid + "/"@ + id@ + ":"@;
            let u = front + cloze_variant(a);
            let v = front + cloze_variant(b);
            if u == v {
                assert(cloze_variant(a) == u.skip(front.len() as int));
                assert(cloze_variant(b) == v.skip(front.len() as int));
                assert(decimal(a as nat) == cloze_variant(a).skip("c"@.len() as int));
                assert(decimal(b as nat) == cloze_variant(b).skip("c"@.len() as int));
            }
        },
        _ => {},
    }
}

/// A gap that the code names and the quiz defines, with an answer, is no error:
/// a quiz whose gaps are all used, defined and answered has no error in its gaps.
pub proof fn answered_gaps_are_sound(
    found: Seq<Seq<Option<Seq<char>>>>,
    gaps: Seq<(Seq<char>, GapView)>,
    rejected: Seq<bool>,
)
    requires
        rejected.len() == gaps.len(),
        forall|n: Seq<char>| names_of(found).contains(n) <==> defines(gaps, n),
        forall|i: int|
            0 <= i < gaps.len() ==> has_matcher((#[trigger] gaps[i]).1) && (gaps[i].1.regex is Some
                ==> !rejected[i]),
    ensures
        code_errors(found, gaps, rejected) == Seq::<Seq<char>>::empty(),
{
    let used = distinct(names_of(found));
    lemma_distinct(names_of(found));
    lemma_all_defined(used, gaps);
    assert forall|i: int| 0 <= i < gaps.len() implies used.contains((#[trigger] gaps[i]).0) by {
        assert(defines(gaps, gaps[i].0));
    }
    lemma_all_used(used, gaps);
    lemma_all_answered(gaps, rejected);
}

proof fn lemma_all_defined(used: Seq<Seq<char>>, gaps: Seq<(Seq<char>, GapView)>)
    requires
        forall|n: Seq<char>| used.contains(n) ==> defines(gaps, n),
    ensures
        undefined_errors(used, gaps) == Seq::<Seq<char>>::empty(),
    decreases used.len(),
{
    if used.len() > 0 {
        let rest = used.drop_last();
        assert forall|n: Seq<char>| rest.contains(n) implies defines(gaps, n) by {
            let i = choose|i: int| 0 <= i < rest.len() && rest[i] == n;
            assert(used[i] == n);
        }
        lemma_all_defined(rest, gaps);
        assert(used.contains(used[used.len() - 1]));
    }
}

proof fn lemma_all_used(used: Seq<Seq<char>>, gaps: Seq<(Seq<char>, GapView)>)
    requires
        forall|i: int| 0 <= i < gaps.len() ==> used.contains((#[trigger] gaps[i]).0),
    ensures
        unused_errors(used, gaps) == Seq::<Seq<char>>::empty(),
    decreases gaps.len(),
{
    if gaps.len() > 0 {
        let rest = gaps.drop_last();
        assert forall|i: int| 0 <= i < rest.len() implies used.contains((#[trigger] rest[i]).0) by {
            assert(rest[i] == gaps[i]);
        }
        lemma_all_used(used, rest);
        assert(used.contains(gaps[gaps.len() - 1].0));
    }
}

proof fn lemma_all_answered(gaps: Seq<(Seq<char>, GapView)>, rejected: Seq<bool>)
    requires
        gaps.len() <= rejected.len(),
        forall|i: int|
            0 <= i < gaps.len() ==> has_matcher((#[trigger] gaps[i]).1) && (gaps[i].1.regex is Some
                ==> !rejected[i]),
    ensures
        all_gap_errors(gaps, rejected) == Seq::<Seq<char>>::empty(),
    decreases gaps.len(),
{
    if gaps.len() > 0 {
        let rest = gaps.drop_last();
        assert forall|i: int| 0 <= i < rest.len() implies has_matcher((#[trigger] rest[i]).1) && (
        rest[i].1.regex is Some ==> !rejected[i]) by {
            assert(rest[i] == gaps[i]);
        }
        lemma_all_answered(rest, rejected);
        assert(has_matcher(gaps[gaps.len() - 1].1));
    }
}

proof fn lemma_correct_count(answers: Seq<AnswerView>)
    ensures
        correct_count(answers) > 0 <==> exists|i: int|
            0 <= i < answers.len() && (#[trigger] answers[i]).correct,
        correct_count(answers) <= 1 <==> forall|i: int, j: int|
            0 <= i < j < answers.len() ==> !((#[trigger] answers[i]).correct && (
            #[trigger] answers[j]).correct),
    decreases answers.len(),
{
    if answers.len() > 0 {
        let rest = answers.drop_last();
        lemma_correct_count(rest);
        let last = answers.len() - 1;
        if exists|i: int| 0 <= i < rest.len() && (#[trigger] rest[i]).correct {
            let i = choose|i: int| 0 <= i < rest.len() && (#[trigger] rest[i]).correct;
            assert(answers[i].correct);
            if answers[last].correct {
                assert(!(correct_count(answers) <= 1));
                assert(answers[i].correct && answers[last].correct);
            }
        }
        if answers[last].correct {
            assert(answers[last].correct);
        }
        if exists|i: int| 0 <= i < answers.len() && (#[trigger] answers[i]).correct {
            let i = choose|i: int| 0 <= i < answers.len() && (#[trigger] answers[i]).correct;
            if i < last {
                assert(rest[i].correct);
            }
        }
        if exists|i: int, j: int|
            0 <= i < j < rest.len() && (#[trigger] rest[i]).correct && (
            #[trigger] rest[j]).correct {
            let (i, j) = choose|i: int, j: int|
                0 <= i < j < rest.len() && (#[trigger] rest[i]).correct && (
                #[trigger] rest[j]).correct;
            assert(answers[i].correct && answers[j].correct);
        }
        if exists|i: int, j: int|
            0 <= i < j < answers.len() && (#[trigger] answers[i]).correct && (
            #[trigger] answers[j]).correct {
            let (i, j) = choose|i: int, j: int|
                0 <= i < j < answers.len() && (#[trigger] answers[i]).correct && (
                #[trigger] answers[j]).correct;
            assert(rest[i].correct);
            if j < last {
                assert(rest[j].correct);
            }
        }
    }
}

/// A multiple choice is sound exactly when it offers two answers or more, some answer is
/// right, no two are where one is to be chosen, and no two answers have the same id.
pub proof fn a_sound_choice_can_be_answered(mode: ChoiceMode, answers: Seq<AnswerView>)
    ensures
        choice_errors(mode, answers).len() == 0 <==> {
            &&& answers.len() >= 2
            &&& exists|i: int| 0 <= i < answers.len() && (#[trigger] answers[i]).correct
            &&& mode == ChoiceMode::Single ==> forall|i: int, j: int|
                0 <= i < j < answers.len() ==> !((#[trigger] answers[i]).correct && (
                #[trigger] answers[j]).correct)
            &&& forall|i: int, j: int|
                0 <= i < j < answers.len() && (#[trigger] answers[i]).id is Some ==> answers[i].id
                    != (#[trigger] answers[j]).id
        },
{
    lemma_correct_count(answers);
}

proof fn lemma_undefined(used: Seq<Seq<char>>, gaps: Seq<(Seq<char>, GapView)>)
    ensures
        undefined_errors(used, gaps).len() == 0 ==> forall|n: Seq<char>|
            #[trigger] used.contains(n) ==> defines(gaps, n),
    decreases used.len(),
{
    if used.len() > 0 && undefined_errors(used, gaps).len() == 0 {
        let rest = used.drop_last();
        lemma_undefined(rest, gaps);
        assert forall|n: Seq<char>| #[trigger] used.contains(n) implies defines(gaps, n) by {
            let i = choose|i: int| 0 <= i < used.len() && used[i] == n;
            if i < rest.len() {
                assert(rest[i] == n);
                assert(rest.contains(n));
            }
        }
    }
}

proof fn lemma_unused(used: Seq<Seq<char>>, gaps: Seq<(Seq<char>, GapView)>)
    ensures
        unused_errors(used, gaps).len() == 0 ==> forall|i: int|
            0 <= i < gaps.len() ==> used.contains((#[trigger] gaps[i]).0),
    decreases gaps.len(),
{
    if gaps.len() > 0 && unused_errors(used, gaps).len() == 0 {
        let rest = gaps.drop_last();
        lemma_unused(used, rest);
        assert forall|i: int| 0 <= i < gaps.len() implies used.contains((#[trigger] gaps[i]).0) by {
            if i < rest.len() {
                assert(rest[i] == gaps[i]);
            }
        }
    }
}

proof fn lemma_unanswered(gaps: Seq<(Seq<char>, GapView)>, rejected: Seq<bool>)
    ensures
        all_gap_errors(gaps, rejected).len() == 0 ==> forall|i: int|
            0 <= i < gaps.len() ==> has_matcher((#[trigger] gaps[i]).1) && (gaps[i].1.regex is Some
                ==> !rejected[i]),
    decreases gaps.len(),
{
    if gaps.len() > 0 && all_gap_errors(gaps, rejected).len() == 0 {
        let rest = gaps.drop_last();
        lemma_unanswered(rest, rejected);
        let last = gaps.len() - 1;
        assert(gap_errors(gaps[last].0, gaps[last].1, rejected[last]).len() == 0);
        assert forall|i: int| 0 <= i < gaps.len() implies has_matcher((#[trigger] gaps[i]).1) && (
        gaps[i].1.regex is Some ==> !rejected[i]) by {
            if i < rest.len() {
                assert(rest[i] == gaps[i]);
            }
        }
    }
}

/// The gaps of a code quiz are sound only where the code names exactly the gaps that are
/// defined, each says what fills it, and each pattern can be matched.
pub proof fn sound_gaps_are_defined_used_and_answered(
    found: Seq<Seq<Option<Seq<char>>>>,
    gaps: Seq<(Seq<char>, GapView)>,
    rejected: Seq<bool>,
)
    requires
        code_errors(found, gaps, rejected).len() == 0,
    ensures
        forall|n: Seq<char>|
            #[trigger] names_of(found).contains(n) <==> exists|i: int|
                0 <= i < gaps.len() && (#[trigger] gaps[i]).0 == n,
        forall|i: int|
            0 <= i < gaps.len() ==> {
                let gap = (#[trigger] gaps[i]).1;
                &&& gap.answer is Some || gap.regex is Some || gap.answers is Some
                    && gap.answers->0.len() > 0
                &&& gap.regex is Some ==> !rejected[i]
            },
{
    let used = distinct(names_of(found));
    lemma_distinct(names_of(found));
    lemma_undefined(used, gaps);
    lemma_unused(used, gaps);
    lemma_unanswered(gaps, rejected);
    assert forall|n: Seq<char>| #[trigger] names_of(found).contains(n) <==> exists|i: int|
        0 <= i < gaps.len() && (#[trigger] gaps[i]).0 == n by {
        if names_of(found).contains(n) {
            assert(used.contains(n));
            assert(defines(gaps, n));
        }
        if exists|i: int| 0 <= i < gaps.len() && (#[trigger] gaps[i]).0 == n {
            let i = choose|i: int| 0 <= i < gaps.len() && (#[trigger] gaps[i]).0 == n;
            assert(used.contains(gaps[i].0));
        }
    }
    assert forall|i: int| 0 <= i < gaps.len() implies {
        let gap = (#[trigger] gaps[i]).1;
        &&& gap.answer is Some || gap.regex is Some || gap.answers is Some && gap.answers->0.len()
            > 0
        &&& gap.regex is Some ==> !rejected[i]
    } by {
        assert(has_matcher(gaps[i].1));
    }
}

/// A clip field is sound where it is left out, and else exactly when it can be read, starts
/// with a web address and does not end before it has begun.
pub proof fn a_sound_clip_can_be_played(field: Seq<char>, present: bool, clip: Option<ClipView>)
    ensures
        clip_errors(field, present, clip).len() == 0 <==> !present || {
            &&& clip is Some
            &&& starts_with(clip->0.url, "http://"@) || starts_with(clip->0.url, "https://"@)
            &&& clip->0.end is Some ==> clip->0.end->0 > clip->0.start
        },
{
}

/// A quiz is sound only where its id says something, its clips are sound, and what it asks is
/// sound: a cloze has a marker, a choice can be answered, and the gaps of code fit.
pub proof fn a_sound_quiz_is_sound_in_every_part(quiz: QuizDefinition)
    ensures
        quiz_errors(quiz).len() == 0 <==> {
            &&& trimmed(quiz.spec_id()).len() > 0
            &&& clip_errors(
                "clip"@,
                quiz.spec_clip() is Some,
                source_clip(quiz.spec_clip()),
            ).len() == 0
            &&& clip_errors(
                "prompt_clip"@,
                quiz.spec_prompt_clip() is Some,
                source_clip(quiz.spec_prompt_clip()),
            ).len() == 0
            &&& match quiz {
                QuizDefinition::Cloze { prompt, .. } => found_or_none(
                    regex_matches(cloze_pattern(), prompt@),
                ).len() > 0,
                QuizDefinition::MultipleChoice { mode, answers, .. } => choice_errors(
                    mode,
                    answers_view(answers@),
                ).len() == 0,
                QuizDefinition::CodeGap { code, gaps, .. } => code_errors(
                    found_or_none(regex_matches(gap_pattern(), code@)),
                    gaps_view(gaps@),
                    Seq::new(gaps@.len(), |i: int| regex_rejected(gaps@[i].1@)),
                ).len() == 0,
            }
        },
{
}

proof fn lemma_variants(found: Seq<Seq<Option<Seq<char>>>>, n: u32)
    ensures
        variants_of(found).contains(n) <==> exists|i: int|
            0 <= i < found.len() && reads_as(#[trigger] found[i], n),
    decreases found.len(),
{
    if found.len() > 0 {
        let rest = found.drop_last();
        lemma_variants(rest, n);
        let before = variants_of(rest);
        let all = variants_of(found);
        if before.contains(n) {
            let k = choose|k: int| 0 <= k < before.len() && before[k] == n;
            assert(all[k] == n);
            let i = choose|i: int| 0 <= i < rest.len() && reads_as(#[trigger] rest[i], n);
            assert(reads_as(found[i], n));
        }
        if reads_as(found.last(), n) {
            assert(reads_as(found[found.len() - 1], n));
            if !before.contains(n) {
                assert(all[before.len() as int] == n);
            }
        }
        if all.contains(n) && !before.contains(n) {
            let k = choose|k: int| 0 <= k < all.len() && all[k] == n;
            if k < before.len() {
                assert(before[k] == n);
            }
            assert(reads_as(found.last(), n));
        }
        if exists|i: int| 0 <= i < found.len() && reads_as(#[trigger] found[i], n) {
            let i = choose|i: int| 0 <= i < found.len() && reads_as(#[trigger] found[i], n);
            if i < rest.len() {
                assert(reads_as(rest[i], n));
            }
        }
    }
}

/// Whether a cloze marker has a number.
pub open spec fn reads_as(marker: Seq<Option<Seq<char>>>, n: u32) -> bool {
    marker.len() > 1 && marker[1] is Some && number_in(marker[1]->0, u32::MAX as int) == Some(
        n as nat,
    )
}

/// A cloze has one card for each number that its markers have, however many markers have it,
/// and no other. Each asks for its number, in the prompt of the quiz and with its clips.
pub proof fn a_cloze_has_a_card_for_each_number(
    section_uid: Seq<char>,
    quiz: QuizDefinition,
    clips: ClipsView,
    n: u32,
)
    requires
        quiz is Cloze,
    ensures
        ({
            let cards = quiz_cards(section_uid, quiz, clips, quiz_variants(quiz));
            let prompt = quiz->Cloze_prompt@;
            let markers = found_or_none(regex_matches(cloze_pattern(), prompt));
            &&& (exists|i: int| 0 <= i < markers.len() && reads_as(#[trigger] markers[i], n))
                <==> exists|k: int|
                0 <= k < cards.len() && (#[trigger] cards[k]).content == (ContentView::Cloze {
                    prompt,
                    cloze: n,
                    clips,
                })
            &&& forall|k: int|
                0 <= k < cards.len() ==> {
                    let card = #[trigger] cards[k];
                    &&& card.content is Cloze
                    &&& card.content->Cloze_prompt == prompt
                    &&& card.content->Cloze_clips == clips
                    &&& card.card_type == "cloze"@
                    &&& card.section_uid == section_uid
                    &&& card.quiz_id == quiz.spec_id()
                    &&& card.uid == section_uid + "/"@ + quiz.spec_id() + ":c"@ + decimal(
                        card.content->cloze as nat,
                    )
                }
            &&& forall|k: int, m: int|
                0 <= k < m < cards.len() ==> (#[trigger] cards[k]).content->cloze != (
                #[trigger] cards[m]).content->cloze
        }),
{
    let variants = quiz_variants(quiz);
    let cards = quiz_cards(section_uid, quiz, clips, variants);
    let prompt = quiz->Cloze_prompt@;
    let markers = found_or_none(regex_matches(cloze_pattern(), prompt));
    lemma_variants(markers, n);
    lemma_variants_distinct(markers);
    reveal_strlit(":c");
    reveal_strlit(":");
    reveal_strlit("c");
    assert(":c"@ == ":"@ + "c"@);
    if variants.contains(n) {
        let k = choose|k: int| 0 <= k < variants.len() && variants[k] == n;
        assert(cards[k].content == (ContentView::Cloze { prompt, cloze: n, clips }));
    }
    assert forall|k: int| 0 <= k < cards.len() implies {
        let card = #[trigger] cards[k];
        &&& card.content is Cloze
        &&& card.content->Cloze_prompt == prompt
        &&& card.content->Cloze_clips == clips
        &&& card.card_type == "cloze"@
        &&& card.section_uid == section_uid
        &&& card.quiz_id == quiz.spec_id()
        &&& card.uid == section_uid + "/"@ + quiz.spec_id() + ":c"@ + decimal(
            card.content->cloze as nat,
        )
    } by {
        let front = section_uid + "/"@ + quiz.spec_id();
        let d = decimal(variants[k] as nat);
        assert(front + ":"@ + ("c"@ + d) =~= front + ":c"@ + d);
    }
    if exists|k: int|
        0 <= k < cards.len() && (#[trigger] cards[k]).content == (ContentView::Cloze {
            prompt,
            cloze: n,
            clips,
        }) {
        let k = choose|k: int|
            0 <= k < cards.len() && (#[trigger] cards[k]).content == (ContentView::Cloze {
                prompt,
                cloze: n,
                clips,
            });
        assert(variants[k] == n);
    }
}

/// A multiple choice and a code quiz have one card, which asks what the quiz asks and nothing
/// less: the question with all its answers, or the code with all its gaps.
pub proof fn other_quizzes_have_one_card(
    section_uid: Seq<char>,
    quiz: QuizDefinition,
    clips: ClipsView,
)
    requires
        !(quiz is Cloze),
    ensures
        ({
            let cards = quiz_cards(section_uid, quiz, clips, quiz_variants(quiz));
            let card = cards[0];
            &&& cards.len() == 1
            &&& card.section_uid == section_uid
            &&& card.quiz_id == quiz.spec_id()
            &&& card.uid == section_uid + "/"@ + quiz.spec_id() + ":main"@
            &&& match quiz {
                QuizDefinition::MultipleChoice { mode, question, answers, explanation, .. } => {
                    &&& card.card_type == "multiple-choice"@
                    &&& card.content is MultipleChoice
                    &&& card.content->mode == mode
                    &&& card.content->question == question@
                    &&& card.content->answers.len() == answers.len()
                    &&& forall|i: int|
                        0 <= i < answers.len() ==> {
                            let shown = #[trigger] card.content->answers[i];
                            shown.text == answers@[i].text@ && shown.correct
                                == answers@[i].correct
                        }
                    &&& card.content->explanation == opt_view(explanation)
                    &&& card.content->MultipleChoice_clips == clips
                },
                QuizDefinition::CodeGap { language, prompt, code, gaps, .. } => {
                    &&& card.card_type == "code-gap"@
                    &&& card.content is CodeGap
                    &&& card.content->language == language@
                    &&& card.content->CodeGap_prompt == opt_view(prompt)
                    &&& card.content->code == code@
                    &&& card.content->gaps == gaps_view(gaps@)
                    &&& card.content->CodeGap_clips == clips
                },
                QuizDefinition::Cloze { .. } => true,
            }
        }),
{
    reveal_strlit(":main");
    reveal_strlit(":");
    reveal_strlit("main");
    assert(":main"@ == ":"@ + "main"@);
    let front = section_uid + "/"@ + quiz.spec_id();
    assert(front + ":"@ + "main"@ =~= front + ":main"@);
}

/// The clip of an answer is the one that the quiz gives, and that of its section where it
/// gives none that can be read; that of the question is its own alone.
pub proof fn a_quiz_inherits_what_it_does_not_give(
    quiz: QuizDefinition,
    inherited: Option<ClipView>,
)
    ensures
        ({
            let clips = quiz_clips(quiz, inherited);
            let own = match quiz.spec_clip() {
                Some(raw) => crate::parser::clip_of(raw),
                None => None,
            };
            &&& own is Some ==> clips.answer == own
            &&& own is None ==> clips.answer == inherited
            &&& quiz.spec_prompt_clip() is Some ==> clips.prompt == crate::parser::clip_of(
                quiz.spec_prompt_clip()->0,
            )
            &&& quiz.spec_prompt_clip() is None ==> clips.prompt is None
        }),
{
}

/// The names in the matches of a pattern are their first groups, in order.
pub proof fn names_are_read_in_order(
    found: Seq<Seq<Option<Seq<char>>>>,
    whole: Option<Seq<char>>,
    name: Seq<char>,
)
    ensures
        names_of(found.push(seq![whole, Some(name)])) == names_of(found).push(name),
        names_of(found.push(seq![whole, None])) == names_of(found),
        names_of(Seq::empty()).len() == 0,
{
    assert(found.push(seq![whole, Some(name)]).drop_last() == found);
    assert(found.push(seq![whole, None]).drop_last() == found);
}

/// What is wrong with a choice is said by name: too few answers, none that is right, more
/// than one right in a single choice, or an id used twice.
pub proof fn a_wrong_choice_is_said_to_be(mode: ChoiceMode, answers: Seq<AnswerView>)
    ensures
        ({
            let errors = choice_errors(mode, answers);
            &&& answers.len() < 2 <==> errors.contains(
                "multiple-choice quiz needs at least two answers"@,
            )
            &&& correct_count(answers) == 0 <==> errors.contains(
                "multiple-choice quiz has no correct answer"@,
            )
            &&& mode == ChoiceMode::Single && correct_count(answers) != 1 <==> errors.contains(
                "single-choice quiz must have exactly one correct answer"@,
            )
            &&& !ids_unique(answers) <==> errors.contains("answer IDs must be unique"@)
        }),
{
    reveal_strlit("multiple-choice quiz needs at least two answers");
    reveal_strlit("multiple-choice quiz has no correct answer");
    reveal_strlit("single-choice quiz must have exactly one correct answer");
    reveal_strlit("answer IDs must be unique");
    let w = "multiple-choice quiz needs at least two answers"@;
    let x = "multiple-choice quiz has no correct answer"@;
    let y = "single-choice quiz must have exactly one correct answer"@;
    let z = "answer IDs must be unique"@;
    assert(w.len() == 47 && x.len() == 42 && y.len() == 55 && z.len() == 25);
    let correct = correct_count(answers);
    let a = if answers.len() < 2 {
        seq![w]
    } else {
        Seq::empty()
    };
    let b = if correct == 0 {
        seq![x]
    } else {
        Seq::empty()
    };
    let c = if mode == ChoiceMode::Single && correct != 1 {
        seq![y]
    } else {
        Seq::empty()
    };
    let d = if ids_unique(answers) {
        Seq::empty()
    } else {
        seq![z]
    };
    let errors = choice_errors(mode, answers);
    assert(errors == a + b + c + d);
    if answers.len() < 2 {
        assert(errors[0] == w);
    }
    if correct == 0 {
        assert(errors[a.len() as int] == x);
    }
    if mode == ChoiceMode::Single && correct != 1 {
        assert(errors[(a.len() + b.len()) as int] == y);
    }
    if !ids_unique(answers) {
        assert(errors[(a.len() + b.len() + c.len()) as int] == z);
    }
    assert forall|k: int| 0 <= k < errors.len() implies {
        ||| (#[trigger] errors[k]) == w && answers.len() < 2
        ||| errors[k] == x && correct == 0
        ||| errors[k] == y && mode == ChoiceMode::Single && correct != 1
        ||| errors[k] == z && !ids_unique(answers)
    } by {
        if k < a.len() {
            assert(errors[k] == a[k]);
        } else if k < a.len() + b.len() {
            assert(errors[k] == b[k - a.len()]);
        } else if k < a.len() + b.len() + c.len() {
            assert(errors[k] == c[k - a.len() - b.len()]);
        } else {
            assert(errors[k] == d[k - a.len() - b.len() - c.len()]);
        }
    }
}

} // verus!
