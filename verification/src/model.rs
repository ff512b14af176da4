//! The data of a vault: what a note holds, what a card asks, what a page lists.
//!
//! Paths are text here; reading and writing files is left to the program around
//! the library.

use vstd::prelude::*;
use vstd::string::*;

use crate::text::{opt_str_view, opt_view, text_eq, texts};

verus! {

// ---------------------------------------------------------------------------
// Clips
// ---------------------------------------------------------------------------

/// A moment in a video attached to a card.
///
/// Carried as fields rather than as markup, so that what draws a card builds the
/// embed itself.
#[derive(Debug)]
pub struct ClipRef {
    /// The watch URL, with any `t=` taken out into `start`.
    pub url: String,
    /// The YouTube id, when the URL is a YouTube one.
    pub video_id: Option<String>,
    pub start: u64,
    /// Absent means "play to the end".
    pub end: Option<u64>,
    pub label: Option<String>,
}

/// What a [`ClipRef`] says.
#[verifier::ext_equal]
pub struct ClipView {
    pub url: Seq<char>,
    pub video_id: Option<Seq<char>>,
    pub start: u64,
    pub end: Option<u64>,
    pub label: Option<Seq<char>>,
}

impl View for ClipRef {
    type V = ClipView;

    open spec fn view(&self) -> ClipView {
        ClipView {
            url: self.url@,
            video_id: opt_view(self.video_id),
            start: self.start,
            end: self.end,
            label: opt_view(self.label),
        }
    }
}

impl Clone for ClipRef {
    fn clone(&self) -> (r: Self)
        ensures
            r@ == self@,
    {
        ClipRef {
            url: self.url.clone(),
            video_id: clone_text(&self.video_id),
            start: self.start,
            end: self.end,
            label: clone_text(&self.label),
        }
    }
}

/// The view of an optional clip.
pub open spec fn clip_view(clip: Option<ClipRef>) -> Option<ClipView> {
    match clip {
        Some(c) => Some(c@),
        None => None,
    }
}

pub fn clone_text(s: &Option<String>) -> (r: Option<String>)
    ensures
        r == *s,
{
    match s {
        Some(text) => Some(text.clone()),
        None => None,
    }
}

pub fn clone_clip(clip: &Option<ClipRef>) -> (r: Option<ClipRef>)
    ensures
        clip_view(r) == clip_view(*clip),
{
    match clip {
        Some(c) => Some(c.clone()),
        None => None,
    }
}

/// Where a clip sits on a card, which decides what the card tests.
///
/// A clip beside the question is the stimulus; one shown on reveal is the evidence.
#[derive(Debug)]
pub struct CardClips {
    /// Shown with the question.
    pub prompt: Option<ClipRef>,
    /// Shown only after the answer is revealed.
    pub answer: Option<ClipRef>,
}

/// What [`CardClips`] holds.
#[verifier::ext_equal]
pub struct ClipsView {
    pub prompt: Option<ClipView>,
    pub answer: Option<ClipView>,
}

impl View for CardClips {
    type V = ClipsView;

    open spec fn view(&self) -> ClipsView {
        ClipsView { prompt: clip_view(self.prompt), answer: clip_view(self.answer) }
    }
}

impl Clone for CardClips {
    fn clone(&self) -> (r: Self)
        ensures
            r@ == self@,
    {
        CardClips { prompt: clone_clip(&self.prompt), answer: clone_clip(&self.answer) }
    }
}

impl Default for CardClips {
    fn default() -> (r: Self)
        ensures
            r@ == (ClipsView { prompt: None, answer: None }),
    {
        CardClips { prompt: None, answer: None }
    }
}

impl CardClips {
    pub fn is_empty(&self) -> (r: bool)
        ensures
            r == (self.prompt is None && self.answer is None),
    {
        self.prompt.is_none() && self.answer.is_none()
    }
}

// ---------------------------------------------------------------------------
// Quizzes
// ---------------------------------------------------------------------------

#[derive(Debug, Clone, Copy, PartialEq, Eq, Structural)]
pub enum ChoiceMode {
    Single,
    Multiple,
}

impl Default for ChoiceMode {
    fn default() -> (r: Self)
        ensures
            r == ChoiceMode::Single,
    {
        ChoiceMode::Single
    }
}

#[derive(Debug)]
pub struct ChoiceAnswer {
    pub id: Option<String>,
    pub text: String,
    pub correct: bool,
}

/// What a [`ChoiceAnswer`] says.
#[verifier::ext_equal]
pub struct AnswerView {
    pub id: Option<Seq<char>>,
    pub text: Seq<char>,
    pub correct: bool,
}

impl View for ChoiceAnswer {
    type V = AnswerView;

    open spec fn view(&self) -> AnswerView {
        AnswerView { id: opt_view(self.id), text: self.text@, correct: self.correct }
    }
}

impl Clone for ChoiceAnswer {
    fn clone(&self) -> (r: Self)
        ensures
            r@ == self@,
    {
        ChoiceAnswer {
            id: clone_text(&self.id),
            text: self.text.clone(),
            correct: self.correct,
        }
    }
}

/// The views of a list of answers.
pub open spec fn answers_view(v: Seq<ChoiceAnswer>) -> Seq<AnswerView> {
    Seq::new(v.len(), |i: int| v[i]@)
}

pub fn clone_answers(v: &Vec<ChoiceAnswer>) -> (r: Vec<ChoiceAnswer>)
    ensures
        answers_view(r@) == answers_view(v@),
{
    let mut r: Vec<ChoiceAnswer> = Vec::new();
    let mut i: usize = 0;
    while i < v.len()
        invariant
            0 <= i <= v.len(),
            r.len() == i,
            forall|j: int| 0 <= j < i ==> r@[j]@ == v@[j]@,
        decreases v.len() - i,
    {
        r.push(v[i].clone());
        i += 1;
    }
    assert(answers_view(r@) == answers_view(v@));
    r
}

/// How a typed answer is compared.
#[derive(Debug, Clone, Copy, PartialEq, Eq, Structural)]
pub struct MatchOptions {
    pub trim: bool,
    pub normalize_whitespace: bool,
    pub case_sensitive: bool,
}

impl Default for MatchOptions {
    fn default() -> (r: Self)
        ensures
            r == (MatchOptions { trim: true, normalize_whitespace: false, case_sensitive: true }),
    {
        MatchOptions { trim: true, normalize_whitespace: false, case_sensitive: true }
    }
}

#[derive(Debug)]
pub struct GapDefinition {
    pub answer: Option<String>,
    pub answers: Option<Vec<String>>,
    pub regex: Option<String>,
    pub options: MatchOptions,
}

/// What a [`GapDefinition`] says.
#[verifier::ext_equal]
pub struct GapView {
    pub answer: Option<Seq<char>>,
    pub answers: Option<Seq<Seq<char>>>,
    pub regex: Option<Seq<char>>,
    pub options: MatchOptions,
}

pub open spec fn opt_texts(v: Option<Vec<String>>) -> Option<Seq<Seq<char>>> {
    match v {
        Some(list) => Some(texts(list@)),
        None => None,
    }
}

impl View for GapDefinition {
    type V = GapView;

    open spec fn view(&self) -> GapView {
        GapView {
            answer: opt_view(self.answer),
            answers: opt_texts(self.answers),
            regex: opt_view(self.regex),
            options: self.options,
        }
    }
}

impl Clone for GapDefinition {
    fn clone(&self) -> (r: Self)
        ensures
            r@ == self@,
    {
        GapDefinition {
            answer: clone_text(&self.answer),
            answers: match &self.answers {
                Some(list) => Some(crate::text::clone_texts(list)),
                None => None,
            },
            regex: clone_text(&self.regex),
            options: self.options,
        }
    }
}

/// How a gap may be written: an answer, a list of answers, or all of it.
#[derive(Debug)]
pub enum GapSyntax {
    Answer(String),
    Answers(Vec<String>),
    Detailed(GapDefinition),
}

impl GapSyntax {
    /// The gap that was written.
    pub fn definition(self) -> (r: GapDefinition)
        ensures
            r@ == match self {
                GapSyntax::Answer(answer) => GapView {
                    answer: Some(answer@),
                    answers: None,
                    regex: None,
                    options: MatchOptions {
                        trim: true,
                        normalize_whitespace: false,
                        case_sensitive: true,
                    },
                },
                GapSyntax::Answers(answers) => GapView {
                    answer: None,
                    answers: Some(texts(answers@)),
                    regex: None,
                    options: MatchOptions {
                        trim: true,
                        normalize_whitespace: false,
                        case_sensitive: true,
                    },
                },
                GapSyntax::Detailed(gap) => gap@,
            },
    {
        match self {
            GapSyntax::Answer(answer) => GapDefinition {
                answer: Some(answer),
                answers: None,
                regex: None,
                options: MatchOptions::default(),
            },
            GapSyntax::Answers(answers) => GapDefinition {
                answer: None,
                answers: Some(answers),
                regex: None,
                options: MatchOptions::default(),
            },
            GapSyntax::Detailed(gap) => gap,
        }
    }
}

/// The gaps of a quiz, by name. No name occurs twice.
#[derive(Debug)]
pub struct Gaps {
    entries: Vec<(String, GapDefinition)>,
}

/// The views of named gaps.
pub open spec fn gaps_view(v: Seq<(String, GapDefinition)>) -> Seq<(Seq<char>, GapView)> {
    Seq::new(v.len(), |i: int| (v[i].0@, v[i].1@))
}

/// Whether no two gaps have the same name.
pub open spec fn named_once(gaps: Seq<(Seq<char>, GapView)>) -> bool {
    forall|i: int, j: int|
        0 <= i < j < gaps.len() ==> (#[trigger] gaps[i]).0 != (#[trigger] gaps[j]).0
}

/// The gaps once one is defined: it takes the place of the one with its name, or comes last.
pub open spec fn with_gap(gaps: Seq<(Seq<char>, GapView)>, name: Seq<char>, gap: GapView) -> Seq<
    (Seq<char>, GapView),
> {
    if exists|i: int| 0 <= i < gaps.len() && (#[trigger] gaps[i]).0 == name {
        Seq::new(
            gaps.len(),
            |i: int|
                if gaps[i].0 == name {
                    (name, gap)
                } else {
                    gaps[i]
                },
        )
    } else {
        gaps.push((name, gap))
    }
}

impl View for Gaps {
    type V = Seq<(String, GapDefinition)>;

    closed spec fn view(&self) -> Seq<(String, GapDefinition)> {
        self.entries@
    }
}

impl Gaps {
    #[verifier::type_invariant]
    spec fn well_formed(self) -> bool {
        named_once(gaps_view(self.entries@))
    }

    pub open spec fn spec_len(&self) -> usize {
        self@.len() as usize
    }

    /// No gaps.
    pub fn new() -> (r: Self)
        ensures
            r@ == Seq::<(String, GapDefinition)>::empty(),
    {
        Gaps { entries: Vec::new() }
    }

    #[verifier::when_used_as_spec(spec_len)]
    pub fn len(&self) -> (r: usize)
        ensures
            r == self@.len(),
            r == self.spec_len(),
    {
        self.entries.len()
    }

    /// The name of a gap. It is that of no other.
    pub fn name(&self, i: usize) -> (r: &str)
        requires
            i < self@.len(),
        ensures
            r@ == self@[i as int].0@,
            forall|j: int| 0 <= j < self@.len() && j != i ==> (#[trigger] self@[j]).0@ != r@,
    {
        proof {
            use_type_invariant(self);
            let views = gaps_view(self.entries@);
            assert forall|j: int| 0 <= j < self@.len() && j != i implies (#[trigger] self@[j]).0@
                != self@[i as int].0@ by {
                assert(views[j].0 != views[i as int].0);
            }
        }
        self.entries[i].0.as_str()
    }

    /// What fills a gap.
    pub fn gap(&self, i: usize) -> (r: &GapDefinition)
        requires
            i < self@.len(),
        ensures
            *r == self@[i as int].1,
    {
        &self.entries[i].1
    }

    /// Defines a gap, in place of the one with its name.
    pub fn insert(&mut self, name: String, gap: GapDefinition)
        ensures
            gaps_view(final(self)@) == with_gap(gaps_view(old(self)@), name@, gap@),
            named_once(gaps_view(final(self)@)),
    {
        proof {
            use_type_invariant(&*self);
        }
        let mut entries: Vec<(String, GapDefinition)> = Vec::new();
        std::mem::swap(&mut entries, &mut self.entries);
        let ghost before = gaps_view(entries@);
        let ghost view = (name@, gap@);
        let mut i: usize = 0;
        while i < entries.len() && !text_eq(entries[i].0.as_str(), name.as_str())
            invariant
                0 <= i <= entries.len(),
                before == gaps_view(entries@),
                forall|j: int| 0 <= j < i ==> (#[trigger] before[j]).0 != name@,
            decreases entries.len() - i,
        {
            assert(before[i as int].0 == entries@[i as int].0@);
            i += 1;
        }
        if i < entries.len() {
            assert(before[i as int].0 == entries@[i as int].0@);
            entries.set(i, (name, gap));
            proof {
                assert(gaps_view(entries@) == before.update(i as int, view));
                assert forall|j: int| 0 <= j < before.len() && j != i implies (
                #[trigger] before[j]).0 != view.0 by {
                    assert(before[i as int].0 == view.0);
                }
                assert(gaps_view(entries@) == with_gap(before, view.0, view.1));
            }
        } else {
            entries.push((name, gap));
            assert(gaps_view(entries@) == before.push(view));
        }
        self.entries = entries;
    }

    /// The gaps of a list; of two with the same name, the later.
    pub fn collect(list: Vec<(String, GapDefinition)>) -> (r: Self)
        ensures
            gaps_view(r@) == collected(gaps_view(list@)),
            named_once(gaps_view(r@)),
    {
        let ghost all = list@;
        let ghost views = gaps_view(all);
        let mut rest = list;
        let mut r = Gaps::new();
        let n: usize = rest.len();
        let mut i: usize = 0;
        assert(gaps_view(r@) == Seq::<(Seq<char>, GapView)>::empty());
        assert(views.take(0) == Seq::<(Seq<char>, GapView)>::empty());
        while i < n
            invariant
                0 <= i <= n,
                n == all.len(),
                views == gaps_view(all),
                rest@ == all.skip(i as int),
                gaps_view(r@) == collected(views.take(i as int)),
                named_once(gaps_view(r@)),
            decreases n - i,
        {
            let (name, gap) = rest.remove(0);
            assert(rest@ == all.skip(i + 1));
            assert(views.take(i + 1).drop_last() == views.take(i as int));
            assert(views.take(i + 1).last() == (name@, gap@));
            r.insert(name, gap);
            i += 1;
        }
        assert(views.take(n as int) == views);
        r
    }
}

/// The gaps of a list; of two with the same name, the later.
pub open spec fn collected(list: Seq<(Seq<char>, GapView)>) -> Seq<(Seq<char>, GapView)>
    decreases list.len(),
{
    if list.len() == 0 {
        Seq::empty()
    } else {
        with_gap(collected(list.drop_last()), list.last().0, list.last().1)
    }
}

pub fn clone_gaps(v: &Gaps) -> (r: Gaps)
    ensures
        gaps_view(r@) == gaps_view(v@),
{
    proof {
        use_type_invariant(v);
    }
    let mut entries: Vec<(String, GapDefinition)> = Vec::new();
    let mut i: usize = 0;
    while i < v.entries.len()
        invariant
            0 <= i <= v.entries.len(),
            entries.len() == i,
            forall|j: int|
                0 <= j < i ==> entries@[j].0@ == v.entries@[j].0@ && entries@[j].1@
                    == v.entries@[j].1@,
        decreases v.entries.len() - i,
    {
        entries.push((v.entries[i].0.clone(), v.entries[i].1.clone()));
        i += 1;
    }
    assert(gaps_view(entries@) == gaps_view(v@));
    Gaps { entries }
}

/// A quiz block as the author wrote it.
#[allow(inconsistent_fields)]
#[derive(Debug)]
pub enum QuizDefinition {
    Cloze { id: String, prompt: String, clip: Option<String>, prompt_clip: Option<String> },
    MultipleChoice {
        id: String,
        mode: ChoiceMode,
        question: String,
        answers: Vec<ChoiceAnswer>,
        explanation: Option<String>,
        clip: Option<String>,
        prompt_clip: Option<String>,
    },
    CodeGap {
        id: String,
        language: String,
        prompt: Option<String>,
        code: String,
        gaps: Gaps,
        clip: Option<String>,
        prompt_clip: Option<String>,
    },
}

impl QuizDefinition {
    pub open spec fn spec_id(self) -> Seq<char> {
        match self {
            QuizDefinition::Cloze { id, .. } => id@,
            QuizDefinition::MultipleChoice { id, .. } => id@,
            QuizDefinition::CodeGap { id, .. } => id@,
        }
    }

    /// The text behind `clip:`.
    pub open spec fn spec_clip(self) -> Option<Seq<char>> {
        match self {
            QuizDefinition::Cloze { clip, .. } => opt_view(clip),
            QuizDefinition::MultipleChoice { clip, .. } => opt_view(clip),
            QuizDefinition::CodeGap { clip, .. } => opt_view(clip),
        }
    }

    /// The text behind `prompt_clip:`.
    pub open spec fn spec_prompt_clip(self) -> Option<Seq<char>> {
        match self {
            QuizDefinition::Cloze { prompt_clip, .. } => opt_view(prompt_clip),
            QuizDefinition::MultipleChoice { prompt_clip, .. } => opt_view(prompt_clip),
            QuizDefinition::CodeGap { prompt_clip, .. } => opt_view(prompt_clip),
        }
    }

    pub fn id(&self) -> (r: &str)
        ensures
            r@ == self.spec_id(),
    {
        match self {
            QuizDefinition::Cloze { id, .. } => id.as_str(),
            QuizDefinition::MultipleChoice { id, .. } => id.as_str(),
            QuizDefinition::CodeGap { id, .. } => id.as_str(),
        }
    }

    /// The `clip:` and `prompt_clip:` texts, before parsing.
    pub fn clip_sources(&self) -> (r: (Option<&str>, Option<&str>))
        ensures
            opt_str_view(r.0) == self.spec_clip(),
            opt_str_view(r.1) == self.spec_prompt_clip(),
    {
        match self {
            QuizDefinition::Cloze { clip, prompt_clip, .. } => (
                borrow_text(clip),
                borrow_text(prompt_clip),
            ),
            QuizDefinition::MultipleChoice { clip, prompt_clip, .. } => (
                borrow_text(clip),
                borrow_text(prompt_clip),
            ),
            QuizDefinition::CodeGap { clip, prompt_clip, .. } => (
                borrow_text(clip),
                borrow_text(prompt_clip),
            ),
        }
    }
}

pub fn borrow_text(s: &Option<String>) -> (r: Option<&str>)
    ensures
        opt_str_view(r) == opt_view(*s),
{
    match s {
        Some(text) => Some(text.as_str()),
        None => None,
    }
}

// ---------------------------------------------------------------------------
// Cards
// ---------------------------------------------------------------------------

/// What a card shows.
#[allow(inconsistent_fields)]
#[derive(Debug)]
pub enum CardContent {
    Section { title: String, body: String },
    Cloze { prompt: String, cloze: u32, clips: CardClips },
    MultipleChoice {
        mode: ChoiceMode,
        question: String,
        answers: Vec<ChoiceAnswer>,
        explanation: Option<String>,
        clips: CardClips,
    },
    CodeGap {
        language: String,
        prompt: Option<String>,
        code: String,
        gaps: Gaps,
        clips: CardClips,
    },
}

/// What a [`CardContent`] says.
#[allow(inconsistent_fields)]
#[verifier::ext_equal]
pub enum ContentView {
    Section { title: Seq<char>, body: Seq<char> },
    Cloze { prompt: Seq<char>, cloze: u32, clips: ClipsView },
    MultipleChoice {
        mode: ChoiceMode,
        question: Seq<char>,
        answers: Seq<AnswerView>,
        explanation: Option<Seq<char>>,
        clips: ClipsView,
    },
    CodeGap {
        language: Seq<char>,
        prompt: Option<Seq<char>>,
        code: Seq<char>,
        gaps: Seq<(Seq<char>, GapView)>,
        clips: ClipsView,
    },
}

impl View for CardContent {
    type V = ContentView;

    open spec fn view(&self) -> ContentView {
        match self {
            CardContent::Section { title, body } => ContentView::Section {
                title: title@,
                body: body@,
            },
            CardContent::Cloze { prompt, cloze, clips } => ContentView::Cloze {
                prompt: prompt@,
                cloze: *cloze,
                clips: clips@,
            },
            CardContent::MultipleChoice { mode, question, answers, explanation, clips } =>
                ContentView::MultipleChoice {
                mode: *mode,
                question: question@,
                answers: answers_view(answers@),
                explanation: opt_view(*explanation),
                clips: clips@,
            },
            CardContent::CodeGap { language, prompt, code, gaps, clips } => ContentView::CodeGap {
                language: language@,
                prompt: opt_view(*prompt),
                code: code@,
                gaps: gaps_view(gaps@),
                clips: clips@,
            },
        }
    }
}

impl Clone for CardContent {
    fn clone(&self) -> (r: Self)
        ensures
            r@ == self@,
    {
        match self {
            CardContent::Section { title, body } => CardContent::Section {
                title: title.clone(),
                body: body.clone(),
            },
            CardContent::Cloze { prompt, cloze, clips } => CardContent::Cloze {
                prompt: prompt.clone(),
                cloze: *cloze,
                clips: clips.clone(),
            },
            CardContent::MultipleChoice { mode, question, answers, explanation, clips } =>
                CardContent::MultipleChoice {
                mode: *mode,
                question: question.clone(),
                answers: clone_answers(answers),
                explanation: clone_text(explanation),
                clips: clips.clone(),
            },
            CardContent::CodeGap { language, prompt, code, gaps, clips } => CardContent::CodeGap {
                language: language.clone(),
                prompt: clone_text(prompt),
                code: code.clone(),
                gaps: clone_gaps(gaps),
                clips: clips.clone(),
            },
        }
    }
}

impl CardContent {
    /// The clips on the card, where its kind has any.
    pub open spec fn spec_clips(self) -> Option<CardClips> {
        match self {
            CardContent::Section { .. } => None,
            CardContent::Cloze { clips, .. } => Some(clips),
            CardContent::MultipleChoice { clips, .. } => Some(clips),
            CardContent::CodeGap { clips, .. } => Some(clips),
        }
    }

    pub fn clips(&self) -> (r: Option<&CardClips>)
        ensures
            match (r, self.spec_clips()) {
                (Some(a), Some(b)) => *a == b,
                (None, None) => true,
                _ => false,
            },
    {
        match self {
            CardContent::Section { .. } => None,
            CardContent::Cloze { clips, .. } => Some(clips),
            CardContent::MultipleChoice { clips, .. } => Some(clips),
            CardContent::CodeGap { clips, .. } => Some(clips),
        }
    }
}

#[derive(Debug)]
pub struct CardDefinition {
    pub uid: String,
    pub section_uid: String,
    pub quiz_id: String,
    pub card_type: String,
    pub variant_key: String,
    pub content_hash: String,
    pub content: CardContent,
}

/// What a [`CardDefinition`] says.
#[verifier::ext_equal]
pub struct CardView {
    pub uid: Seq<char>,
    pub section_uid: Seq<char>,
    pub quiz_id: Seq<char>,
    pub card_type: Seq<char>,
    pub variant_key: Seq<char>,
    pub content_hash: Seq<char>,
    pub content: ContentView,
}

impl View for CardDefinition {
    type V = CardView;

    open spec fn view(&self) -> CardView {
        CardView {
            uid: self.uid@,
            section_uid: self.section_uid@,
            quiz_id: self.quiz_id@,
            card_type: self.card_type@,
            variant_key: self.variant_key@,
            content_hash: self.content_hash@,
            content: self.content@,
        }
    }
}

pub open spec fn cards_view(v: Seq<CardDefinition>) -> Seq<CardView> {
    Seq::new(v.len(), |i: int| v[i]@)
}

// ---------------------------------------------------------------------------
// Notes
// ---------------------------------------------------------------------------

/// An `@action` line: a jump the author declared on a section.
///
/// It carries a target rather than a command: there is no way to say "run this".
#[derive(Debug)]
pub struct ParsedAction {
    /// `file`, `video`, `app`, `project` or `url`.
    pub kind: String,
    /// A path, a URL or a desktop id; a path is absolute already.
    pub target: String,
    /// From `@file PATH:LINE`.
    pub line: Option<u32>,
    /// From `@video URL HH:MM:SS`, or lifted out of a URL that carried `t=`.
    pub timestamp_seconds: Option<u64>,
}

/// What a [`ParsedAction`] says.
#[verifier::ext_equal]
pub struct ActionView {
    pub kind: Seq<char>,
    pub target: Seq<char>,
    pub line: Option<u32>,
    pub timestamp_seconds: Option<u64>,
}

impl View for ParsedAction {
    type V = ActionView;

    open spec fn view(&self) -> ActionView {
        ActionView {
            kind: self.kind@,
            target: self.target@,
            line: self.line,
            timestamp_seconds: self.timestamp_seconds,
        }
    }
}

pub open spec fn actions_view(v: Seq<ParsedAction>) -> Seq<ActionView> {
    Seq::new(v.len(), |i: int| v[i]@)
}

#[derive(Debug)]
pub struct Relation {
    pub target_uid: String,
    pub relation_type: String,
    pub context: String,
}

/// What a [`Relation`] says.
#[verifier::ext_equal]
pub struct RelationView {
    pub target_uid: Seq<char>,
    pub relation_type: Seq<char>,
    pub context: Seq<char>,
}

impl View for Relation {
    type V = RelationView;

    open spec fn view(&self) -> RelationView {
        RelationView {
            target_uid: self.target_uid@,
            relation_type: self.relation_type@,
            context: self.context@,
        }
    }
}

pub open spec fn relations_view(v: Seq<Relation>) -> Seq<RelationView> {
    Seq::new(v.len(), |i: int| v[i]@)
}

/// Something in a note that its author should mend.
#[derive(Debug)]
pub struct Diagnostic {
    pub path: String,
    pub line: usize,
    pub message: String,
}

/// What a [`Diagnostic`] says.
#[verifier::ext_equal]
pub struct DiagnosticView {
    pub path: Seq<char>,
    pub line: usize,
    pub message: Seq<char>,
}

impl View for Diagnostic {
    type V = DiagnosticView;

    open spec fn view(&self) -> DiagnosticView {
        DiagnosticView { path: self.path@, line: self.line, message: self.message@ }
    }
}

pub open spec fn diagnostics_view(v: Seq<Diagnostic>) -> Seq<DiagnosticView> {
    Seq::new(v.len(), |i: int| v[i]@)
}

#[derive(Debug)]
pub struct ParsedSection {
    pub uid: String,
    pub parent_uid: Option<String>,
    pub heading: String,
    /// This heading and its ancestors, joined by
    /// [`crate::parser::HEADING_PATH_SEPARATOR`].
    pub heading_path: String,
    pub level: u32,
    pub start_byte: usize,
    pub end_byte: usize,
    pub start_line: usize,
    pub position: usize,
    pub body: String,
    pub relations: Vec<Relation>,
    pub cards: Vec<CardDefinition>,
    pub actions: Vec<ParsedAction>,
}

#[derive(Debug)]
pub struct ParsedNote {
    pub path: String,
    pub note_id: String,
    pub title: String,
    pub tags: Vec<String>,
    pub topic: Option<String>,
    pub pinned: bool,
    /// Front-matter `status:`: `current`, `draft`, `archived` or `obsolete`.
    pub status: Option<String>,
    pub created_at: i64,
    pub content_hash: String,
    pub modified_at: i64,
    pub sections: Vec<ParsedSection>,
    pub diagnostics: Vec<Diagnostic>,
}

// ---------------------------------------------------------------------------
// Rows
// ---------------------------------------------------------------------------

#[derive(Debug)]
pub struct SectionRow {
    pub uid: String,
    pub note_title: String,
    pub heading: String,
    /// This heading and its ancestors.
    pub heading_path: String,
    pub body: String,
    pub path: String,
    pub start_line: usize,
    /// The owning note's front-matter `status:`, for ranking.
    pub status: Option<String>,
}

/// Two sections that disagree, with nothing marking which one won.
#[derive(Debug)]
pub struct ContradictionPair {
    pub left_uid: String,
    pub left_heading: String,
    pub left_path: String,
    pub right_uid: String,
    pub right_heading: String,
    pub right_path: String,
}

/// An `@action` row as retrieval reads it back.
#[derive(Debug)]
pub struct ActionRow {
    pub section_uid: String,
    pub kind: String,
    pub target: String,
    pub line: Option<u32>,
    pub timestamp_seconds: Option<u64>,
}

#[derive(Debug)]
pub struct RelationRow {
    pub relation_type: String,
    pub target_uid: String,
    pub target_heading: Option<String>,
    pub incoming: bool,
}

#[derive(Debug)]
pub struct GraphNote {
    pub id: String,
    pub title: String,
    pub topic: Option<String>,
    pub path: String,
}

#[derive(Debug)]
pub struct GraphSection {
    pub uid: String,
    pub note_id: String,
    pub heading: String,
    pub parent_uid: Option<String>,
    pub level: u32,
    pub start_line: usize,
}

#[derive(Debug)]
pub struct GraphLink {
    pub source: String,
    pub target: String,
    pub relation_type: String,
}

#[derive(Debug)]
pub struct GraphData {
    pub notes: Vec<GraphNote>,
    pub sections: Vec<GraphSection>,
    pub links: Vec<GraphLink>,
}

#[derive(Debug, Clone, Copy, PartialEq, Eq, Structural)]
pub enum ReviewScope {
    All,
    Deck(i64),
    Deckless,
}

#[derive(Debug)]
pub struct NoteRow {
    pub title: String,
    pub topic: Option<String>,
    pub pinned: bool,
    pub created_at: i64,
    pub modified_at: i64,
    pub path: String,
}

#[derive(Debug)]
pub struct ReviewSectionRow {
    pub uid: String,
    pub note_title: String,
    pub heading: String,
    pub enrolled: bool,
}

#[derive(Debug)]
pub struct DeckRow {
    pub id: i64,
    pub name: String,
    pub card_count: usize,
}

#[derive(Debug)]
pub struct CardRow {
    pub id: i64,
    pub label: String,
    pub decks: Vec<i64>,
    pub section_uid: String,
    pub card_type: String,
}

#[derive(Debug)]
pub enum ArchivedItem {
    Note {
        note_id: String,
        title: String,
        path: String,
        section_count: usize,
        quiz_count: usize,
    },
    Section {
        uid: String,
        note_title: String,
        heading: String,
        path: String,
        start_line: usize,
        quiz_count: usize,
    },
    Quiz { section_uid: String, quiz_id: String, label: String, card_count: usize },
    Deck { id: i64, name: String, quiz_count: usize },
}

/// A review as a device reports it.
#[derive(Debug)]
pub struct ReviewEvent {
    pub event_id: String,
    pub device_id: String,
    pub card_uid: String,
    pub reviewed_at: i64,
    pub rating: u32,
    pub answer_correct: Option<bool>,
    pub response_ms: i64,
}

#[derive(Debug)]
pub struct MobileDeck {
    pub id: i64,
    pub name: String,
}

// ---------------------------------------------------------------------------
// What an editor can insert
// ---------------------------------------------------------------------------

#[derive(Debug)]
pub struct CardCapability {
    pub card_type: &'static str,
    pub label: &'static str,
    pub template: &'static str,
}

#[derive(Debug)]
pub struct RelationCapability {
    pub relation_type: &'static str,
    pub prefix: &'static str,
}

/// The card types an editor can offer, each with a template that is a valid quiz.
pub fn card_capabilities() -> (r: Vec<CardCapability>)
    ensures
        r.len() == 3,
        r[0].card_type@ == "cloze"@ && r[0].label@ == "Cloze"@ && r[0].template@
            == "```quiz\nid: ${id}\ntype: cloze\nprompt: |\n  Write the question with {{c1::the answer::an optional hint}}.\n# clip: URL 06:54-07:20  Optional label — shown on reveal.\n```"@,
        r[1].card_type@ == "multiple-choice"@ && r[1].label@ == "Multiple choice"@
            && r[1].template@
            == "```quiz\nid: ${id}\ntype: multiple-choice\nmode: single\nquestion: |\n  Write the question here.\nanswers:\n  - text: Correct answer\n    correct: true\n  - text: Distractor\n    correct: false\nexplanation: |\n  Explain why the answer is correct.\n# clip: URL 06:54-07:20  Optional label — shown on reveal.\n```"@,
        r[2].card_type@ == "code-gap"@ && r[2].label@ == "Code gap"@ && r[2].template@
            == "```quiz\nid: ${id}\ntype: code-gap\nlanguage: text\nprompt: |\n  Complete the code.\ncode: |\n  value = {{gap:answer}}\ngaps:\n  answer: replacement\n```"@,
{
    let mut r: Vec<CardCapability> = Vec::new();
    r.push(
        CardCapability {
            card_type: "cloze",
            label: "Cloze",
            template: "```quiz\nid: ${id}\ntype: cloze\nprompt: |\n  Write the question with {{c1::the answer::an optional hint}}.\n# clip: URL 06:54-07:20  Optional label — shown on reveal.\n```",
        },
    );
    r.push(
        CardCapability {
            card_type: "multiple-choice",
            label: "Multiple choice",
            template: "```quiz\nid: ${id}\ntype: multiple-choice\nmode: single\nquestion: |\n  Write the question here.\nanswers:\n  - text: Correct answer\n    correct: true\n  - text: Distractor\n    correct: false\nexplanation: |\n  Explain why the answer is correct.\n# clip: URL 06:54-07:20  Optional label — shown on reveal.\n```",
        },
    );
    r.push(
        CardCapability {
            card_type: "code-gap",
            label: "Code gap",
            template: "```quiz\nid: ${id}\ntype: code-gap\nlanguage: text\nprompt: |\n  Complete the code.\ncode: |\n  value = {{gap:answer}}\ngaps:\n  answer: replacement\n```",
        },
    );
    r
}

/// The relation types an editor can offer, each with the text that declares it.
pub fn relation_capabilities() -> (r: Vec<RelationCapability>)
    ensures
        r.len() == 5,
        r[0].relation_type@ == "related"@ && r[0].prefix@ == ""@,
        r[1].relation_type@ == "outgoing"@ && r[1].prefix@ == "outgoing:: "@,
        r[2].relation_type@ == "contradicts"@ && r[2].prefix@ == "contradicts:: "@,
        r[3].relation_type@ == "example-of"@ && r[3].prefix@ == "example-of:: "@,
        r[4].relation_type@ == "ingoing"@ && r[4].prefix@ == "ingoing:: "@,
{
    let mut r: Vec<RelationCapability> = Vec::new();
    r.push(RelationCapability { relation_type: "related", prefix: "" });
    r.push(RelationCapability { relation_type: "outgoing", prefix: "outgoing:: " });
    r.push(RelationCapability { relation_type: "contradicts", prefix: "contradicts:: " });
    r.push(RelationCapability { relation_type: "example-of", prefix: "example-of:: " });
    r.push(RelationCapability { relation_type: "ingoing", prefix: "ingoing:: " });
    r
}

// ---------------------------------------------------------------------------
// Laws
// ---------------------------------------------------------------------------

/// A gap that is defined is found under its name, in the place of an earlier one of that
/// name; all other gaps stay as they are.
pub proof fn a_gap_is_defined_under_its_name(
    gaps: Seq<(Seq<char>, GapView)>,
    name: Seq<char>,
    gap: GapView,
)
    requires
        named_once(gaps),
    ensures
        named_once(with_gap(gaps, name, gap)),
        with_gap(gaps, name, gap).contains((name, gap)),
        forall|i: int|
            0 <= i < gaps.len() && (#[trigger] gaps[i]).0 != name ==> with_gap(
                gaps,
                name,
                gap,
            )[i] == gaps[i],
        (exists|i: int| 0 <= i < gaps.len() && (#[trigger] gaps[i]).0 == name) ==> with_gap(
            gaps,
            name,
            gap,
        ).len() == gaps.len(),
        (forall|i: int| 0 <= i < gaps.len() ==> (#[trigger] gaps[i]).0 != name) ==> with_gap(
            gaps,
            name,
            gap,
        ).len() == gaps.len() + 1,
{
    let after = with_gap(gaps, name, gap);
    if exists|i: int| 0 <= i < gaps.len() && (#[trigger] gaps[i]).0 == name {
        let i = choose|i: int| 0 <= i < gaps.len() && (#[trigger] gaps[i]).0 == name;
        assert(after[i] == (name, gap));
    } else {
        assert(after[gaps.len() as int] == (name, gap));
    }
    assert forall|i: int, j: int| 0 <= i < j < after.len() implies (#[trigger] after[i]).0 != (
    #[trigger] after[j]).0 by {
        if j < gaps.len() {
            assert(gaps[i].0 != gaps[j].0);
        } else {
            assert(gaps[i].0 != name);
        }
    }
}

/// Of gaps that are defined one after another no two have the same name.
pub proof fn collected_gaps_are_named_once(list: Seq<(Seq<char>, GapView)>)
    ensures
        named_once(collected(list)),
    decreases list.len(),
{
    if list.len() > 0 {
        collected_gaps_are_named_once(list.drop_last());
        a_gap_is_defined_under_its_name(
            collected(list.drop_last()),
            list.last().0,
            list.last().1,
        );
    }
}

} // verus!
