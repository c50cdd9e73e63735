//! Reads the lyrics of a score in the order in which they are sung.
use vstd::prelude::*;
use crate::error::{Failure, FailureView};
use crate::text::{chars_of, same_text, string_from};
use crate::views;
use repeat::{Repeats, RepeatsBuilder, RepeatsView};
use syllable::{kind_of, Kind, Syllable, SyllableView};
use verse::{verses_of, Verses};
use xml::{attribute_among, child_of, child_text_of, children_of, number_of, tagged, Document,
    NodeView};

pub mod repeat;
pub mod syllable;
pub mod verse;
pub mod word;
pub mod xml;

verus! {

/// Ticks in a crotchet.
pub const CROTCHET: usize = 256;

/// Ticks in a minim: the rest after which a new phrase starts.
pub const MINIM: usize = 512;

/// A word as it is sung: from the tick `start` to the tick `end`.
#[derive(Debug, PartialEq, Eq)]
pub struct Word {
    pub start: usize,
    pub end: usize,
    pub text: String,
}

/// Words that are sung as one.
#[derive(Debug, PartialEq, Eq)]
pub struct Phrase {
    pub start: usize,
    pub end: usize,
    pub words: Vec<Word>,
}

/// The phrases of one part of the score.
#[derive(Debug, PartialEq, Eq)]
pub struct Part {
    pub phrases: Vec<Phrase>,
}

/// The lyrics of a score: the phrases of all its parts in the order of time.
#[derive(Debug, PartialEq, Eq)]
pub struct Music {
    pub title: Option<String>,
    pub phrases: Vec<Phrase>,
}

pub struct WordView {
    pub start: usize,
    pub end: usize,
    pub text: Seq<char>,
}

pub struct PhraseView {
    pub start: usize,
    pub end: usize,
    pub words: Seq<WordView>,
}

pub struct MusicView {
    pub title: Option<Seq<char>>,
    pub phrases: Seq<PhraseView>,
}

impl View for Word {
    type V = WordView;

    open spec fn view(&self) -> WordView {
        WordView { start: self.start, end: self.end, text: self.text@ }
    }
}

impl View for Phrase {
    type V = PhraseView;

    open spec fn view(&self) -> PhraseView {
        PhraseView { start: self.start, end: self.end, words: views(self.words@) }
    }
}

impl View for Part {
    type V = Seq<PhraseView>;

    open spec fn view(&self) -> Seq<PhraseView> {
        views(self.phrases@)
    }
}

impl View for Music {
    type V = MusicView;

    open spec fn view(&self) -> MusicView {
        MusicView {
            title: match self.title {
                Some(title) => Some(title@),
                None => None,
            },
            phrases: views(self.phrases@),
        }
    }
}

/// Where a phrase of another part goes among the phrases from `from` on:
/// onto the first phrase that it equals; else before the first phrase that
/// starts later and ends later; else, where `at` reaches the end, behind
/// them all.
pub open spec fn merge_at(phrases: Seq<PhraseView>, other: PhraseView, at: int) -> int
    decreases phrases.len() - at,
{
    if at < 0 || at >= phrases.len() {
        at
    } else if phrases[at] == other || (other.start < phrases[at].start && other.end
        < phrases[at].end) {
        at
    } else {
        merge_at(phrases, other, at + 1)
    }
}

/// The phrases once `other` is merged into those from `from` on, and from
/// where the next phrase of its part is to be merged.
pub open spec fn merged(phrases: Seq<PhraseView>, other: PhraseView, from: int) -> (
    Seq<PhraseView>,
    int,
) {
    let at = merge_at(phrases, other, from);
    if from < 0 || at >= phrases.len() {
        (phrases.push(other), (phrases.len() + 1) as int)
    } else if phrases[at] == other {
        (phrases, at)
    } else {
        (phrases.insert(at, other), at + 1)
    }
}

/// Whether two words are the same: sung at the same ticks, with the same
/// text.
fn same_word(a: &Word, b: &Word) -> (same: bool)
    ensures
        same == (a@ == b@),
{
    a.start == b.start && a.end == b.end && crate::text::same_text(a.text.as_str(), b.text.as_str())
}

/// Whether two phrases are the same, word for word.
fn same_phrase(a: &Phrase, b: &Phrase) -> (same: bool)
    ensures
        same == (a@ == b@),
{
    if a.start != b.start || a.end != b.end || a.words.len() != b.words.len() {
        assert(a@.words.len() == a.words.len() && b@.words.len() == b.words.len());
        return false;
    }
    let mut k: usize = 0;
    while k < a.words.len()
        invariant
            k <= a.words.len(),
            a.words.len() == b.words.len(),
            a.start == b.start,
            a.end == b.end,
            forall|i: int| 0 <= i < k ==> a.words@[i]@ == b.words@[i]@,
        decreases a.words.len() - k,
    {
        if !same_word(&a.words[k], &b.words[k]) {
            assert(a@.words[k as int] == a.words@[k as int]@);
            assert(b@.words[k as int] == b.words@[k as int]@);
            return false;
        }
        k += 1;
    }
    assert(a@.words =~= b@.words);
    true
}

impl Part {
    /// Merges a phrase of another part into the phrases from `from` on, and
    /// tells from where the next phrase of that part is to be merged.
    pub fn merge(&mut self, other: Phrase, from: usize) -> (next: usize)
        ensures
            final(self)@ == merged(old(self)@, other@, from as int).0,
            next == merged(old(self)@, other@, from as int).1,
    {
        let mut index: usize = from;
        while index < self.phrases.len()
            invariant
                *self == *old(self),
                from <= index,
                merge_at(self@, other@, from as int) == merge_at(self@, other@, index as int),
            decreases self.phrases.len() - index,
        {
            assert(self@[index as int] == self.phrases@[index as int]@);
            if same_phrase(&self.phrases[index], &other) {
                return index;
            }
            if other.start < self.phrases[index].start && other.end < self.phrases[index].end {
                proof {
                    assert(views(self.phrases@.insert(index as int, other)) =~= views(
                        self.phrases@,
                    ).insert(index as int, other@));
                }
                self.phrases.insert(index, other);
                return index + 1;
            }
            index += 1;
        }
        proof {
            crate::lemma_views_push(self.phrases@, other);
        }
        self.phrases.push(other);
        self.phrases.len()
    }
}

/// What comes of taking the items one after another, each by `step`, from
/// `state` on; the first failure ends it.
pub open spec fn fold<S>(
    state: Result<S, FailureView>,
    items: Seq<int>,
    step: spec_fn(S, int) -> Result<S, FailureView>,
) -> Result<S, FailureView>
    decreases items.len(),
{
    if items.len() == 0 {
        state
    } else {
        match fold(state, items.drop_last(), step) {
            Ok(before) => step(before, items.last()),
            Err(failure) => Err(failure),
        }
    }
}

pub proof fn lemma_fold_next<S>(
    state: Result<S, FailureView>,
    items: Seq<int>,
    step: spec_fn(S, int) -> Result<S, FailureView>,
    k: int,
)
    requires
        0 <= k < items.len(),
    ensures
        fold(state, items.take(k + 1), step) == match fold(state, items.take(k), step) {
            Ok(before) => step(before, items[k]),
            Err(failure) => Err(failure),
        },
{
    assert(items.take(k + 1).drop_last() =~= items.take(k));
}

pub proof fn lemma_fold_failed<S>(
    state: Result<S, FailureView>,
    items: Seq<int>,
    step: spec_fn(S, int) -> Result<S, FailureView>,
    k: int,
)
    requires
        0 <= k <= items.len(),
        fold(state, items.take(k), step) is Err,
    ensures
        fold(state, items, step) == fold(state, items.take(k), step),
    decreases items.len() - k,
{
    if k == items.len() {
        assert(items.take(k) =~= items);
    } else {
        lemma_fold_next(state, items, step, k);
        lemma_fold_failed(state, items, step, k + 1);
    }
}

/// Whether a text ends with another.
pub open spec fn ends_with(text: Seq<char>, end: Seq<char>) -> bool {
    text.len() >= end.len() && text.skip(text.len() - end.len()) == end
}

/// The verse that the attribute `number` of a lyric names, counted from
/// zero: the chorus is sung with the first verse. A bar holds the lyrics of
/// three verses.
pub open spec fn lyric_verse(number: Seq<char>) -> Option<usize> {
    if ends_with(number, "verse1"@) || ends_with(number, "chorus"@) {
        Some(0)
    } else if ends_with(number, "verse2"@) {
        Some(1)
    } else if ends_with(number, "verse3"@) {
        Some(2)
    } else {
        None
    }
}

/// The attribute `name` of the element at `node`, which must have it.
pub open spec fn attribute_in(nodes: Seq<NodeView>, node: int, name: Seq<char>) -> Result<
    Seq<char>,
    FailureView,
> {
    match attribute_among(nodes[node].attributes, name) {
        Some(value) => Ok(value),
        None => Err(FailureView::MissingAttribute { element: nodes[node].name, name }),
    }
}

/// The text of the child `name` of the element at `node`, which must have
/// it.
pub open spec fn text_in(nodes: Seq<NodeView>, node: int, name: Seq<char>) -> Result<
    Seq<char>,
    FailureView,
> {
    match child_text_of(nodes, node, name) {
        Some(text) => Ok(text),
        None => Err(FailureView::MissingChild { element: nodes[node].name, name }),
    }
}

/// The ticks that the element at `node` lasts: the number in its child
/// `duration`.
pub open spec fn duration_in(nodes: Seq<NodeView>, node: int) -> Result<usize, FailureView> {
    match text_in(nodes, node, "duration"@) {
        Err(failure) => Err(failure),
        Ok(text) => match number_of(text) {
            Some(ticks) => Ok(ticks),
            None => Err(
                FailureView::Invalid {
                    element: nodes[node].name,
                    name: "duration"@,
                    value: text,
                },
            ),
        },
    }
}

/// The number of the measure at `node`.
pub open spec fn number_in(nodes: Seq<NodeView>, node: int) -> Result<usize, FailureView> {
    match attribute_in(nodes, node, "number"@) {
        Err(failure) => Err(failure),
        Ok(text) => match number_of(text) {
            Some(number) => Ok(number),
            None => Err(
                FailureView::Invalid { element: nodes[node].name, name: "number"@, value: text },
            ),
        },
    }
}

/// The set of verses that the ending at `node` is for.
pub open spec fn verses_in(nodes: Seq<NodeView>, node: int) -> Result<Verses, FailureView> {
    match attribute_in(nodes, node, "number"@) {
        Err(failure) => Err(failure),
        Ok(number) => match verses_of(number) {
            Some(verses) => Ok(verses),
            None => Err(
                FailureView::Invalid { element: "ending"@, name: "number"@, value: number },
            ),
        },
    }
}

/// Whether the note at `node` takes no time of its own: a note of a chord
/// or a grace note.
pub open spec fn timeless(nodes: Seq<NodeView>, node: int) -> bool {
    child_of(nodes, node, "chord"@) is Some || child_of(nodes, node, "grace"@) is Some
}

/// Whether an element of a measure is one that the reader passes over.
pub open spec fn passed_over(node: NodeView) -> bool {
    node.name == "attributes"@ || node.name == "direction"@ || node.name == "harmony"@
        || node.name == "print"@
}

pub open spec fn moved_on(builder: repeat::BuilderView, ticks: usize) -> Result<
    repeat::BuilderView,
    FailureView,
> {
    if builder.duration + ticks > usize::MAX {
        Err(FailureView::Overflow)
    } else {
        Ok(builder.forward(ticks))
    }
}

pub open spec fn moved_back(builder: repeat::BuilderView, ticks: usize) -> Result<
    repeat::BuilderView,
    FailureView,
> {
    if ticks > builder.duration {
        Err(FailureView::Overflow)
    } else {
        Ok(builder.backward(ticks))
    }
}

/// What the child `repeat` of the barline at `barline` tells the builder: a
/// repeat in the direction `direction`, which starts one on the left of a
/// bar and ends one on its right.
pub open spec fn line_repeat(
    builder: repeat::BuilderView,
    nodes: Seq<NodeView>,
    barline: int,
    left: bool,
) -> Result<repeat::BuilderView, FailureView> {
    match child_of(nodes, barline, "repeat"@) {
        None => Ok(builder),
        Some(node) => match attribute_in(nodes, node, "direction"@) {
            Err(failure) => Err(failure),
            Ok(direction) => if left && direction == "forward"@ {
                builder.repeat_start()
            } else if !left && direction == "backward"@ {
                builder.repeat_end()
            } else {
                Err(
                    FailureView::Invalid {
                        element: nodes[node].name,
                        name: "direction"@,
                        value: direction,
                    },
                )
            },
        },
    }
}

/// What the child `ending` of the barline at `barline` tells the builder:
/// on the left of a bar an ending that starts, on its right one that stops,
/// or that is discontinued and so the last.
pub open spec fn line_ending(
    builder: repeat::BuilderView,
    nodes: Seq<NodeView>,
    barline: int,
    left: bool,
) -> Result<repeat::BuilderView, FailureView> {
    match child_of(nodes, barline, "ending"@) {
        None => Ok(builder),
        Some(node) => match attribute_in(nodes, node, "type"@) {
            Err(failure) => Err(failure),
            Ok(kind) => if (left && kind == "start"@) || (!left && (kind == "stop"@ || kind
                == "discontinue"@)) {
                match verses_in(nodes, node) {
                    Err(failure) => Err(failure),
                    Ok(verses) => if left {
                        builder.ending_start(verses)
                    } else {
                        builder.ending_end(verses, kind == "discontinue"@)
                    },
                }
            } else {
                Err(FailureView::Invalid { element: nodes[node].name, name: "type"@, value: kind })
            },
        },
    }
}

/// What the barline at `barline` tells the builder. On the left of a bar a
/// repeat starts before an ending does; on its right an ending ends before
/// a repeat does. A barline without a place tells nothing.
pub open spec fn bar_line(builder: repeat::BuilderView, nodes: Seq<NodeView>, barline: int) -> Result<
    repeat::BuilderView,
    FailureView,
> {
    match attribute_among(nodes[barline].attributes, "location"@) {
        None => Ok(builder),
        Some(location) => if location == "left"@ {
            match line_repeat(builder, nodes, barline, true) {
                Ok(after) => line_ending(after, nodes, barline, true),
                Err(failure) => Err(failure),
            }
        } else if location == "right"@ {
            match line_ending(builder, nodes, barline, false) {
                Ok(after) => line_repeat(after, nodes, barline, false),
                Err(failure) => Err(failure),
            }
        } else {
            Err(
                FailureView::Invalid {
                    element: nodes[barline].name,
                    name: "location"@,
                    value: location,
                },
            )
        },
    }
}

/// What one node of a measure tells the builder of repeats.
pub open spec fn bar_item(builder: repeat::BuilderView, nodes: Seq<NodeView>, node: int) -> Result<
    repeat::BuilderView,
    FailureView,
> {
    let item = nodes[node];
    if !item.element || passed_over(item) {
        Ok(builder)
    } else if item.name == "backup"@ {
        match duration_in(nodes, node) {
            Ok(ticks) => moved_back(builder, ticks),
            Err(failure) => Err(failure),
        }
    } else if item.name == "barline"@ {
        bar_line(builder, nodes, node)
    } else if item.name == "forward"@ {
        match duration_in(nodes, node) {
            Ok(ticks) => moved_on(builder, ticks),
            Err(failure) => Err(failure),
        }
    } else if item.name == "note"@ {
        if timeless(nodes, node) {
            Ok(builder)
        } else {
            match duration_in(nodes, node) {
                Ok(ticks) => moved_on(builder, ticks),
                Err(failure) => Err(failure),
            }
        }
    } else {
        Err(FailureView::Unexpected { parent: "measure"@, found: item.name })
    }
}

pub open spec fn bar_step(nodes: Seq<NodeView>) -> spec_fn(repeat::BuilderView, int) -> Result<
    repeat::BuilderView,
    FailureView,
> {
    |builder: repeat::BuilderView, node: int| bar_item(builder, nodes, node)
}

/// What one node of the first part tells of the score's bars: a measure
/// starts the next bar, or the first, and then tells what it holds.
pub open spec fn bars_item(
    builder: Option<repeat::BuilderView>,
    nodes: Seq<NodeView>,
    node: int,
) -> Result<Option<repeat::BuilderView>, FailureView> {
    let item = nodes[node];
    if !item.element {
        Ok(builder)
    } else if item.name != "measure"@ {
        Err(FailureView::Unexpected { parent: "part"@, found: item.name })
    } else {
        match number_in(nodes, node) {
            Err(failure) => Err(failure),
            Ok(number) => {
                let started = match builder {
                    Some(builder) => builder.next(number),
                    None => Ok(repeat::BuilderView::new(number)),
                };
                match started {
                    Err(failure) => Err(failure),
                    Ok(builder) => match fold(
                        Ok(builder),
                        children_of(nodes, node),
                        bar_step(nodes),
                    ) {
                        Ok(builder) => Ok(Some(builder)),
                        Err(failure) => Err(failure),
                    },
                }
            },
        }
    }
}

pub open spec fn bars_step(nodes: Seq<NodeView>) -> spec_fn(Option<repeat::BuilderView>, int) -> Result<
    Option<repeat::BuilderView>,
    FailureView,
> {
    |builder: Option<repeat::BuilderView>, node: int| bars_item(builder, nodes, node)
}

/// The bars of the score, resolved, as the part at `part` has them.
pub open spec fn bars_in(nodes: Seq<NodeView>, part: int) -> Result<RepeatsView, FailureView> {
    match fold(Ok(None), children_of(nodes, part), bars_step(nodes)) {
        Err(failure) => Err(failure),
        Ok(None) => Err(FailureView::NoBars),
        Ok(Some(builder)) => builder.build(),
    }
}

/// The state of the reader of lyrics.
pub struct BuilderView {
    pub title: Option<Seq<char>>,
    pub repeats: RepeatsView,
    /// The number that the next bar must have.
    pub next_number: usize,
    /// The position in the bar that is being read.
    pub bar_tick: usize,
    pub syllables: syllable::BuilderView,
    /// The phrases of the parts that are read and have lyrics.
    pub parts: Seq<Seq<PhraseView>>,
}

/// The phrases once those of another part are merged into them, one after
/// another, each from where the one before it went.
pub open spec fn merged_part(state: (Seq<PhraseView>, int), part: Seq<PhraseView>) -> (
    Seq<PhraseView>,
    int,
)
    decreases part.len(),
{
    if part.len() == 0 {
        state
    } else {
        let before = merged_part(state, part.drop_last());
        merged(before.0, part.last(), before.1)
    }
}

/// The phrases once those of the other parts are merged into them, part
/// after part.
pub open spec fn merged_parts(state: (Seq<PhraseView>, int), parts: Seq<Seq<PhraseView>>) -> (
    Seq<PhraseView>,
    int,
)
    decreases parts.len(),
{
    if parts.len() == 0 {
        state
    } else {
        merged_part(merged_parts(state, parts.drop_last()), parts.last())
    }
}

impl BuilderView {
    pub open spec fn new(repeats: RepeatsView) -> BuilderView {
        BuilderView {
            title: None,
            repeats,
            next_number: repeats.first_bar_number,
            bar_tick: 0,
            syllables: syllable::BuilderView::new(),
            parts: Seq::empty(),
        }
    }

    pub open spec fn wf(self) -> bool {
        self.syllables.wf()
    }

    /// A part ends: its phrases, where it has lyrics, join those of the
    /// parts before it.
    pub open spec fn part_end(self) -> Result<BuilderView, FailureView> {
        match self.syllables.part(self.repeats) {
            Err(failure) => Err(failure),
            Ok(part) => Ok(
                BuilderView {
                    next_number: self.repeats.first_bar_number,
                    bar_tick: 0,
                    syllables: syllable::BuilderView::new(),
                    parts: match part {
                        Some(phrases) => self.parts.push(phrases),
                        None => self.parts,
                    },
                    ..self
                },
            ),
        }
    }

    /// A bar starts; it must have the next number.
    pub open spec fn bar_start(self, number: usize) -> Result<BuilderView, FailureView> {
        if number != self.next_number {
            Err(FailureView::UnexpectedBar { number, expected: self.next_number })
        } else if number == usize::MAX {
            Err(FailureView::Overflow)
        } else {
            Ok(
                BuilderView {
                    next_number: (number + 1) as usize,
                    bar_tick: 0,
                    syllables: self.syllables.bar_start(),
                    ..self
                },
            )
        }
    }

    pub open spec fn forward(self, ticks: usize) -> Result<BuilderView, FailureView> {
        if self.bar_tick + ticks > usize::MAX {
            Err(FailureView::Overflow)
        } else {
            Ok(BuilderView { bar_tick: (self.bar_tick + ticks) as usize, ..self })
        }
    }

    pub open spec fn backward(self, ticks: usize) -> Result<BuilderView, FailureView> {
        if ticks > self.bar_tick {
            Err(FailureView::Overflow)
        } else {
            Ok(BuilderView { bar_tick: (self.bar_tick - ticks) as usize, ..self })
        }
    }

    /// A syllable of `ticks` ticks at the position in the bar.
    pub open spec fn lyric(self, verse: usize, kind: Kind, text: Seq<char>, ticks: usize) -> Result<
        BuilderView,
        FailureView,
    > {
        if self.bar_tick + ticks > usize::MAX {
            Err(FailureView::Overflow)
        } else {
            Ok(
                BuilderView {
                    syllables: self.syllables.lyric(
                        verse,
                        SyllableView {
                            start: self.bar_tick,
                            end: (self.bar_tick + ticks) as usize,
                            kind,
                            text,
                        },
                    ),
                    ..self
                },
            )
        }
    }

    /// The lyrics of the score: the phrases of the first part that has
    /// lyrics with those of the other parts merged into them; nothing where
    /// no part has lyrics.
    pub open spec fn build(self) -> Option<MusicView> {
        if self.parts.len() == 0 {
            None
        } else {
            Some(
                MusicView {
                    title: self.title,
                    phrases: merged_parts((self.parts[0], 0), self.parts.skip(1)).0,
                },
            )
        }
    }
}

/// What one lyric of the note at `note` tells the reader; other nodes of
/// the note tell nothing.
pub open spec fn note_item(
    builder: BuilderView,
    nodes: Seq<NodeView>,
    note: int,
    ticks: usize,
    node: int,
) -> Result<BuilderView, FailureView> {
    if !tagged(nodes[node], "lyric"@) {
        Ok(builder)
    } else {
        match text_in(nodes, note, "voice"@) {
            Err(failure) => Err(failure),
            Ok(voice) => if number_of(voice) is None || number_of(voice) == Some(0usize) {
                Err(
                    FailureView::Invalid {
                        element: nodes[note].name,
                        name: "voice"@,
                        value: voice,
                    },
                )
            } else {
                match attribute_in(nodes, node, "number"@) {
                    Err(failure) => Err(failure),
                    Ok(number) => match lyric_verse(number) {
                        None => Err(
                            FailureView::Invalid {
                                element: nodes[node].name,
                                name: "number"@,
                                value: number,
                            },
                        ),
                        Some(verse) => match text_in(nodes, node, "text"@) {
                            Err(failure) => Err(failure),
                            Ok(text) => match text_in(nodes, node, "syllabic"@) {
                                Err(failure) => Err(failure),
                                Ok(syllabic) => match kind_of(syllabic) {
                                    None => Err(
                                        FailureView::Invalid {
                                            element: "lyric"@,
                                            name: "syllabic"@,
                                            value: syllabic,
                                        },
                                    ),
                                    Some(kind) => builder.lyric(verse, kind, text, ticks),
                                },
                            },
                        },
                    },
                }
            },
        }
    }
}

pub open spec fn note_step(nodes: Seq<NodeView>, note: int, ticks: usize) -> spec_fn(
    BuilderView,
    int,
) -> Result<BuilderView, FailureView> {
    |builder: BuilderView, node: int| note_item(builder, nodes, note, ticks, node)
}

/// What the note at `note` tells the reader: its lyrics, and then its time.
pub open spec fn part_note(builder: BuilderView, nodes: Seq<NodeView>, note: int) -> Result<
    BuilderView,
    FailureView,
> {
    if timeless(nodes, note) {
        Ok(builder)
    } else {
        match duration_in(nodes, note) {
            Err(failure) => Err(failure),
            Ok(ticks) => match fold(
                Ok(builder),
                children_of(nodes, note),
                note_step(nodes, note, ticks),
            ) {
                Err(failure) => Err(failure),
                Ok(after) => after.forward(ticks),
            },
        }
    }
}

/// What one node of a measure tells the reader of lyrics.
pub open spec fn part_item(builder: BuilderView, nodes: Seq<NodeView>, node: int) -> Result<
    BuilderView,
    FailureView,
> {
    let item = nodes[node];
    if !item.element || passed_over(item) || item.name == "barline"@ {
        Ok(builder)
    } else if item.name == "backup"@ {
        match duration_in(nodes, node) {
            Ok(ticks) => builder.backward(ticks),
            Err(failure) => Err(failure),
        }
    } else if item.name == "forward"@ {
        match duration_in(nodes, node) {
            Ok(ticks) => builder.forward(ticks),
            Err(failure) => Err(failure),
        }
    } else if item.name == "note"@ {
        part_note(builder, nodes, node)
    } else {
        Err(FailureView::Unexpected { parent: "measure"@, found: item.name })
    }
}

pub open spec fn part_step(nodes: Seq<NodeView>) -> spec_fn(BuilderView, int) -> Result<
    BuilderView,
    FailureView,
> {
    |builder: BuilderView, node: int| part_item(builder, nodes, node)
}

/// What one node of a part tells the reader of lyrics: a measure starts a
/// bar and then tells what it holds.
pub open spec fn measure_item(builder: BuilderView, nodes: Seq<NodeView>, node: int) -> Result<
    BuilderView,
    FailureView,
> {
    let item = nodes[node];
    if !item.element {
        Ok(builder)
    } else if item.name != "measure"@ {
        Err(FailureView::Unexpected { parent: "part"@, found: item.name })
    } else {
        match number_in(nodes, node) {
            Err(failure) => Err(failure),
            Ok(number) => match builder.bar_start(number) {
                Err(failure) => Err(failure),
                Ok(started) => fold(Ok(started), children_of(nodes, node), part_step(nodes)),
            },
        }
    }
}

pub open spec fn measure_step(nodes: Seq<NodeView>) -> spec_fn(BuilderView, int) -> Result<
    BuilderView,
    FailureView,
> {
    |builder: BuilderView, node: int| measure_item(builder, nodes, node)
}

/// What one node of the score tells the reader of lyrics: a part tells its
/// measures and then ends.
pub open spec fn score_item(builder: BuilderView, nodes: Seq<NodeView>, node: int) -> Result<
    BuilderView,
    FailureView,
> {
    if !tagged(nodes[node], "part"@) {
        Ok(builder)
    } else {
        match fold(Ok(builder), children_of(nodes, node), measure_step(nodes)) {
            Err(failure) => Err(failure),
            Ok(after) => after.part_end(),
        }
    }
}

pub open spec fn score_step(nodes: Seq<NodeView>) -> spec_fn(BuilderView, int) -> Result<
    BuilderView,
    FailureView,
> {
    |builder: BuilderView, node: int| score_item(builder, nodes, node)
}

/// The first of the nodes `among` that is an element.
pub open spec fn first_element(nodes: Seq<NodeView>, among: Seq<int>) -> Option<int>
    decreases among.len(),
{
    if among.len() == 0 {
        None
    } else if first_element(nodes, among.drop_last()) is Some {
        first_element(nodes, among.drop_last())
    } else if nodes[among.last()].element {
        Some(among.last())
    } else {
        None
    }
}

/// The title of the score whose root is at `root`: the text that the
/// element `work-title` of its element `work` starts with.
pub open spec fn title_in(nodes: Seq<NodeView>, root: int) -> Option<Seq<char>> {
    match child_of(nodes, root, "work"@) {
        None => None,
        Some(work) => match child_of(nodes, work, "work-title"@) {
            None => None,
            Some(title) => nodes[title].text,
        },
    }
}

/// The lyrics of the score that the nodes are. The root of the document
/// must be a `score-partwise` with a part. Its first part gives the bars
/// and their repeats; every part gives its lyrics.
pub open spec fn music_of(nodes: Seq<NodeView>) -> Result<Option<MusicView>, FailureView> {
    if nodes.len() == 0 {
        Err(FailureView::Unexpected { parent: Seq::empty(), found: Seq::empty() })
    } else {
        match first_element(nodes, children_of(nodes, 0)) {
            None => Err(FailureView::Unexpected { parent: Seq::empty(), found: Seq::empty() }),
            Some(root) => if nodes[root].name != "score-partwise"@ {
                Err(FailureView::Unexpected { parent: Seq::empty(), found: nodes[root].name })
            } else {
                match child_of(nodes, root, "part"@) {
                    None => Err(FailureView::NoParts),
                    Some(part) => match bars_in(nodes, part) {
                        Err(failure) => Err(failure),
                        Ok(repeats) => match fold(
                            Ok(
                                BuilderView {
                                    title: title_in(nodes, root),
                                    ..BuilderView::new(repeats)
                                },
                            ),
                            children_of(nodes, root),
                            score_step(nodes),
                        ) {
                            Err(failure) => Err(failure),
                            Ok(builder) => Ok(builder.build()),
                        },
                    },
                }
            },
        }
    }
}

/// What a step of a reader came to: where the model gives a state, the
/// reader is in it; where it gives a failure, that failure is returned.
pub open spec fn outcome<S>(
    result: Result<(), Failure>,
    after: S,
    expect: Result<S, FailureView>,
) -> bool {
    match expect {
        Ok(state) => result is Ok && after == state,
        Err(failure) => result is Err && result->Err_0@ == failure,
    }
}

/// What a reading gave: the value that the model gives, or its failure.
pub open spec fn reading<T>(result: Result<T, Failure>, expect: Result<T, FailureView>) -> bool {
    match expect {
        Ok(value) => result is Ok && result->Ok_0 == value,
        Err(failure) => result is Err && result->Err_0@ == failure,
    }
}

/// A text that was read, or why it could not be.
pub open spec fn reading_text(result: Result<&str, Failure>, expect: Result<Seq<char>, FailureView>) -> bool {
    match expect {
        Ok(value) => result is Ok && result->Ok_0@ == value,
        Err(failure) => result is Err && result->Err_0@ == failure,
    }
}

/// Whether a text ends with another.
fn ends(text: &str, end: &str) -> (b: bool)
    ensures
        b == ends_with(text@, end@),
{
    let all = chars_of(text);
    let last = chars_of(end);
    if all.len() < last.len() {
        return false;
    }
    let from = all.len() - last.len();
    let mut k: usize = 0;
    while k < last.len()
        invariant
            k <= last.len(),
            from + last.len() == all.len(),
            all@ == text@,
            last@ == end@,
            forall|i: int| 0 <= i < k ==> all@[from + i] == last@[i],
        decreases last.len() - k,
    {
        if all[from + k] != last[k] {
            assert(text@.skip(from as int)[k as int] != end@[k as int]);
            return false;
        }
        k += 1;
    }
    assert(text@.skip(from as int) =~= end@);
    true
}

/// The verse that the attribute `number` of a lyric names.
fn verse_of(number: &str) -> (verse: Option<usize>)
    ensures
        verse == lyric_verse(number@),
{
    if ends(number, "verse1") || ends(number, "chorus") {
        Some(0)
    } else if ends(number, "verse2") {
        Some(1)
    } else if ends(number, "verse3") {
        Some(2)
    } else {
        None
    }
}

/// A copy of a text.
fn owned(text: &str) -> (copy: String)
    ensures
        copy@ == text@,
{
    string_from(&chars_of(text))
}

/// The attribute `name` of the element at `node`, which must have it.
fn attribute<'a>(doc: &'a Document, node: usize, name: &str) -> (r: Result<&'a str, Failure>)
    requires
        node < doc@.len(),
    ensures
        reading_text(r, attribute_in(doc@, node as int, name@)),
{
    match doc.attribute(node, name) {
        Some(value) => Ok(value),
        None => Err(
            Failure::MissingAttribute {
                element: doc.node(node).name.clone(),
                name: owned(name),
            },
        ),
    }
}

/// The text of the child `name` of the element at `node`, which must have
/// it.
fn child_element_text<'a>(doc: &'a Document, node: usize, name: &str) -> (r: Result<
    &'a str,
    Failure,
>)
    requires
        node < doc@.len(),
    ensures
        reading_text(r, text_in(doc@, node as int, name@)),
{
    match doc.child_element_text(node, name) {
        Some(text) => Ok(text),
        None => Err(
            Failure::MissingChild { element: doc.node(node).name.clone(), name: owned(name) },
        ),
    }
}

/// The ticks that the element at `node` lasts.
fn duration_of(doc: &Document, node: usize) -> (r: Result<usize, Failure>)
    requires
        node < doc@.len(),
    ensures
        reading(r, duration_in(doc@, node as int)),
{
    let text = match child_element_text(doc, node, "duration") {
        Ok(text) => text,
        Err(failure) => {
            return Err(failure);
        },
    };
    match xml::number(text) {
        Some(ticks) => Ok(ticks),
        None => Err(
            Failure::Invalid {
                element: doc.node(node).name.clone(),
                name: "duration".to_owned(),
                value: owned(text),
            },
        ),
    }
}

/// The number of the measure at `node`.
fn number_of_bar(doc: &Document, node: usize) -> (r: Result<usize, Failure>)
    requires
        node < doc@.len(),
    ensures
        reading(r, number_in(doc@, node as int)),
{
    let text = match attribute(doc, node, "number") {
        Ok(text) => text,
        Err(failure) => {
            return Err(failure);
        },
    };
    match xml::number(text) {
        Some(number) => Ok(number),
        None => Err(
            Failure::Invalid {
                element: doc.node(node).name.clone(),
                name: "number".to_owned(),
                value: owned(text),
            },
        ),
    }
}

/// The set of verses that the ending at `node` is for.
fn verses_of_ending(doc: &Document, node: usize) -> (r: Result<Verses, Failure>)
    requires
        node < doc@.len(),
    ensures
        reading(r, verses_in(doc@, node as int)),
{
    let number = match attribute(doc, node, "number") {
        Ok(number) => number,
        Err(failure) => {
            return Err(failure);
        },
    };
    proof {
        verse::lemma_verses_of(number@);
    }
    Verses::parse(number)
}

fn is_timeless(doc: &Document, node: usize) -> (b: bool)
    requires
        node < doc@.len(),
    ensures
        b == timeless(doc@, node as int),
{
    doc.has_child_element(node, "chord").is_some() || doc.has_child_element(node, "grace").is_some()
}

fn is_passed_over(doc: &Document, node: usize) -> (b: bool)
    requires
        node < doc@.len(),
    ensures
        b == passed_over(doc@[node as int]),
{
    let name = doc.node(node).name.as_str();
    same_text(name, "attributes") || same_text(name, "direction") || same_text(name, "harmony")
        || same_text(name, "print")
}

fn named(doc: &Document, node: usize, name: &str) -> (b: bool)
    requires
        node < doc@.len(),
    ensures
        b == (doc@[node as int].name == name@),
{
    same_text(doc.node(node).name.as_str(), name)
}

/// Tells the builder of the repeat that the barline at `barline` marks.
fn read_line_repeat(builder: &mut RepeatsBuilder, doc: &Document, barline: usize, left: bool) -> (r:
    Result<(), Failure>)
    requires
        old(builder)@.wf(),
        barline < doc@.len(),
    ensures
        final(builder)@.wf(),
        outcome(r, final(builder)@, line_repeat(old(builder)@, doc@, barline as int, left)),
{
    let node = match doc.has_child_element(barline, "repeat") {
        Some(node) => node,
        None => {
            return Ok(());
        },
    };
    let direction = match attribute(doc, node, "direction") {
        Ok(direction) => direction,
        Err(failure) => {
            return Err(failure);
        },
    };
    if left && same_text(direction, "forward") {
        builder.repeat_start()
    } else if !left && same_text(direction, "backward") {
        builder.repeat_end()
    } else {
        Err(
            Failure::Invalid {
                element: doc.node(node).name.clone(),
                name: "direction".to_owned(),
                value: owned(direction),
            },
        )
    }
}

/// Tells the builder of the ending that the barline at `barline` marks.
fn read_line_ending(builder: &mut RepeatsBuilder, doc: &Document, barline: usize, left: bool) -> (r:
    Result<(), Failure>)
    requires
        old(builder)@.wf(),
        barline < doc@.len(),
    ensures
        final(builder)@.wf(),
        outcome(r, final(builder)@, line_ending(old(builder)@, doc@, barline as int, left)),
{
    let node = match doc.has_child_element(barline, "ending") {
        Some(node) => node,
        None => {
            return Ok(());
        },
    };
    let kind = match attribute(doc, node, "type") {
        Ok(kind) => kind,
        Err(failure) => {
            return Err(failure);
        },
    };
    let last = same_text(kind, "discontinue");
    if (left && same_text(kind, "start")) || (!left && (same_text(kind, "stop") || last)) {
        let verses = match verses_of_ending(doc, node) {
            Ok(verses) => verses,
            Err(failure) => {
                return Err(failure);
            },
        };
        if left {
            builder.ending_start(verses)
        } else {
            builder.ending_end(verses, last)
        }
    } else {
        Err(
            Failure::Invalid {
                element: doc.node(node).name.clone(),
                name: "type".to_owned(),
                value: owned(kind),
            },
        )
    }
}

/// Tells the builder what the barline at `barline` marks.
fn read_bar_line(builder: &mut RepeatsBuilder, doc: &Document, barline: usize) -> (r: Result<
    (),
    Failure,
>)
    requires
        old(builder)@.wf(),
        barline < doc@.len(),
    ensures
        final(builder)@.wf(),
        outcome(r, final(builder)@, bar_line(old(builder)@, doc@, barline as int)),
{
    let location = match doc.attribute(barline, "location") {
        Some(location) => location,
        None => {
            return Ok(());
        },
    };
    if same_text(location, "left") {
        match read_line_repeat(builder, doc, barline, true) {
            Ok(()) => read_line_ending(builder, doc, barline, true),
            Err(failure) => Err(failure),
        }
    } else if same_text(location, "right") {
        match read_line_ending(builder, doc, barline, false) {
            Ok(()) => read_line_repeat(builder, doc, barline, false),
            Err(failure) => Err(failure),
        }
    } else {
        Err(
            Failure::Invalid {
                element: doc.node(barline).name.clone(),
                name: "location".to_owned(),
                value: owned(location),
            },
        )
    }
}

/// Moves the builder on by the ticks of the element at `node`.
fn read_forward(builder: &mut RepeatsBuilder, doc: &Document, node: usize) -> (r: Result<
    (),
    Failure,
>)
    requires
        old(builder)@.wf(),
        node < doc@.len(),
    ensures
        final(builder)@.wf(),
        outcome(
            r,
            final(builder)@,
            match duration_in(doc@, node as int) {
                Ok(ticks) => moved_on(old(builder)@, ticks),
                Err(failure) => Err(failure),
            },
        ),
{
    let ticks = match duration_of(doc, node) {
        Ok(ticks) => ticks,
        Err(failure) => {
            return Err(failure);
        },
    };
    if builder.position().checked_add(ticks).is_none() {
        return Err(Failure::Overflow);
    }
    builder.forward(ticks);
    Ok(())
}

/// Tells the builder of repeats what one node of a measure holds.
fn read_bar_item(builder: &mut RepeatsBuilder, doc: &Document, node: usize) -> (r: Result<
    (),
    Failure,
>)
    requires
        old(builder)@.wf(),
        node < doc@.len(),
    ensures
        final(builder)@.wf(),
        outcome(r, final(builder)@, bar_item(old(builder)@, doc@, node as int)),
{
    if !doc.node(node).element || is_passed_over(doc, node) {
        Ok(())
    } else if named(doc, node, "backup") {
        let ticks = match duration_of(doc, node) {
            Ok(ticks) => ticks,
            Err(failure) => {
                return Err(failure);
            },
        };
        if ticks > builder.position() {
            return Err(Failure::Overflow);
        }
        builder.backward(ticks);
        Ok(())
    } else if named(doc, node, "barline") {
        read_bar_line(builder, doc, node)
    } else if named(doc, node, "forward") {
        read_forward(builder, doc, node)
    } else if named(doc, node, "note") {
        if is_timeless(doc, node) {
            Ok(())
        } else {
            read_forward(builder, doc, node)
        }
    } else {
        Err(
            Failure::Unexpected {
                parent: "measure".to_owned(),
                found: doc.node(node).name.clone(),
            },
        )
    }
}

/// Tells the builder of repeats what the measure at `bar` holds.
fn read_bar(builder: &mut RepeatsBuilder, doc: &Document, bar: usize) -> (r: Result<(), Failure>)
    requires
        old(builder)@.wf(),
        bar < doc@.len(),
    ensures
        final(builder)@.wf(),
        outcome(
            r,
            final(builder)@,
            fold(Ok(old(builder)@), children_of(doc@, bar as int), bar_step(doc@)),
        ),
{
    let children = doc.children(bar);
    let ghost items = children_of(doc@, bar as int);
    let ghost start = Ok::<repeat::BuilderView, FailureView>(builder@);
    let ghost step = bar_step(doc@);
    let mut k: usize = 0;
    assert(items.take(0) =~= Seq::<int>::empty());
    while k < children.len()
        invariant
            k <= children.len(),
            items == xml::indices(children@),
            forall|i: int| 0 <= i < children.len() ==> children[i] < doc@.len(),
            step == bar_step(doc@),
            items == children_of(doc@, bar as int),
            start == Ok::<repeat::BuilderView, FailureView>(old(builder)@),
            builder@.wf(),
            fold(start, items.take(k as int), step) == Ok::<repeat::BuilderView, FailureView>(
                builder@,
            ),
        decreases children.len() - k,
    {
        proof {
            lemma_fold_next(start, items, step, k as int);
            assert(items[k as int] == children[k as int]);
        }
        match read_bar_item(builder, doc, children[k]) {
            Ok(()) => {},
            Err(failure) => {
                proof {
                    lemma_fold_failed(start, items, step, k + 1);
                }
                return Err(failure);
            },
        }
        k += 1;
    }
    assert(items.take(children.len() as int) =~= items);
    Ok(())
}

/// The builder of repeats where a bar has started, nothing before.
pub open spec fn begun(builder: repeat::BuilderView, started: bool) -> Option<repeat::BuilderView> {
    if started {
        Some(builder)
    } else {
        None
    }
}

/// Tells the builder of repeats what one node of the first part holds.
fn read_bars_item(builder: &mut RepeatsBuilder, started: &mut bool, doc: &Document, node: usize) -> (r:
    Result<(), Failure>)
    requires
        old(builder)@.wf(),
        node < doc@.len(),
    ensures
        final(builder)@.wf(),
        outcome(
            r,
            begun(final(builder)@, *final(started)),
            bars_item(begun(old(builder)@, *old(started)), doc@, node as int),
        ),
{
    if !doc.node(node).element {
        return Ok(());
    }
    if !named(doc, node, "measure") {
        return Err(
            Failure::Unexpected { parent: "part".to_owned(), found: doc.node(node).name.clone() },
        );
    }
    let number = match number_of_bar(doc, node) {
        Ok(number) => number,
        Err(failure) => {
            return Err(failure);
        },
    };
    if *started {
        match builder.next(number) {
            Ok(()) => {},
            Err(failure) => {
                return Err(failure);
            },
        }
    } else {
        *builder = RepeatsBuilder::new(number);
        *started = true;
    }
    read_bar(builder, doc, node)
}

/// Reads the bars of the score, and their repeats, from the part at `part`.
fn read_bars(doc: &Document, part: usize) -> (r: Result<Repeats, Failure>)
    requires
        part < doc@.len(),
    ensures
        match bars_in(doc@, part as int) {
            Ok(repeats) => r is Ok && r->Ok_0@ == repeats && repeats.wf(),
            Err(failure) => r is Err && r->Err_0@ == failure,
        },
{
    let children = doc.children(part);
    let ghost items = children_of(doc@, part as int);
    let ghost start = Ok::<Option<repeat::BuilderView>, FailureView>(None);
    let ghost step = bars_step(doc@);
    let mut builder = RepeatsBuilder::new(0);
    let mut started = false;
    let mut k: usize = 0;
    assert(items.take(0) =~= Seq::<int>::empty());
    while k < children.len()
        invariant
            k <= children.len(),
            items == xml::indices(children@),
            items == children_of(doc@, part as int),
            forall|i: int| 0 <= i < children.len() ==> children[i] < doc@.len(),
            step == bars_step(doc@),
            start == Ok::<Option<repeat::BuilderView>, FailureView>(None),
            builder@.wf(),
            fold(start, items.take(k as int), step) == Ok::<
                Option<repeat::BuilderView>,
                FailureView,
            >(begun(builder@, started)),
        decreases children.len() - k,
    {
        proof {
            lemma_fold_next(start, items, step, k as int);
            assert(items[k as int] == children[k as int]);
        }
        match read_bars_item(&mut builder, &mut started, doc, children[k]) {
            Ok(()) => {},
            Err(failure) => {
                proof {
                    lemma_fold_failed(start, items, step, k + 1);
                }
                return Err(failure);
            },
        }
        k += 1;
    }
    assert(items.take(children.len() as int) =~= items);
    if started {
        builder.build()
    } else {
        Err(Failure::NoBars)
    }
}

/// Reads the lyrics of the parts of a score, part after part.
pub struct Builder<'xml> {
    title: Option<String>,
    repeats: Repeats,
    next_number: usize,
    bar_tick: usize,
    syllables: syllable::Builder<'xml>,
    parts: Vec<Part>,
}

impl<'xml> View for Builder<'xml> {
    type V = BuilderView;

    closed spec fn view(&self) -> BuilderView {
        BuilderView {
            title: match self.title {
                Some(title) => Some(title@),
                None => None,
            },
            repeats: self.repeats@,
            next_number: self.next_number,
            bar_tick: self.bar_tick,
            syllables: self.syllables@,
            parts: views(self.parts@),
        }
    }
}

impl<'xml> Builder<'xml> {
    /// A reader for a score with the bars `repeats`.
    pub fn new(repeats: Repeats) -> (builder: Builder<'xml>)
        ensures
            builder@ == BuilderView::new(repeats@),
            builder@.wf(),
    {
        let next_number = repeats.first_bar_number();
        let bar_count = repeats.bar_count();
        let builder = Builder {
            title: None,
            repeats,
            next_number,
            bar_tick: 0,
            syllables: syllable::Builder::new(bar_count),
            parts: Vec::new(),
        };
        assert(builder@.parts =~= Seq::empty());
        builder
    }

    /// Gives the score a title.
    pub fn title(&mut self, title: &str)
        ensures
            final(self)@ == (BuilderView { title: Some(title@), ..old(self)@ }),
    {
        self.title = Some(owned(title));
    }

    /// The position in the bar that is being read.
    pub fn position(&self) -> (position: usize)
        ensures
            position == self@.bar_tick,
    {
        self.bar_tick
    }

    /// Ends a part.
    pub fn part_end(&mut self) -> (r: Result<(), Failure>)
        requires
            old(self)@.wf(),
        ensures
            final(self)@.wf(),
            outcome(r, final(self)@, old(self)@.part_end()),
    {
        self.next_number = self.repeats.first_bar_number();
        self.bar_tick = 0;
        match self.syllables.part_end(&self.repeats) {
            Ok(Some(part)) => {
                proof {
                    crate::lemma_views_push(self.parts@, part);
                }
                self.parts.push(part);
                Ok(())
            },
            Ok(None) => Ok(()),
            Err(failure) => Err(failure),
        }
    }

    /// Starts a bar, which must have the next number.
    pub fn bar_start(&mut self, number: usize) -> (r: Result<(), Failure>)
        requires
            old(self)@.wf(),
        ensures
            final(self)@.wf(),
            outcome(r, final(self)@, old(self)@.bar_start(number)),
    {
        if number != self.next_number {
            return Err(Failure::UnexpectedBar { number, expected: self.next_number });
        }
        if number == usize::MAX {
            return Err(Failure::Overflow);
        }
        self.next_number += 1;
        self.bar_tick = 0;
        self.syllables.bar_start();
        Ok(())
    }

    /// Moves back in the bar by `ticks` ticks.
    pub fn backward(&mut self, ticks: usize) -> (r: Result<(), Failure>)
        requires
            old(self)@.wf(),
        ensures
            final(self)@.wf(),
            outcome(r, final(self)@, old(self)@.backward(ticks)),
    {
        if ticks > self.bar_tick {
            return Err(Failure::Overflow);
        }
        self.bar_tick -= ticks;
        Ok(())
    }

    /// Moves on in the bar by `ticks` ticks.
    pub fn forward(&mut self, ticks: usize) -> (r: Result<(), Failure>)
        requires
            old(self)@.wf(),
        ensures
            final(self)@.wf(),
            outcome(r, final(self)@, old(self)@.forward(ticks)),
    {
        match self.bar_tick.checked_add(ticks) {
            Some(tick) => {
                self.bar_tick = tick;
                Ok(())
            },
            None => Err(Failure::Overflow),
        }
    }

    /// Takes a syllable of `ticks` ticks at the position in the bar, for
    /// the verse `verse`.
    pub fn lyric(&mut self, voice: usize, verse: usize, kind: Kind, text: &'xml str, ticks: usize) -> (r:
        Result<(), Failure>)
        requires
            old(self)@.wf(),
            verse < 3,
        ensures
            final(self)@.wf(),
            outcome(r, final(self)@, old(self)@.lyric(verse, kind, text@, ticks)),
    {
        match self.bar_tick.checked_add(ticks) {
            Some(end) => {
                self.syllables.lyric(voice, verse, Syllable { start: self.bar_tick, end, kind, text });
                Ok(())
            },
            None => Err(Failure::Overflow),
        }
    }

    /// Gives the lyrics of the score: the phrases of its parts, merged.
    pub fn build(self) -> (r: Result<Option<Music>, Failure>)
        ensures
            r is Ok,
            match self@.build() {
                Some(music) => r->Ok_0 is Some && r->Ok_0->Some_0@ == music,
                None => r->Ok_0 is None,
            },
    {
        let mut parts = self.parts;
        if parts.len() == 0 {
            return Ok(None);
        }
        let ghost all = views(parts@);
        let mut part = parts.remove(0);
        assert(views(parts@) =~= all.skip(1));
        let ghost others = views(parts@);
        let ghost start = (part@, 0int);
        let mut from: usize = 0;
        let mut i: usize = 0;
        assert(others.take(0) =~= Seq::<Seq<PhraseView>>::empty());
        while i < parts.len()
            invariant
                i <= parts.len(),
                parts.len() == others.len(),
                forall|j: int| i <= j < parts.len() ==> (#[trigger] parts@[j])@ == others[j],
                (part@, from as int) == merged_parts(start, others.take(i as int)),
            decreases parts.len() - i,
        {
            let ghost before = (part@, from as int);
            let mut other = Part { phrases: Vec::new() };
            std::mem::swap(&mut parts[i], &mut other);
            let ghost phrases = other@;
            assert(phrases == others[i as int]);
            let mut k: usize = 0;
            assert(phrases.take(0) =~= Seq::<PhraseView>::empty());
            while k < other.phrases.len()
                invariant
                    k <= other.phrases.len(),
                    other.phrases.len() == phrases.len(),
                    forall|j: int|
                        k <= j < other.phrases.len() ==> (#[trigger] other.phrases@[j])@
                            == phrases[j],
                    (part@, from as int) == merged_part(before, phrases.take(k as int)),
                decreases other.phrases.len() - k,
            {
                let mut phrase = Phrase { start: 0, end: 0, words: Vec::new() };
                std::mem::swap(&mut other.phrases[k], &mut phrase);
                proof {
                    assert(phrases.take(k + 1).drop_last() =~= phrases.take(k as int));
                    assert(phrases.take(k + 1).last() == phrase@);
                }
                from = part.merge(phrase, from);
                k += 1;
            }
            proof {
                assert(phrases.take(phrases.len() as int) =~= phrases);
                assert(others.take(i + 1).drop_last() =~= others.take(i as int));
            }
            i += 1;
        }
        assert(others.take(others.len() as int) =~= others);
        Ok(Some(Music { title: self.title, phrases: part.phrases }))
    }
}

/// Tells the reader of the lyric at `node`, a child of the note at `note`.
fn read_note_item<'xml>(
    builder: &mut Builder<'xml>,
    doc: &'xml Document,
    note: usize,
    ticks: usize,
    node: usize,
) -> (r: Result<(), Failure>)
    requires
        old(builder)@.wf(),
        note < doc@.len(),
        node < doc@.len(),
    ensures
        final(builder)@.wf(),
        outcome(r, final(builder)@, note_item(old(builder)@, doc@, note as int, ticks, node as int)),
{
    if !doc.has_tag_name(node, "lyric") {
        return Ok(());
    }
    let voice = match child_element_text(doc, note, "voice") {
        Ok(voice) => voice,
        Err(failure) => {
            return Err(failure);
        },
    };
    let voice_number = match xml::number(voice) {
        Some(number) => number,
        None => 0,
    };
    if voice_number == 0 {
        return Err(
            Failure::Invalid {
                element: doc.node(note).name.clone(),
                name: "voice".to_owned(),
                value: owned(voice),
            },
        );
    }
    let voice = voice_number - 1;
    let number = match attribute(doc, node, "number") {
        Ok(number) => number,
        Err(failure) => {
            return Err(failure);
        },
    };
    let verse = match verse_of(number) {
        Some(verse) => verse,
        None => {
            return Err(
                Failure::Invalid {
                    element: doc.node(node).name.clone(),
                    name: "number".to_owned(),
                    value: owned(number),
                },
            );
        },
    };
    let text = match child_element_text(doc, node, "text") {
        Ok(text) => text,
        Err(failure) => {
            return Err(failure);
        },
    };
    let syllabic = match child_element_text(doc, node, "syllabic") {
        Ok(syllabic) => syllabic,
        Err(failure) => {
            return Err(failure);
        },
    };
    let kind = match Kind::parse(syllabic) {
        Ok(kind) => kind,
        Err(failure) => {
            return Err(failure);
        },
    };
    builder.lyric(voice, verse, kind, text, ticks)
}

/// Tells the reader of the note at `note`.
fn read_part_note<'xml>(builder: &mut Builder<'xml>, doc: &'xml Document, note: usize) -> (r: Result<
    (),
    Failure,
>)
    requires
        old(builder)@.wf(),
        note < doc@.len(),
    ensures
        final(builder)@.wf(),
        outcome(r, final(builder)@, part_note(old(builder)@, doc@, note as int)),
{
    if is_timeless(doc, note) {
        return Ok(());
    }
    let ticks = match duration_of(doc, note) {
        Ok(ticks) => ticks,
        Err(failure) => {
            return Err(failure);
        },
    };
    let children = doc.children(note);
    let ghost items = children_of(doc@, note as int);
    let ghost start = Ok::<BuilderView, FailureView>(builder@);
    let ghost step = note_step(doc@, note as int, ticks);
    let mut k: usize = 0;
    assert(items.take(0) =~= Seq::<int>::empty());
    while k < children.len()
        invariant
            k <= children.len(),
            note < doc@.len(),
            items == xml::indices(children@),
            forall|i: int| 0 <= i < children.len() ==> children[i] < doc@.len(),
            step == note_step(doc@, note as int, ticks),
            items == children_of(doc@, note as int),
            start == Ok::<BuilderView, FailureView>(old(builder)@),
            duration_in(doc@, note as int) == Ok::<usize, FailureView>(ticks),
            !timeless(doc@, note as int),
            builder@.wf(),
            fold(start, items.take(k as int), step) == Ok::<BuilderView, FailureView>(builder@),
        decreases children.len() - k,
    {
        proof {
            lemma_fold_next(start, items, step, k as int);
            assert(items[k as int] == children[k as int]);
        }
        match read_note_item(builder, doc, note, ticks, children[k]) {
            Ok(()) => {},
            Err(failure) => {
                proof {
                    lemma_fold_failed(start, items, step, k + 1);
                }
                return Err(failure);
            },
        }
        k += 1;
    }
    assert(items.take(children.len() as int) =~= items);
    builder.forward(ticks)
}

/// Tells the reader of lyrics what one node of a measure holds.
fn read_part_item<'xml>(builder: &mut Builder<'xml>, doc: &'xml Document, node: usize) -> (r: Result<
    (),
    Failure,
>)
    requires
        old(builder)@.wf(),
        node < doc@.len(),
    ensures
        final(builder)@.wf(),
        outcome(r, final(builder)@, part_item(old(builder)@, doc@, node as int)),
{
    if !doc.node(node).element || is_passed_over(doc, node) || named(doc, node, "barline") {
        Ok(())
    } else if named(doc, node, "backup") {
        match duration_of(doc, node) {
            Ok(ticks) => builder.backward(ticks),
            Err(failure) => Err(failure),
        }
    } else if named(doc, node, "forward") {
        match duration_of(doc, node) {
            Ok(ticks) => builder.forward(ticks),
            Err(failure) => Err(failure),
        }
    } else if named(doc, node, "note") {
        read_part_note(builder, doc, node)
    } else {
        Err(
            Failure::Unexpected {
                parent: "measure".to_owned(),
                found: doc.node(node).name.clone(),
            },
        )
    }
}

/// Tells the reader of lyrics what the measure at `bar` holds.
fn read_part_bar<'xml>(builder: &mut Builder<'xml>, doc: &'xml Document, bar: usize) -> (r: Result<
    (),
    Failure,
>)
    requires
        old(builder)@.wf(),
        bar < doc@.len(),
    ensures
        final(builder)@.wf(),
        outcome(
            r,
            final(builder)@,
            fold(Ok(old(builder)@), children_of(doc@, bar as int), part_step(doc@)),
        ),
{
    let children = doc.children(bar);
    let ghost items = children_of(doc@, bar as int);
    let ghost start = Ok::<BuilderView, FailureView>(builder@);
    let ghost step = part_step(doc@);
    let mut k: usize = 0;
    assert(items.take(0) =~= Seq::<int>::empty());
    while k < children.len()
        invariant
            k <= children.len(),
            items == xml::indices(children@),
            forall|i: int| 0 <= i < children.len() ==> children[i] < doc@.len(),
            step == part_step(doc@),
            items == children_of(doc@, bar as int),
            start == Ok::<BuilderView, FailureView>(old(builder)@),
            builder@.wf(),
            fold(start, items.take(k as int), step) == Ok::<BuilderView, FailureView>(builder@),
        decreases children.len() - k,
    {
        proof {
            lemma_fold_next(start, items, step, k as int);
            assert(items[k as int] == children[k as int]);
        }
        match read_part_item(builder, doc, children[k]) {
            Ok(()) => {},
            Err(failure) => {
                proof {
                    lemma_fold_failed(start, items, step, k + 1);
                }
                return Err(failure);
            },
        }
        k += 1;
    }
    assert(items.take(children.len() as int) =~= items);
    Ok(())
}

/// Tells the reader of lyrics what one node of a part holds.
fn read_measure<'xml>(builder: &mut Builder<'xml>, doc: &'xml Document, node: usize) -> (r: Result<
    (),
    Failure,
>)
    requires
        old(builder)@.wf(),
        node < doc@.len(),
    ensures
        final(builder)@.wf(),
        outcome(r, final(builder)@, measure_item(old(builder)@, doc@, node as int)),
{
    if !doc.node(node).element {
        return Ok(());
    }
    if !named(doc, node, "measure") {
        return Err(
            Failure::Unexpected { parent: "part".to_owned(), found: doc.node(node).name.clone() },
        );
    }
    let number = match number_of_bar(doc, node) {
        Ok(number) => number,
        Err(failure) => {
            return Err(failure);
        },
    };
    match builder.bar_start(number) {
        Ok(()) => read_part_bar(builder, doc, node),
        Err(failure) => Err(failure),
    }
}

/// Tells the reader of lyrics what one node of the score holds.
fn read_part<'xml>(builder: &mut Builder<'xml>, doc: &'xml Document, node: usize) -> (r: Result<
    (),
    Failure,
>)
    requires
        old(builder)@.wf(),
        node < doc@.len(),
    ensures
        final(builder)@.wf(),
        outcome(r, final(builder)@, score_item(old(builder)@, doc@, node as int)),
{
    if !doc.has_tag_name(node, "part") {
        return Ok(());
    }
    let children = doc.children(node);
    let ghost items = children_of(doc@, node as int);
    let ghost start = Ok::<BuilderView, FailureView>(builder@);
    let ghost step = measure_step(doc@);
    let mut k: usize = 0;
    assert(items.take(0) =~= Seq::<int>::empty());
    while k < children.len()
        invariant
            k <= children.len(),
            items == xml::indices(children@),
            forall|i: int| 0 <= i < children.len() ==> children[i] < doc@.len(),
            step == measure_step(doc@),
            items == children_of(doc@, node as int),
            start == Ok::<BuilderView, FailureView>(old(builder)@),
            tagged(doc@[node as int], "part"@),
            builder@.wf(),
            fold(start, items.take(k as int), step) == Ok::<BuilderView, FailureView>(builder@),
        decreases children.len() - k,
    {
        proof {
            lemma_fold_next(start, items, step, k as int);
            assert(items[k as int] == children[k as int]);
        }
        match read_measure(builder, doc, children[k]) {
            Ok(()) => {},
            Err(failure) => {
                proof {
                    lemma_fold_failed(start, items, step, k + 1);
                }
                return Err(failure);
            },
        }
        k += 1;
    }
    assert(items.take(children.len() as int) =~= items);
    builder.part_end()
}

/// The first element that the document holds.
fn root_element(doc: &Document) -> (root: Option<usize>)
    requires
        doc@.len() > 0,
    ensures
        match first_element(doc@, children_of(doc@, 0)) {
            Some(index) => root is Some && root->0 == index && index < doc@.len(),
            None => root is None,
        },
{
    let children = doc.children(0);
    let ghost among = children_of(doc@, 0);
    let mut k: usize = 0;
    assert(among.take(0) =~= Seq::<int>::empty());
    while k < children.len()
        invariant
            k <= children.len(),
            among == xml::indices(children@),
            forall|i: int| 0 <= i < children.len() ==> children[i] < doc@.len(),
            among == children_of(doc@, 0),
            first_element(doc@, among.take(k as int)) is None,
        decreases children.len() - k,
    {
        assert(among.take(k + 1).drop_last() =~= among.take(k as int));
        assert(among[k as int] == children[k as int]);
        if doc.node(children[k]).element {
            proof {
                assert(among.take(k + 1).last() == children[k as int]);
                lemma_first_element_kept(doc@, among, k + 1);
            }
            return Some(children[k]);
        }
        k += 1;
    }
    assert(among.take(children.len() as int) =~= among);
    None
}

proof fn lemma_first_element_kept(nodes: Seq<NodeView>, among: Seq<int>, k: int)
    requires
        0 <= k <= among.len(),
        first_element(nodes, among.take(k)) is Some,
    ensures
        first_element(nodes, among) == first_element(nodes, among.take(k)),
    decreases among.len() - k,
{
    if k == among.len() {
        assert(among.take(k) =~= among);
    } else {
        assert(among.take(k + 1).drop_last() =~= among.take(k));
        lemma_first_element_kept(nodes, among, k + 1);
    }
}

/// What the reading of a score gave: the lyrics that the model gives, or
/// its failure.
pub open spec fn read_as(
    result: Result<Option<Music>, Failure>,
    expect: Result<Option<MusicView>, FailureView>,
) -> bool {
    match expect {
        Ok(Some(music)) => result is Ok && result->Ok_0 is Some && result->Ok_0->Some_0@ == music,
        Ok(None) => result is Ok && result->Ok_0 is None,
        Err(failure) => result is Err && result->Err_0@ == failure,
    }
}

/// Reads the lyrics of the score that the document is.
pub fn read_document(doc: &Document) -> (r: Result<Option<Music>, Failure>)
    ensures
        read_as(r, music_of(doc@)),
{
    if doc.len() == 0 {
        return Err(Failure::Unexpected { parent: String::new(), found: String::new() });
    }
    let root = match root_element(doc) {
        Some(root) => root,
        None => {
            return Err(Failure::Unexpected { parent: String::new(), found: String::new() });
        },
    };
    if !named(doc, root, "score-partwise") {
        return Err(
            Failure::Unexpected { parent: String::new(), found: doc.node(root).name.clone() },
        );
    }
    let part = match doc.has_child_element(root, "part") {
        Some(part) => part,
        None => {
            return Err(Failure::NoParts);
        },
    };
    let repeats = match read_bars(doc, part) {
        Ok(repeats) => repeats,
        Err(failure) => {
            return Err(failure);
        },
    };
    let mut builder = Builder::new(repeats);
    match doc.has_child_element(root, "work") {
        Some(work) => match doc.has_child_element(work, "work-title") {
            Some(title) => match &doc.node(title).text {
                Some(text) => {
                    builder.title(text.as_str());
                },
                None => {},
            },
            None => {},
        },
        None => {},
    }
    let children = doc.children(root);
    let ghost items = children_of(doc@, root as int);
    let ghost start = Ok::<BuilderView, FailureView>(builder@);
    let ghost step = score_step(doc@);
    let mut k: usize = 0;
    assert(items.take(0) =~= Seq::<int>::empty());
    while k < children.len()
        invariant
            k <= children.len(),
            items == xml::indices(children@),
            forall|i: int| 0 <= i < children.len() ==> children[i] < doc@.len(),
            step == score_step(doc@),
            music_of(doc@) == match fold(start, items, step) {
                Err(failure) => Err::<Option<MusicView>, FailureView>(failure),
                Ok(builder) => Ok(builder.build()),
            },
            builder@.wf(),
            fold(start, items.take(k as int), step) == Ok::<BuilderView, FailureView>(builder@),
        decreases children.len() - k,
    {
        proof {
            lemma_fold_next(start, items, step, k as int);
            assert(items[k as int] == children[k as int]);
        }
        match read_part(&mut builder, doc, children[k]) {
            Ok(()) => {},
            Err(failure) => {
                proof {
                    lemma_fold_failed(start, items, step, k + 1);
                }
                return Err(failure);
            },
        }
        k += 1;
    }
    assert(items.take(children.len() as int) =~= items);
    builder.build()
}

/// Reads the lyrics of a score in MusicXML. Fails where the text is no XML
/// document, and where the document is not a score that the reader takes.
pub fn read(xml: &str) -> (r: Result<Option<Music>, Failure>)
    ensures
        match xml::parsed(xml@) {
            Some(nodes) => read_as(r, music_of(nodes)),
            None => r is Err && r->Err_0 is Xml,
        },
{
    match xml::parse_nodes(xml) {
        Ok(nodes) => {
            let doc = Document::new(nodes);
            read_document(&doc)
        },
        Err(error) => Err(Failure::Xml { message: xml::error_text(&error) }),
    }
}

} // verus!
