//! Resolves the repeats and the alternate endings of a score into the order
//! in which its bars are played.
use vstd::prelude::*;
use std::collections::BTreeMap;
use std::ops::Range;
use super::verse::Verses;
use crate::error::{Failure, FailureView};

verus! {

/// One bar as it is played: its index in the score, the verse it is played
/// for, and the tick at which it starts.
#[derive(Debug, Clone, Copy, PartialEq, Eq)]
pub struct Bar {
    pub index: usize,
    pub verse: Option<usize>,
    pub tick: usize,
}

/// A run of bars that is played once, for one verse or for all.
#[derive(Debug, PartialEq, Eq)]
pub struct Repeat {
    pub verse: Option<usize>,
    pub bars: Range<usize>,
}

pub open spec fn range(start: int, end: int) -> Range<usize> {
    Range { start: start as usize, end: end as usize }
}

/// The range lies within the first `bars` bars.
pub open spec fn spans(range: Range<usize>, bars: int) -> bool {
    range.start <= range.end <= bars
}

/// The ticks of the bars `start..end`.
pub open spec fn span_ticks(durations: Seq<usize>, start: int, end: int) -> int
    decreases end - start,
{
    if start >= end {
        0
    } else {
        span_ticks(durations, start, end - 1) + durations[end - 1]
    }
}

/// The ticks of all the bars that the runs play.
pub open spec fn total_ticks(durations: Seq<usize>, repeats: Seq<Repeat>) -> int
    decreases repeats.len(),
{
    if repeats.len() == 0 {
        0
    } else {
        total_ticks(durations, repeats.drop_last()) + span_ticks(
            durations,
            repeats.last().bars.start as int,
            repeats.last().bars.end as int,
        )
    }
}

/// The bars `start..end` played for `verse`, the first of them at `tick`.
pub open spec fn span_bars(
    durations: Seq<usize>,
    verse: Option<usize>,
    start: int,
    end: int,
    tick: int,
) -> Seq<Bar>
    decreases end - start,
{
    if start >= end {
        Seq::empty()
    } else {
        span_bars(durations, verse, start, end - 1, tick).push(
            Bar {
                index: (end - 1) as usize,
                verse,
                tick: (tick + span_ticks(durations, start, end - 1)) as usize,
            },
        )
    }
}

/// The bars in the order of play: run after run, each bar starting where
/// the bar played before it ends.
pub open spec fn replay(durations: Seq<usize>, repeats: Seq<Repeat>) -> Seq<Bar>
    decreases repeats.len(),
{
    if repeats.len() == 0 {
        Seq::empty()
    } else {
        replay(durations, repeats.drop_last()) + span_bars(
            durations,
            repeats.last().verse,
            repeats.last().bars.start as int,
            repeats.last().bars.end as int,
            total_ticks(durations, repeats.drop_last()),
        )
    }
}

/// A score resolved: the number of its first bar, the ticks of each bar,
/// and the runs of bars in the order of play.
pub struct RepeatsView {
    pub first_bar_number: usize,
    pub durations: Seq<usize>,
    pub repeats: Seq<Repeat>,
}

impl RepeatsView {
    /// Every run lies within the bars, and the ticks of the whole play fit
    /// the machine's integers.
    pub open spec fn wf(self) -> bool {
        &&& forall|k: int|
            0 <= k < self.repeats.len() ==> spans(
                (#[trigger] self.repeats[k]).bars,
                self.durations.len() as int,
            )
        &&& total_ticks(self.durations, self.repeats) <= usize::MAX
    }
}

pub struct Repeats {
    first_bar_number: usize,
    durations: Vec<usize>,
    repeats: Vec<Repeat>,
    ticks: usize,
}

impl View for Repeats {
    type V = RepeatsView;

    closed spec fn view(&self) -> RepeatsView {
        RepeatsView {
            first_bar_number: self.first_bar_number,
            durations: self.durations@,
            repeats: self.repeats@,
        }
    }
}

pub proof fn lemma_span_ticks(durations: Seq<usize>, start: int, mid: int, end: int)
    requires
        start <= mid <= end,
    ensures
        0 <= span_ticks(durations, start, mid) <= span_ticks(durations, start, end),
    decreases end - start,
{
    if start < end {
        if mid < end {
            lemma_span_ticks(durations, start, mid, end - 1);
        } else {
            lemma_span_ticks(durations, start, mid - 1, end - 1);
        }
    }
}

pub proof fn lemma_total_ticks(durations: Seq<usize>, repeats: Seq<Repeat>, k: int)
    requires
        0 <= k <= repeats.len(),
        forall|i: int| 0 <= i < repeats.len() ==> (#[trigger] repeats[i]).bars.start <= repeats[i].bars.end,
    ensures
        0 <= total_ticks(durations, repeats.take(k)) <= total_ticks(durations, repeats),
    decreases repeats.len(),
{
    if repeats.len() == 0 {
        assert(repeats.take(k) =~= repeats);
    } else if k == repeats.len() {
        assert(repeats.take(k) =~= repeats);
        lemma_total_ticks(durations, repeats.drop_last(), k - 1);
        assert(repeats.drop_last().take(k - 1) =~= repeats.drop_last());
        let last = repeats.last();
        lemma_span_ticks(durations, last.bars.start as int, last.bars.start as int, last.bars.end as int);
    } else {
        lemma_total_ticks(durations, repeats.drop_last(), k);
        assert(repeats.drop_last().take(k) =~= repeats.take(k));
        let last = repeats.last();
        lemma_span_ticks(durations, last.bars.start as int, last.bars.start as int, last.bars.end as int);
    }
}

/// The ticks of all the bars that the runs play, or `None` where they do
/// not fit.
fn ticks_of(durations: &Vec<usize>, repeats: &Vec<Repeat>) -> (total: Option<usize>)
    requires
        forall|k: int| 0 <= k < repeats.len() ==> spans((#[trigger] repeats[k]).bars, durations.len() as int),
    ensures
        match total {
            Some(ticks) => ticks == total_ticks(durations@, repeats@),
            None => total_ticks(durations@, repeats@) > usize::MAX,
        },
{
    let mut total: usize = 0;
    let mut k: usize = 0;
    assert(repeats@.take(0) =~= Seq::<Repeat>::empty());
    while k < repeats.len()
        invariant
            k <= repeats.len(),
            forall|k: int| 0 <= k < repeats.len() ==> spans((#[trigger] repeats[k]).bars, durations.len() as int),
            total == total_ticks(durations@, repeats@.take(k as int)),
        decreases repeats.len() - k,
    {
        let start = repeats[k].bars.start;
        let end = repeats[k].bars.end;
        let ghost before = total as int;
        let mut index: usize = start;
        proof {
            assert(repeats@.take(k + 1).drop_last() =~= repeats@.take(k as int));
            lemma_total_ticks(durations@, repeats@, k + 1);
        }
        while index < end
            invariant
                start <= index <= end <= durations.len(),
                total == before + span_ticks(durations@, start as int, index as int),
                before + span_ticks(durations@, start as int, end as int) <= total_ticks(
                    durations@,
                    repeats@,
                ),
            decreases end - index,
        {
            proof {
                lemma_span_ticks(durations@, start as int, index + 1, end as int);
            }
            match total.checked_add(durations[index]) {
                Some(sum) => {
                    total = sum;
                },
                None => {
                    return None;
                },
            }
            index += 1;
        }
        k += 1;
    }
    assert(repeats@.take(repeats.len() as int) =~= repeats@);
    Some(total)
}

impl Repeats {
    #[verifier::type_invariant]
    spec fn inv(self) -> bool {
        self@.wf() && self.ticks == total_ticks(self.durations@, self.repeats@)
    }

    /// The number of the first bar.
    pub fn first_bar_number(&self) -> (number: usize)
        ensures
            number == self@.first_bar_number,
    {
        self.first_bar_number
    }

    /// How many bars the score has.
    pub fn bar_count(&self) -> (count: usize)
        ensures
            count == self@.durations.len(),
    {
        self.durations.len()
    }

    /// The runs of bars in the order of play.
    pub fn repeats(&self) -> (repeats: &Vec<Repeat>)
        ensures
            repeats@ == self@.repeats,
            self@.wf(),
    {
        proof {
            use_type_invariant(self);
        }
        &self.repeats
    }

    /// The ticks of the whole play.
    pub fn ticks(&self) -> (ticks: usize)
        ensures
            ticks == total_ticks(self@.durations, self@.repeats),
            self@.wf(),
    {
        proof {
            use_type_invariant(self);
        }
        self.ticks
    }

    /// The bars in the order of play. Each call gives the whole play anew.
    /// Every bar of the play is a bar of the score, and no bar starts before
    /// the bar played before it.
    pub fn bars(&self) -> (bars: Vec<Bar>)
        ensures
            bars@ == replay(self@.durations, self@.repeats),
            self@.wf(),
            forall|i: int| 0 <= i < bars.len() ==> (#[trigger] bars[i]).index < self@.durations.len(),
            forall|i: int, j: int|
                0 <= i <= j < bars.len() ==> (#[trigger] bars[i]).tick <= (#[trigger] bars[j]).tick,
    {
        proof {
            use_type_invariant(self);
            lemma_replay_index(self@.durations, self@.repeats);
            lemma_replay_ticks(self@.durations, self@.repeats);
        }
        let mut bars: Vec<Bar> = Vec::new();
        let mut tick: usize = 0;
        let mut k: usize = 0;
        assert(self.repeats@.take(0) =~= Seq::<Repeat>::empty());
        while k < self.repeats.len()
            invariant
                self@.wf(),
                k <= self.repeats.len(),
                tick == total_ticks(self.durations@, self.repeats@.take(k as int)),
                bars@ == replay(self.durations@, self.repeats@.take(k as int)),
            decreases self.repeats.len() - k,
        {
            let verse = self.repeats[k].verse;
            let start = self.repeats[k].bars.start;
            let end = self.repeats[k].bars.end;
            let ghost before = tick as int;
            let ghost played = bars@;
            let mut index: usize = start;
            proof {
                assert(self.repeats@.take(k + 1).drop_last() =~= self.repeats@.take(k as int));
                lemma_total_ticks(self.durations@, self.repeats@, k + 1);
                assert(spans(self@.repeats[k as int].bars, self@.durations.len() as int));
            }
            while index < end
                invariant
                    start <= index <= end <= self.durations.len(),
                    tick == before + span_ticks(self.durations@, start as int, index as int),
                    before + span_ticks(self.durations@, start as int, end as int) <= usize::MAX,
                    bars@ == played + span_bars(
                        self.durations@,
                        verse,
                        start as int,
                        index as int,
                        before,
                    ),
                decreases end - index,
            {
                proof {
                    lemma_span_ticks(self.durations@, start as int, index + 1, end as int);
                }
                bars.push(Bar { index, verse, tick });
                tick = tick + self.durations[index];
                index += 1;
                assert(bars@ =~= played + span_bars(
                    self.durations@,
                    verse,
                    start as int,
                    index as int,
                    before,
                ));
            }
            k += 1;
        }
        assert(self.repeats@.take(self.repeats.len() as int) =~= self.repeats@);
        bars
    }
}

/// Where the builder stands in the structure of repeats. `bar` is the index
/// of the bar from which the bars have still to be resolved.
#[derive(Debug, Clone, Copy, PartialEq, Eq)]
pub enum State {
    /// Outside any repeat.
    Normal { bar: usize },
    /// Inside a repeat that started at `bar`, before any ending.
    RepeatStart { bar: usize },
    /// Inside the ending for `verses`, which started at `bar`.
    EndingStart { bar: usize, verses: Verses },
    /// After the ending for `verses`; `bar` follows its last bar.
    EndingStop { bar: usize, verses: Verses },
    /// After the end of a repeat; `bar` follows its last bar.
    RepeatStop { bar: usize },
}

/// The first of the verses below `count` that has no ending.
pub open spec fn missing(endings: Map<usize, Repeat>, count: nat) -> Option<usize>
    decreases count,
{
    if count == 0 {
        None
    } else if missing(endings, (count - 1) as nat) is Some {
        missing(endings, (count - 1) as nat)
    } else if endings.contains_key((count - 1) as usize) {
        None
    } else {
        Some((count - 1) as usize)
    }
}

/// The common bars, where there are any, as they are played for `verse`.
pub open spec fn common_run(common: Range<usize>, verse: usize) -> Seq<Repeat> {
    if common.start < common.end {
        seq![Repeat { verse: Some(verse), bars: common }]
    } else {
        Seq::empty()
    }
}

/// A repeat with endings, played out: for each verse below `count`, in
/// rising order, the common bars for that verse and then its ending.
pub open spec fn unrolled(common: Range<usize>, endings: Map<usize, Repeat>, count: nat) -> Seq<
    Repeat,
>
    decreases count,
{
    if count == 0 {
        Seq::empty()
    } else {
        unrolled(common, endings, (count - 1) as nat) + common_run(common, (count - 1) as usize)
            + seq![endings[(count - 1) as usize]]
    }
}

/// A repeat without endings, played out: it is played twice.
pub open spec fn doubled(common: Range<usize>) -> Seq<Repeat> {
    seq![Repeat { verse: Some(0), bars: common }, Repeat { verse: Some(1), bars: common }]
}

/// The bars `start..end`, where there are any, played for all verses.
pub open spec fn plain_run(start: int, end: int) -> Seq<Repeat> {
    if start < end {
        seq![Repeat { verse: None, bars: range(start, end) }]
    } else {
        Seq::empty()
    }
}

/// The verse that has the last ending.
pub open spec fn last_verse(endings: Map<usize, Repeat>) -> Option<usize> {
    if exists|verse: usize| endings.contains_key(verse) {
        Some(
            choose|verse: usize|
                endings.contains_key(verse) && forall|other: usize|
                    endings.contains_key(other) ==> other <= verse,
        )
    } else {
        None
    }
}

/// The first of the verses, in their order, that has an ending already.
pub open spec fn duplicate(endings: Map<usize, Repeat>, verses: Seq<usize>) -> Option<usize>
    decreases verses.len(),
{
    if verses.len() == 0 {
        None
    } else if duplicate(endings, verses.drop_last()) is Some {
        duplicate(endings, verses.drop_last())
    } else if endings.contains_key(verses.last()) {
        Some(verses.last())
    } else {
        None
    }
}

/// The endings with the bars `bars` as the ending of each of the first
/// `count` verses of `verses`. The ending of a single verse is played for
/// all; the endings of several verses are played for the first time, the
/// second time and so on.
pub open spec fn with_endings(
    endings: Map<usize, Repeat>,
    verses: Seq<usize>,
    bars: Range<usize>,
    count: nat,
) -> Map<usize, Repeat>
    decreases count,
{
    if count == 0 {
        endings
    } else {
        with_endings(endings, verses, bars, (count - 1) as nat).insert(
            verses[count - 1],
            Repeat {
                verse: if verses.len() == 1 {
                    None
                } else {
                    Some((count - 1) as usize)
                },
                bars,
            },
        )
    }
}

/// The state of the builder.
pub struct BuilderView {
    /// The number of the first bar.
    pub first: usize,
    /// The index of the bar that is being read.
    pub bar: usize,
    /// The ticks of the bars before it.
    pub durations: Seq<usize>,
    /// The position in the bar.
    pub duration: usize,
    /// The furthest position reached in the bar.
    pub max_duration: usize,
    pub state: State,
    /// The bars of the open repeat that all verses play.
    pub common: Range<usize>,
    /// The endings of the open repeat, by verse.
    pub endings: Map<usize, Repeat>,
    /// The runs that are resolved.
    pub repeats: Seq<Repeat>,
}

impl BuilderView {
    /// The number of the bar that is being read.
    pub open spec fn number(self) -> usize {
        (self.bar + self.first) as usize
    }

    pub open spec fn wf(self) -> bool {
        &&& self.durations.len() == self.bar
        &&& self.bar < usize::MAX
        &&& self.bar + self.first <= usize::MAX
        &&& spans(self.common, self.bar + 1)
        &&& forall|verse: usize| #[trigger]
            self.endings.contains_key(verse) ==> verse < usize::MAX && spans(
                self.endings[verse].bars,
                self.bar + 1,
            ) && self.endings[verse].bars.start <= self.bar
        &&& forall|k: int|
            0 <= k < self.repeats.len() ==> spans((#[trigger] self.repeats[k]).bars, self.bar + 1)
        &&& match self.state {
            State::Normal { bar } => bar <= self.bar + 1,
            State::RepeatStart { bar } => bar <= self.bar,
            State::EndingStart { bar, verses } => bar <= self.bar,
            State::EndingStop { bar, verses } => 1 <= bar <= self.bar + 1,
            State::RepeatStop { bar } => 1 <= bar <= self.bar + 1,
        }
    }

    pub open spec fn new(number: usize) -> BuilderView {
        BuilderView {
            first: number,
            bar: 0,
            durations: Seq::empty(),
            duration: 0,
            max_duration: 0,
            state: State::Normal { bar: 0 },
            common: range(0, 0),
            endings: Map::empty(),
            repeats: Seq::empty(),
        }
    }

    /// The next bar starts; it must have the next number, and that number
    /// and the count of bars must fit.
    pub open spec fn next(self, number: usize) -> Result<BuilderView, FailureView> {
        if self.bar + self.first + 1 > usize::MAX || self.bar + 1 >= usize::MAX {
            Err(FailureView::Overflow)
        } else if number != self.bar + self.first + 1 {
            Err(FailureView::UnexpectedBar { number, expected: (self.number() + 1) as usize })
        } else {
            Ok(
                BuilderView {
                    bar: (self.bar + 1) as usize,
                    durations: self.durations.push(self.max_duration),
                    duration: 0,
                    max_duration: 0,
                    ..self
                },
            )
        }
    }

    /// The position in the bar moves on by `duration` ticks.
    pub open spec fn forward(self, duration: usize) -> BuilderView {
        let at = (self.duration + duration) as usize;
        BuilderView {
            duration: at,
            max_duration: if self.max_duration < at {
                at
            } else {
                self.max_duration
            },
            ..self
        }
    }

    /// The position in the bar moves back by `duration` ticks.
    pub open spec fn backward(self, duration: usize) -> BuilderView {
        let at = (self.duration - duration) as usize;
        BuilderView {
            duration: at,
            max_duration: if self.max_duration < at {
                at
            } else {
                self.max_duration
            },
            ..self
        }
    }

    /// The open repeat played out with its endings for the verses below
    /// `count`, after the runs that are resolved.
    pub open spec fn closed(self, count: nat) -> Result<Seq<Repeat>, FailureView> {
        match missing(self.endings, count) {
            Some(verse) => Err(FailureView::MissingEnding { bar: self.number(), verse }),
            None => Ok(self.repeats + unrolled(self.common, self.endings, count)),
        }
    }

    /// The repeat that has ended played out, and then the bars
    /// `after..until` for all verses.
    pub open spec fn opened(self, after: int, until: int) -> Result<Seq<Repeat>, FailureView> {
        match last_verse(self.endings) {
            Some(last) => match self.closed((last + 1) as nat) {
                Ok(repeats) => Ok(repeats + plain_run(after, until)),
                Err(error) => Err(error),
            },
            None => Ok(self.repeats + doubled(self.common) + plain_run(after, until)),
        }
    }

    /// A repeat starts at this bar.
    pub open spec fn repeat_start(self) -> Result<BuilderView, FailureView> {
        match self.state {
            State::Normal { bar } => Ok(
                BuilderView {
                    repeats: self.repeats + plain_run(bar as int, self.bar as int),
                    state: State::RepeatStart { bar: self.bar },
                    ..self
                },
            ),
            State::RepeatStop { bar } => match self.opened(bar as int, self.bar as int) {
                Ok(repeats) => Ok(
                    BuilderView {
                        repeats,
                        endings: Map::empty(),
                        state: State::RepeatStart { bar: self.bar },
                        ..self
                    },
                ),
                Err(error) => Err(error),
            },
            _ => Err(FailureView::RepeatStart { bar: self.number() }),
        }
    }

    /// An ending for `verses` starts at this bar.
    pub open spec fn ending_start(self, verses: Verses) -> Result<BuilderView, FailureView> {
        match self.state {
            State::Normal { bar } => Err(FailureView::EndingWithoutRepeat { bar: self.number() }),
            State::RepeatStart { bar } => Ok(
                BuilderView {
                    common: range(bar as int, self.bar as int),
                    endings: Map::empty(),
                    state: State::EndingStart { bar: self.bar, verses },
                    ..self
                },
            ),
            State::RepeatStop { bar } => if self.bar != bar {
                Err(FailureView::EndingAfterGap { bar: self.number() })
            } else {
                Ok(
                    BuilderView {
                        endings: if self.endings.is_empty() && verses@
                            == seq![1usize] {
                            self.endings.insert(
                                0,
                                Repeat { verse: None, bars: range(bar as int, bar as int) },
                            )
                        } else {
                            self.endings
                        },
                        state: State::EndingStart { bar, verses },
                        ..self
                    },
                )
            },
            _ => Err(FailureView::EndingStart { bar: self.number() }),
        }
    }

    /// The ending for `verses` ends with this bar; `last` tells that no
    /// repeat follows it.
    pub open spec fn ending_end(self, verses: Verses, last: bool) -> Result<BuilderView, FailureView> {
        match self.state {
            State::EndingStart { bar, verses: expect } => if verses != expect {
                Err(FailureView::EndingMismatch { bar: self.number() })
            } else {
                match duplicate(self.endings, verses@) {
                    Some(verse) => Err(
                        FailureView::DuplicateEnding {
                            verse,
                            first: (self.endings[verse].bars.start + self.first) as usize,
                            second: (bar + self.first) as usize,
                        },
                    ),
                    None => {
                        let endings = with_endings(
                            self.endings,
                            verses@,
                            range(bar as int, self.bar + 1),
                            verses@.len(),
                        );
                        if !last {
                            Ok(
                                BuilderView {
                                    endings,
                                    state: State::EndingStop {
                                        bar: (self.bar + 1) as usize,
                                        verses,
                                    },
                                    ..self
                                },
                            )
                        } else if verses@.len() != 1 {
                            Err(
                                FailureView::FinalEndingNotSingle {
                                    bar: (bar + self.first) as usize,
                                },
                            )
                        } else {
                            match (BuilderView { endings, ..self }).closed(
                                (verses@[0] + 1) as nat,
                            ) {
                                Ok(repeats) => Ok(
                                    BuilderView {
                                        repeats,
                                        endings: Map::empty(),
                                        state: State::Normal { bar: (self.bar + 1) as usize },
                                        ..self
                                    },
                                ),
                                Err(error) => Err(error),
                            }
                        }
                    },
                }
            },
            _ => Err(FailureView::EndingEnd { bar: self.number() }),
        }
    }

    /// The repeat ends with this bar.
    pub open spec fn repeat_end(self) -> Result<BuilderView, FailureView> {
        match self.state {
            State::Normal { bar } => Err(FailureView::RepeatEndWithoutStart { bar: self.number() }),
            State::RepeatStart { bar } => Ok(
                BuilderView {
                    common: range(bar as int, self.bar + 1),
                    endings: Map::empty(),
                    state: State::RepeatStop { bar: (self.bar + 1) as usize },
                    ..self
                },
            ),
            State::EndingStop { bar, verses } => if bar != self.bar + 1 {
                Err(
                    FailureView::EndingGap {
                        ending: (bar + self.first) as usize,
                        repeat: self.number(),
                    },
                )
            } else {
                Ok(BuilderView { state: State::RepeatStop { bar }, ..self })
            },
            _ => Err(FailureView::RepeatEnd { bar: self.number() }),
        }
    }

    /// The runs of the whole score, once what is open at its end is played
    /// out: an open repeat as if it ended with the last bar, an open ending
    /// as the last one.
    pub open spec fn finished(self) -> Result<Seq<Repeat>, FailureView> {
        match self.state {
            State::Normal { bar } => Ok(self.repeats + plain_run(bar as int, self.bar + 1)),
            State::RepeatStart { bar } => Ok(
                self.repeats + doubled(range(bar as int, self.bar + 1)),
            ),
            State::EndingStart { bar, verses } => if verses@.len() != 1 {
                Err(FailureView::FinalEndingNotSingle { bar: (bar + self.first) as usize })
            } else if self.endings.contains_key(verses@[0]) {
                Err(
                    FailureView::DuplicateEnding {
                        verse: verses@[0],
                        first: (self.endings[verses@[0]].bars.start + self.first) as usize,
                        second: (bar + self.first) as usize,
                    },
                )
            } else {
                (BuilderView {
                    endings: self.endings.insert(
                        verses@[0],
                        Repeat { verse: None, bars: range(bar as int, self.bar + 1) },
                    ),
                    ..self
                }).closed((verses@[0] + 1) as nat)
            },
            State::EndingStop { bar, verses } => if verses@.len() != 1 {
                Err(FailureView::FinalEndingNotSingle { bar: (bar - 1 + self.first) as usize })
            } else {
                match self.closed((verses@[0] + 1) as nat) {
                    Ok(repeats) => Ok(repeats + plain_run(bar as int, self.bar + 1)),
                    Err(error) => Err(error),
                }
            },
            State::RepeatStop { bar } => self.opened(bar as int, self.bar + 1),
        }
    }

    /// The score resolved. Fails where what is open cannot be played out,
    /// and where the ticks of the whole play do not fit.
    pub open spec fn build(self) -> Result<RepeatsView, FailureView> {
        let durations = self.durations.push(self.max_duration);
        match self.finished() {
            Err(error) => Err(error),
            Ok(repeats) => if total_ticks(durations, repeats) > usize::MAX {
                Err(FailureView::Overflow)
            } else {
                Ok(RepeatsView { first_bar_number: self.first, durations, repeats })
            },
        }
    }
}

/// What a step of the builder came to: where the model gives a state, the
/// builder is in it; where it gives an error, that error is returned and the
/// builder is as it was.
pub open spec fn stepped(
    before: BuilderView,
    after: BuilderView,
    result: Result<(), Failure>,
    expect: Result<BuilderView, FailureView>,
) -> bool {
    match expect {
        Ok(view) => result is Ok && after == view,
        Err(error) => result is Err && result->Err_0@ == error && after == before,
    }
}

/// Reads a score's bars, repeats and endings in the order of the score and
/// resolves them into the order of play.
pub struct RepeatsBuilder {
    bar_to_number: usize,
    bar: usize,
    durations: Vec<usize>,
    duration: usize,
    max_duration: usize,
    state: State,
    common: Range<usize>,
    endings: BTreeMap<usize, Repeat>,
    repeats: Vec<Repeat>,
}

impl View for RepeatsBuilder {
    type V = BuilderView;

    closed spec fn view(&self) -> BuilderView {
        BuilderView {
            first: self.bar_to_number,
            bar: self.bar,
            durations: self.durations@,
            duration: self.duration,
            max_duration: self.max_duration,
            state: self.state,
            common: self.common,
            endings: self.endings@,
            repeats: self.repeats@,
        }
    }
}

/// `BTreeMap::last_key_value` of the standard library gives the entry with
/// the greatest key, or nothing for an empty map; this keeps the key.
#[verifier::external_body]
fn last_ending(endings: &BTreeMap<usize, Repeat>) -> (last: Option<usize>)
    ensures
        match last {
            Some(verse) => endings@.contains_key(verse) && forall|other: usize|
                endings@.contains_key(other) ==> other <= verse,
            None => forall|other: usize| !endings@.contains_key(other),
        },
{
    endings.last_key_value().map(|entry| *entry.0)
}

impl RepeatsBuilder {
    /// Starts a score whose first bar has the number `number`.
    pub fn new(number: usize) -> (builder: RepeatsBuilder)
        ensures
            builder@ == BuilderView::new(number),
            builder@.wf(),
    {
        let builder = RepeatsBuilder {
            bar_to_number: number,
            bar: 0,
            durations: Vec::new(),
            duration: 0,
            max_duration: 0,
            state: State::Normal { bar: 0 },
            common: Range { start: 0, end: 0 },
            endings: BTreeMap::new(),
            repeats: Vec::new(),
        };
        assert(builder@.durations =~= Seq::empty());
        assert(builder@.repeats =~= Seq::empty());
        builder
    }

    /// Starts the next bar, which must have the next number.
    pub fn next(&mut self, number: usize) -> (result: Result<(), Failure>)
        requires
            old(self)@.wf(),
        ensures
            final(self)@.wf(),
            stepped(old(self)@, final(self)@, result, old(self)@.next(number)),
    {
        let after = self.bar + self.bar_to_number;
        if after == usize::MAX || self.bar + 1 >= usize::MAX {
            return Err(Failure::Overflow);
        }
        if number != after + 1 {
            return Err(Failure::UnexpectedBar { number, expected: after + 1 });
        }
        self.durations.push(self.max_duration);
        self.bar += 1;
        self.duration = 0;
        self.max_duration = 0;
        Ok(())
    }

    /// The position in the bar that is being read.
    pub fn position(&self) -> (position: usize)
        ensures
            position == self@.duration,
    {
        self.duration
    }

    /// Moves on in the bar by `duration` ticks.
    pub fn forward(&mut self, duration: usize)
        requires
            old(self)@.wf(),
            old(self)@.duration + duration <= usize::MAX,
        ensures
            final(self)@.wf(),
            final(self)@ == old(self)@.forward(duration),
    {
        self.duration += duration;
        if self.max_duration < self.duration {
            self.max_duration = self.duration;
        }
    }

    /// Moves back in the bar by `duration` ticks.
    pub fn backward(&mut self, duration: usize)
        requires
            old(self)@.wf(),
            duration <= old(self)@.duration,
        ensures
            final(self)@.wf(),
            final(self)@ == old(self)@.backward(duration),
    {
        self.duration -= duration;
        if self.max_duration < self.duration {
            self.max_duration = self.duration;
        }
    }

    /// Starts a repeat at this bar.
    pub fn repeat_start(&mut self) -> (result: Result<(), Failure>)
        requires
            old(self)@.wf(),
        ensures
            final(self)@.wf(),
            stepped(old(self)@, final(self)@, result, old(self)@.repeat_start()),
    {
        match self.state {
            State::Normal { bar } => {
                if self.bar > bar {
                    self.repeats.push(Repeat { verse: None, bars: Range { start: bar, end: self.bar } });
                }
                self.state = State::RepeatStart { bar: self.bar };
                assert(self@.repeats =~= old(self)@.repeats + plain_run(bar as int, self.bar as int));
                Ok(())
            },
            State::RepeatStop { bar } => {
                match self.repeat_open(bar, self.bar) {
                    Ok(()) => {
                        self.endings.clear();
                        self.state = State::RepeatStart { bar: self.bar };
                        Ok(())
                    },
                    Err(error) => Err(error),
                }
            },
            _ => Err(Failure::RepeatStart { bar: self.bar + self.bar_to_number }),
        }
    }

    /// Starts an ending for `verses` at this bar.
    pub fn ending_start(&mut self, verses: Verses) -> (result: Result<(), Failure>)
        requires
            old(self)@.wf(),
        ensures
            final(self)@.wf(),
            stepped(old(self)@, final(self)@, result, old(self)@.ending_start(verses)),
    {
        match self.state {
            State::Normal { bar } => Err(
                Failure::EndingWithoutRepeat { bar: self.bar + self.bar_to_number },
            ),
            State::RepeatStart { bar } => {
                self.common = Range { start: bar, end: self.bar };
                self.endings.clear();
                self.state = State::EndingStart { bar: self.bar, verses };
                Ok(())
            },
            State::RepeatStop { bar } => {
                if self.bar != bar {
                    return Err(Failure::EndingAfterGap { bar: self.bar + self.bar_to_number });
                }
                let second = match verses.to_single() {
                    Some(verse) => verse == 1,
                    None => false,
                };
                assert(second == (verses@ =~= seq![1usize]));
                if self.endings.is_empty() && second {
                    self.endings.insert(0, Repeat { verse: None, bars: Range { start: bar, end: bar } });
                }
                self.state = State::EndingStart { bar, verses };
                Ok(())
            },
            _ => Err(Failure::EndingStart { bar: self.bar + self.bar_to_number }),
        }
    }

    /// Ends the ending for `verses` with this bar; `last` tells that no
    /// repeat follows it.
    pub fn ending_end(&mut self, verses: Verses, last: bool) -> (result: Result<(), Failure>)
        requires
            old(self)@.wf(),
        ensures
            final(self)@.wf(),
            stepped(old(self)@, final(self)@, result, old(self)@.ending_end(verses, last)),
    {
        match self.state {
            State::EndingStart { bar, verses: expect } => {
                if !(verses == expect) {
                    return Err(Failure::EndingMismatch { bar: self.bar + self.bar_to_number });
                }
                let list = verses.to_vec();
                let mut k: usize = 0;
                assert(list@.take(0) =~= Seq::<usize>::empty());
                while k < list.len()
                    invariant
                        k <= list.len(),
                        *self == *old(self),
                        self@.wf(),
                        list@ == verses@,
                        verses == expect,
                        self.state == (State::EndingStart { bar, verses: expect }),
                        duplicate(self.endings@, list@.take(k as int)) is None,
                    decreases list.len() - k,
                {
                    proof {
                        assert(list@.take(k + 1).drop_last() =~= list@.take(k as int));
                    }
                    match self.endings.get(&list[k]) {
                        Some(dup) => {
                            proof {
                                lemma_duplicate(self.endings@, list@, k + 1);
                            }
                            return Err(
                                Failure::DuplicateEnding {
                                    verse: list[k],
                                    first: dup.bars.start + self.bar_to_number,
                                    second: bar + self.bar_to_number,
                                },
                            );
                        },
                        None => {},
                    }
                    k += 1;
                }
                assert(list@.take(list.len() as int) =~= list@);
                if last && list.len() != 1 {
                    return Err(Failure::FinalEndingNotSingle { bar: bar + self.bar_to_number });
                }
                let end = self.bar + 1;
                let ghost bars = range(bar as int, self.bar + 1);
                let mut k: usize = 0;
                while k < list.len()
                    invariant
                        k <= list.len(),
                        end == self.bar + 1,
                        bar <= self.bar,
                        bars == range(bar as int, self.bar + 1),
                        self@.wf(),
                        self@ == (BuilderView { endings: self.endings@, ..old(self)@ }),
                        self.endings@ == with_endings(old(self)@.endings, list@, bars, k as nat),
                        duplicate(old(self)@.endings, list@) is None,
                        forall|i: int| 0 <= i < list.len() ==> list[i] < usize::MAX,
                    decreases list.len() - k,
                {
                    let verse = if list.len() == 1 {
                        None
                    } else {
                        Some(k)
                    };
                    self.endings.insert(list[k], Repeat { verse, bars: Range { start: bar, end } });
                    k += 1;
                }
                if last {
                    let single = list[0];
                    proof {
                        assert(list@.drop_last() =~= Seq::<usize>::empty());
                        assert(!old(self)@.endings.contains_key(single));
                        reveal_with_fuel(with_endings, 2);
                        assert(self.endings@ == old(self)@.endings.insert(
                            single,
                            Repeat { verse: None, bars },
                        ));
                    }
                    match self.repeat_closed(single + 1) {
                        Ok(()) => {
                            self.endings.clear();
                            self.state = State::Normal { bar: self.bar + 1 };
                            Ok(())
                        },
                        Err(error) => {
                            self.endings.remove(&single);
                            assert(self.endings@ =~= old(self)@.endings);
                            Err(error)
                        },
                    }
                } else {
                    self.state = State::EndingStop { bar: self.bar + 1, verses };
                    Ok(())
                }
            },
            _ => Err(Failure::EndingEnd { bar: self.bar + self.bar_to_number }),
        }
    }

    /// Ends the repeat with this bar.
    pub fn repeat_end(&mut self) -> (result: Result<(), Failure>)
        requires
            old(self)@.wf(),
        ensures
            final(self)@.wf(),
            stepped(old(self)@, final(self)@, result, old(self)@.repeat_end()),
    {
        match self.state {
            State::Normal { bar } => Err(
                Failure::RepeatEndWithoutStart { bar: self.bar + self.bar_to_number },
            ),
            State::RepeatStart { bar } => {
                self.common = Range { start: bar, end: self.bar + 1 };
                self.endings.clear();
                self.state = State::RepeatStop { bar: self.bar + 1 };
                Ok(())
            },
            State::EndingStop { bar, verses } => {
                if bar != self.bar + 1 {
                    return Err(
                        Failure::EndingGap {
                            ending: bar + self.bar_to_number,
                            repeat: self.bar + self.bar_to_number,
                        },
                    );
                }
                self.state = State::RepeatStop { bar };
                Ok(())
            },
            _ => Err(Failure::RepeatEnd { bar: self.bar + self.bar_to_number }),
        }
    }

    /// Plays out the repeat that has ended, and then the bars
    /// `after..until` for all verses.
    fn repeat_open(&mut self, after: usize, until: usize) -> (result: Result<(), Failure>)
        requires
            old(self)@.wf(),
            until <= old(self)@.bar + 1,
        ensures
            final(self)@.wf(),
            match old(self)@.opened(after as int, until as int) {
                Ok(repeats) => result is Ok && final(self)@ == (BuilderView {
                    repeats,
                    ..old(self)@
                }),
                Err(error) => result is Err && result->Err_0@ == error && final(self)@ == old(
                    self,
                )@,
            },
    {
        let last = last_ending(&self.endings);
        assert(last == last_verse(self.endings@));
        match last {
            Some(last) => {
                match self.repeat_closed(last + 1) {
                    Ok(()) => {},
                    Err(error) => {
                        return Err(error);
                    },
                }
            },
            None => {
                self.repeats.push(
                    Repeat {
                        verse: Some(0),
                        bars: Range { start: self.common.start, end: self.common.end },
                    },
                );
                self.repeats.push(
                    Repeat {
                        verse: Some(1),
                        bars: Range { start: self.common.start, end: self.common.end },
                    },
                );
                assert(self.repeats@ =~= old(self)@.repeats + doubled(self.common));
            },
        }
        let ghost played = self.repeats@;
        if after < until {
            self.repeats.push(Repeat { verse: None, bars: Range { start: after, end: until } });
        }
        assert(self.repeats@ =~= played + plain_run(after as int, until as int));
        Ok(())
    }

    /// Plays out the open repeat with its endings for the verses below
    /// `count`.
    fn repeat_closed(&mut self, count: usize) -> (result: Result<(), Failure>)
        requires
            old(self)@.wf(),
        ensures
            final(self)@.wf(),
            match old(self)@.closed(count as nat) {
                Ok(repeats) => result is Ok && final(self)@ == (BuilderView {
                    repeats,
                    ..old(self)@
                }),
                Err(error) => result is Err && result->Err_0@ == error && final(self)@ == old(
                    self,
                )@,
            },
    {
        let mut verse: usize = 0;
        while verse < count
            invariant
                verse <= count,
                *self == *old(self),
                self@.wf(),
                missing(self.endings@, verse as nat) is None,
            decreases count - verse,
        {
            if !self.endings.contains_key(&verse) {
                proof {
                    lemma_missing(self.endings@, verse as nat, count as nat);
                }
                return Err(
                    Failure::MissingEnding { bar: self.bar + self.bar_to_number, verse },
                );
            }
            verse += 1;
        }
        let mut verse: usize = 0;
        assert(self.repeats@ =~= old(self)@.repeats + unrolled(self.common, self.endings@, 0));
        while verse < count
            invariant
                verse <= count,
                self@.wf(),
                missing(self.endings@, count as nat) is None,
                self@ == (BuilderView { repeats: self.repeats@, ..old(self)@ }),
                self.repeats@ == old(self)@.repeats + unrolled(
                    self.common,
                    self.endings@,
                    verse as nat,
                ),
            decreases count - verse,
        {
            let ghost played = self.repeats@;
            proof {
                lemma_present(self.endings@, verse as nat, count as nat);
            }
            if self.common.start < self.common.end {
                self.repeats.push(
                    Repeat {
                        verse: Some(verse),
                        bars: Range { start: self.common.start, end: self.common.end },
                    },
                );
            }
            let ending = match self.endings.get(&verse) {
                Some(ending) => Repeat {
                    verse: ending.verse,
                    bars: Range { start: ending.bars.start, end: ending.bars.end },
                },
                None => Repeat { verse: None, bars: Range { start: 0, end: 0 } },
            };
            self.repeats.push(ending);
            assert(self.repeats@ =~= played + common_run(self.common, verse) + seq![
                self.endings@[verse],
            ]);
            verse += 1;
            assert(self.repeats@ =~= old(self)@.repeats + unrolled(
                self.common,
                self.endings@,
                verse as nat,
            ));
        }
        Ok(())
    }

    /// Ends the score and gives it resolved.
    pub fn build(self) -> (result: Result<Repeats, Failure>)
        requires
            self@.wf(),
        ensures
            match self@.build() {
                Ok(repeats) => result is Ok && result->Ok_0@ == repeats && repeats.wf(),
                Err(error) => result is Err && result->Err_0@ == error,
            },
    {
        let mut builder = self;
        let end = builder.bar + 1;
        match builder.state {
            State::Normal { bar } => {
                if builder.bar >= bar {
                    builder.repeats.push(Repeat { verse: None, bars: Range { start: bar, end } });
                }
                assert(builder.repeats@ =~= self@.repeats + plain_run(bar as int, self@.bar + 1));
            },
            State::RepeatStart { bar } => {
                builder.repeats.push(Repeat { verse: Some(0), bars: Range { start: bar, end } });
                builder.repeats.push(Repeat { verse: Some(1), bars: Range { start: bar, end } });
                assert(builder.repeats@ =~= self@.repeats + doubled(
                    range(bar as int, self@.bar + 1),
                ));
            },
            State::EndingStart { bar, verses } => {
                match verses.to_single() {
                    Some(verse) => {
                        match builder.endings.get(&verse) {
                            Some(dup) => {
                                return Err(
                                    Failure::DuplicateEnding {
                                        verse,
                                        first: dup.bars.start + builder.bar_to_number,
                                        second: bar + builder.bar_to_number,
                                    },
                                );
                            },
                            None => {},
                        }
                        builder.endings.insert(
                            verse,
                            Repeat { verse: None, bars: Range { start: bar, end } },
                        );
                        match builder.repeat_closed(verse + 1) {
                            Ok(()) => {},
                            Err(error) => {
                                return Err(error);
                            },
                        }
                    },
                    None => {
                        return Err(
                            Failure::FinalEndingNotSingle { bar: bar + builder.bar_to_number },
                        );
                    },
                }
            },
            State::EndingStop { bar, verses } => {
                match verses.to_single() {
                    Some(verse) => {
                        match builder.repeat_closed(verse + 1) {
                            Ok(()) => {},
                            Err(error) => {
                                return Err(error);
                            },
                        }
                        let ghost played = builder.repeats@;
                        if builder.bar >= bar {
                            builder.repeats.push(
                                Repeat { verse: None, bars: Range { start: bar, end } },
                            );
                        }
                        assert(builder.repeats@ =~= played + plain_run(bar as int, self@.bar + 1));
                    },
                    None => {
                        return Err(
                            Failure::FinalEndingNotSingle {
                                bar: bar - 1 + builder.bar_to_number,
                            },
                        );
                    },
                }
            },
            State::RepeatStop { bar } => {
                match builder.repeat_open(bar, end) {
                    Ok(()) => {},
                    Err(error) => {
                        return Err(error);
                    },
                }
            },
        }
        assert(builder.repeats@ == self@.finished()->Ok_0);
        builder.durations.push(builder.max_duration);
        match ticks_of(&builder.durations, &builder.repeats) {
            Some(ticks) => Ok(
                Repeats {
                    first_bar_number: builder.bar_to_number,
                    durations: builder.durations,
                    repeats: builder.repeats,
                    ticks,
                },
            ),
            None => Err(Failure::Overflow),
        }
    }
}

/// A verse that is found to have an ending already is the duplicate, where
/// none of the verses before it is one.
proof fn lemma_duplicate(endings: Map<usize, Repeat>, verses: Seq<usize>, k: int)
    requires
        0 < k <= verses.len(),
        duplicate(endings, verses.take(k - 1)) is None,
        endings.contains_key(verses[k - 1]),
    ensures
        duplicate(endings, verses) == Some(verses[k - 1]),
    decreases verses.len() - k,
{
    assert(verses.take(k).drop_last() =~= verses.take(k - 1));
    assert(duplicate(endings, verses.take(k)) == Some(verses[k - 1]));
    lemma_duplicate_kept(endings, verses, k);
}

proof fn lemma_duplicate_kept(endings: Map<usize, Repeat>, verses: Seq<usize>, k: int)
    requires
        0 <= k <= verses.len(),
        duplicate(endings, verses.take(k)) is Some,
    ensures
        duplicate(endings, verses) == duplicate(endings, verses.take(k)),
    decreases verses.len() - k,
{
    if k == verses.len() {
        assert(verses.take(k) =~= verses);
    } else {
        assert(verses.take(k + 1).drop_last() =~= verses.take(k));
        lemma_duplicate_kept(endings, verses, k + 1);
    }
}

/// A verse that is found to have no ending is the missing one, where none
/// of the verses before it is.
proof fn lemma_missing(endings: Map<usize, Repeat>, verse: nat, count: nat)
    requires
        verse < count,
        missing(endings, verse) is None,
        !endings.contains_key(verse as usize),
    ensures
        missing(endings, count) == Some(verse as usize),
    decreases count - verse,
{
    if count > verse + 1 {
        lemma_missing(endings, verse, (count - 1) as nat);
    }
}

/// Where no ending is missing, each verse has one.
proof fn lemma_present(endings: Map<usize, Repeat>, verse: nat, count: nat)
    requires
        verse < count,
        missing(endings, count) is None,
    ensures
        endings.contains_key(verse as usize),
    decreases count,
{
    if count > verse + 1 {
        lemma_present(endings, verse, (count - 1) as nat);
    }
}

/// A run played out has one bar for each of its bars, in their order, each
/// starting where the one before it ends.
pub proof fn lemma_span_bars(
    durations: Seq<usize>,
    verse: Option<usize>,
    start: int,
    end: int,
    tick: int,
)
    requires
        0 <= start <= end,
    ensures
        span_bars(durations, verse, start, end, tick).len() == end - start,
        forall|i: int|
            0 <= i < end - start ==> #[trigger] span_bars(durations, verse, start, end, tick)[i]
                == (Bar {
                index: (start + i) as usize,
                verse,
                tick: (tick + span_ticks(durations, start, start + i)) as usize,
            }),
    decreases end - start,
{
    if start < end {
        lemma_span_bars(durations, verse, start, end - 1, tick);
    }
}

/// In the order of play no bar starts before the bar played before it, and
/// none starts after the ticks of the whole play.
pub proof fn lemma_replay_ticks(durations: Seq<usize>, repeats: Seq<Repeat>)
    requires
        forall|k: int|
            0 <= k < repeats.len() ==> (#[trigger] repeats[k]).bars.start <= repeats[k].bars.end,
        total_ticks(durations, repeats) <= usize::MAX,
    ensures
        forall|i: int, j: int|
            0 <= i <= j < replay(durations, repeats).len() ==> replay(durations, repeats)[i].tick
                <= replay(durations, repeats)[j].tick,
        forall|i: int|
            0 <= i < replay(durations, repeats).len() ==> replay(durations, repeats)[i].tick
                <= total_ticks(durations, repeats),
    decreases repeats.len(),
{
    if repeats.len() > 0 {
        let before = repeats.drop_last();
        let last = repeats.last();
        let start = last.bars.start as int;
        let end = last.bars.end as int;
        let tick = total_ticks(durations, before);
        assert(repeats.take(repeats.len() - 1) =~= before);
        lemma_total_ticks(durations, repeats, repeats.len() - 1);
        lemma_span_ticks(durations, start, start, end);
        assert forall|k: int| 0 <= k < before.len() implies (#[trigger] before[k]).bars.start
            <= before[k].bars.end by {
            assert(before[k] == repeats[k]);
        }
        lemma_replay_ticks(durations, before);
        lemma_span_bars(durations, last.verse, start, end, tick);
        let played = replay(durations, before);
        let run = span_bars(durations, last.verse, start, end, tick);
        let all = replay(durations, repeats);
        assert(all == played + run);
        assert forall|i: int| 0 <= i < all.len() implies all[i].tick <= total_ticks(
            durations,
            repeats,
        ) && (i >= played.len() ==> all[i].tick >= tick) by {
            if i >= played.len() {
                let at = i - played.len();
                assert(all[i] == run[at]);
                lemma_span_ticks(durations, start, start + at, end);
            } else {
                assert(all[i] == played[i]);
            }
        }
        assert forall|i: int, j: int| 0 <= i <= j < all.len() implies all[i].tick
            <= all[j].tick by {
            if j < played.len() {
                assert(all[i] == played[i] && all[j] == played[j]);
            } else if i < played.len() {
                assert(all[i] == played[i]);
            } else {
                let a = i - played.len();
                let b = j - played.len();
                assert(all[i] == run[a] && all[j] == run[b]);
                lemma_span_ticks(durations, start, start + a, start + b);
                lemma_span_ticks(durations, start, start + b, end);
            }
        }
    }
}

/// The builder has seen neither a repeat nor an ending.
pub open spec fn repeat_free(builder: BuilderView) -> bool {
    builder.state == (State::Normal { bar: 0 }) && builder.repeats.len() == 0
}

/// A builder that is told of bars and of moves within them, and of nothing
/// else, has seen neither a repeat nor an ending.
pub proof fn lemma_repeat_free_kept(builder: BuilderView, number: usize, duration: usize)
    requires
        repeat_free(builder),
    ensures
        repeat_free(BuilderView::new(number)),
        builder.next(number) is Ok ==> repeat_free(builder.next(number)->Ok_0),
        repeat_free(builder.forward(duration)),
        repeat_free(builder.backward(duration)),
{
}

/// The ticks of a bar that lies further on are more than those of the bars
/// before it, where the bars between have ticks.
proof fn lemma_span_ticks_strict(durations: Seq<usize>, mid: int, end: int)
    requires
        0 <= mid < end <= durations.len(),
        forall|k: int| 0 <= k < durations.len() ==> durations[k] > 0,
    ensures
        span_ticks(durations, 0, mid) < span_ticks(durations, 0, end),
    decreases end - mid,
{
    if mid + 1 < end {
        lemma_span_ticks_strict(durations, mid, end - 1);
    }
}

/// A score without repeats is played bar by bar: as many bars as it has,
/// each once and in its order, for all verses, each starting where the one
/// before it ends. Where every bar has ticks, each bar starts later than the
/// one before it.
pub proof fn lemma_repeat_free_play(builder: BuilderView)
    requires
        builder.wf(),
        repeat_free(builder),
        builder.build() is Ok,
    ensures
        ({
            let score = builder.build()->Ok_0;
            let bars = replay(score.durations, score.repeats);
            &&& score.durations.len() == builder.bar + 1
            &&& bars.len() == score.durations.len()
            &&& forall|i: int|
                0 <= i < bars.len() ==> (#[trigger] bars[i]).index == i && bars[i].verse is None
                    && bars[i].tick == span_ticks(score.durations, 0, i)
            &&& forall|i: int, j: int|
                0 <= i <= j < bars.len() ==> (#[trigger] bars[i]).tick <= (#[trigger] bars[j]).tick
            &&& (forall|k: int| 0 <= k < score.durations.len() ==> score.durations[k] > 0)
                ==> forall|i: int, j: int|
                0 <= i < j < bars.len() ==> (#[trigger] bars[i]).tick < (#[trigger] bars[j]).tick
        }),
{
    let score = builder.build()->Ok_0;
    let count = builder.bar + 1;
    let run = Repeat { verse: None, bars: range(0, count) };
    assert(score.repeats =~= seq![run]);
    assert(score.repeats.drop_last() =~= Seq::<Repeat>::empty());
    let bars = replay(score.durations, score.repeats);
    let none = Seq::<Repeat>::empty();
    assert(score.repeats.last() == run);
    assert(run.bars.start == 0 && run.bars.end == count);
    assert(replay(score.durations, none) =~= Seq::<Bar>::empty());
    assert(total_ticks(score.durations, none) == 0);
    assert(bars =~= span_bars(score.durations, None, 0, count, 0));
    lemma_span_bars(score.durations, None, 0, count, 0);
    assert(total_ticks(score.durations, score.repeats) == span_ticks(score.durations, 0, count));
    assert forall|i: int| 0 <= i < bars.len() implies (#[trigger] bars[i]).index == i
        && bars[i].verse is None && bars[i].tick == span_ticks(score.durations, 0, i) by {
        lemma_span_ticks(score.durations, 0, i, count);
    }
    assert forall|i: int, j: int| 0 <= i <= j < bars.len() implies (#[trigger] bars[i]).tick <= (
    #[trigger] bars[j]).tick by {
        lemma_span_ticks(score.durations, 0, i, j);
    }
    if forall|k: int| 0 <= k < score.durations.len() ==> score.durations[k] > 0 {
        assert forall|i: int, j: int| 0 <= i < j < bars.len() implies (#[trigger] bars[i]).tick < (
        #[trigger] bars[j]).tick by {
            lemma_span_ticks_strict(score.durations, i, j);
        }
    }
}

/// Every bar of the play is a bar of the score.
pub proof fn lemma_replay_index(durations: Seq<usize>, repeats: Seq<Repeat>)
    requires
        forall|k: int|
            0 <= k < repeats.len() ==> spans((#[trigger] repeats[k]).bars, durations.len() as int),
    ensures
        forall|i: int|
            0 <= i < replay(durations, repeats).len() ==> (#[trigger] replay(
                durations,
                repeats,
            )[i]).index < durations.len(),
    decreases repeats.len(),
{
    if repeats.len() > 0 {
        let before = repeats.drop_last();
        let last = repeats.last();
        assert forall|k: int| 0 <= k < before.len() implies spans(
            (#[trigger] before[k]).bars,
            durations.len() as int,
        ) by {
            assert(before[k] == repeats[k]);
        }
        lemma_replay_index(durations, before);
        let tick = total_ticks(durations, before);
        lemma_span_bars(durations, last.verse, last.bars.start as int, last.bars.end as int, tick);
        let played = replay(durations, before);
        let run = span_bars(
            durations,
            last.verse,
            last.bars.start as int,
            last.bars.end as int,
            tick,
        );
        let all = replay(durations, repeats);
        assert forall|i: int| 0 <= i < all.len() implies (#[trigger] all[i]).index
            < durations.len() by {
            if i >= played.len() {
                assert(all[i] == run[i - played.len()]);
            } else {
                assert(all[i] == played[i]);
            }
        }
    }
}

} // verus!
