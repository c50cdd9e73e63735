//! Collects the syllables of a part bar by bar and plays them out in the
//! order of the score's repeats.
use vstd::prelude::*;
use super::repeat::{lemma_replay_index, lemma_replay_ticks, replay, total_ticks, Bar as Played,
    Repeats, RepeatsView};
use super::{Part, PhraseView};
use crate::error::{Failure, FailureView};
use crate::text::{chars_of, same_text, string_from};
use crate::views;

verus! {

/// Where a syllable stands in its word.
#[derive(Copy, Clone, Debug, PartialEq, Eq, Structural)]
pub enum Kind {
    /// A word of one syllable.
    Single,
    /// The first syllable of a word.
    Begin,
    /// A syllable inside a word.
    Middle,
    /// The last syllable of a word.
    End,
}

/// The kind that the text of a `syllabic` element names.
pub open spec fn kind_of(text: Seq<char>) -> Option<Kind> {
    if text == "single"@ {
        Some(Kind::Single)
    } else if text == "begin"@ {
        Some(Kind::Begin)
    } else if text == "middle"@ {
        Some(Kind::Middle)
    } else if text == "end"@ {
        Some(Kind::End)
    } else {
        None
    }
}

impl Kind {
    /// Reads the text of a `syllabic` element.
    pub fn parse(text: &str) -> (r: Result<Kind, Failure>)
        ensures
            match kind_of(text@) {
                Some(kind) => r == Ok::<Kind, Failure>(kind),
                None => r is Err && r->Err_0@ == (FailureView::Invalid {
                    element: "lyric"@,
                    name: "syllabic"@,
                    value: text@,
                }),
            },
    {
        if same_text(text, "single") {
            Ok(Kind::Single)
        } else if same_text(text, "begin") {
            Ok(Kind::Begin)
        } else if same_text(text, "middle") {
            Ok(Kind::Middle)
        } else if same_text(text, "end") {
            Ok(Kind::End)
        } else {
            Err(
                Failure::Invalid {
                    element: "lyric".to_owned(),
                    name: "syllabic".to_owned(),
                    value: string_from(&chars_of(text)),
                },
            )
        }
    }

    /// The place of the kind in the order of kinds.
    pub open spec fn rank(self) -> int {
        match self {
            Kind::Single => 0,
            Kind::Begin => 1,
            Kind::Middle => 2,
            Kind::End => 3,
        }
    }
}

impl std::str::FromStr for Kind {
    type Err = Failure;

    /// Reads the text of a `syllabic` element, as `Kind::parse` does.
    fn from_str(text: &str) -> (r: Result<Kind, Failure>)
        ensures
            match kind_of(text@) {
                Some(kind) => r == Ok::<Kind, Failure>(kind),
                None => r is Err && r->Err_0@ == (FailureView::Invalid {
                    element: "lyric"@,
                    name: "syllabic"@,
                    value: text@,
                }),
            },
    {
        Kind::parse(text)
    }
}

/// A syllable: sung from the tick `start` to the tick `end`.
#[derive(Copy, Clone, Debug, PartialEq, Eq)]
pub struct Syllable<'xml> {
    pub start: usize,
    pub end: usize,
    pub kind: Kind,
    pub text: &'xml str,
}

pub struct SyllableView {
    pub start: usize,
    pub end: usize,
    pub kind: Kind,
    pub text: Seq<char>,
}

impl<'xml> View for Syllable<'xml> {
    type V = SyllableView;

    open spec fn view(&self) -> SyllableView {
        SyllableView { start: self.start, end: self.end, kind: self.kind, text: self.text@ }
    }
}

/// Whether one text stands before another, or is the same: character by
/// character, a text before those that it starts.
pub open spec fn text_le(a: Seq<char>, b: Seq<char>) -> bool
    decreases a.len(),
{
    if a.len() == 0 {
        true
    } else if b.len() == 0 {
        false
    } else if a[0] != b[0] {
        a[0] < b[0]
    } else {
        text_le(a.skip(1), b.skip(1))
    }
}

/// The order of the syllables of a bar: by start, then by end, then by
/// kind, then by text.
pub open spec fn le(a: SyllableView, b: SyllableView) -> bool {
    if a.start != b.start {
        a.start < b.start
    } else if a.end != b.end {
        a.end < b.end
    } else if a.kind != b.kind {
        a.kind.rank() < b.kind.rank()
    } else {
        text_le(a.text, b.text)
    }
}

/// Ordered syllables with one more set behind those that do not come after
/// it.
pub open spec fn inserted(sorted: Seq<SyllableView>, item: SyllableView) -> Seq<SyllableView>
    decreases sorted.len(),
{
    if sorted.len() == 0 {
        seq![item]
    } else if le(sorted.last(), item) {
        sorted.push(item)
    } else {
        inserted(sorted.drop_last(), item).push(sorted.last())
    }
}

/// The syllables in order.
pub open spec fn sorted_of(items: Seq<SyllableView>) -> Seq<SyllableView>
    decreases items.len(),
{
    if items.len() == 0 {
        Seq::empty()
    } else {
        inserted(sorted_of(items.drop_last()), items.last())
    }
}

/// The syllables of one bar: those that all verses sing, and those of the
/// second and of the third verse.
pub struct BarView {
    pub common: Seq<SyllableView>,
    pub second: Seq<SyllableView>,
    pub third: Seq<SyllableView>,
}

/// A syllable set later by `tick` ticks.
pub open spec fn shifted(syllable: SyllableView, tick: int) -> SyllableView {
    SyllableView {
        start: (syllable.start + tick) as usize,
        end: (syllable.end + tick) as usize,
        ..syllable
    }
}

/// Where the common syllables are taken up again after the syllables of a
/// verse that ended at `end`: at the first from `from` on that does not
/// start before `end`.
pub open spec fn resume(common: Seq<SyllableView>, end: usize, from: int) -> int
    decreases common.len() - from,
{
    if 0 <= from < common.len() && common[from].start < end {
        resume(common, end, from + 1)
    } else {
        from
    }
}

impl BarView {
    pub open spec fn new() -> BarView {
        BarView { common: Seq::empty(), second: Seq::empty(), third: Seq::empty() }
    }

    /// The syllables of a verse of its own: of the second verse or of the
    /// third.
    pub open spec fn own(self, verse: Option<usize>) -> Seq<SyllableView> {
        match verse {
            Some(verse) if verse == 1 => self.second,
            Some(verse) if verse == 2 => self.third,
            _ => Seq::empty(),
        }
    }

    /// The syllables that are sung when the bar is played for `verse`: the
    /// verse's own and then the common ones that start no earlier than the
    /// last of them ends; the common ones where the verse has none.
    pub open spec fn sung(self, verse: Option<usize>) -> Seq<SyllableView> {
        let own = self.own(verse);
        if own.len() > 0 {
            own + self.common.skip(resume(self.common, own.last().end, 0))
        } else {
            self.common
        }
    }

    pub open spec fn with(self, verse: usize, syllable: SyllableView) -> BarView {
        if verse == 0 {
            BarView { common: self.common.push(syllable), ..self }
        } else if verse == 1 {
            BarView { second: self.second.push(syllable), ..self }
        } else {
            BarView { third: self.third.push(syllable), ..self }
        }
    }

    pub open spec fn sorted(self) -> BarView {
        BarView {
            common: sorted_of(self.common),
            second: sorted_of(self.second),
            third: sorted_of(self.third),
        }
    }

    /// Every syllable ends no earlier than it starts and no later than
    /// `limit`.
    pub open spec fn within(self, limit: usize) -> bool {
        &&& all_within(self.common, limit)
        &&& all_within(self.second, limit)
        &&& all_within(self.third, limit)
    }
}

pub open spec fn all_within(items: Seq<SyllableView>, limit: usize) -> bool {
    forall|i: int| 0 <= i < items.len() ==> (#[trigger] items[i]).start <= items[i].end <= limit
}

/// The syllables of the whole play: for each bar played, the syllables sung
/// in it, set at the tick at which the bar is played.
pub open spec fn all_sung(bars: Seq<BarView>, played: Seq<Played>) -> Seq<SyllableView>
    decreases played.len(),
{
    if played.len() == 0 {
        Seq::empty()
    } else {
        all_sung(bars, played.drop_last()) + bars[played.last().index as int].sung(
            played.last().verse,
        ).map_values(|syllable: SyllableView| shifted(syllable, played.last().tick as int))
    }
}

/// The assembler once it has taken the syllables; `None` where the ticks of
/// a word cannot be counted.
pub open spec fn assembled(
    builder: super::word::BuilderView,
    syllables: Seq<SyllableView>,
) -> Option<super::word::BuilderView>
    decreases syllables.len(),
{
    if syllables.len() == 0 {
        Some(builder)
    } else {
        match assembled(builder, syllables.drop_last()) {
            Some(before) => if super::word::word_fits(before.next_word(syllables.last())) {
                Some(before.syllable(syllables.last()))
            } else {
                None
            },
            None => None,
        }
    }
}

/// The state of the collector.
pub struct BuilderView {
    /// No bar of the part has started.
    pub bar_first: bool,
    /// The part has lyrics.
    pub lyrics: bool,
    /// No syllable of the part ends later in its bar.
    pub limit: usize,
    /// The bars that are read.
    pub bars: Seq<BarView>,
    /// The bar that is being read.
    pub bar: BarView,
}

impl BuilderView {
    pub open spec fn new() -> BuilderView {
        BuilderView {
            bar_first: true,
            lyrics: false,
            limit: 0,
            bars: Seq::empty(),
            bar: BarView::new(),
        }
    }

    pub open spec fn wf(self) -> bool {
        &&& self.bar.within(self.limit)
        &&& forall|k: int| 0 <= k < self.bars.len() ==> (#[trigger] self.bars[k]).within(self.limit)
    }

    /// A bar starts: but for the first bar of the part, the bar that was
    /// being read is done, its syllables in order.
    pub open spec fn bar_start(self) -> BuilderView {
        if self.bar_first {
            BuilderView { bar_first: false, ..self }
        } else {
            BuilderView { bars: self.bars.push(self.bar.sorted()), bar: BarView::new(), ..self }
        }
    }

    /// A syllable of the verse `verse`, where zero is for all verses.
    pub open spec fn lyric(self, verse: usize, syllable: SyllableView) -> BuilderView {
        BuilderView {
            lyrics: true,
            limit: if self.limit < syllable.end {
                syllable.end
            } else {
                self.limit
            },
            bar: self.bar.with(verse, syllable),
            ..self
        }
    }

    /// The phrases of the part in the order of play; nothing for a part
    /// without lyrics. Fails where the part has fewer bars than the score,
    /// and where ticks cannot be counted.
    pub open spec fn part(self, repeats: RepeatsView) -> Result<Option<Seq<PhraseView>>, FailureView> {
        let bars = self.bars.push(self.bar.sorted());
        if !self.lyrics {
            Ok(None)
        } else if bars.len() < repeats.durations.len() {
            Err(FailureView::MissingBars)
        } else if self.limit + total_ticks(repeats.durations, repeats.repeats) > usize::MAX {
            Err(FailureView::Overflow)
        } else {
            match assembled(
                super::word::BuilderView::new(),
                all_sung(bars, replay(repeats.durations, repeats.repeats)),
            ) {
                Some(builder) => Ok(Some(builder.build())),
                None => Err(FailureView::Overflow),
            }
        }
    }
}

pub open spec fn shift_all(items: Seq<SyllableView>, tick: int) -> Seq<SyllableView> {
    items.map_values(|syllable: SyllableView| shifted(syllable, tick))
}

proof fn lemma_within_raise(bar: BarView, limit: usize, raised: usize)
    requires
        bar.within(limit),
        limit <= raised,
    ensures
        bar.within(raised),
{
}

proof fn lemma_inserted_within(sorted: Seq<SyllableView>, item: SyllableView, limit: usize)
    requires
        all_within(sorted, limit),
        item.start <= item.end <= limit,
    ensures
        all_within(inserted(sorted, item), limit),
        inserted(sorted, item).len() == sorted.len() + 1,
    decreases sorted.len(),
{
    if sorted.len() > 0 && !le(sorted.last(), item) {
        assert forall|i: int| 0 <= i < sorted.drop_last().len() implies (
        #[trigger] sorted.drop_last()[i]).start <= sorted.drop_last()[i].end <= limit by {
            assert(sorted.drop_last()[i] == sorted[i]);
        }
        lemma_inserted_within(sorted.drop_last(), item, limit);
    }
}

/// Syllables in order are the syllables they were: what held of each of
/// them holds of each of them in order.
proof fn lemma_sorted_within(items: Seq<SyllableView>, limit: usize)
    requires
        all_within(items, limit),
    ensures
        all_within(sorted_of(items), limit),
        sorted_of(items).len() == items.len(),
    decreases items.len(),
{
    if items.len() > 0 {
        assert forall|i: int| 0 <= i < items.drop_last().len() implies (
        #[trigger] items.drop_last()[i]).start <= items.drop_last()[i].end <= limit by {
            assert(items.drop_last()[i] == items[i]);
        }
        lemma_sorted_within(items.drop_last(), limit);
        lemma_inserted_within(sorted_of(items.drop_last()), items.last(), limit);
    }
}

proof fn lemma_assembled_add(
    builder: super::word::BuilderView,
    first: Seq<SyllableView>,
    then: Seq<SyllableView>,
)
    ensures
        assembled(builder, first + then) == match assembled(builder, first) {
            Some(before) => assembled(before, then),
            None => None,
        },
    decreases then.len(),
{
    if then.len() == 0 {
        assert(first + then =~= first);
    } else {
        assert((first + then).drop_last() =~= first + then.drop_last());
        lemma_assembled_add(builder, first, then.drop_last());
    }
}

proof fn lemma_all_sung_split(bars: Seq<BarView>, played: Seq<Played>, k: int)
    requires
        0 <= k <= played.len(),
    ensures
        all_sung(bars, played) == all_sung(bars, played.take(k)) + all_sung(bars, played.skip(k)),
    decreases played.len(),
{
    if k == played.len() {
        assert(played.take(k) =~= played);
        assert(played.skip(k) =~= Seq::<Played>::empty());
        assert(all_sung(bars, played) =~= all_sung(bars, played) + Seq::<SyllableView>::empty());
    } else {
        lemma_all_sung_split(bars, played.drop_last(), k);
        assert(played.drop_last().take(k) =~= played.take(k));
        assert(played.drop_last().skip(k) =~= played.skip(k).drop_last());
        let last = bars[played.last().index as int].sung(played.last().verse).map_values(
            |syllable: SyllableView| shifted(syllable, played.last().tick as int),
        );
        assert(all_sung(bars, played) =~= all_sung(bars, played.take(k)) + (all_sung(
            bars,
            played.skip(k).drop_last(),
        ) + last));
    }
}

/// Whether the text `a` stands before the text `b` or is the same.
fn text_before(a: &str, b: &str) -> (before: bool)
    ensures
        before == text_le(a@, b@),
{
    let left = chars_of(a);
    let right = chars_of(b);
    let mut i: usize = 0;
    assert(left@.skip(0) =~= left@ && right@.skip(0) =~= right@);
    while i < left.len()
        invariant
            i <= left.len(),
            i <= right.len(),
            left@ == a@,
            right@ == b@,
            text_le(a@, b@) == text_le(left@.skip(i as int), right@.skip(i as int)),
        decreases left.len() - i,
    {
        if i >= right.len() {
            return false;
        }
        if left[i] != right[i] {
            return left[i] < right[i];
        }
        assert(left@.skip(i as int).skip(1) =~= left@.skip(i + 1));
        assert(right@.skip(i as int).skip(1) =~= right@.skip(i + 1));
        i += 1;
    }
    true
}

fn rank_of(kind: Kind) -> (rank: u8)
    ensures
        rank == kind.rank(),
{
    match kind {
        Kind::Single => 0,
        Kind::Begin => 1,
        Kind::Middle => 2,
        Kind::End => 3,
    }
}

/// Whether the syllable `a` stands before the syllable `b` or is the same.
fn before(a: &Syllable, b: &Syllable) -> (before: bool)
    ensures
        before == le(a@, b@),
{
    if a.start != b.start {
        a.start < b.start
    } else if a.end != b.end {
        a.end < b.end
    } else if rank_of(a.kind) != rank_of(b.kind) {
        rank_of(a.kind) < rank_of(b.kind)
    } else {
        text_before(a.text, b.text)
    }
}

/// Puts the syllables in order.
fn sort<'xml>(items: &mut Vec<Syllable<'xml>>)
    ensures
        views(final(items)@) == sorted_of(views(old(items)@)),
{
    let mut sorted: Vec<Syllable<'xml>> = Vec::new();
    let mut i: usize = 0;
    assert(views(items@).take(0) =~= Seq::<SyllableView>::empty());
    assert(views(sorted@) =~= Seq::<SyllableView>::empty());
    while i < items.len()
        invariant
            i <= items.len(),
            *items == *old(items),
            views(sorted@) == sorted_of(views(items@).take(i as int)),
        decreases items.len() - i,
    {
        let item = items[i];
        let ghost all = views(sorted@);
        let mut at: usize = sorted.len();
        assert(all.take(at as int) =~= all);
        assert(inserted(all, item@) =~= inserted(all.take(at as int), item@) + all.skip(at as int));
        while at > 0 && !before(&sorted[at - 1], &item)
            invariant
                at <= sorted.len(),
                all == views(sorted@),
                inserted(all, item@) == inserted(all.take(at as int), item@) + all.skip(at as int),
            decreases at,
        {
            proof {
                let part = all.take(at as int);
                assert(part.last() == sorted@[at - 1]@);
                assert(part.drop_last() =~= all.take(at - 1));
                assert(inserted(part.drop_last(), item@).push(part.last()) + all.skip(at as int)
                    =~= inserted(all.take(at - 1), item@) + all.skip(at - 1));
            }
            at -= 1;
        }
        proof {
            let part = all.take(at as int);
            if at > 0 {
                assert(part.last() == sorted@[at - 1]@);
            }
            assert(inserted(part, item@) =~= part.push(item@));
            assert(views(sorted@.insert(at as int, item)) =~= part.push(item@) + all.skip(
                at as int,
            ));
            assert(views(items@).take(i + 1).drop_last() =~= views(items@).take(i as int));
            assert(views(items@).take(i + 1).last() == item@);
        }
        sorted.insert(at, item);
        i += 1;
    }
    assert(views(items@).take(items.len() as int) =~= views(items@));
    *items = sorted;
}

/// The syllables of one bar.
struct Bar<'xml> {
    common: Vec<Syllable<'xml>>,
    second: Vec<Syllable<'xml>>,
    third: Vec<Syllable<'xml>>,
}

impl<'xml> View for Bar<'xml> {
    type V = BarView;

    closed spec fn view(&self) -> BarView {
        BarView {
            common: views(self.common@),
            second: views(self.second@),
            third: views(self.third@),
        }
    }
}

impl<'xml> Bar<'xml> {
    fn new() -> (bar: Bar<'xml>)
        ensures
            bar@ == BarView::new(),
    {
        let bar = Bar { common: Vec::new(), second: Vec::new(), third: Vec::new() };
        assert(bar@.common =~= Seq::empty());
        assert(bar@.second =~= Seq::empty());
        assert(bar@.third =~= Seq::empty());
        bar
    }

    fn sort(&mut self)
        ensures
            final(self)@ == old(self)@.sorted(),
    {
        sort(&mut self.common);
        sort(&mut self.second);
        sort(&mut self.third);
    }
}

/// Has the assembler take the syllables from `from` on, each set later by
/// `tick` ticks. Tells whether it took them all.
fn sing_run(
    builder: &mut super::word::Builder,
    items: &Vec<Syllable>,
    from: usize,
    tick: usize,
    Ghost(limit): Ghost<usize>,
) -> (done: bool)
    requires
        old(builder)@.wf(),
        from <= items.len(),
        all_within(views(items@), limit),
        limit + tick <= usize::MAX,
    ensures
        match assembled(old(builder)@, shift_all(views(items@).skip(from as int), tick as int)) {
            Some(after) => done && final(builder)@ == after && after.wf(),
            None => !done,
        },
{
    let ghost all = shift_all(views(items@).skip(from as int), tick as int);
    let mut k: usize = from;
    assert(all.take(0) =~= Seq::<SyllableView>::empty());
    while k < items.len()
        invariant
            from <= k <= items.len(),
            all_within(views(items@), limit),
            limit + tick <= usize::MAX,
            all == shift_all(views(items@).skip(from as int), tick as int),
            builder@.wf(),
            assembled(old(builder)@, all.take(k - from)) == Some(builder@),
        decreases items.len() - k,
    {
        let item = &items[k];
        assert(views(items@)[k as int] == item@);
        let syllable = Syllable {
            start: item.start + tick,
            end: item.end + tick,
            kind: item.kind,
            text: item.text,
        };
        proof {
            assert(all.take(k - from + 1).drop_last() =~= all.take(k - from));
            assert(all.take(k - from + 1).last() == syllable@);
        }
        if !builder.accepts(&syllable) {
            proof {
                assert(all =~= all.take(k - from + 1) + all.skip(k - from + 1));
                lemma_assembled_add(old(builder)@, all.take(k - from + 1), all.skip(k - from + 1));
            }
            return false;
        }
        builder.syllable(syllable);
        k += 1;
    }
    assert(all.take(items.len() - from) =~= all);
    true
}

/// Has the assembler take the syllables that are sung when `bar` is played
/// for `verse` at `tick`. Tells whether it took them all.
fn sing(
    builder: &mut super::word::Builder,
    bar: &Bar,
    verse: Option<usize>,
    tick: usize,
    Ghost(limit): Ghost<usize>,
) -> (done: bool)
    requires
        old(builder)@.wf(),
        bar@.within(limit),
        limit + tick <= usize::MAX,
    ensures
        match assembled(old(builder)@, shift_all(bar@.sung(verse), tick as int)) {
            Some(after) => done && final(builder)@ == after && after.wf(),
            None => !done,
        },
{
    let own: &Vec<Syllable> = match verse {
        Some(1) => &bar.second,
        Some(2) => &bar.third,
        _ => &bar.common,
    };
    let has_own = match verse {
        Some(1) => bar.second.len() > 0,
        Some(2) => bar.third.len() > 0,
        _ => false,
    };
    assert(views(own@).skip(0) =~= views(own@));
    if !has_own {
        assert(bar@.sung(verse) == bar@.common);
        assert(views(bar.common@).skip(0) =~= views(bar.common@));
        return sing_run(builder, &bar.common, 0, tick, Ghost(limit));
    }
    assert(views(own@) == bar@.own(verse));
    let end = own[own.len() - 1].end;
    assert(views(own@).last() == own@[own.len() - 1]@);
    let mut from: usize = 0;
    while from < bar.common.len() && bar.common[from].start < end
        invariant
            from <= bar.common.len(),
            resume(bar@.common, end, 0) == resume(bar@.common, end, from as int),
        decreases bar.common.len() - from,
    {
        assert(bar@.common[from as int] == bar.common@[from as int]@);
        from += 1;
    }
    proof {
        if from < bar.common.len() {
            assert(bar@.common[from as int] == bar.common@[from as int]@);
        }
        let first = shift_all(views(own@), tick as int);
        let then = shift_all(bar@.common.skip(from as int), tick as int);
        assert(shift_all(bar@.sung(verse), tick as int) =~= first + then);
        lemma_assembled_add(builder@, first, then);
    }
    if !sing_run(builder, own, 0, tick, Ghost(limit)) {
        return false;
    }
    sing_run(builder, &bar.common, from, tick, Ghost(limit))
}

/// The phrases of the syllables of the whole play; nothing where the ticks
/// of a word cannot be counted.
fn sing_all(
    bars: &Vec<Bar>,
    played: &Vec<Played>,
    Ghost(limit): Ghost<usize>,
    Ghost(total): Ghost<usize>,
) -> (part: Option<Part>)
    requires
        limit + total <= usize::MAX,
        forall|i: int| 0 <= i < bars.len() ==> (#[trigger] views(bars@)[i]).within(limit),
        forall|i: int|
            0 <= i < played.len() ==> (#[trigger] played@[i]).index < bars.len()
                && played@[i].tick <= total,
    ensures
        match assembled(super::word::BuilderView::new(), all_sung(views(bars@), played@)) {
            Some(builder) => part is Some && part->0@ == builder.build(),
            None => part is None,
        },
{
    let ghost all = views(bars@);
    let ghost new = super::word::BuilderView::new();
    let mut builder = super::word::Builder::new();
    let mut k: usize = 0;
    assert(played@.take(0) =~= Seq::<Played>::empty());
    while k < played.len()
        invariant
            k <= played.len(),
            all == views(bars@),
            new == super::word::BuilderView::new(),
            limit + total <= usize::MAX,
            forall|i: int| 0 <= i < bars.len() ==> (#[trigger] views(bars@)[i]).within(limit),
            forall|i: int|
                0 <= i < played.len() ==> (#[trigger] played@[i]).index < bars.len()
                    && played@[i].tick <= total,
            builder@.wf(),
            assembled(new, all_sung(all, played@.take(k as int))) == Some(builder@),
        decreases played.len() - k,
    {
        let at = played[k];
        assert(played@[k as int].index < bars.len());
        assert(all[at.index as int] == bars@[at.index as int]@);
        assert(views(bars@)[at.index as int].within(limit));
        proof {
            assert(played@.take(k + 1).drop_last() =~= played@.take(k as int));
            assert(played@.take(k + 1).last() == at);
            lemma_assembled_add(
                new,
                all_sung(all, played@.take(k as int)),
                shift_all(all[at.index as int].sung(at.verse), at.tick as int),
            );
        }
        if !sing(&mut builder, &bars[at.index], at.verse, at.tick, Ghost(limit)) {
            proof {
                lemma_all_sung_split(all, played@, k + 1);
                lemma_assembled_add(
                    new,
                    all_sung(all, played@.take(k + 1)),
                    all_sung(all, played@.skip(k + 1)),
                );
            }
            return None;
        }
        k += 1;
    }
    assert(played@.take(played.len() as int) =~= played@);
    Some(builder.build())
}

/// Collects the syllables of one part after another.
pub struct Builder<'xml> {
    bar_count: usize,
    bar_first: bool,
    lyrics: bool,
    limit: usize,
    bars: Vec<Bar<'xml>>,
    bar: Bar<'xml>,
}

impl<'xml> View for Builder<'xml> {
    type V = BuilderView;

    closed spec fn view(&self) -> BuilderView {
        BuilderView {
            bar_first: self.bar_first,
            lyrics: self.lyrics,
            limit: self.limit,
            bars: views(self.bars@),
            bar: self.bar@,
        }
    }
}

impl<'xml> Builder<'xml> {
    /// A collector for the parts of a score of `bar_count` bars.
    pub fn new(bar_count: usize) -> (builder: Builder<'xml>)
        ensures
            builder@ == BuilderView::new(),
            builder@.wf(),
    {
        let builder = Builder {
            bar_count,
            bar_first: true,
            lyrics: false,
            limit: 0,
            bars: Vec::new(),
            bar: Bar::new(),
        };
        assert(builder@.bars =~= Seq::empty());
        builder
    }

    /// The latest tick in its bar at which a syllable of the part ends.
    pub fn limit(&self) -> (limit: usize)
        ensures
            limit == self@.limit,
    {
        self.limit
    }

    /// Ends the part and gives its phrases in the order of play; nothing
    /// for a part without lyrics. The collector is then as new.
    pub fn part_end(&mut self, repeats: &Repeats) -> (result: Result<Option<Part>, Failure>)
        requires
            old(self)@.wf(),
        ensures
            final(self)@ == BuilderView::new(),
            final(self)@.wf(),
            match old(self)@.part(repeats@) {
                Ok(Some(phrases)) => result is Ok && result->Ok_0 is Some
                    && result->Ok_0->Some_0@ == phrases,
                Ok(None) => result is Ok && result->Ok_0 is None,
                Err(error) => result is Err && result->Err_0@ == error,
            },
    {
        let mut bar = Bar::new();
        std::mem::swap(&mut self.bar, &mut bar);
        proof {
            lemma_sorted_within(bar@.common, self.limit);
            lemma_sorted_within(bar@.second, self.limit);
            lemma_sorted_within(bar@.third, self.limit);
        }
        bar.sort();
        let mut bars: Vec<Bar<'xml>> = Vec::with_capacity(self.bar_count);
        std::mem::swap(&mut self.bars, &mut bars);
        proof {
            crate::lemma_views_push(bars@, bar);
        }
        bars.push(bar);
        let lyrics = self.lyrics;
        let limit = self.limit;
        self.bar_first = true;
        self.lyrics = false;
        self.limit = 0;
        assert(self@.bars =~= Seq::empty());
        assert(views(bars@) == old(self)@.bars.push(old(self)@.bar.sorted()));
        if !lyrics {
            return Ok(None);
        }
        if bars.len() < repeats.bar_count() {
            return Err(Failure::MissingBars);
        }
        let total = repeats.ticks();
        if limit.checked_add(total).is_none() {
            return Err(Failure::Overflow);
        }
        let played = repeats.bars();
        proof {
            lemma_replay_index(repeats@.durations, repeats@.repeats);
            lemma_replay_ticks(repeats@.durations, repeats@.repeats);
            assert forall|i: int| 0 <= i < views(bars@).len() implies (#[trigger] views(
                bars@,
            )[i]).within(limit) by {
                if i < old(self)@.bars.len() {
                    assert(views(bars@)[i] == old(self)@.bars[i]);
                }
            }
        }
        match sing_all(&bars, &played, Ghost(limit), Ghost(total)) {
            Some(part) => Ok(Some(part)),
            None => Err(Failure::Overflow),
        }
    }

    /// Starts a bar.
    pub fn bar_start(&mut self)
        requires
            old(self)@.wf(),
        ensures
            final(self)@.wf(),
            final(self)@ == old(self)@.bar_start(),
    {
        if self.bar_first {
            self.bar_first = false;
        } else {
            let mut bar = Bar::new();
            std::mem::swap(&mut self.bar, &mut bar);
            proof {
                lemma_sorted_within(bar@.common, self.limit);
                lemma_sorted_within(bar@.second, self.limit);
                lemma_sorted_within(bar@.third, self.limit);
            }
            bar.sort();
            proof {
                crate::lemma_views_push(self.bars@, bar);
                assert forall|k: int| 0 <= k <= old(self)@.bars.len() implies (
                #[trigger] old(self)@.bars.push(bar@)[k]).within(self.limit) by {
                    if k < old(self)@.bars.len() {
                        assert(old(self)@.bars.push(bar@)[k] == old(self)@.bars[k]);
                    }
                }
            }
            self.bars.push(bar);
        }
    }

    /// Takes a syllable of the verse `verse` of the bar that is being read;
    /// the verse zero is for all verses.
    pub fn lyric(&mut self, _voice: usize, verse: usize, syllable: Syllable<'xml>)
        requires
            old(self)@.wf(),
            verse < 3,
            syllable.start <= syllable.end,
        ensures
            final(self)@.wf(),
            final(self)@ == old(self)@.lyric(verse, syllable@),
    {
        self.lyrics = true;
        if self.limit < syllable.end {
            self.limit = syllable.end;
        }
        proof {
            let limit = self.limit;
            assert forall|k: int| 0 <= k < self@.bars.len() implies (#[trigger] self@.bars[k]).within(
                limit,
            ) by {
                lemma_within_raise(old(self)@.bars[k], old(self)@.limit, limit);
            }
            lemma_within_raise(old(self)@.bar, old(self)@.limit, limit);
            assert(old(self)@.bar.with(verse, syllable@).within(limit));
        }
        if verse == 0 {
            proof {
                crate::lemma_views_push(self.bar.common@, syllable);
            }
            self.bar.common.push(syllable);
        } else if verse == 1 {
            proof {
                crate::lemma_views_push(self.bar.second@, syllable);
            }
            self.bar.second.push(syllable);
        } else {
            proof {
                crate::lemma_views_push(self.bar.third@, syllable);
            }
            self.bar.third.push(syllable);
        }
    }
}

/// Each syllable stands before those behind it, or is the same.
pub open spec fn ordered(items: Seq<SyllableView>) -> bool {
    forall|i: int, j: int| 0 <= i <= j < items.len() ==> le(items[i], items[j])
}

proof fn lemma_text_le_total(a: Seq<char>, b: Seq<char>)
    ensures
        text_le(a, b) || text_le(b, a),
        text_le(a, b) && text_le(b, a) ==> a == b,
    decreases a.len(),
{
    if a.len() > 0 && b.len() > 0 && a[0] == b[0] {
        lemma_text_le_total(a.skip(1), b.skip(1));
        if text_le(a, b) && text_le(b, a) {
            assert(a =~= seq![a[0]] + a.skip(1));
            assert(b =~= seq![b[0]] + b.skip(1));
        }
    } else if a.len() == 0 && b.len() == 0 {
        assert(a =~= b);
    }
}

proof fn lemma_text_le_trans(a: Seq<char>, b: Seq<char>, c: Seq<char>)
    requires
        text_le(a, b),
        text_le(b, c),
    ensures
        text_le(a, c),
    decreases a.len(),
{
    if a.len() > 0 && b.len() > 0 && c.len() > 0 && a[0] == b[0] && b[0] == c[0] {
        lemma_text_le_trans(a.skip(1), b.skip(1), c.skip(1));
    }
}

/// Of two syllables one stands before the other, or they are the same.
pub proof fn lemma_le_total(a: SyllableView, b: SyllableView)
    ensures
        le(a, b) || le(b, a),
        le(a, b) && le(b, a) ==> a == b,
{
    lemma_text_le_total(a.text, b.text);
}

/// A syllable that stands before another stands before those that the
/// other stands before.
pub proof fn lemma_le_trans(a: SyllableView, b: SyllableView, c: SyllableView)
    requires
        le(a, b),
        le(b, c),
    ensures
        le(a, c),
{
    if a.start == b.start && b.start == c.start && a.end == b.end && b.end == c.end && a.kind
        == b.kind && b.kind == c.kind {
        lemma_text_le_trans(a.text, b.text, c.text);
    }
}

proof fn lemma_inserted_ordered(sorted: Seq<SyllableView>, item: SyllableView)
    requires
        ordered(sorted),
    ensures
        ordered(inserted(sorted, item)),
        inserted(sorted, item).to_multiset() == sorted.to_multiset().insert(item),
        forall|i: int|
            0 <= i < inserted(sorted, item).len() ==> (#[trigger] inserted(sorted, item)[i])
                == item || sorted.contains(inserted(sorted, item)[i]),
    decreases sorted.len(),
{
    broadcast use vstd::seq_lib::to_multiset_build;

    let all = inserted(sorted, item);
    if sorted.len() == 0 {
        assert(sorted =~= Seq::<SyllableView>::empty());
        assert(all =~= sorted.push(item));
        lemma_le_total(item, item);
    } else if le(sorted.last(), item) {
        assert forall|i: int, j: int| 0 <= i <= j < all.len() implies le(all[i], all[j]) by {
            if j < sorted.len() {
            } else if i < sorted.len() {
                lemma_le_trans(sorted[i], sorted.last(), item);
            } else {
                lemma_le_total(item, item);
            }
        }
        assert forall|i: int| 0 <= i < all.len() implies (#[trigger] all[i]) == item
            || sorted.contains(all[i]) by {
            if i < sorted.len() {
                assert(sorted[i] == all[i]);
            }
        }
    } else {
        let rest = sorted.drop_last();
        let last = sorted.last();
        assert(ordered(rest)) by {
            assert forall|i: int, j: int| 0 <= i <= j < rest.len() implies le(rest[i], rest[j]) by {
                assert(rest[i] == sorted[i] && rest[j] == sorted[j]);
            }
        }
        lemma_inserted_ordered(rest, item);
        lemma_le_total(last, item);
        let before = inserted(rest, item);
        assert(all == before.push(last));
        assert forall|i: int, j: int| 0 <= i <= j < all.len() implies le(all[i], all[j]) by {
            if j < before.len() {
                assert(all[i] == before[i] && all[j] == before[j]);
            } else if i < before.len() {
                assert(all[i] == before[i]);
                if before[i] != item {
                    let at = choose|at: int| 0 <= at < rest.len() && rest[at] == before[i];
                    assert(rest[at] == sorted[at]);
                }
            } else {
                lemma_le_total(last, last);
            }
        }
        assert(sorted =~= rest.push(last));
        assert(all.to_multiset() =~= sorted.to_multiset().insert(item));
        assert forall|i: int| 0 <= i < all.len() implies (#[trigger] all[i]) == item
            || sorted.contains(all[i]) by {
            if i < before.len() {
                assert(all[i] == before[i]);
                if before[i] != item {
                    let at = choose|at: int| 0 <= at < rest.len() && rest[at] == before[i];
                    assert(sorted[at] == before[i]);
                }
            } else {
                assert(sorted[sorted.len() - 1] == all[i]);
            }
        }
    }
}

/// The syllables in order are the same syllables, as many of each, and each
/// stands before those behind it.
pub proof fn lemma_sorted_of(items: Seq<SyllableView>)
    ensures
        ordered(sorted_of(items)),
        sorted_of(items).to_multiset() == items.to_multiset(),
    decreases items.len(),
{
    broadcast use vstd::seq_lib::to_multiset_build;

    if items.len() == 0 {
        assert(sorted_of(items) =~= items);
    } else {
        lemma_sorted_of(items.drop_last());
        lemma_inserted_ordered(sorted_of(items.drop_last()), items.last());
        assert(items =~= items.drop_last().push(items.last()));
    }
}

} // verus!
