//! Aligns the words of the script with the words of the music and reports
//! where they differ.
use vstd::prelude::*;
use crate::error::Failure;
use crate::music::{music_of, Music, MusicView, Phrase, PhraseView};
use crate::script::{Word, WordView};
use crate::text::{chars_of, is_ascii_lower, is_ascii_upper, is_lower, is_upper, lower, same_text,
    string_from, to_lower};
use crate::{lemma_views_push, replace_diff, views, Diff, DiffView, Line, LineView, Replace, ReplaceView, Section,
    SectionView};

verus! {

/// One step of an alignment of two sequences: an item that only the left
/// sequence has, an item of each that are paired, or an item that only the
/// right sequence has.
#[derive(Clone, Copy, Debug, PartialEq, Eq, Structural)]
pub enum Side {
    Left,
    Both,
    Right,
}

/// How many items of the left sequence the steps go through.
pub open spec fn lefts(ops: Seq<Side>) -> nat
    decreases ops.len(),
{
    if ops.len() == 0 {
        0
    } else {
        lefts(ops.drop_last()) + if ops.last() is Right { 0nat } else { 1nat }
    }
}

/// How many items of the right sequence the steps go through.
pub open spec fn rights(ops: Seq<Side>) -> nat
    decreases ops.len(),
{
    if ops.len() == 0 {
        0
    } else {
        rights(ops.drop_last()) + if ops.last() is Left { 0nat } else { 1nat }
    }
}

/// How many pairs the steps make.
pub open spec fn boths(ops: Seq<Side>) -> nat
    decreases ops.len(),
{
    if ops.len() == 0 {
        0
    } else {
        boths(ops.drop_last()) + if ops.last() is Both { 1nat } else { 0nat }
    }
}

/// The steps go through all of `left` and all of `right`, each in its order,
/// and every pair they make is a pair of equal items.
pub open spec fn aligns<T>(ops: Seq<Side>, left: Seq<T>, right: Seq<T>) -> bool {
    &&& lefts(ops) == left.len()
    &&& rights(ops) == right.len()
    &&& forall|k: int|
        0 <= k < ops.len() && #[trigger] ops[k] is Both ==> left[lefts(ops.take(k)) as int]
            == right[rights(ops.take(k)) as int]
}

/// No alignment of `left` and `right` makes more pairs than `ops` does.
pub open spec fn longest<T>(ops: Seq<Side>, left: Seq<T>, right: Seq<T>) -> bool {
    forall|other: Seq<Side>| #[trigger] aligns(other, left, right) ==> boths(other) <= boths(ops)
}

/// Whether the table that aligns `left` items with `right` items can be
/// allocated: it has a four-byte cell for each pair of positions.
pub open spec fn table_fits(left: nat, right: nat) -> bool {
    (left + 1) * (right + 1) * 4 <= isize::MAX
}

/// The alignment that `diff::slice` gives for two lists of texts.
pub uninterp spec fn slice_sides(left: Seq<Seq<char>>, right: Seq<Seq<char>>) -> Seq<Side>;

/// The alignment that `diff::chars` gives for two texts.
pub uninterp spec fn chars_sides(left: Seq<char>, right: Seq<char>) -> Seq<Side>;

/// Calls `diff::slice` of the `diff` crate and keeps of each step which side
/// it belongs to. The crate computes a longest common subsequence: the steps
/// go through both lists in order, pair only equal texts, and no alignment
/// pairs more. Its table must fit in memory.
#[verifier::external_body]
fn slice_alignment(left: &Vec<String>, right: &Vec<String>) -> (ops: Vec<Side>)
    requires
        table_fits(left.len() as nat, right.len() as nat),
    ensures
        ops@ == slice_sides(views(left@), views(right@)),
        aligns(ops@, views(left@), views(right@)),
        longest(ops@, views(left@), views(right@)),
{
    ::diff::slice(left.as_slice(), right.as_slice()).into_iter().map(|side| match side {
        ::diff::Result::Left(_) => Side::Left,
        ::diff::Result::Both(_, _) => Side::Both,
        ::diff::Result::Right(_) => Side::Right,
    }).collect()
}

/// Calls `diff::chars` of the `diff` crate and keeps of each step which side
/// it belongs to. The crate computes a longest common subsequence of the
/// characters of the two texts. Its table must fit in memory.
#[verifier::external_body]
fn chars_alignment(left: &str, right: &str) -> (ops: Vec<Side>)
    requires
        table_fits(left@.len(), right@.len()),
    ensures
        ops@ == chars_sides(left@, right@),
        aligns(ops@, left@, right@),
        longest(ops@, left@, right@),
{
    ::diff::chars(left, right).into_iter().map(|side| match side {
        ::diff::Result::Left(_) => Side::Left,
        ::diff::Result::Both(_, _) => Side::Both,
        ::diff::Result::Right(_) => Side::Right,
    }).collect()
}

/// Tells whether a table for `left` and `right` items can be allocated.
pub fn fits_table(left: usize, right: usize) -> (fits: bool)
    ensures
        fits == table_fits(left as nat, right as nat),
{
    let limit: usize = (isize::MAX as usize) / 4;
    if left >= limit || right >= limit {
        assert(!table_fits(left as nat, right as nat)) by (nonlinear_arith)
            requires
                left >= limit || right >= limit,
                limit == (isize::MAX as usize) / 4,
        ;
        return false;
    }
    let fits = left + 1 <= limit / (right + 1);
    assert(fits == table_fits(left as nat, right as nat)) by (nonlinear_arith)
        requires
            fits == (left + 1 <= limit / ((right + 1) as usize)),
            limit == (isize::MAX as usize) / 4,
            right + 1 <= limit,
    ;
    fits
}

/// Where the run of steps that starts at `k` ends: the first step from `k`
/// on that is a pair where the run is of unpaired steps, or the other way
/// round, or the end of the steps.
pub open spec fn run_end(ops: Seq<Side>, k: int, both: bool) -> int
    decreases ops.len() - k,
{
    if 0 <= k < ops.len() && (ops[k] is Both) == both {
        run_end(ops, k + 1, both)
    } else {
        k
    }
}

/// The finding for one run: the characters `script` and `music` that its
/// steps went through. A run of pairs is text that agrees. A run of unpaired
/// characters is a replacement, but at the end of the word it is text that
/// only one side has, where the other side gave nothing.
pub open spec fn run_diff(script: Seq<char>, music: Seq<char>, both: bool, last: bool) -> DiffView {
    if both {
        DiffView::Same(script)
    } else if last && music.len() == 0 {
        DiffView::Script(script)
    } else if last && script.len() == 0 {
        DiffView::Music(music)
    } else {
        replace_diff(ReplaceView { music, script })
    }
}

/// The findings for the steps from `k` on, where the steps before `k` went
/// through `i` characters of the script and `j` of the music.
pub open spec fn scan_from(
    ops: Seq<Side>,
    script: Seq<char>,
    music: Seq<char>,
    k: int,
    i: int,
    j: int,
) -> Seq<DiffView>
    decreases ops.len() - k,
{
    if k < 0 || k >= ops.len() {
        Seq::empty()
    } else {
        let both = ops[k] is Both;
        let end = run_end(ops, k, both);
        if end <= k || end > ops.len() {
            Seq::empty()
        } else {
            let run = ops.subrange(k, end);
            seq![
                run_diff(
                    script.subrange(i, i + lefts(run)),
                    music.subrange(j, j + rights(run)),
                    both,
                    end == ops.len(),
                ),
            ] + scan_from(ops, script, music, end, i + lefts(run), j + rights(run))
        }
    }
}

/// The findings for one word of the script against one word of the music,
/// given an alignment of their characters: one finding for each run of the
/// alignment, or the one finding that the words are the same.
pub open spec fn word_diffs(script: Seq<char>, music: Seq<char>, ops: Seq<Side>) -> Seq<DiffView> {
    if script == music {
        seq![DiffView::Same(script)]
    } else {
        scan_from(ops, script, music, 0, 0, 0)
    }
}

/// A part of the steps goes through no more items than all of them.
pub proof fn lemma_take_counts(ops: Seq<Side>, k: int)
    requires
        0 <= k <= ops.len(),
    ensures
        lefts(ops.take(k)) <= lefts(ops),
        rights(ops.take(k)) <= rights(ops),
    decreases ops.len(),
{
    if k == ops.len() {
        assert(ops.take(k) =~= ops);
    } else {
        assert(ops.drop_last().take(k) =~= ops.take(k));
        lemma_take_counts(ops.drop_last(), k);
    }
}

/// One step more goes through one item more on each side it touches.
pub proof fn lemma_take_next(ops: Seq<Side>, k: int)
    requires
        0 <= k < ops.len(),
    ensures
        lefts(ops.take(k + 1)) == lefts(ops.take(k)) + if ops[k] is Right { 0nat } else { 1nat },
        rights(ops.take(k + 1)) == rights(ops.take(k)) + if ops[k] is Left { 0nat } else { 1nat },
        boths(ops.take(k + 1)) == boths(ops.take(k)) + if ops[k] is Both { 1nat } else { 0nat },
{
    assert(ops.take(k + 1).drop_last() =~= ops.take(k));
}

/// The steps from `a` to `b` go through what the first `b` steps go through
/// and the first `a` steps do not.
pub proof fn lemma_counts_split(ops: Seq<Side>, a: int, b: int)
    requires
        0 <= a <= b <= ops.len(),
    ensures
        lefts(ops.take(b)) == lefts(ops.take(a)) + lefts(ops.subrange(a, b)),
        rights(ops.take(b)) == rights(ops.take(a)) + rights(ops.subrange(a, b)),
    decreases b - a,
{
    if a == b {
        assert(ops.subrange(a, b) =~= Seq::<Side>::empty());
    } else {
        lemma_counts_split(ops, a, b - 1);
        lemma_take_next(ops, b - 1);
        assert(ops.subrange(a, b).drop_last() =~= ops.subrange(a, b - 1));
    }
}

/// The findings from the start of a run are the finding for that run and
/// then the findings from its end.
proof fn lemma_scan_run(
    ops: Seq<Side>,
    script: Seq<char>,
    music: Seq<char>,
    k0: int,
    k: int,
    i0: int,
    j0: int,
)
    requires
        0 <= k0 < k <= ops.len(),
        run_end(ops, k0, ops[k0] is Both) == k,
    ensures
        scan_from(ops, script, music, k0, i0, j0) == seq![
            run_diff(
                script.subrange(i0, i0 + lefts(ops.subrange(k0, k))),
                music.subrange(j0, j0 + rights(ops.subrange(k0, k))),
                ops[k0] is Both,
                k == ops.len(),
            ),
        ] + scan_from(
            ops,
            script,
            music,
            k,
            i0 + lefts(ops.subrange(k0, k)),
            j0 + rights(ops.subrange(k0, k)),
        ),
{
}

enum Scan {
    Empty,
    Same,
    Diff,
}

/// Appends to `diffs` the findings for one word of the script against one
/// word of the music, by the alignment `ops` of their characters.
pub fn diff_word_by(diffs: &mut Vec<Diff>, script: &str, music: &str, ops: &Vec<Side>)
    requires
        aligns(ops@, script@, music@),
    ensures
        views(final(diffs)@) == views(old(diffs)@) + word_diffs(script@, music@, ops@),
{
    let ghost before = views(diffs@);
    let ghost total = scan_from(ops@, script@, music@, 0, 0, 0);
    if same_text(script, music) {
        let text = string_from(&chars_of(script));
        proof {
            lemma_views_push(diffs@, Diff::Same(text));
        }
        diffs.push(Diff::Same(text));
        assert(views(diffs@) =~= before + word_diffs(script@, music@, ops@));
        return ;
    }
    let left = chars_of(script);
    let right = chars_of(music);
    let mut state = Scan::Empty;
    let mut same = String::new();
    let mut replace = Replace { script: String::new(), music: String::new() };
    let mut i: usize = 0;
    let mut j: usize = 0;
    let ghost mut done: Seq<DiffView> = Seq::empty();
    let ghost mut k0: int = 0;
    let ghost mut i0: int = 0;
    let ghost mut j0: int = 0;
    let mut k: usize = 0;
    proof {
        assert(ops@.take(0) =~= Seq::<Side>::empty());
        assert(views(diffs@) =~= before + done);
        assert(done + total =~= total);
    }
    while k < ops.len()
        invariant
            lefts(ops@) == left.len(),
            rights(ops@) == right.len(),
            left@ == script@,
            right@ == music@,
            total == scan_from(ops@, script@, music@, 0, 0, 0),
            0 <= k0 <= k <= ops.len(),
            i == lefts(ops@.take(k as int)),
            j == rights(ops@.take(k as int)),
            i0 == lefts(ops@.take(k0)),
            j0 == rights(ops@.take(k0)),
            0 <= i0 <= i <= left.len(),
            0 <= j0 <= j <= right.len(),
            views(diffs@) == before + done,
            done + scan_from(ops@, script@, music@, k0, i0, j0) == total,
            state is Empty ==> k == 0,
            !(state is Empty) ==> k0 < k,
            state is Same ==> ops@[k0] is Both && run_end(ops@, k0, true) == run_end(
                ops@,
                k as int,
                true,
            ),
            state is Diff ==> !(ops@[k0] is Both) && run_end(ops@, k0, false) == run_end(
                ops@,
                k as int,
                false,
            ),
            same@ == (if state is Same {
                script@.subrange(i0, i as int)
            } else {
                Seq::<char>::empty()
            }),
            replace.script@ == (if state is Diff {
                script@.subrange(i0, i as int)
            } else {
                Seq::<char>::empty()
            }),
            replace.music@ == (if state is Diff {
                music@.subrange(j0, j as int)
            } else {
                Seq::<char>::empty()
            }),
        decreases ops.len() - k,
    {
        let op = ops[k];
        proof {
            lemma_take_counts(ops@, k + 1);
            lemma_take_next(ops@, k as int);
        }
        let flips = match state {
            Scan::Empty => false,
            Scan::Same => !matches!(op, Side::Both),
            Scan::Diff => matches!(op, Side::Both),
        };
        if flips {
            proof {
                lemma_counts_split(ops@, k0, k as int);
                lemma_scan_run(ops@, script@, music@, k0, k as int, i0, j0);
            }
            let diff = match state {
                Scan::Same => {
                    let text = same;
                    same = String::new();
                    Diff::Same(text)
                },
                _ => {
                    let pending = replace;
                    replace = Replace { script: String::new(), music: String::new() };
                    pending.to_diff()
                },
            };
            proof {
                lemma_views_push(diffs@, diff);
                assert(done.push(diff@) + scan_from(
                    ops@,
                    script@,
                    music@,
                    k as int,
                    i as int,
                    j as int,
                ) =~= done + (seq![diff@] + scan_from(
                    ops@,
                    script@,
                    music@,
                    k as int,
                    i as int,
                    j as int,
                )));
                assert(before + done.push(diff@) =~= (before + done).push(diff@));
                done = done.push(diff@);
                k0 = k as int;
                i0 = i as int;
                j0 = j as int;
            }
            diffs.push(diff);
            state = Scan::Empty;
        }
        proof {
            if state is Empty {
                assert(script@.subrange(i0, i as int) =~= Seq::<char>::empty());
                assert(music@.subrange(j0, j as int) =~= Seq::<char>::empty());
            }
        }
        match op {
            Side::Both => {
                same.push(left[i]);
                proof {
                    assert(script@.subrange(i0, i + 1) =~= script@.subrange(i0, i as int).push(
                        script@[i as int],
                    ));
                }
                i += 1;
                j += 1;
                state = Scan::Same;
            },
            Side::Left => {
                replace.script.push(left[i]);
                proof {
                    assert(script@.subrange(i0, i + 1) =~= script@.subrange(i0, i as int).push(
                        script@[i as int],
                    ));
                }
                i += 1;
                state = Scan::Diff;
            },
            Side::Right => {
                replace.music.push(right[j]);
                proof {
                    assert(music@.subrange(j0, j + 1) =~= music@.subrange(j0, j as int).push(
                        music@[j as int],
                    ));
                }
                j += 1;
                state = Scan::Diff;
            },
        }
        k += 1;
    }
    proof {
        if !(state is Empty) {
            lemma_counts_split(ops@, k0, k as int);
            lemma_scan_run(ops@, script@, music@, k0, k as int, i0, j0);
        }
    }
    match state {
        Scan::Empty => {
            assert(before + done =~= before + total);
        },
        Scan::Same => {
            let diff = Diff::Same(same);
            proof {
                lemma_views_push(diffs@, diff);
                assert(before + done.push(diff@) =~= (before + done).push(diff@));
                assert(done.push(diff@) =~= done + scan_from(ops@, script@, music@, k0, i0, j0));
            }
            diffs.push(diff);
        },
        Scan::Diff => {
            let diff = if replace.music.as_str().is_empty() {
                Diff::Script(replace.script)
            } else if replace.script.as_str().is_empty() {
                Diff::Music(replace.music)
            } else {
                replace.to_diff()
            };
            proof {
                lemma_views_push(diffs@, diff);
                assert(before + done.push(diff@) =~= (before + done).push(diff@));
                assert(done.push(diff@) =~= done + scan_from(ops@, script@, music@, k0, i0, j0));
            }
            diffs.push(diff);
        },
    }
}

/// Appends to `diffs` the findings for one word of the script against one
/// word of the music: that they are the same, or one finding for each run of
/// the alignment of their characters.
pub fn diff_word(diffs: &mut Vec<Diff>, script: &str, music: &str)
    requires
        script@ != music@ ==> table_fits(script@.len(), music@.len()),
    ensures
        views(final(diffs)@) == views(old(diffs)@) + word_diffs(
            script@,
            music@,
            chars_sides(script@, music@),
        ),
{
    if same_text(script, music) {
        let ops: Vec<Side> = Vec::new();
        proof {
            assert(lefts(ops@) == 0);
        }
        let text = string_from(&chars_of(script));
        proof {
            lemma_views_push(diffs@, Diff::Same(text));
        }
        diffs.push(Diff::Same(text));
        assert(views(diffs@) =~= views(old(diffs)@) + word_diffs(
            script@,
            music@,
            chars_sides(script@, music@),
        ));
    } else {
        let ops = chars_alignment(script, music);
        diff_word_by(diffs, script, music, &ops);
    }
}

/// The ASCII letters of a text, in lower case.
pub open spec fn letters(text: Seq<char>) -> Seq<char> {
    text.filter(|c: char| is_upper(c) || is_lower(c)).map_values(|c: char| lower(c))
}

/// What a word is compared by: its ASCII letters in lower case, or the word
/// as it stands where it has none.
pub open spec fn key_of(text: Seq<char>) -> Seq<char> {
    if letters(text).len() == 0 {
        text
    } else {
        letters(text)
    }
}

proof fn lemma_letters_push(text: Seq<char>, c: char)
    ensures
        letters(text.push(c)) == if is_upper(c) || is_lower(c) {
            letters(text).push(lower(c))
        } else {
            letters(text)
        },
{
    reveal(Seq::filter);
    let pred = |c: char| is_upper(c) || is_lower(c);
    assert(text.push(c).drop_last() =~= text);
    if pred(c) {
        assert(text.push(c).filter(pred) =~= text.filter(pred).push(c));
        assert(letters(text.push(c)) =~= letters(text).push(lower(c)));
    } else {
        assert(text.push(c).filter(pred) =~= text.filter(pred));
    }
}

/// The key that a word is compared by.
pub fn key(text: &str) -> (key: String)
    ensures
        key@ == key_of(text@),
{
    let chars = chars_of(text);
    let mut key = String::new();
    let mut i: usize = 0;
    proof {
        reveal(Seq::filter);
        assert(chars@.take(0) =~= Seq::<char>::empty());
        assert(letters(chars@.take(0)) =~= Seq::<char>::empty());
    }
    while i < chars.len()
        invariant
            i <= chars.len(),
            key@ == letters(chars@.take(i as int)),
        decreases chars.len() - i,
    {
        let c = chars[i];
        proof {
            lemma_letters_push(chars@.take(i as int), c);
            assert(chars@.take(i + 1) =~= chars@.take(i as int).push(c));
        }
        if is_ascii_upper(c) {
            key.push(to_lower(c));
        } else if is_ascii_lower(c) {
            key.push(c);
        }
        i += 1;
    }
    assert(chars@.take(chars.len() as int) =~= chars@);
    if key.as_str().is_empty() {
        string_from(&chars)
    } else {
        key
    }
}

/// The words with one space between each two.
pub open spec fn joined(words: Seq<Seq<char>>) -> Seq<char>
    decreases words.len(),
{
    if words.len() == 0 {
        Seq::empty()
    } else if words.len() == 1 {
        words[0]
    } else {
        joined(words.drop_last()) + seq![' '] + words.last()
    }
}

/// The findings for a run of words that the alignment left unpaired: none
/// where there are no words; the findings for the two words where each side
/// has one; text that one side has alone; or one text in place of another.
pub open spec fn pending_diffs(scripts: Seq<Seq<char>>, musics: Seq<Seq<char>>) -> Seq<DiffView> {
    if scripts.len() == 0 && musics.len() == 0 {
        Seq::empty()
    } else if scripts.len() == 1 && musics.len() == 1 {
        word_diffs(scripts[0], musics[0], chars_sides(scripts[0], musics[0]))
    } else if scripts.len() == 0 {
        seq![DiffView::Music(joined(musics))]
    } else if musics.len() == 0 {
        seq![DiffView::Script(joined(scripts))]
    } else {
        seq![DiffView::Replace(ReplaceView { music: joined(musics), script: joined(scripts) })]
    }
}

/// The state of the builder of sections: the sections that are closed, the
/// section and the line that are open, and the words that the alignment has
/// left unpaired since the last pair.
pub struct BuilderView {
    pub sections: Seq<SectionView>,
    pub section: SectionView,
    pub line: LineView,
    pub scripts: Seq<Seq<char>>,
    pub musics: Seq<Seq<char>>,
}

impl BuilderView {
    pub open spec fn new() -> BuilderView {
        BuilderView {
            sections: Seq::empty(),
            section: SectionView { heading: Seq::empty(), lines: Seq::empty() },
            line: LineView { number: Seq::empty(), diffs: Seq::empty() },
            scripts: Seq::empty(),
            musics: Seq::empty(),
        }
    }

    /// Every unpaired word of the script can be aligned with every unpaired
    /// word of the music.
    pub open spec fn fits(self) -> bool {
        forall|i: int, j: int|
            0 <= i < self.scripts.len() && 0 <= j < self.musics.len() ==> table_fits(
                (#[trigger] self.scripts[i]).len(),
                (#[trigger] self.musics[j]).len(),
            )
    }

    /// The unpaired words become findings of the open line.
    pub open spec fn flush_diff(self) -> BuilderView {
        BuilderView {
            line: LineView {
                number: self.line.number,
                diffs: self.line.diffs + pending_diffs(self.scripts, self.musics),
            },
            scripts: Seq::empty(),
            musics: Seq::empty(),
            ..self
        }
    }

    /// The open line, unless it has neither number nor findings, joins the
    /// open section.
    pub open spec fn flush_line(self) -> BuilderView {
        if self.line.number.len() > 0 || self.line.diffs.len() > 0 {
            BuilderView {
                section: SectionView {
                    heading: self.section.heading,
                    lines: self.section.lines.push(self.line),
                },
                line: LineView { number: Seq::empty(), diffs: Seq::empty() },
                ..self
            }
        } else {
            self
        }
    }

    /// The open section, unless it has neither heading nor lines, is closed.
    pub open spec fn flush_section(self) -> BuilderView {
        if self.section.heading.len() > 0 || self.section.lines.len() > 0 {
            BuilderView {
                sections: self.sections.push(self.section),
                section: SectionView { heading: Seq::empty(), lines: Seq::empty() },
                ..self
            }
        } else {
            self
        }
    }

    /// A heading closes what is open and opens a section.
    pub open spec fn heading(self, heading: Seq<char>) -> BuilderView {
        let flushed = self.flush_diff().flush_line().flush_section();
        BuilderView { section: SectionView { heading, lines: flushed.section.lines }, ..flushed }
    }

    /// A line number closes the open line and opens one.
    pub open spec fn line(self, number: Seq<char>) -> BuilderView {
        let flushed = self.flush_diff().flush_line();
        BuilderView { line: LineView { number, diffs: flushed.line.diffs }, ..flushed }
    }

    /// A word of the script paired with a word of the music.
    pub open spec fn same(self, script: Seq<char>, music: Seq<char>) -> BuilderView {
        let flushed = self.flush_diff();
        BuilderView {
            line: LineView {
                number: flushed.line.number,
                diffs: flushed.line.diffs + word_diffs(script, music, chars_sides(script, music)),
            },
            ..flushed
        }
    }

    /// A word that only the script has.
    pub open spec fn script(self, script: Seq<char>) -> BuilderView {
        BuilderView { scripts: self.scripts.push(script), ..self }
    }

    /// A word that only the music has.
    pub open spec fn music(self, music: Seq<char>) -> BuilderView {
        BuilderView { musics: self.musics.push(music), ..self }
    }

    /// The sections once all that is open is closed.
    pub open spec fn build(self) -> Seq<SectionView> {
        self.flush_diff().flush_line().flush_section().sections
    }
}

/// Collects the findings into lines and the lines into sections.
pub struct Builder<'a> {
    sections: Vec<Section>,
    section: Section,
    line: Line,
    scripts: Vec<&'a str>,
    musics: Vec<&'a str>,
}

impl<'a> View for Builder<'a> {
    type V = BuilderView;

    closed spec fn view(&self) -> BuilderView {
        BuilderView {
            sections: views(self.sections@),
            section: self.section@,
            line: self.line@,
            scripts: views(self.scripts@),
            musics: views(self.musics@),
        }
    }
}

/// The words with one space between each two.
fn join(words: &Vec<&str>) -> (text: String)
    ensures
        text@ == joined(views(words@)),
{
    let mut text = String::new();
    let mut i: usize = 0;
    assert(views(words@).take(0) =~= Seq::<Seq<char>>::empty());
    while i < words.len()
        invariant
            i <= words.len(),
            text@ == joined(views(words@).take(i as int)),
        decreases words.len() - i,
    {
        let ghost before = text@;
        if i > 0 {
            text.push(' ');
        }
        let ghost spaced = text@;
        let chars = chars_of(words[i]);
        let mut k: usize = 0;
        while k < chars.len()
            invariant
                k <= chars.len(),
                text@ == spaced + chars@.take(k as int),
            decreases chars.len() - k,
        {
            text.push(chars[k]);
            assert(chars@.take(k + 1) =~= chars@.take(k as int).push(chars@[k as int]));
            k += 1;
        }
        proof {
            assert(chars@.take(chars.len() as int) =~= chars@);
            assert(views(words@).take(i + 1).drop_last() =~= views(words@).take(i as int));
            assert(views(words@).take(i + 1).last() == words@[i as int]@);
            if i == 0 {
                assert(text@ =~= chars@);
            }
        }
        i += 1;
    }
    assert(views(words@).take(words.len() as int) =~= views(words@));
    text
}

impl<'a> Builder<'a> {
    pub fn new() -> (builder: Builder<'a>)
        ensures
            builder@ == BuilderView::new(),
    {
        let builder = Builder {
            sections: Vec::new(),
            section: Section { heading: String::new(), lines: Vec::new() },
            line: Line { number: String::new(), diffs: Vec::new() },
            scripts: Vec::new(),
            musics: Vec::new(),
        };
        assert(builder@.sections =~= Seq::empty());
        assert(builder@.section.lines =~= Seq::empty());
        assert(builder@.line.diffs =~= Seq::empty());
        assert(builder@.scripts =~= Seq::empty());
        assert(builder@.musics =~= Seq::empty());
        builder
    }

    /// Starts a section under `heading`.
    pub fn heading(&mut self, heading: String)
        requires
            old(self)@.fits(),
        ensures
            final(self)@ == old(self)@.heading(heading@),
    {
        self.flush_diff();
        self.flush_line();
        self.flush_section();
        self.section.heading = heading;
    }

    /// Starts the line with the number `number`.
    pub fn line(&mut self, number: String)
        requires
            old(self)@.fits(),
        ensures
            final(self)@ == old(self)@.line(number@),
    {
        self.flush_diff();
        self.flush_line();
        self.line.number = number;
    }

    /// Takes a word of the script with the word of the music it is paired
    /// with.
    pub fn same(&mut self, script: &'a str, music: &'a str)
        requires
            old(self)@.fits(),
            table_fits(script@.len(), music@.len()),
        ensures
            final(self)@ == old(self)@.same(script@, music@),
    {
        self.flush_diff();
        diff_word(&mut self.line.diffs, script, music);
    }

    /// Takes a word that only the script has.
    pub fn script(&mut self, script: &'a str)
        ensures
            final(self)@ == old(self)@.script(script@),
    {
        proof {
            lemma_views_push(self.scripts@, script);
        }
        self.scripts.push(script);
    }

    /// Takes a word that only the music has.
    pub fn music(&mut self, music: &'a str)
        ensures
            final(self)@ == old(self)@.music(music@),
    {
        proof {
            lemma_views_push(self.musics@, music);
        }
        self.musics.push(music);
    }

    fn flush_section(&mut self)
        ensures
            final(self)@ == old(self)@.flush_section(),
    {
        if !self.section.heading.as_str().is_empty() || !self.section.lines.is_empty() {
            let mut section = Section { heading: String::new(), lines: Vec::new() };
            assert(section@.lines =~= Seq::empty());
            std::mem::swap(&mut self.section, &mut section);
            proof {
                lemma_views_push(self.sections@, section);
            }
            self.sections.push(section);
        }
    }

    fn flush_line(&mut self)
        ensures
            final(self)@ == old(self)@.flush_line(),
    {
        if !self.line.number.as_str().is_empty() || !self.line.diffs.is_empty() {
            let mut line = Line { number: String::new(), diffs: Vec::new() };
            assert(line@.diffs =~= Seq::empty());
            std::mem::swap(&mut self.line, &mut line);
            proof {
                lemma_views_push(self.section.lines@, line);
            }
            self.section.lines.push(line);
        }
    }

    fn flush_diff(&mut self)
        requires
            old(self)@.fits(),
        ensures
            final(self)@ == old(self)@.flush_diff(),
    {
        let ghost scripts = views(self.scripts@);
        let ghost musics = views(self.musics@);
        let ghost diffs = views(self.line.diffs@);
        if self.scripts.len() == 0 && self.musics.len() == 0 {
            assert(diffs + pending_diffs(scripts, musics) =~= diffs);
        } else if self.scripts.len() == 1 && self.musics.len() == 1 {
            assert(self@.scripts[0] == scripts[0] && self@.musics[0] == musics[0]);
            diff_word(&mut self.line.diffs, self.scripts[0], self.musics[0]);
        } else if self.scripts.len() == 0 {
            let diff = Diff::Music(join(&self.musics));
            proof {
                lemma_views_push(self.line.diffs@, diff);
                assert(diffs + pending_diffs(scripts, musics) =~= diffs.push(diff@));
            }
            self.line.diffs.push(diff);
        } else if self.musics.len() == 0 {
            let diff = Diff::Script(join(&self.scripts));
            proof {
                lemma_views_push(self.line.diffs@, diff);
                assert(diffs + pending_diffs(scripts, musics) =~= diffs.push(diff@));
            }
            self.line.diffs.push(diff);
        } else {
            let diff = Diff::Replace(
                Replace { script: join(&self.scripts), music: join(&self.musics) },
            );
            proof {
                lemma_views_push(self.line.diffs@, diff);
                assert(diffs + pending_diffs(scripts, musics) =~= diffs.push(diff@));
            }
            self.line.diffs.push(diff);
        }
        self.scripts.clear();
        self.musics.clear();
        assert(views(self.scripts@) =~= Seq::empty());
        assert(views(self.musics@) =~= Seq::empty());
    }

    /// Closes what is open and gives the sections.
    pub fn build(self) -> (sections: Vec<Section>)
        requires
            self@.fits(),
        ensures
            views(sections@) == self@.build(),
    {
        let mut builder = self;
        builder.flush_diff();
        builder.flush_line();
        builder.flush_section();
        builder.sections
    }
}

/// The key of a token of the script. A heading and a line number have keys
/// of their own, which are the key of no word.
pub open spec fn script_key(word: WordView) -> Seq<char> {
    match word {
        WordView::Heading(_) => "@HEADING@"@,
        WordView::Line(_) => "@LINE@"@,
        WordView::Word(text) => key_of(text),
    }
}

pub open spec fn script_keys(script: Seq<WordView>) -> Seq<Seq<char>> {
    script.map_values(|word: WordView| script_key(word))
}

pub open spec fn music_keys(music: Seq<Seq<char>>) -> Seq<Seq<char>> {
    music.map_values(|text: Seq<char>| key_of(text))
}

/// The keys of the tokens of the script.
pub fn script_words(script: &Vec<Word>) -> (keys: Vec<String>)
    ensures
        keys.len() == script.len(),
        views(keys@) == script_keys(views(script@)),
{
    let mut keys: Vec<String> = Vec::new();
    let mut i: usize = 0;
    while i < script.len()
        invariant
            i <= script.len(),
            keys.len() == i,
            forall|k: int| 0 <= k < i ==> (#[trigger] keys@[k])@ == script_key(script@[k]@),
        decreases script.len() - i,
    {
        let key = match &script[i] {
            Word::Heading(_) => "@HEADING@".to_owned(),
            Word::Line(_) => "@LINE@".to_owned(),
            Word::Word(text) => key(text.as_str()),
        };
        keys.push(key);
        i += 1;
    }
    assert(views(keys@) =~= script_keys(views(script@)));
    keys
}

/// The keys of the words of the music.
pub fn music_words(music: &Vec<&str>) -> (keys: Vec<String>)
    ensures
        keys.len() == music.len(),
        views(keys@) == music_keys(views(music@)),
{
    let mut keys: Vec<String> = Vec::new();
    let mut i: usize = 0;
    while i < music.len()
        invariant
            i <= music.len(),
            keys.len() == i,
            forall|k: int| 0 <= k < i ==> (#[trigger] keys@[k])@ == key_of(music@[k]@),
        decreases music.len() - i,
    {
        keys.push(key(music[i]));
        i += 1;
    }
    assert(views(keys@) =~= music_keys(views(music@)));
    keys
}

/// What one step of the alignment does to the builder, where the steps
/// before it went through `i` tokens of the script and `j` words of the
/// music. A heading or a line number starts a section or a line; a word of
/// the script is paired with a word of the music or stands alone.
pub open spec fn step(
    builder: BuilderView,
    op: Side,
    script: Seq<WordView>,
    music: Seq<Seq<char>>,
    i: int,
    j: int,
) -> BuilderView {
    match op {
        Side::Right => builder.music(music[j]),
        Side::Left => match script[i] {
            WordView::Heading(text) => builder.heading(text),
            WordView::Line(text) => builder.line(text),
            WordView::Word(text) => builder.script(text),
        },
        Side::Both => match script[i] {
            WordView::Heading(text) => builder.heading(text),
            WordView::Line(text) => builder.line(text),
            WordView::Word(text) => builder.same(text, music[j]),
        },
    }
}

/// The builder after the steps `ops`.
pub open spec fn run(script: Seq<WordView>, music: Seq<Seq<char>>, ops: Seq<Side>) -> BuilderView
    decreases ops.len(),
{
    if ops.len() == 0 {
        BuilderView::new()
    } else {
        step(
            run(script, music, ops.drop_last()),
            ops.last(),
            script,
            music,
            lefts(ops.drop_last()) as int,
            rights(ops.drop_last()) as int,
        )
    }
}

/// The sections that the script and the music give under the alignment
/// `ops` of their keys.
pub open spec fn sections_of(script: Seq<WordView>, music: Seq<Seq<char>>, ops: Seq<Side>) -> Seq<
    SectionView,
> {
    run(script, music, ops).build()
}

/// Every word of the script can be aligned with every word of the music.
pub open spec fn words_fit(script: Seq<WordView>, music: Seq<Seq<char>>) -> bool {
    forall|i: int, j: int|
        0 <= i < script.len() && 0 <= j < music.len() && (#[trigger] script[i]) is Word
            ==> table_fits(script[i]->Word_0.len(), (#[trigger] music[j]).len())
}

/// The script and the music are within what the machine can align.
pub open spec fn diffable(script: Seq<WordView>, music: Seq<Seq<char>>) -> bool {
    table_fits(script.len(), music.len()) && words_fit(script, music)
}

/// The unpaired words of the builder are words of `script` and of `music`.
pub open spec fn within(builder: BuilderView, script: Seq<WordView>, music: Seq<Seq<char>>) -> bool {
    &&& forall|p: int|
        0 <= p < builder.scripts.len() ==> script.contains(
            WordView::Word(#[trigger] builder.scripts[p]),
        )
    &&& forall|q: int| 0 <= q < builder.musics.len() ==> music.contains(#[trigger] builder.musics[q])
}

proof fn lemma_within_fits(builder: BuilderView, script: Seq<WordView>, music: Seq<Seq<char>>)
    requires
        within(builder, script, music),
        words_fit(script, music),
    ensures
        builder.fits(),
{
    assert forall|p: int, q: int|
        0 <= p < builder.scripts.len() && 0 <= q < builder.musics.len() implies table_fits(
        (#[trigger] builder.scripts[p]).len(),
        (#[trigger] builder.musics[q]).len(),
    ) by {
        let word = WordView::Word(builder.scripts[p]);
        let i = choose|i: int| 0 <= i < script.len() && script[i] == word;
        let j = choose|j: int| 0 <= j < music.len() && music[j] == builder.musics[q];
        assert(script[i] is Word && music[j] == builder.musics[q]);
    }
}

proof fn lemma_table_fits_smaller(a: nat, b: nat, c: nat, d: nat)
    requires
        a <= c,
        b <= d,
        table_fits(c, d),
    ensures
        table_fits(a, b),
{
    assert((a + 1) * (b + 1) * 4 <= (c + 1) * (d + 1) * 4) by (nonlinear_arith)
        requires
            a <= c,
            b <= d,
    ;
}

/// Builds the sections from the script and the music by the alignment `ops`
/// of their keys.
pub fn diff_by<'a>(script: &'a Vec<Word>, music: &'a Vec<&'a str>, ops: &Vec<Side>) -> (sections:
    Vec<Section>)
    requires
        lefts(ops@) == script.len(),
        rights(ops@) == music.len(),
        words_fit(views(script@), views(music@)),
    ensures
        views(sections@) == sections_of(views(script@), views(music@), ops@),
{
    let ghost sv = views(script@);
    let ghost mv = views(music@);
    let mut builder = Builder::new();
    let mut i: usize = 0;
    let mut j: usize = 0;
    let mut k: usize = 0;
    assert(ops@.take(0) =~= Seq::<Side>::empty());
    while k < ops.len()
        invariant
            sv == views(script@),
            mv == views(music@),
            lefts(ops@) == script.len(),
            rights(ops@) == music.len(),
            words_fit(sv, mv),
            k <= ops.len(),
            i == lefts(ops@.take(k as int)),
            j == rights(ops@.take(k as int)),
            builder@ == run(sv, mv, ops@.take(k as int)),
            within(builder@, sv, mv),
        decreases ops.len() - k,
    {
        proof {
            lemma_take_counts(ops@, k + 1);
            lemma_take_next(ops@, k as int);
            lemma_within_fits(builder@, sv, mv);
            assert(ops@.take(k + 1).drop_last() =~= ops@.take(k as int));
        }
        let ghost before = builder@;
        match ops[k] {
            Side::Right => {
                builder.music(music[j]);
                assert(mv[j as int] == music@[j as int]@);
                j += 1;
            },
            Side::Left => {
                match &script[i] {
                    Word::Heading(text) => builder.heading(text.clone()),
                    Word::Line(text) => builder.line(text.clone()),
                    Word::Word(text) => {
                        builder.script(text.as_str());
                        assert(sv[i as int] == WordView::Word(text@));
                    },
                }
                i += 1;
            },
            Side::Both => {
                match &script[i] {
                    Word::Heading(text) => builder.heading(text.clone()),
                    Word::Line(text) => builder.line(text.clone()),
                    Word::Word(text) => {
                        assert(sv[i as int] is Word && mv[j as int] == music@[j as int]@);
                        builder.same(text.as_str(), music[j]);
                    },
                }
                i += 1;
                j += 1;
            },
        }
        k += 1;
    }
    assert(ops@.take(ops.len() as int) =~= ops@);
    proof {
        lemma_within_fits(builder@, sv, mv);
    }
    builder.build()
}

/// The number of characters of the longest word among the tokens, whether
/// there is a word, and where the longest stands.
fn longest_word(script: &Vec<Word>) -> (r: (usize, bool, Ghost<int>))
    ensures
        forall|i: int|
            0 <= i < script.len() && (#[trigger] script@[i]@) is Word ==> script@[i]@->Word_0.len()
                <= r.0,
        r.1 ==> 0 <= r.2@ < script.len() && script@[r.2@]@ == WordView::Word(
            script@[r.2@]@->Word_0,
        ) && script@[r.2@]@->Word_0.len() == r.0,
        !r.1 ==> forall|i: int| 0 <= i < script.len() ==> !((#[trigger] script@[i]@) is Word),
{
    let mut longest: usize = 0;
    let mut found = false;
    let ghost mut at: int = 0;
    let mut i: usize = 0;
    while i < script.len()
        invariant
            i <= script.len(),
            forall|k: int|
                0 <= k < i && (#[trigger] script@[k]@) is Word ==> script@[k]@->Word_0.len()
                    <= longest,
            found ==> 0 <= at < i && script@[at]@ == WordView::Word(script@[at]@->Word_0)
                && script@[at]@->Word_0.len() == longest,
            !found ==> forall|k: int| 0 <= k < i ==> !((#[trigger] script@[k]@) is Word),
        decreases script.len() - i,
    {
        match &script[i] {
            Word::Word(text) => {
                let n = text.as_str().unicode_len();
                if !found || n > longest {
                    longest = n;
                    found = true;
                    proof {
                        at = i as int;
                    }
                }
            },
            _ => {},
        }
        i += 1;
    }
    (longest, found, Ghost(at))
}

/// The number of characters of the longest text, and where it stands.
fn longest_text(music: &Vec<&str>) -> (r: (usize, Ghost<int>))
    ensures
        forall|j: int| 0 <= j < music.len() ==> (#[trigger] music@[j]@).len() <= r.0,
        music.len() > 0 ==> 0 <= r.1@ < music.len() && music@[r.1@]@.len() == r.0,
{
    let mut longest: usize = 0;
    let ghost mut at: int = 0;
    let mut j: usize = 0;
    while j < music.len()
        invariant
            j <= music.len(),
            forall|k: int| 0 <= k < j ==> (#[trigger] music@[k]@).len() <= longest,
            j > 0 ==> 0 <= at < j && music@[at]@.len() == longest,
        decreases music.len() - j,
    {
        let n = music[j].unicode_len();
        if j == 0 || n > longest {
            longest = n;
            proof {
                at = j as int;
            }
        }
        j += 1;
    }
    (longest, Ghost(at))
}

/// Aligns the tokens of the script with the words of the music by their
/// keys and builds the sections. Fails where the script and the music are
/// beyond what the machine can align, and only there.
pub fn diff_script<'a>(script: &'a Vec<Word>, music: &'a Vec<&'a str>) -> (r: Result<
    Vec<Section>,
    Failure,
>)
    ensures
        diffable(views(script@), views(music@)) ==> r is Ok && views(r->Ok_0@) == sections_of(
            views(script@),
            views(music@),
            slice_sides(script_keys(views(script@)), music_keys(views(music@))),
        ),
        !diffable(views(script@), views(music@)) ==> r is Err && r->Err_0 is TooLarge,
        diffable(views(script@), views(music@)) && views(script@) == as_words(views(music@))
            ==> views(r->Ok_0@) == if music.len() == 0 {
            Seq::<SectionView>::empty()
        } else {
            seq![
                SectionView {
                    heading: Seq::empty(),
                    lines: seq![
                        LineView { number: Seq::empty(), diffs: all_same(views(music@)) },
                    ],
                },
            ]
        },
{
    let ghost sv = views(script@);
    let ghost mv = views(music@);
    if !fits_table(script.len(), music.len()) {
        return Err(Failure::TooLarge);
    }
    let (word, found, at) = longest_word(script);
    let (text, at_text) = longest_text(music);
    if found && music.len() > 0 && !fits_table(word, text) {
        proof {
            assert(sv[at@] is Word && sv[at@]->Word_0.len() == word);
            assert(mv[at_text@].len() == text);
        }
        return Err(Failure::TooLarge);
    }
    proof {
        assert forall|i: int, j: int|
            0 <= i < sv.len() && 0 <= j < mv.len() && (#[trigger] sv[i]) is Word implies table_fits(
            sv[i]->Word_0.len(),
            (#[trigger] mv[j]).len(),
        ) by {
            assert(script@[i]@ is Word);
            assert(music@[j]@.len() <= text);
            lemma_table_fits_smaller(
                sv[i]->Word_0.len(),
                mv[j].len(),
                word as nat,
                text as nat,
            );
        }
    }
    let left = script_words(script);
    let right = music_words(music);
    let ops = slice_alignment(&left, &right);
    proof {
        if sv == as_words(mv) {
            lemma_same_words(mv, ops@);
        }
    }
    Ok(diff_by(script, music, &ops))
}

/// The alignment that pairs item with item.
pub open spec fn pairs(n: nat) -> Seq<Side> {
    Seq::new(n, |i: int| Side::Both)
}

proof fn lemma_pairs_counts(n: nat)
    ensures
        lefts(pairs(n)) == n,
        rights(pairs(n)) == n,
        boths(pairs(n)) == n,
    decreases n,
{
    if n > 0 {
        lemma_pairs_counts((n - 1) as nat);
        assert(pairs(n).drop_last() =~= pairs((n - 1) as nat));
    }
}

proof fn lemma_counts(ops: Seq<Side>)
    ensures
        boths(ops) <= ops.len(),
        lefts(ops) + rights(ops) == ops.len() + boths(ops),
        boths(ops) == ops.len() ==> forall|k: int| 0 <= k < ops.len() ==> ops[k] is Both,
    decreases ops.len(),
{
    if ops.len() > 0 {
        lemma_counts(ops.drop_last());
        if boths(ops) == ops.len() {
            assert forall|k: int| 0 <= k < ops.len() implies ops[k] is Both by {
                if k < ops.len() - 1 {
                    assert(ops.drop_last()[k] == ops[k]);
                }
            }
        }
    }
}

/// A sequence is aligned with itself item by item: an alignment of it with
/// itself that no alignment outdoes makes nothing but pairs.
pub proof fn lemma_identical_alignment<T>(ops: Seq<Side>, items: Seq<T>)
    requires
        aligns(ops, items, items),
        longest(ops, items, items),
    ensures
        ops == pairs(items.len()),
{
    let n = items.len();
    let id = pairs(n);
    lemma_pairs_counts(n);
    assert forall|k: int| 0 <= k < id.len() && #[trigger] id[k] is Both implies items[lefts(
        id.take(k),
    ) as int] == items[rights(id.take(k)) as int] by {
        assert(id.take(k) =~= pairs(k as nat));
        lemma_pairs_counts(k as nat);
    }
    assert(aligns(id, items, items));
    lemma_counts(ops);
    assert(ops =~= id);
}

/// The tokens of a script that is nothing but the words `words`.
pub open spec fn as_words(words: Seq<Seq<char>>) -> Seq<WordView> {
    words.map_values(|word: Seq<char>| WordView::Word(word))
}

/// The finding, for each word, that script and music agree on it.
pub open spec fn all_same(words: Seq<Seq<char>>) -> Seq<DiffView> {
    words.map_values(|word: Seq<char>| DiffView::Same(word))
}

proof fn lemma_run_same(words: Seq<Seq<char>>, k: nat)
    requires
        k <= words.len(),
    ensures
        run(as_words(words), words, pairs(k)) == (BuilderView {
            line: LineView { number: Seq::empty(), diffs: all_same(words.take(k as int)) },
            ..BuilderView::new()
        }),
    decreases k,
{
    let script = as_words(words);
    if k == 0 {
        assert(all_same(words.take(0)) =~= Seq::empty());
    } else {
        let before = (k - 1) as nat;
        lemma_run_same(words, before);
        lemma_pairs_counts(before);
        assert(pairs(k).drop_last() =~= pairs(before));
        let word = words[k - 1];
        assert(script[k - 1] == WordView::Word(word));
        let old = run(script, words, pairs(before));
        let new = old.same(word, word);
        assert(run(script, words, pairs(k)) == new);
        assert(pending_diffs(old.scripts, old.musics) =~= Seq::empty());
        assert(new.line.diffs =~= all_same(words.take(k as int))) by {
            assert(words.take(k as int) =~= words.take(before as int).push(word));
        }
    }
}

/// Where the script is nothing but words and the music has the same words
/// in the same order, the result is one finding for each word, in their
/// order, that script and music agree on it: in one line of one section,
/// neither of which has a name.
pub proof fn lemma_same_words(words: Seq<Seq<char>>, ops: Seq<Side>)
    requires
        aligns(ops, script_keys(as_words(words)), music_keys(words)),
        longest(ops, script_keys(as_words(words)), music_keys(words)),
    ensures
        sections_of(as_words(words), words, ops) == if words.len() == 0 {
            Seq::<SectionView>::empty()
        } else {
            seq![
                SectionView {
                    heading: Seq::empty(),
                    lines: seq![LineView { number: Seq::empty(), diffs: all_same(words) }],
                },
            ]
        },
{
    let keys = music_keys(words);
    assert(script_keys(as_words(words)) =~= keys);
    lemma_identical_alignment(ops, keys);
    lemma_run_same(words, words.len());
    assert(words.take(words.len() as int) =~= words);
    let end = run(as_words(words), words, ops);
    assert(pending_diffs(end.scripts, end.musics) =~= Seq::empty());
    assert(end.flush_diff().line.diffs =~= all_same(words));
    if words.len() == 0 {
        assert(end.build() =~= Seq::<SectionView>::empty());
    } else {
        let line = LineView { number: Seq::empty(), diffs: all_same(words) };
        assert(end.flush_diff().flush_line().section.lines =~= seq![line]);
        let section = SectionView { heading: Seq::empty(), lines: seq![line] };
        assert(end.build() =~= seq![section]);
    }
}

/// The texts of the words of the phrases, in their order.
pub open spec fn texts_of(phrases: Seq<PhraseView>) -> Seq<Seq<char>>
    decreases phrases.len(),
{
    if phrases.len() == 0 {
        Seq::empty()
    } else {
        texts_of(phrases.drop_last()) + phrases.last().words.map_values(
            |word: crate::music::WordView| word.text,
        )
    }
}

/// The texts of the words of a score; none for a score without lyrics.
pub open spec fn music_texts(music: Option<MusicView>) -> Seq<Seq<char>> {
    match music {
        Some(music) => texts_of(music.phrases),
        None => Seq::empty(),
    }
}

/// The texts of the words of the phrases, in their order.
pub fn phrase_words<'a>(phrases: &'a Vec<Phrase>) -> (texts: Vec<&'a str>)
    ensures
        views(texts@) == texts_of(views(phrases@)),
{
    let mut texts: Vec<&'a str> = Vec::new();
    let ghost all = views(phrases@);
    let mut i: usize = 0;
    assert(all.take(0) =~= Seq::<PhraseView>::empty());
    assert(views(texts@) =~= Seq::<Seq<char>>::empty());
    while i < phrases.len()
        invariant
            i <= phrases.len(),
            all == views(phrases@),
            views(texts@) == texts_of(all.take(i as int)),
        decreases phrases.len() - i,
    {
        let phrase = &phrases[i];
        let ghost before = views(texts@);
        let ghost words = phrase@.words.map_values(|word: crate::music::WordView| word.text);
        let mut k: usize = 0;
        assert(before =~= before + words.take(0));
        while k < phrase.words.len()
            invariant
                k <= phrase.words.len(),
                words == phrase@.words.map_values(|word: crate::music::WordView| word.text),
                views(texts@) == before + words.take(k as int),
            decreases phrase.words.len() - k,
        {
            let text = phrase.words[k].text.as_str();
            proof {
                lemma_views_push(texts@, text);
                assert(words[k as int] == phrase.words@[k as int]@.text);
                assert(words.take(k + 1) =~= words.take(k as int).push(text@));
                assert(before + words.take(k + 1) =~= (before + words.take(k as int)).push(text@));
            }
            texts.push(text);
            k += 1;
        }
        proof {
            assert(words.take(phrase.words.len() as int) =~= words);
            assert(all.take(i + 1).drop_last() =~= all.take(i as int));
            assert(all.take(i + 1).last() == phrase@);
        }
        i += 1;
    }
    assert(all.take(phrases.len() as int) =~= all);
    texts
}

/// What the comparison of a script with a score gives, where the score is
/// the document `nodes`: the failure of the reading of the score; else the
/// sections that the tokens of the script and the words of the score give
/// under the alignment of their keys, where the machine can align them.
pub open spec fn compared(
    result: Result<Vec<Section>, Failure>,
    txt: Seq<char>,
    nodes: Seq<crate::music::xml::NodeView>,
) -> bool {
    match music_of(nodes) {
        Err(failure) => result is Err && result->Err_0@ == failure,
        Ok(music) => {
            let script = crate::script::tokens(txt);
            let words = music_texts(music);
            if diffable(script, words) {
                result is Ok && views(result->Ok_0@) == sections_of(
                    script,
                    words,
                    slice_sides(script_keys(script), music_keys(words)),
                )
            } else {
                result is Err && result->Err_0 is TooLarge
            }
        },
    }
}

/// Compares a script with the lyrics of a score in MusicXML.
pub fn read(txt: &str, xml: &str) -> (r: Result<Vec<Section>, Failure>)
    ensures
        match crate::music::xml::parsed(xml@) {
            Some(nodes) => compared(r, txt@, nodes),
            None => r is Err && r->Err_0 is Xml,
        },
{
    let music = match crate::music::read(xml) {
        Ok(music) => music,
        Err(failure) => {
            return Err(failure);
        },
    };
    let script = match crate::script::read(txt) {
        Ok(script) => script,
        Err(failure) => {
            return Err(failure);
        },
    };
    let none: Vec<Phrase> = Vec::new();
    let texts = match &music {
        Some(music) => phrase_words(&music.phrases),
        None => phrase_words(&none),
    };
    assert(views(none@) =~= Seq::<PhraseView>::empty());
    diff_script(&script, &texts)
}

proof fn lemma_letters_lower(text: Seq<char>)
    ensures
        forall|i: int| 0 <= i < letters(text).len() ==> is_lower(#[trigger] letters(text)[i]),
        letters(text).len() == 0 ==> forall|i: int|
            0 <= i < text.len() ==> !is_upper(#[trigger] text[i]) && !is_lower(text[i]),
    decreases text.len(),
{
    if text.len() == 0 {
        reveal(Seq::filter);
    } else {
        let rest = text.drop_last();
        let c = text.last();
        lemma_letters_lower(rest);
        lemma_letters_push(rest, c);
        assert(text =~= rest.push(c));
        if letters(text).len() == 0 {
            assert forall|i: int| 0 <= i < text.len() implies !is_upper(#[trigger] text[i])
                && !is_lower(text[i]) by {
                if i < rest.len() {
                    assert(rest[i] == text[i]);
                }
            }
        }
    }
}

/// The key of a word is its text or is made of small letters: it holds a
/// capital letter only together with a character that is no letter.
proof fn lemma_key_of(text: Seq<char>, capital: int, other: int)
    requires
        0 <= capital < key_of(text).len(),
        0 <= other < key_of(text).len(),
        is_upper(key_of(text)[capital]),
    ensures
        is_upper(key_of(text)[other]) || is_lower(key_of(text)[other]),
{
    lemma_letters_lower(text);
}

/// The key of a heading and the key of a line number are the key of no
/// word.
pub proof fn lemma_marker_keys(text: Seq<char>)
    ensures
        key_of(text) != "@HEADING@"@,
        key_of(text) != "@LINE@"@,
{
    reveal_strlit("@HEADING@");
    reveal_strlit("@LINE@");
    if key_of(text) == "@HEADING@"@ {
        lemma_key_of(text, 1, 0);
    }
    if key_of(text) == "@LINE@"@ {
        lemma_key_of(text, 1, 0);
    }
}

/// An alignment of the keys pairs words with words: a heading or a line
/// number of the script is never paired with a word of the music.
pub proof fn lemma_markers_unpaired(
    script: Seq<WordView>,
    music: Seq<Seq<char>>,
    ops: Seq<Side>,
    k: int,
)
    requires
        aligns(ops, script_keys(script), music_keys(music)),
        0 <= k < ops.len(),
        ops[k] is Both,
    ensures
        0 <= lefts(ops.take(k)) < script.len(),
        script[lefts(ops.take(k)) as int] is Word,
{
    lemma_take_counts(ops, k + 1);
    lemma_take_next(ops, k);
    let i = lefts(ops.take(k)) as int;
    let j = rights(ops.take(k)) as int;
    assert(script_keys(script)[i] == music_keys(music)[j]);
    lemma_marker_keys(music[j]);
}

} // verus!
