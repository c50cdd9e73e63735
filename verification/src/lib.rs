//! Checks a plain-text lyric script against the lyrics held in a musical score.
//!
//! The score's repeats and alternate endings are unrolled into a linear order of
//! play, its syllables are assembled into words and phrases, and the words are
//! aligned with the words of the script. What differs is reported word by word
//! and, inside a word, letter by letter.
use vstd::prelude::*;

pub mod diff;
pub mod error;
pub mod music;
pub mod script;
pub mod text;

verus! {

/// The views of the items of a sequence, in the same order.
pub open spec fn views<T: View>(items: Seq<T>) -> Seq<T::V> {
    items.map_values(|item: T| item@)
}

/// The views of a sequence with one item more are the views of the
/// sequence and then the view of the item.
pub proof fn lemma_views_push<T: View>(items: Seq<T>, item: T)
    ensures
        views(items.push(item)) == views(items).push(item@),
{
    assert(views(items.push(item)) =~= views(items).push(item@));
}

/// The lines of the script under one heading.
#[derive(Debug, PartialEq, Eq)]
pub struct Section {
    pub heading: String,
    pub lines: Vec<Line>,
}

/// One numbered line of the script with what was found for it.
#[derive(Debug, PartialEq, Eq)]
pub struct Line {
    pub number: String,
    pub diffs: Vec<Diff>,
}

/// One finding: text that agrees, or text that only one side has, or text
/// that the two sides spell differently.
#[derive(Debug, PartialEq, Eq)]
pub enum Diff {
    /// Script and music agree.
    Same(String),
    /// Only the music has this text.
    Music(String),
    /// Only the script has this text.
    Script(String),
    /// The two sides differ in the case of one letter; the script's letter.
    Case(String),
    /// The script has one text where the music has another.
    Replace(Replace),
}

/// Two texts that stand in each other's place.
#[derive(Debug, PartialEq, Eq)]
pub struct Replace {
    pub music: String,
    pub script: String,
}

pub struct ReplaceView {
    pub music: Seq<char>,
    pub script: Seq<char>,
}

pub enum DiffView {
    Same(Seq<char>),
    Music(Seq<char>),
    Script(Seq<char>),
    Case(Seq<char>),
    Replace(ReplaceView),
}

pub struct LineView {
    pub number: Seq<char>,
    pub diffs: Seq<DiffView>,
}

pub struct SectionView {
    pub heading: Seq<char>,
    pub lines: Seq<LineView>,
}

impl View for Replace {
    type V = ReplaceView;

    open spec fn view(&self) -> ReplaceView {
        ReplaceView { music: self.music@, script: self.script@ }
    }
}

impl View for Diff {
    type V = DiffView;

    open spec fn view(&self) -> DiffView {
        match *self {
            Diff::Same(text) => DiffView::Same(text@),
            Diff::Music(text) => DiffView::Music(text@),
            Diff::Script(text) => DiffView::Script(text@),
            Diff::Case(text) => DiffView::Case(text@),
            Diff::Replace(replace) => DiffView::Replace(replace@),
        }
    }
}

impl View for Line {
    type V = LineView;

    open spec fn view(&self) -> LineView {
        LineView { number: self.number@, diffs: views(self.diffs@) }
    }
}

impl View for Section {
    type V = SectionView;

    open spec fn view(&self) -> SectionView {
        SectionView { heading: self.heading@, lines: views(self.lines@) }
    }
}

/// The lower-case letter of a text of exactly one character.
pub open spec fn single_letter_of(text: Seq<char>) -> Option<char> {
    if text.len() == 1 {
        Some(text::lower(text[0]))
    } else {
        None
    }
}

/// What a replacement is reported as: a difference of case where each side is
/// one character and the two agree once in lower case, else the replacement.
pub open spec fn replace_diff(replace: ReplaceView) -> DiffView {
    if single_letter_of(replace.music) is Some && single_letter_of(replace.music)
        == single_letter_of(replace.script) {
        DiffView::Case(replace.script)
    } else {
        DiffView::Replace(replace)
    }
}

impl Replace {
    /// Reports the replacement, as a difference of case where it is no more
    /// than that.
    pub fn to_diff(self) -> (diff: Diff)
        ensures
            diff@ == replace_diff(self@),
    {
        let music = single_letter(self.music.as_str());
        let script = single_letter(self.script.as_str());
        match (music, script) {
            (Some(m), Some(s)) => {
                if m == s {
                    Diff::Case(self.script)
                } else {
                    Diff::Replace(self)
                }
            },
            _ => Diff::Replace(self),
        }
    }
}

/// The character of a text that holds exactly one, in lower case.
pub fn single_letter(s: &str) -> (letter: Option<char>)
    ensures
        letter == single_letter_of(s@),
{
    let chars = text::chars_of(s);
    if chars.len() == 1 {
        Some(text::to_lower(chars[0]))
    } else {
        None
    }
}

} // verus!
