//! What can be wrong with a score.
use vstd::prelude::*;

verus! {

/// Why a score or a comparison was refused. Bars are given by their numbers
/// in the score.
#[derive(Debug, PartialEq, Eq)]
pub enum Failure {
    /// A tick count or a bar number does not fit the machine's integers.
    Overflow,
    /// The texts are too long for the table that aligns them.
    TooLarge,
    /// The bar `number` stands where the bar `expected` should.
    UnexpectedBar { number: usize, expected: usize },
    /// A repeat starts at `bar` inside a repeat that has not ended.
    RepeatStart { bar: usize },
    /// An ending starts at `bar` with no repeat open.
    EndingWithoutRepeat { bar: usize },
    /// An ending starts at `bar`, not straight after the end of the repeat.
    EndingAfterGap { bar: usize },
    /// An ending starts at `bar` inside an ending.
    EndingStart { bar: usize },
    /// An ending ends at `bar` where none has started.
    EndingEnd { bar: usize },
    /// The ending that ends at `bar` started for other verses.
    EndingMismatch { bar: usize },
    /// The verse `verse` has an ending from the bar `first` and another from
    /// the bar `second`.
    DuplicateEnding { verse: usize, first: usize, second: usize },
    /// The last ending, which starts at `bar`, is for more than one verse.
    FinalEndingNotSingle { bar: usize },
    /// A repeat ends at `bar` with no repeat open.
    RepeatEndWithoutStart { bar: usize },
    /// Bars lie between the ending that ended before `ending` and the end of
    /// the repeat at `repeat`.
    EndingGap { ending: usize, repeat: usize },
    /// A repeat ends at `bar` inside an ending.
    RepeatEnd { bar: usize },
    /// The repeat that ends at `bar` has no ending for the verse `verse`.
    MissingEnding { bar: usize, verse: usize },
    /// The text is no XML document; the parser's words.
    Xml { message: String },
    /// The element `found` stands where `parent` does not take it; for the
    /// root of the document `parent` is empty.
    Unexpected { parent: String, found: String },
    /// The element `element` lacks the attribute `name`.
    MissingAttribute { element: String, name: String },
    /// The element `element` lacks the child `name`.
    MissingChild { element: String, name: String },
    /// The element `element` has `value` for `name`, which that attribute or
    /// child cannot be.
    Invalid { element: String, name: String, value: String },
    /// The score has no part.
    NoParts,
    /// The first part has no bars.
    NoBars,
    /// A part has fewer bars than the first part.
    MissingBars,
}

pub enum FailureView {
    Overflow,
    TooLarge,
    UnexpectedBar { number: usize, expected: usize },
    RepeatStart { bar: usize },
    EndingWithoutRepeat { bar: usize },
    EndingAfterGap { bar: usize },
    EndingStart { bar: usize },
    EndingEnd { bar: usize },
    EndingMismatch { bar: usize },
    DuplicateEnding { verse: usize, first: usize, second: usize },
    FinalEndingNotSingle { bar: usize },
    RepeatEndWithoutStart { bar: usize },
    EndingGap { ending: usize, repeat: usize },
    RepeatEnd { bar: usize },
    MissingEnding { bar: usize, verse: usize },
    Xml { message: Seq<char> },
    Unexpected { parent: Seq<char>, found: Seq<char> },
    MissingAttribute { element: Seq<char>, name: Seq<char> },
    MissingChild { element: Seq<char>, name: Seq<char> },
    Invalid { element: Seq<char>, name: Seq<char>, value: Seq<char> },
    NoParts,
    NoBars,
    MissingBars,
}

impl View for Failure {
    type V = FailureView;

    open spec fn view(&self) -> FailureView {
        match *self {
            Failure::Overflow => FailureView::Overflow,
            Failure::TooLarge => FailureView::TooLarge,
            Failure::UnexpectedBar { number, expected } => FailureView::UnexpectedBar {
                number,
                expected,
            },
            Failure::RepeatStart { bar } => FailureView::RepeatStart { bar },
            Failure::EndingWithoutRepeat { bar } => FailureView::EndingWithoutRepeat { bar },
            Failure::EndingAfterGap { bar } => FailureView::EndingAfterGap { bar },
            Failure::EndingStart { bar } => FailureView::EndingStart { bar },
            Failure::EndingEnd { bar } => FailureView::EndingEnd { bar },
            Failure::EndingMismatch { bar } => FailureView::EndingMismatch { bar },
            Failure::DuplicateEnding { verse, first, second } => FailureView::DuplicateEnding {
                verse,
                first,
                second,
            },
            Failure::FinalEndingNotSingle { bar } => FailureView::FinalEndingNotSingle { bar },
            Failure::RepeatEndWithoutStart { bar } => FailureView::RepeatEndWithoutStart { bar },
            Failure::EndingGap { ending, repeat } => FailureView::EndingGap { ending, repeat },
            Failure::RepeatEnd { bar } => FailureView::RepeatEnd { bar },
            Failure::MissingEnding { bar, verse } => FailureView::MissingEnding { bar, verse },
            Failure::Xml { message } => FailureView::Xml { message: message@ },
            Failure::Unexpected { parent, found } => FailureView::Unexpected {
                parent: parent@,
                found: found@,
            },
            Failure::MissingAttribute { element, name } => FailureView::MissingAttribute {
                element: element@,
                name: name@,
            },
            Failure::MissingChild { element, name } => FailureView::MissingChild {
                element: element@,
                name: name@,
            },
            Failure::Invalid { element, name, value } => FailureView::Invalid {
                element: element@,
                name: name@,
                value: value@,
            },
            Failure::NoParts => FailureView::NoParts,
            Failure::NoBars => FailureView::NoBars,
            Failure::MissingBars => FailureView::MissingBars,
        }
    }
}

} // verus!
