//! Reads the script: plain text whose lines are headings or numbered lines
//! of words.
use vstd::prelude::*;
use crate::error::Failure;
use crate::text::{chars_of, is_ascii_digit, is_digit, string_of};
use crate::views;

verus! {

/// One token of the script, in the order of the text.
#[derive(Debug, PartialEq, Eq)]
pub enum Word {
    /// A line that is not numbered: the whole line.
    Heading(String),
    /// The number that a line starts with: its digits.
    Line(String),
    /// One word of a numbered line.
    Word(String),
}

pub enum WordView {
    Heading(Seq<char>),
    Line(Seq<char>),
    Word(Seq<char>),
}

impl View for Word {
    type V = WordView;

    open spec fn view(&self) -> WordView {
        match *self {
            Word::Heading(text) => WordView::Heading(text@),
            Word::Line(text) => WordView::Line(text@),
            Word::Word(text) => WordView::Word(text@),
        }
    }
}

/// Where the line that holds position `k` ends: at the next line feed, or at
/// the end of the text.
pub open spec fn line_end(text: Seq<char>, k: int) -> int
    decreases text.len() - k,
{
    if 0 <= k < text.len() && text[k] != '\n' {
        line_end(text, k + 1)
    } else {
        k
    }
}

/// A line without the carriage return that stood before its line feed.
pub open spec fn strip_cr(line: Seq<char>) -> Seq<char> {
    if line.len() > 0 && line.last() == '\r' {
        line.drop_last()
    } else {
        line
    }
}

/// The lines of the text from position `k` on. A line ends with a line feed,
/// or with a carriage return and a line feed; the last line may end with the
/// text. Nothing follows the last line feed.
pub open spec fn lines_from(text: Seq<char>, k: int) -> Seq<Seq<char>>
    decreases text.len() - k,
{
    if k < 0 || k >= text.len() {
        Seq::empty()
    } else {
        let end = line_end(text, k);
        if end < k || end >= text.len() {
            seq![text.subrange(k, text.len() as int)]
        } else {
            seq![strip_cr(text.subrange(k, end))] + lines_from(text, end + 1)
        }
    }
}

/// What a character of the script is read as: a typographic apostrophe as a
/// plain one, an ellipsis as three full stops.
pub open spec fn plain(c: char) -> Seq<char> {
    if c == '\u{2019}' {
        seq!['\'']
    } else if c == '\u{2026}' {
        seq!['.', '.', '.']
    } else {
        seq![c]
    }
}

/// A line with every character read as `plain` reads it.
pub open spec fn plain_line(line: Seq<char>) -> Seq<char>
    decreases line.len(),
{
    if line.len() == 0 {
        Seq::empty()
    } else {
        plain_line(line.drop_last()) + plain(line.last())
    }
}

/// Where the digits that start at `k` end.
pub open spec fn digits_end(line: Seq<char>, k: int) -> int
    decreases line.len() - k,
{
    if 0 <= k < line.len() && is_digit(line[k]) {
        digits_end(line, k + 1)
    } else {
        k
    }
}

/// Where the word that starts at `k` ends: at the next space, or at the end
/// of the line.
pub open spec fn word_end(line: Seq<char>, k: int) -> int
    decreases line.len() - k,
{
    if 0 <= k < line.len() && line[k] != ' ' {
        word_end(line, k + 1)
    } else {
        k
    }
}

/// The words of the line from position `k` on: the runs of characters
/// between spaces.
pub open spec fn words_from(line: Seq<char>, k: int) -> Seq<WordView>
    decreases line.len() - k,
{
    if k < 0 || k >= line.len() {
        Seq::empty()
    } else if line[k] == ' ' {
        words_from(line, k + 1)
    } else {
        let end = word_end(line, k);
        if end <= k || end > line.len() {
            Seq::empty()
        } else {
            seq![WordView::Word(line.subrange(k, end))] + words_from(line, end)
        }
    }
}

/// The tokens of one line. A line that starts with digits and a full stop
/// gives its number and then its words. A line of digits alone gives
/// nothing. Any other line, an empty one too, is a heading.
pub open spec fn line_tokens(line: Seq<char>) -> Seq<WordView> {
    let digits = digits_end(line, 0);
    if digits <= 0 || digits > line.len() {
        seq![WordView::Heading(line)]
    } else if digits == line.len() {
        Seq::empty()
    } else if line[digits] == '.' {
        seq![WordView::Line(line.take(digits))] + words_from(line, digits + 1)
    } else {
        seq![WordView::Heading(line)]
    }
}

/// The tokens of the lines, each line read plain.
pub open spec fn lines_tokens(lines: Seq<Seq<char>>) -> Seq<WordView>
    decreases lines.len(),
{
    if lines.len() == 0 {
        Seq::empty()
    } else {
        lines_tokens(lines.drop_last()) + line_tokens(plain_line(lines.last()))
    }
}

/// The tokens of a script.
pub open spec fn tokens(text: Seq<char>) -> Seq<WordView> {
    lines_tokens(lines_from(text, 0))
}

/// Where the line that starts at `from` stops, and where the next line
/// starts.
fn read_line(text: &Vec<char>, from: usize) -> (r: (usize, usize))
    requires
        from < text.len(),
    ensures
        from <= r.0 <= text.len(),
        from < r.1 <= text.len(),
        lines_from(text@, from as int) == seq![text@.subrange(from as int, r.0 as int)]
            + lines_from(text@, r.1 as int),
{
    let mut end: usize = from;
    while end < text.len() && text[end] != '\n'
        invariant
            from <= end <= text.len(),
            line_end(text@, from as int) == line_end(text@, end as int),
        decreases text.len() - end,
    {
        end += 1;
    }
    if end >= text.len() {
        assert(lines_from(text@, text.len() as int) =~= Seq::<Seq<char>>::empty());
        (end, end)
    } else if end > from && text[end - 1] == '\r' {
        assert(strip_cr(text@.subrange(from as int, end as int)) =~= text@.subrange(
            from as int,
            end - 1,
        ));
        (end - 1, end + 1)
    } else {
        (end, end + 1)
    }
}

/// The characters `text[from..to]`, read plain.
fn read_plain(text: &Vec<char>, from: usize, to: usize) -> (line: Vec<char>)
    requires
        from <= to <= text.len(),
    ensures
        line@ == plain_line(text@.subrange(from as int, to as int)),
{
    let mut line: Vec<char> = Vec::new();
    let mut i: usize = from;
    assert(text@.subrange(from as int, from as int) =~= Seq::<char>::empty());
    while i < to
        invariant
            from <= i <= to <= text.len(),
            line@ == plain_line(text@.subrange(from as int, i as int)),
        decreases to - i,
    {
        let c = text[i];
        proof {
            assert(text@.subrange(from as int, i + 1).drop_last() =~= text@.subrange(
                from as int,
                i as int,
            ));
        }
        if c == '\u{2019}' {
            line.push('\'');
            assert(line@ =~= plain_line(text@.subrange(from as int, i as int)) + plain(c));
        } else if c == '\u{2026}' {
            line.push('.');
            line.push('.');
            line.push('.');
            assert(line@ =~= plain_line(text@.subrange(from as int, i as int)) + plain(c));
        } else {
            line.push(c);
            assert(line@ =~= plain_line(text@.subrange(from as int, i as int)) + plain(c));
        }
        i += 1;
    }
    line
}

/// Appends the words of `line` from position `from` on.
fn read_words(words: &mut Vec<Word>, line: &Vec<char>, from: usize)
    requires
        from <= line.len(),
    ensures
        views(final(words)@) == views(old(words)@) + words_from(line@, from as int),
{
    let ghost before = views(words@);
    let mut k: usize = from;
    assert(views(words@) =~= before + Seq::<WordView>::empty());
    let ghost mut done: Seq<WordView> = Seq::empty();
    while k < line.len()
        invariant
            from <= k <= line.len(),
            views(words@) == before + done,
            done + words_from(line@, k as int) == words_from(line@, from as int),
        decreases line.len() - k,
    {
        if line[k] == ' ' {
            k += 1;
        } else {
            let mut end: usize = k + 1;
            while end < line.len() && line[end] != ' '
                invariant
                    k < end <= line.len(),
                    word_end(line@, k as int) == word_end(line@, end as int),
                decreases line.len() - end,
            {
                end += 1;
            }
            let word = Word::Word(string_of(line, k, end));
            proof {
                crate::lemma_views_push(words@, word);
                assert(before + done.push(word@) =~= (before + done).push(word@));
                assert(done.push(word@) + words_from(line@, end as int) =~= done + (seq![word@]
                    + words_from(line@, end as int)));
                done = done.push(word@);
            }
            words.push(word);
            k = end;
        }
    }
    assert(done + Seq::<WordView>::empty() =~= done);
}

/// Appends the tokens of one line.
fn read_tokens(words: &mut Vec<Word>, line: &Vec<char>)
    ensures
        views(final(words)@) == views(old(words)@) + line_tokens(line@),
{
    let ghost before = views(words@);
    let mut digits: usize = 0;
    while digits < line.len() && is_ascii_digit(line[digits])
        invariant
            digits <= line.len(),
            digits_end(line@, 0) == digits_end(line@, digits as int),
        decreases line.len() - digits,
    {
        digits += 1;
    }
    if digits == 0 || (digits < line.len() && line[digits] != '.') {
        let heading = Word::Heading(crate::text::string_from(line));
        proof {
            crate::lemma_views_push(words@, heading);
            assert(before.push(heading@) =~= before + line_tokens(line@));
        }
        words.push(heading);
    } else if digits == line.len() {
        assert(before =~= before + line_tokens(line@));
    } else {
        let number = Word::Line(string_of(line, 0, digits));
        proof {
            crate::lemma_views_push(words@, number);
            assert(line@.take(digits as int) =~= line@.subrange(0, digits as int));
        }
        words.push(number);
        read_words(words, line, digits + 1);
        assert(views(words@) =~= before + line_tokens(line@));
    }
}

/// Reads a script into its tokens.
pub fn read(txt: &str) -> (r: Result<Vec<Word>, Failure>)
    ensures
        r is Ok,
        views(r->Ok_0@) == tokens(txt@),
{
    let text = chars_of(txt);
    let mut words: Vec<Word> = Vec::new();
    let mut from: usize = 0;
    let ghost mut lines: Seq<Seq<char>> = Seq::empty();
    assert(views(words@) =~= lines_tokens(lines));
    assert(lines + lines_from(text@, 0) =~= lines_from(text@, 0));
    while from < text.len()
        invariant
            from <= text.len(),
            views(words@) == lines_tokens(lines),
            lines + lines_from(text@, from as int) == lines_from(text@, 0),
        decreases text.len() - from,
    {
        let (stop, next) = read_line(&text, from);
        let line = read_plain(&text, from, stop);
        let ghost raw = text@.subrange(from as int, stop as int);
        proof {
            assert(lines.push(raw) + lines_from(text@, next as int) =~= lines + (seq![raw]
                + lines_from(text@, next as int)));
            assert(lines.push(raw).drop_last() =~= lines);
        }
        read_tokens(&mut words, &line);
        proof {
            lines = lines.push(raw);
        }
        from = next;
    }
    assert(lines + Seq::<Seq<char>>::empty() =~= lines);
    Ok(words)
}

} // verus!
