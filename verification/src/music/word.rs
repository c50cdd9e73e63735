//! Assembles syllables into words and words into phrases.
use vstd::prelude::*;
use super::syllable::{Kind, Syllable, SyllableView};
use super::{Part, Phrase, PhraseView, Word, WordView, MINIM};
use crate::lemma_views_push;
use crate::text::{chars_of, is_ascii_upper, is_upper, string_of};
use crate::views;

verus! {

/// Where the first space of the text stands; its length where it has none.
pub open spec fn first_space(text: Seq<char>) -> int
    decreases text.len(),
{
    if text.len() == 0 || text[0] == ' ' {
        0
    } else {
        1 + first_space(text.skip(1))
    }
}

/// How many spaces the text has.
pub open spec fn spaces(text: Seq<char>) -> nat
    decreases text.len(),
{
    if text.len() == 0 {
        0
    } else {
        spaces(text.skip(1)) + if text[0] == ' ' { 1nat } else { 0nat }
    }
}

/// The ticks at which the parts of the word are set, one tick apart for
/// each space in it, are ticks that the machine can count.
pub open spec fn word_fits(word: WordView) -> bool {
    word.start + spaces(word.text) <= usize::MAX
}

/// Whether a word starts with a capital letter, after an apostrophe or
/// without one.
pub open spec fn capital(text: Seq<char>) -> bool {
    text.len() > 0 && (is_upper(text[0]) || (text[0] == '\'' && text.len() > 1 && is_upper(
        text[1],
    )))
}

pub open spec fn no_phrase() -> PhraseView {
    PhraseView { start: 0, end: 0, words: Seq::empty() }
}

/// The word that a syllable starts.
pub open spec fn started(syllable: SyllableView) -> WordView {
    WordView { start: syllable.start, end: syllable.end, text: syllable.text }
}

/// The state of the assembler: the phrases that are closed, the phrase that
/// is open, the word that is begun, and whether a group in square brackets
/// is open.
pub struct BuilderView {
    pub phrases: Seq<PhraseView>,
    pub phrase: PhraseView,
    pub word: Option<WordView>,
    pub in_group: bool,
}

impl BuilderView {
    pub open spec fn new() -> BuilderView {
        BuilderView { phrases: Seq::empty(), phrase: no_phrase(), word: None, in_group: false }
    }

    /// The word that is begun can be set.
    pub open spec fn wf(self) -> bool {
        self.word is Some ==> word_fits(self.word->0)
    }

    /// Whether a word opens a new phrase: outside a group, a word that
    /// starts a group, a capital after a rest, or any word after a rest of
    /// a minim.
    pub open spec fn opens(self, word: WordView) -> bool {
        !self.in_group && ((word.text.len() > 0 && word.text[0] == '[') || (capital(word.text)
            && word.start > self.phrase.end) || word.start >= self.phrase.end + MINIM)
    }

    /// Whether a word closes its phrase: inside a group the word that ends
    /// the group, outside a group a word that ends a sentence.
    pub open spec fn closes(self, word: WordView) -> bool {
        word.text.len() > 0 && if self.in_group {
            word.text.last() == ']'
        } else {
            word.text.last() == '.' || word.text.last() == '!'
        }
    }

    /// Takes a word without spaces into the phrases.
    pub open spec fn word_single(self, word: WordView) -> BuilderView {
        let opened = self.phrase.words.len() > 0 && self.opens(word);
        let phrases = if opened {
            self.phrases.push(self.phrase)
        } else {
            self.phrases
        };
        let phrase = if opened || self.phrase.words.len() == 0 {
            PhraseView { start: word.start, end: word.end, words: seq![word] }
        } else {
            PhraseView {
                start: self.phrase.start,
                end: word.end,
                words: self.phrase.words.push(word),
            }
        };
        let in_group = if word.text.len() > 0 && word.text[0] == '[' {
            true
        } else if word.text.len() > 0 && word.text.last() == ']' {
            false
        } else {
            self.in_group
        };
        if self.closes(word) {
            BuilderView {
                phrases: phrases.push(phrase),
                phrase: if opened || self.phrase.words.len() > 0 {
                    no_phrase()
                } else {
                    self.phrase
                },
                in_group,
                ..self
            }
        } else {
            BuilderView { phrases, phrase, in_group, ..self }
        }
    }

    /// Takes a word into the phrases. A word with spaces in it is taken as
    /// the words between the spaces: each but the last one tick long, each
    /// one tick after the one before.
    pub open spec fn word(self, word: WordView) -> BuilderView
        decreases word.text.len(),
    {
        let at = first_space(word.text);
        if at < 0 || at >= word.text.len() {
            self.word_single(word)
        } else {
            self.word_single(
                WordView {
                    start: word.start,
                    end: (word.start + 1) as usize,
                    text: word.text.take(at),
                },
            ).word(
                WordView {
                    start: (word.start + 1) as usize,
                    end: word.end,
                    text: word.text.skip(at + 1),
                },
            )
        }
    }

    /// The word that is begun once the syllable has joined it; the word
    /// that the syllable starts where it starts one or none is begun.
    pub open spec fn next_word(self, syllable: SyllableView) -> WordView {
        match self.word {
            Some(word) if syllable.kind is Middle || syllable.kind is End => WordView {
                start: word.start,
                end: syllable.end,
                text: word.text + syllable.text,
            },
            _ => started(syllable),
        }
    }

    /// The assembler with the word that is begun taken into the phrases.
    pub open spec fn flushed(self) -> BuilderView {
        match self.word {
            Some(word) => (BuilderView { word: None, ..self }).word(word),
            None => self,
        }
    }

    /// Takes a syllable. A single syllable is a word; a first syllable
    /// begins one; both end a word that was begun. A middle syllable joins
    /// the word that is begun, a last syllable ends it; where none is begun
    /// they begin one.
    pub open spec fn syllable(self, syllable: SyllableView) -> BuilderView {
        match syllable.kind {
            Kind::Single => self.flushed().word(started(syllable)),
            Kind::Begin => BuilderView { word: Some(started(syllable)), ..self.flushed() },
            Kind::Middle => BuilderView { word: Some(self.next_word(syllable)), ..self },
            Kind::End => (BuilderView { word: None, ..self }).word(self.next_word(syllable)),
        }
    }

    /// The phrases once the word that is begun and the phrase that is open
    /// are closed.
    pub open spec fn build(self) -> Seq<PhraseView> {
        let flushed = self.flushed();
        if flushed.phrase.words.len() > 0 {
            flushed.phrases.push(flushed.phrase)
        } else {
            flushed.phrases
        }
    }
}

pub struct Builder {
    phrases: Vec<Phrase>,
    phrase: Phrase,
    word: Option<Word>,
    in_group: bool,
}

impl View for Builder {
    type V = BuilderView;

    closed spec fn view(&self) -> BuilderView {
        BuilderView {
            phrases: views(self.phrases@),
            phrase: self.phrase@,
            word: match self.word {
                Some(word) => Some(word@),
                None => None,
            },
            in_group: self.in_group,
        }
    }
}

/// Whether a word starts with a capital letter, after an apostrophe or
/// without one.
pub fn is_capital(text: &Vec<char>) -> (b: bool)
    ensures
        b == capital(text@),
{
    if text.len() == 0 {
        return false;
    }
    if is_ascii_upper(text[0]) {
        return true;
    }
    text[0] == '\'' && text.len() > 1 && is_ascii_upper(text[1])
}

/// How many spaces the characters from `from` on have.
fn count_spaces(text: &Vec<char>, from: usize) -> (count: usize)
    requires
        from <= text.len(),
    ensures
        count == spaces(text@.skip(from as int)),
{
    let mut count: usize = 0;
    let mut k: usize = text.len();
    assert(text@.skip(k as int) =~= Seq::<char>::empty());
    while k > from
        invariant
            from <= k <= text.len(),
            count == spaces(text@.skip(k as int)),
            count <= text.len() - k,
        decreases k,
    {
        k -= 1;
        assert(text@.skip(k as int).skip(1) =~= text@.skip(k + 1));
        if text[k] == ' ' {
            count += 1;
        }
    }
    count
}

impl Builder {
    pub fn new() -> (builder: Builder)
        ensures
            builder@ == BuilderView::new(),
            builder@.wf(),
    {
        let builder = Builder {
            phrases: Vec::new(),
            phrase: Phrase { start: 0, end: 0, words: Vec::new() },
            word: None,
            in_group: false,
        };
        assert(builder@.phrases =~= Seq::empty());
        assert(builder@.phrase.words =~= Seq::empty());
        builder
    }

    /// Whether the syllable can be taken: whether the ticks at which the
    /// word it joins or starts would be set can be counted.
    pub fn accepts(&self, syllable: &Syllable) -> (fits: bool)
        ensures
            fits == word_fits(self@.next_word(syllable@)),
    {
        let joins = matches!(syllable.kind, Kind::Middle | Kind::End);
        let mut text: Vec<char> = Vec::new();
        let mut start = syllable.start;
        if joins {
            match &self.word {
                Some(word) => {
                    text = chars_of(word.text.as_str());
                    start = word.start;
                },
                None => {},
            }
        }
        let ghost begun = text@;
        let more = chars_of(syllable.text);
        let mut k: usize = 0;
        while k < more.len()
            invariant
                k <= more.len(),
                text@ == begun + more@.take(k as int),
            decreases more.len() - k,
        {
            text.push(more[k]);
            assert(more@.take(k + 1) =~= more@.take(k as int).push(more@[k as int]));
            k += 1;
        }
        assert(more@.take(more.len() as int) =~= more@);
        assert(text@ =~= self@.next_word(syllable@).text);
        assert(text@.skip(0) =~= text@);
        let count = count_spaces(&text, 0);
        start.checked_add(count).is_some()
    }

    /// Takes a syllable.
    pub fn syllable(&mut self, syllable: Syllable)
        requires
            old(self)@.wf(),
            word_fits(old(self)@.next_word(syllable@)),
        ensures
            final(self)@.wf(),
            final(self)@ == old(self)@.syllable(syllable@),
    {
        let text = string_of(&chars_of(syllable.text), 0, syllable.text.unicode_len());
        assert(text@ =~= syllable.text@);
        match syllable.kind {
            Kind::Single => {
                self.flush();
                self.word(Word { start: syllable.start, end: syllable.end, text });
            },
            Kind::Begin => {
                self.flush();
                self.word = Some(Word { start: syllable.start, end: syllable.end, text });
            },
            Kind::Middle => {
                let word = match self.word.take() {
                    Some(word) => Word {
                        start: word.start,
                        end: syllable.end,
                        text: word.text.concat(syllable.text),
                    },
                    None => Word { start: syllable.start, end: syllable.end, text },
                };
                self.word = Some(word);
            },
            Kind::End => {
                let word = match self.word.take() {
                    Some(word) => Word {
                        start: word.start,
                        end: syllable.end,
                        text: word.text.concat(syllable.text),
                    },
                    None => Word { start: syllable.start, end: syllable.end, text },
                };
                self.word(word);
            },
        }
    }

    /// Takes the word that is begun into the phrases.
    fn flush(&mut self)
        requires
            old(self)@.wf(),
        ensures
            final(self)@ == old(self)@.flushed(),
            final(self)@.word is None,
    {
        match self.word.take() {
            Some(word) => {
                self.word(word);
            },
            None => {},
        }
    }

    /// Takes a word into the phrases, split at its spaces.
    fn word(&mut self, word: Word)
        requires
            old(self)@.word is None,
            word_fits(word@),
        ensures
            final(self)@ == old(self)@.word(word@),
            final(self)@.word is None,
    {
        let chars = chars_of(word.text.as_str());
        let mut start: usize = word.start;
        let mut from: usize = 0;
        assert(chars@.skip(0) =~= chars@);
        loop
            invariant_except_break
                from <= chars.len(),
                chars@ == word@.text,
                self@.word is None,
                start + spaces(chars@.skip(from as int)) <= usize::MAX,
                self@.word(
                    WordView { start, end: word.end, text: chars@.skip(from as int) },
                ) == old(self)@.word(word@),
            ensures
                from <= chars.len(),
                self@.word is None,
                first_space(chars@.skip(from as int)) >= chars.len() - from,
                self@.word(
                    WordView { start, end: word.end, text: chars@.skip(from as int) },
                ) == old(self)@.word(word@),
            decreases chars.len() - from,
        {
            let mut at: usize = from;
            while at < chars.len() && chars[at] != ' '
                invariant
                    from <= at <= chars.len(),
                    first_space(chars@.skip(from as int)) == (at - from) + first_space(
                        chars@.skip(at as int),
                    ),
                    spaces(chars@.skip(from as int)) == spaces(chars@.skip(at as int)),
                decreases chars.len() - at,
            {
                assert(chars@.skip(at as int).skip(1) =~= chars@.skip(at + 1));
                at += 1;
            }
            if at >= chars.len() {
                break ;
            }
            proof {
                assert(chars@.skip(at as int).skip(1) =~= chars@.skip(at + 1));
                assert(chars@.skip(from as int).take(at - from) =~= chars@.subrange(
                    from as int,
                    at as int,
                ));
                assert(chars@.skip(from as int).skip(at - from + 1) =~= chars@.skip(at + 1));
            }
            let part = Word { start, end: start + 1, text: string_of(&chars, from, at) };
            self.word_single(part);
            start += 1;
            from = at + 1;
        }
        let last = Word { start, end: word.end, text: string_of(&chars, from, chars.len()) };
        assert(last@.text =~= chars@.skip(from as int));
        self.word_single(last);
    }

    /// Takes a word without spaces into the phrases.
    fn word_single(&mut self, word: Word)
        ensures
            final(self)@ == old(self)@.word_single(word@),
    {
        let text = chars_of(word.text.as_str());
        let group_start = text.len() > 0 && text[0] == '[';
        let group_end = text.len() > 0 && text[text.len() - 1] == ']';
        let is_end = text.len() > 0 && if self.in_group {
            group_end
        } else {
            text[text.len() - 1] == '.' || text[text.len() - 1] == '!'
        };
        let opens = self.phrase.words.len() > 0 && !self.in_group && (group_start || (is_capital(
            &text,
        ) && word.start > self.phrase.end) || (word.start >= self.phrase.end && word.start
            - self.phrase.end >= MINIM));
        assert(opens == (old(self)@.phrase.words.len() > 0 && old(self)@.opens(word@)));
        assert(is_end == old(self)@.closes(word@));
        if opens {
            let mut phrase = Phrase { start: 0, end: 0, words: Vec::new() };
            assert(phrase@.words =~= Seq::empty());
            std::mem::swap(&mut self.phrase, &mut phrase);
            proof {
                lemma_views_push(self.phrases@, phrase);
            }
            self.phrases.push(phrase);
        }
        let start = word.start;
        let end = word.end;
        proof {
            lemma_views_push(self.phrase.words@, word);
        }
        if self.phrase.words.len() == 0 {
            if is_end {
                let mut words: Vec<Word> = Vec::new();
                proof {
                    lemma_views_push(words@, word);
                    assert(views(words@) =~= Seq::empty());
                }
                words.push(word);
                let phrase = Phrase { start, end, words };
                assert(phrase@.words =~= seq![word@]);
                proof {
                    lemma_views_push(self.phrases@, phrase);
                }
                self.phrases.push(phrase);
            } else {
                self.phrase.start = start;
                self.phrase.end = end;
                self.phrase.words.push(word);
                assert(self.phrase@.words =~= seq![word@]);
            }
        } else {
            self.phrase.end = end;
            self.phrase.words.push(word);
            if is_end {
                let mut phrase = Phrase { start: 0, end: 0, words: Vec::new() };
                assert(phrase@.words =~= Seq::empty());
                std::mem::swap(&mut self.phrase, &mut phrase);
                proof {
                    lemma_views_push(self.phrases@, phrase);
                }
                self.phrases.push(phrase);
            }
        }
        if group_start {
            self.in_group = true;
        } else if group_end {
            self.in_group = false;
        }
    }

    /// Closes what is open and gives the phrases.
    pub fn build(self) -> (part: Part)
        requires
            self@.wf(),
        ensures
            part@ == self@.build(),
    {
        let mut builder = self;
        builder.flush();
        if builder.phrase.words.len() > 0 {
            proof {
                lemma_views_push(builder.phrases@, builder.phrase);
            }
            builder.phrases.push(builder.phrase);
        }
        Part { phrases: builder.phrases }
    }
}

} // verus!
