use lyric_check::music::syllable::{Kind, Syllable};
use lyric_check::music::word::{is_capital, Builder};
use lyric_check::music::{Part, Phrase, Word};

fn syllable(start: usize, end: usize, kind: Kind, text: &str) -> Syllable<'_> {
    Syllable { start, end, kind, text }
}

fn word(start: usize, end: usize, text: &str) -> Word {
    Word { start, end, text: String::from(text) }
}

fn phrase(words: Vec<Word>) -> Phrase {
    Phrase { start: words[0].start, end: words[words.len() - 1].end, words }
}

fn build(syllables: &[Syllable]) -> Vec<Phrase> {
    let mut builder = Builder::new();
    for syllable in syllables {
        assert!(builder.accepts(syllable));
        builder.syllable(*syllable);
    }
    builder.build().phrases
}

#[test]
fn test_no_syllables() {
    assert_eq!(Builder::new().build(), Part { phrases: Vec::new() });
}

#[test]
fn test_syllables_make_words() {
    let phrases = build(&[
        syllable(0, 256, Kind::Single, "A"),
        syllable(256, 512, Kind::Begin, "ma"),
        syllable(512, 768, Kind::Middle, "zing"),
        syllable(768, 900, Kind::End, "ly"),
        syllable(900, 1024, Kind::Single, "so"),
    ]);
    assert_eq!(
        phrases,
        vec![phrase(vec![word(0, 256, "A"), word(256, 900, "mazingly"), word(900, 1024, "so")])],
    );
}

#[test]
fn test_word_without_its_first_syllable() {
    let phrases = build(&[
        syllable(0, 100, Kind::Middle, "zing"),
        syllable(100, 200, Kind::End, "ly"),
        syllable(200, 300, Kind::End, "alone"),
    ]);
    assert_eq!(phrases, vec![phrase(vec![word(0, 200, "zingly"), word(200, 300, "alone")])]);
}

#[test]
fn test_word_that_never_ends() {
    let phrases = build(&[
        syllable(0, 100, Kind::Begin, "be"),
        syllable(100, 200, Kind::Begin, "gin"),
        syllable(200, 300, Kind::Middle, "ning"),
    ]);
    assert_eq!(phrases, vec![phrase(vec![word(0, 100, "be"), word(100, 300, "ginning")])]);
}

#[test]
fn test_word_with_spaces() {
    let phrases = build(&[syllable(1000, 2000, Kind::Single, "all of me")]);
    assert_eq!(
        phrases,
        vec![Phrase {
            start: 1000,
            end: 2000,
            words: vec![word(1000, 1001, "all"), word(1001, 1002, "of"), word(1002, 2000, "me")],
        }],
    );
}

#[test]
fn test_sentence_ends_phrase() {
    let phrases = build(&[
        syllable(0, 100, Kind::Single, "Stop."),
        syllable(100, 200, Kind::Single, "go"),
        syllable(200, 300, Kind::Single, "on!"),
        syllable(300, 400, Kind::Single, "now"),
    ]);
    assert_eq!(
        phrases,
        vec![
            phrase(vec![word(0, 100, "Stop.")]),
            phrase(vec![word(100, 200, "go"), word(200, 300, "on!")]),
            phrase(vec![word(300, 400, "now")]),
        ],
    );
}

#[test]
fn test_capital_after_rest_starts_phrase() {
    let phrases = build(&[
        syllable(0, 100, Kind::Single, "one"),
        syllable(100, 200, Kind::Single, "Two"),
        syllable(201, 300, Kind::Single, "Three"),
        syllable(301, 400, Kind::Single, "'Four"),
        syllable(401, 500, Kind::Single, "five"),
    ]);
    assert_eq!(
        phrases,
        vec![
            phrase(vec![word(0, 100, "one"), word(100, 200, "Two")]),
            phrase(vec![word(201, 300, "Three")]),
            phrase(vec![word(301, 400, "'Four"), word(401, 500, "five")]),
        ],
    );
}

#[test]
fn test_minim_rest_starts_phrase() {
    let phrases = build(&[
        syllable(0, 100, Kind::Single, "one"),
        syllable(611, 700, Kind::Single, "two"),
        syllable(1212, 1300, Kind::Single, "three"),
    ]);
    assert_eq!(
        phrases,
        vec![
            phrase(vec![word(0, 100, "one"), word(611, 700, "two")]),
            phrase(vec![word(1212, 1300, "three")]),
        ],
    );
}

#[test]
fn test_group_in_brackets() {
    let phrases = build(&[
        syllable(0, 100, Kind::Single, "sing"),
        syllable(100, 200, Kind::Single, "[oh"),
        syllable(200, 300, Kind::Single, "Yeah."),
        syllable(1000, 1100, Kind::Single, "yeah]"),
        syllable(1100, 1200, Kind::Single, "on"),
    ]);
    assert_eq!(
        phrases,
        vec![
            phrase(vec![word(0, 100, "sing")]),
            phrase(vec![word(100, 200, "[oh"), word(200, 300, "Yeah."), word(1000, 1100, "yeah]")]),
            phrase(vec![word(1100, 1200, "on")]),
        ],
    );
}

#[test]
fn test_is_capital() {
    let chars = |text: &str| text.chars().collect::<Vec<char>>();
    assert!(is_capital(&chars("Hello")));
    assert!(is_capital(&chars("'Tis")));
    assert!(!is_capital(&chars("hello")));
    assert!(!is_capital(&chars("'tis")));
    assert!(!is_capital(&chars("'")));
    assert!(!is_capital(&chars("")));
    assert!(!is_capital(&chars("\u{c9}t\u{e9}")));
}

#[test]
fn test_ticks_that_cannot_be_counted() {
    let builder = Builder::new();
    assert!(!builder.accepts(&syllable(usize::MAX, usize::MAX, Kind::Single, "a b")));
    assert!(builder.accepts(&syllable(usize::MAX - 1, usize::MAX, Kind::Single, "a b")));
    assert!(builder.accepts(&syllable(usize::MAX, usize::MAX, Kind::Single, "ab")));
}
