use lyric_check::diff::{
    diff_by, diff_script, diff_word, diff_word_by, fits_table, key, music_words, script_words,
    Builder, Side,
};
use lyric_check::script::Word;
use lyric_check::{single_letter, Diff, Line, Replace, Section};

fn same(text: &str) -> Diff {
    Diff::Same(String::from(text))
}

fn replace(script: &str, music: &str) -> Diff {
    Diff::Replace(Replace { script: String::from(script), music: String::from(music) })
}

fn words(texts: &[&str]) -> Vec<Word> {
    texts.iter().map(|text| Word::Word(String::from(*text))).collect()
}

fn one_line(number: &str, diffs: Vec<Diff>) -> Vec<Section> {
    vec![Section {
        heading: String::new(),
        lines: vec![Line { number: String::from(number), diffs }],
    }]
}

#[test]
fn test_key_drops_case_and_punctuation() {
    assert_eq!(key("Hello,"), "hello");
    assert_eq!(key("hello"), "hello");
    assert_eq!(key("Hello,"), key("hello"));
    assert_eq!(key("don't"), "dont");
    assert_eq!(key("R2-D2"), "rd");
}

#[test]
fn test_key_of_text_without_letters() {
    assert_eq!(key("..."), "...");
    assert_eq!(key("42"), "42");
    assert_eq!(key(""), "");
    assert_eq!(key("\u{e9}"), "\u{e9}");
}

#[test]
fn test_single_letter() {
    assert_eq!(single_letter("A"), Some('a'));
    assert_eq!(single_letter("a"), Some('a'));
    assert_eq!(single_letter("!"), Some('!'));
    assert_eq!(single_letter(""), None);
    assert_eq!(single_letter("ab"), None);
}

#[test]
fn test_replace_to_diff() {
    let case = Replace { script: String::from("c"), music: String::from("C") };
    assert_eq!(case.to_diff(), Diff::Case(String::from("c")));
    assert_eq!(
        Replace { script: String::from("c"), music: String::from("d") }.to_diff(),
        replace("c", "d"),
    );
    assert_eq!(
        Replace { script: String::from("cat"), music: String::from("dog") }.to_diff(),
        replace("cat", "dog"),
    );
    assert_eq!(
        Replace { script: String::new(), music: String::from("r") }.to_diff(),
        replace("", "r"),
    );
}

#[test]
fn test_diff_word_same() {
    let mut diffs = Vec::new();
    diff_word(&mut diffs, "cat", "cat");
    assert_eq!(diffs, vec![same("cat")]);
}

#[test]
fn test_diff_word_case() {
    let mut diffs = Vec::new();
    diff_word(&mut diffs, "cat", "Cat");
    assert_eq!(diffs, vec![Diff::Case(String::from("c")), same("at")]);
}

#[test]
fn test_diff_word_replace() {
    let mut diffs = Vec::new();
    diff_word(&mut diffs, "cat", "dog");
    assert_eq!(diffs, vec![replace("cat", "dog")]);
}

#[test]
fn test_diff_word_appends() {
    let mut diffs = vec![same("the")];
    diff_word(&mut diffs, "cat", "cart");
    assert_eq!(diffs, vec![same("the"), same("ca"), replace("", "r"), same("t")]);
}

#[test]
fn test_diff_word_only_one_side_at_the_end() {
    let mut diffs = Vec::new();
    diff_word(&mut diffs, "cats", "cat");
    assert_eq!(diffs, vec![same("cat"), Diff::Script(String::from("s"))]);
    let mut diffs = Vec::new();
    diff_word(&mut diffs, "cat", "cat,");
    assert_eq!(diffs, vec![same("cat"), Diff::Music(String::from(","))]);
}

#[test]
fn test_diff_word_case_at_the_end() {
    let mut diffs = Vec::new();
    diff_word(&mut diffs, "caT", "cat");
    assert_eq!(diffs, vec![same("ca"), Diff::Case(String::from("T"))]);
}

#[test]
fn test_diff_word_by_given_alignment() {
    let mut diffs = Vec::new();
    let ops = vec![Side::Both, Side::Left, Side::Left, Side::Right, Side::Both];
    diff_word_by(&mut diffs, "abcd", "axd", &ops);
    assert_eq!(diffs, vec![same("a"), replace("bc", "x"), same("d")]);
    // another alignment of the same words gives other findings
    let mut diffs = Vec::new();
    let ops = vec![Side::Both, Side::Right, Side::Left, Side::Left, Side::Both];
    diff_word_by(&mut diffs, "abcd", "axd", &ops);
    assert_eq!(diffs, vec![same("a"), replace("bc", "x"), same("d")]);
    let mut diffs = Vec::new();
    let ops = vec![Side::Left, Side::Left, Side::Left, Side::Left, Side::Right, Side::Right, Side::Right];
    diff_word_by(&mut diffs, "abcd", "axd", &ops);
    assert_eq!(diffs, vec![replace("abcd", "axd")]);
}

#[test]
fn test_fits_table() {
    assert!(fits_table(0, 0));
    assert!(fits_table(1000, 1000));
    assert!(!fits_table(usize::MAX, 0));
    assert!(!fits_table(usize::MAX / 2, usize::MAX / 2));
}

#[test]
fn test_keys_of_tokens() {
    let script = vec![
        Word::Heading(String::from("Verse")),
        Word::Line(String::from("1")),
        Word::Word(String::from("Hello,")),
    ];
    assert_eq!(script_words(&script), vec!["@HEADING@", "@LINE@", "hello"]);
    assert_eq!(music_words(&vec!["Hel-lo", "!"]), vec!["hello", "!"]);
}

#[test]
fn test_identical_words_are_all_same() {
    let texts = vec!["Amazing", "grace", "how", "sweet", "the", "sound"];
    let script = words(&texts);
    let sections = diff_script(&script, &texts).unwrap();
    assert_eq!(
        sections,
        one_line("", texts.iter().map(|text| same(text)).collect()),
    );
}

#[test]
fn test_nothing_to_compare() {
    let script: Vec<Word> = Vec::new();
    let music: Vec<&str> = Vec::new();
    assert_eq!(diff_script(&script, &music).unwrap(), Vec::new());
}

#[test]
fn test_words_differ_in_punctuation_only() {
    let script = words(&["Hello,", "world"]);
    let music = vec!["hello", "world!"];
    let sections = diff_script(&script, &music).unwrap();
    assert_eq!(
        sections,
        one_line(
            "",
            vec![
                Diff::Case(String::from("H")),
                same("ello"),
                Diff::Script(String::from(",")),
                same("world"),
                Diff::Music(String::from("!")),
            ],
        ),
    );
}

#[test]
fn test_sections_and_lines() {
    let script = vec![
        Word::Heading(String::from("Chorus")),
        Word::Line(String::from("1")),
        Word::Word(String::from("la")),
        Word::Word(String::from("la")),
        Word::Line(String::from("2")),
        Word::Word(String::from("di")),
        Word::Heading(String::from("End")),
    ];
    let music = vec!["la", "la", "di"];
    let sections = diff_script(&script, &music).unwrap();
    assert_eq!(
        sections,
        vec![
            Section {
                heading: String::from("Chorus"),
                lines: vec![
                    Line { number: String::from("1"), diffs: vec![same("la"), same("la")] },
                    Line { number: String::from("2"), diffs: vec![same("di")] },
                ],
            },
            Section { heading: String::from("End"), lines: Vec::new() },
        ],
    );
}

#[test]
fn test_words_of_one_side_only() {
    let script = words(&["one", "two", "three", "four"]);
    let music = vec!["one", "four", "five", "six"];
    let sections = diff_script(&script, &music).unwrap();
    assert_eq!(
        sections,
        one_line(
            "",
            vec![
                same("one"),
                Diff::Script(String::from("two three")),
                same("four"),
                Diff::Music(String::from("five six")),
            ],
        ),
    );
}

#[test]
fn test_one_word_in_place_of_another() {
    let script = words(&["the", "cat", "sat"]);
    let music = vec!["the", "dog", "sat"];
    let sections = diff_script(&script, &music).unwrap();
    assert_eq!(
        sections,
        one_line("", vec![same("the"), replace("cat", "dog"), same("sat")]),
    );
}

#[test]
fn test_words_in_place_of_others() {
    let script = words(&["the", "big", "cat", "sat"]);
    let music = vec!["the", "dog", "sat"];
    let sections = diff_script(&script, &music).unwrap();
    assert_eq!(
        sections,
        one_line("", vec![same("the"), replace("big cat", "dog"), same("sat")]),
    );
}

#[test]
fn test_diff_by_given_alignment() {
    let script = vec![
        Word::Line(String::from("1")),
        Word::Word(String::from("a")),
        Word::Word(String::from("b")),
    ];
    let music = vec!["a", "c"];
    let ops = vec![Side::Left, Side::Both, Side::Left, Side::Right];
    assert_eq!(
        diff_by(&script, &music, &ops),
        one_line("1", vec![same("a"), replace("b", "c")]),
    );
    // one unpaired word on each side is compared as a pair
    let ops = vec![Side::Left, Side::Left, Side::Right, Side::Both];
    assert_eq!(
        diff_by(&script, &music, &ops),
        one_line("1", vec![same("a"), replace("b", "c")]),
    );
}

#[test]
fn test_builder_by_hand() {
    let mut builder = Builder::new();
    builder.script("lonely");
    builder.line(String::from("1"));
    builder.same("Hello", "Hello");
    builder.music("there");
    builder.music("you");
    builder.heading(String::from("Two"));
    builder.script("a");
    builder.script("b");
    builder.music("c");
    let sections = builder.build();
    assert_eq!(
        sections,
        vec![
            Section {
                heading: String::new(),
                lines: vec![
                    Line { number: String::new(), diffs: vec![Diff::Script(String::from("lonely"))] },
                    Line {
                        number: String::from("1"),
                        diffs: vec![same("Hello"), Diff::Music(String::from("there you"))],
                    },
                ],
            },
            Section {
                heading: String::from("Two"),
                lines: vec![Line { number: String::new(), diffs: vec![replace("a b", "c")] }],
            },
        ],
    );
}
