use lyric_check::diff;
use lyric_check::error::Failure;
use lyric_check::music::xml::{number, Attribute, Document, XmlNode};
use lyric_check::music::{read, read_document, Music, Part, Phrase, Word};
use lyric_check::{Diff, Line, Section};

fn word(start: usize, end: usize, text: &str) -> Word {
    Word { start, end, text: String::from(text) }
}

fn phrase(words: Vec<Word>) -> Phrase {
    Phrase { start: words[0].start, end: words[words.len() - 1].end, words }
}

fn note(ticks: usize, lyric: &str) -> String {
    format!("<note><pitch/><duration>{ticks}</duration><voice>1</voice>{lyric}</note>")
}

fn lyric(verse: usize, kind: &str, text: &str) -> String {
    format!(
        "<lyric number=\"part1verse{verse}\"><syllabic>{kind}</syllabic><text>{text}</text></lyric>"
    )
}

fn score(parts: &[String]) -> String {
    let parts: Vec<String> = parts
        .iter()
        .map(|measures| format!("<part id=\"P\">{measures}</part>"))
        .collect();
    format!(
        "<?xml version=\"1.0\"?><score-partwise><work><work-title>Song</work-title></work>{}</score-partwise>",
        parts.join("")
    )
}

fn invalid(element: &str, name: &str, value: &str) -> Failure {
    Failure::Invalid {
        element: String::from(element),
        name: String::from(name),
        value: String::from(value),
    }
}

#[test]
fn test_read_one_part() {
    let xml = score(&[format!(
        "<measure number=\"1\"><attributes/>{}{}{}</measure><measure number=\"2\"><print/>{}{}</measure>",
        note(256, &lyric(1, "single", "Hello")),
        note(256, &lyric(1, "begin", "wor")),
        note(512, &lyric(1, "end", "ld.")),
        note(512, ""),
        note(512, &lyric(1, "single", "Bye")),
    )]);
    let music = read(&xml).unwrap().unwrap();
    assert_eq!(
        music,
        Music {
            title: Some(String::from("Song")),
            phrases: vec![
                phrase(vec![word(0, 256, "Hello"), word(256, 1024, "world.")]),
                phrase(vec![word(1536, 2048, "Bye")]),
            ],
        },
    );
}

#[test]
fn test_read_score_without_lyrics() {
    let xml = score(&[format!("<measure number=\"1\">{}</measure>", note(256, ""))]);
    assert_eq!(read(&xml), Ok(None));
}

#[test]
fn test_read_repeat_with_two_verses() {
    let both = format!("{}{}", lyric(1, "single", "one"), lyric(2, "single", "two"));
    let xml = score(&[format!(
        "<measure number=\"5\"><barline location=\"left\"><repeat direction=\"forward\"/></barline>{}{}<barline location=\"right\"><repeat direction=\"backward\"/></barline></measure>",
        note(256, &both),
        note(256, &lyric(1, "single", "all")),
    )]);
    let music = read(&xml).unwrap().unwrap();
    assert_eq!(
        music.phrases,
        vec![phrase(vec![
            word(0, 256, "one"),
            word(256, 512, "all"),
            word(512, 768, "two"),
            word(768, 1024, "all"),
        ])],
    );
}

#[test]
fn test_read_endings() {
    let first = "<barline location=\"left\"><ending number=\"1\" type=\"start\"/></barline>";
    let first_end = "<barline location=\"right\"><ending number=\"1\" type=\"stop\"/><repeat direction=\"backward\"/></barline>";
    let second = "<barline location=\"left\"><ending number=\"2\" type=\"start\"/></barline>";
    let second_end = "<barline location=\"right\"><ending number=\"2\" type=\"discontinue\"/></barline>";
    let xml = score(&[format!(
        "<measure number=\"1\"><barline location=\"left\"><repeat direction=\"forward\"/></barline>{}</measure><measure number=\"2\">{first}{}{first_end}</measure><measure number=\"3\">{second}{}{second_end}</measure>",
        note(100, &lyric(1, "single", "la")),
        note(100, &lyric(1, "single", "di")),
        note(100, &lyric(1, "single", "da.")),
    )]);
    let music = read(&xml).unwrap().unwrap();
    assert_eq!(
        music.phrases,
        vec![phrase(vec![
            word(0, 100, "la"),
            word(100, 200, "di"),
            word(200, 300, "la"),
            word(300, 400, "da."),
        ])],
    );
}

#[test]
fn test_read_chords_graces_and_backup() {
    let chord = "<note><chord/><duration>256</duration><voice>1</voice></note>";
    let grace = "<note><grace/><voice>1</voice></note>";
    let xml = score(&[format!(
        "<measure number=\"1\">{}{chord}{grace}<backup><duration>256</duration></backup><forward><duration>128</duration></forward>{}</measure>",
        note(256, &lyric(1, "single", "a")),
        note(256, &lyric(1, "single", "b")),
    )]);
    let music = read(&xml).unwrap().unwrap();
    assert_eq!(music.phrases, vec![phrase(vec![word(0, 256, "a"), word(128, 384, "b")])]);
}

#[test]
fn test_read_two_parts_merged() {
    let first = format!(
        "<measure number=\"1\">{}{}</measure>",
        note(1000, &lyric(1, "single", "Refrain.")),
        note(1000, &lyric(1, "single", "Low.")),
    );
    let second = format!(
        "<measure number=\"1\">{}{}{}</measure>",
        note(1000, &lyric(1, "single", "Refrain.")),
        note(500, &lyric(1, "single", "High.")),
        note(500, &lyric(1, "single", "End.")),
    );
    let music = read(&score(&[first, second])).unwrap().unwrap();
    // the refrain is taken once; a phrase goes before another only where
    // it both starts and ends earlier
    assert_eq!(
        music.phrases,
        vec![
            phrase(vec![word(0, 1000, "Refrain.")]),
            phrase(vec![word(1000, 2000, "Low.")]),
            phrase(vec![word(1000, 1500, "High.")]),
            phrase(vec![word(1500, 2000, "End.")]),
        ],
    );
}

#[test]
fn test_merge() {
    let mut part = Part {
        phrases: vec![phrase(vec![word(0, 10, "a")]), phrase(vec![word(20, 30, "c")])],
    };
    // an equal phrase is found, not taken twice
    assert_eq!(part.merge(phrase(vec![word(20, 30, "c")]), 0), 1);
    assert_eq!(part.phrases.len(), 2);
    // an earlier phrase comes before the first that starts and ends later
    assert_eq!(part.merge(phrase(vec![word(12, 18, "b")]), 0), 2);
    assert_eq!(
        part.phrases,
        vec![
            phrase(vec![word(0, 10, "a")]),
            phrase(vec![word(12, 18, "b")]),
            phrase(vec![word(20, 30, "c")]),
        ],
    );
    // phrases before `from` are not looked at
    assert_eq!(part.merge(phrase(vec![word(0, 10, "a")]), 1), 2);
    assert_eq!(part.phrases.len(), 4);
    // a phrase that fits nowhere goes to the end
    assert_eq!(part.merge(phrase(vec![word(40, 50, "d")]), 0), 5);
    assert_eq!(part.phrases[4], phrase(vec![word(40, 50, "d")]));
}

#[test]
fn test_read_not_xml() {
    match read("this is no score") {
        Err(Failure::Xml { message }) => assert!(!message.is_empty()),
        other => panic!("{other:?}"),
    }
    assert!(matches!(read("<a><b></a>"), Err(Failure::Xml { .. })));
}

#[test]
fn test_read_wrong_root() {
    assert_eq!(
        read("<score-timewise/>"),
        Err(Failure::Unexpected { parent: String::new(), found: String::from("score-timewise") }),
    );
}

#[test]
fn test_read_no_parts() {
    assert_eq!(read("<score-partwise><part-list/></score-partwise>"), Err(Failure::NoParts));
}

#[test]
fn test_read_no_bars() {
    assert_eq!(read("<score-partwise><part> </part></score-partwise>"), Err(Failure::NoBars));
}

#[test]
fn test_read_unexpected_elements() {
    assert_eq!(
        read("<score-partwise><part><bar/></part></score-partwise>"),
        Err(Failure::Unexpected { parent: String::from("part"), found: String::from("bar") }),
    );
    assert_eq!(
        read(&score(&[String::from("<measure number=\"1\"><sound/></measure>")])),
        Err(Failure::Unexpected { parent: String::from("measure"), found: String::from("sound") }),
    );
}

#[test]
fn test_read_measure_numbers() {
    assert_eq!(
        read(&score(&[String::from("<measure/>")])),
        Err(Failure::MissingAttribute {
            element: String::from("measure"),
            name: String::from("number"),
        }),
    );
    assert_eq!(
        read(&score(&[String::from("<measure number=\"X1\"/>")])),
        Err(invalid("measure", "number", "X1")),
    );
    assert_eq!(
        read(&score(&[String::from("<measure number=\"1\"/><measure number=\"3\"/>")])),
        Err(Failure::UnexpectedBar { number: 3, expected: 2 }),
    );
    assert_eq!(
        read(&score(&[
            String::from("<measure number=\"1\"/>"),
            String::from("<measure number=\"2\"/>"),
        ])),
        Err(Failure::UnexpectedBar { number: 2, expected: 1 }),
    );
}

#[test]
fn test_read_durations() {
    assert_eq!(
        read(&score(&[String::from("<measure number=\"1\"><note><voice>1</voice></note></measure>")])),
        Err(Failure::MissingChild {
            element: String::from("note"),
            name: String::from("duration"),
        }),
    );
    assert_eq!(
        read(&score(&[String::from(
            "<measure number=\"1\"><forward><duration>1.5</duration></forward></measure>"
        )])),
        Err(invalid("forward", "duration", "1.5")),
    );
    assert_eq!(
        read(&score(&[String::from(
            "<measure number=\"1\"><backup><duration>1</duration></backup></measure>"
        )])),
        Err(Failure::Overflow),
    );
}

#[test]
fn test_read_barlines() {
    let bar = |line: &str| score(&[format!("<measure number=\"1\">{line}</measure>")]);
    assert_eq!(
        read(&bar("<barline location=\"middle\"/>")),
        Err(invalid("barline", "location", "middle")),
    );
    assert_eq!(
        read(&bar("<barline location=\"left\"><repeat direction=\"backward\"/></barline>")),
        Err(invalid("repeat", "direction", "backward")),
    );
    assert_eq!(
        read(&bar("<barline location=\"right\"><ending number=\"1\" type=\"start\"/></barline>")),
        Err(invalid("ending", "type", "start")),
    );
    assert_eq!(
        read(&bar("<barline location=\"left\"><repeat direction=\"forward\"/><ending number=\"9\" type=\"start\"/></barline>")),
        Err(invalid("ending", "number", "9")),
    );
    assert_eq!(
        read(&bar("<barline location=\"right\"><repeat direction=\"backward\"/></barline>")),
        Err(Failure::RepeatEndWithoutStart { bar: 1 }),
    );
    assert_eq!(
        read(&bar("<barline location=\"left\"><ending number=\"1\" type=\"start\"/></barline>")),
        Err(Failure::EndingWithoutRepeat { bar: 1 }),
    );
    assert_eq!(read(&bar("<barline><repeat direction=\"sideways\"/></barline>")), Ok(None));
}

#[test]
fn test_read_lyrics() {
    let bar = |note: &str| score(&[format!("<measure number=\"1\">{note}</measure>")]);
    let text = "<syllabic>single</syllabic><text>a</text>";
    assert_eq!(
        read(&bar(&format!(
            "<note><duration>1</duration><lyric number=\"verse1\">{text}</lyric></note>"
        ))),
        Err(Failure::MissingChild { element: String::from("note"), name: String::from("voice") }),
    );
    assert_eq!(
        read(&bar(&format!(
            "<note><duration>1</duration><voice>0</voice><lyric number=\"verse1\">{text}</lyric></note>"
        ))),
        Err(invalid("note", "voice", "0")),
    );
    assert_eq!(
        read(&bar(&format!(
            "<note><duration>1</duration><voice>1</voice><lyric number=\"refrain\">{text}</lyric></note>"
        ))),
        Err(invalid("lyric", "number", "refrain")),
    );
    assert_eq!(
        read(&bar(&format!(
            "<note><duration>1</duration><voice>1</voice><lyric number=\"verse4\">{text}</lyric></note>"
        ))),
        Err(invalid("lyric", "number", "verse4")),
    );
    assert_eq!(
        read(&bar(
            "<note><duration>1</duration><voice>1</voice><lyric number=\"chorus\"><text>a</text><syllabic>whole</syllabic></lyric></note>"
        )),
        Err(invalid("lyric", "syllabic", "whole")),
    );
    let music = read(&bar(
        "<note><duration>7</duration><voice>+2</voice><lyric number=\"chorus\"><syllabic>single</syllabic><text/></lyric></note>"
    ));
    assert_eq!(
        music,
        Ok(Some(Music { title: Some(String::from("Song")), phrases: vec![phrase(vec![word(0, 7, "")])] })),
    );
}

#[test]
fn test_read_document_by_hand() {
    let element = |parent: usize, name: &str, attributes: Vec<Attribute>, text: Option<&str>| XmlNode {
        parent: Some(parent),
        element: true,
        name: String::from(name),
        attributes,
        text: text.map(String::from),
    };
    let number = |value: &str| Attribute {
        namespace: None,
        name: String::from("number"),
        value: String::from(value),
    };
    let nodes = vec![
        XmlNode { parent: None, element: false, name: String::new(), attributes: Vec::new(), text: None },
        element(0, "score-partwise", Vec::new(), None),
        element(1, "part", Vec::new(), None),
        element(2, "measure", vec![number("1")], None),
        element(3, "note", Vec::new(), None),
        element(4, "duration", Vec::new(), Some("300")),
        element(4, "voice", Vec::new(), Some("1")),
        element(4, "lyric", vec![number("verse1")], None),
        element(7, "syllabic", Vec::new(), Some("single")),
        element(7, "text", Vec::new(), Some("Oh")),
    ];
    let document = Document::new(nodes);
    assert_eq!(document.len(), 10);
    assert_eq!(document.children(4), &vec![5, 6, 7]);
    assert_eq!(document.has_child_element(4, "voice"), Some(6));
    assert_eq!(document.child_element_text(4, "duration"), Some("300"));
    assert_eq!(document.attribute(3, "number"), Some("1"));
    assert_eq!(document.attribute(3, "width"), None);
    assert_eq!(
        read_document(&document),
        Ok(Some(Music { title: None, phrases: vec![phrase(vec![word(0, 300, "Oh")])] })),
    );
    // an attribute with a namespace is not the attribute of that name
    let nodes = vec![
        XmlNode { parent: None, element: false, name: String::new(), attributes: Vec::new(), text: None },
        element(0, "score-partwise", Vec::new(), None),
        element(1, "part", Vec::new(), None),
        element(
            2,
            "measure",
            vec![Attribute {
                namespace: Some(String::from("urn:x")),
                name: String::from("number"),
                value: String::from("1"),
            }],
            None,
        ),
    ];
    assert_eq!(
        read_document(&Document::new(nodes)),
        Err(Failure::MissingAttribute {
            element: String::from("measure"),
            name: String::from("number"),
        }),
    );
    assert_eq!(
        read_document(&Document::new(Vec::new())),
        Err(Failure::Unexpected { parent: String::new(), found: String::new() }),
    );
}

#[test]
fn test_number() {
    assert_eq!(number("0"), Some(0));
    assert_eq!(number("007"), Some(7));
    assert_eq!(number("+12"), Some(12));
    assert_eq!(number("18446744073709551615"), Some(18446744073709551615));
    assert_eq!(number("18446744073709551616"), None);
    assert_eq!(number(""), None);
    assert_eq!(number("+"), None);
    assert_eq!(number("-1"), None);
    assert_eq!(number("1 "), None);
    assert_eq!(number("++1"), None);
}

#[test]
fn test_compare_script_with_score() {
    let xml = score(&[format!(
        "<measure number=\"1\">{}{}{}</measure>",
        note(256, &lyric(1, "single", "Hello")),
        note(256, &lyric(1, "begin", "wor")),
        note(512, &lyric(1, "end", "ld")),
    )]);
    let sections = diff::read("Greeting\n1. Hello, World\n", &xml).unwrap();
    assert_eq!(
        sections,
        vec![Section {
            heading: String::from("Greeting"),
            lines: vec![Line {
                number: String::from("1"),
                diffs: vec![
                    Diff::Same(String::from("Hello")),
                    Diff::Script(String::from(",")),
                    Diff::Case(String::from("W")),
                    Diff::Same(String::from("orld")),
                ],
            }],
        }],
    );
    assert!(matches!(diff::read("1. Hello", "<score"), Err(Failure::Xml { .. })));
    assert_eq!(diff::read("1. Hello", "<score-partwise/>"), Err(Failure::NoParts));
}
