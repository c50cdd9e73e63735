use lyric_check::error::Failure;
use lyric_check::music::repeat::{Repeats, RepeatsBuilder};
use lyric_check::music::syllable::{Builder, Kind, Syllable};
use lyric_check::music::verse::Verses;
use lyric_check::music::{Phrase, Word};

fn single(start: usize, end: usize, text: &str) -> Syllable<'_> {
    Syllable { start, end, kind: Kind::Single, text }
}

fn word(start: usize, end: usize, text: &str) -> Word {
    Word { start, end, text: String::from(text) }
}

fn phrase(words: Vec<Word>) -> Phrase {
    Phrase { start: words[0].start, end: words[words.len() - 1].end, words }
}

fn plain(bars: usize) -> Repeats {
    let mut repeats = RepeatsBuilder::new(1);
    repeats.forward(400);
    for bar in 1..bars {
        repeats.next(bar + 1).unwrap();
        repeats.forward(400);
    }
    repeats.build().unwrap()
}

fn repeated_with_endings() -> Repeats {
    // bar 0 is repeated, bar 1 is the first ending, bar 2 the second
    let mut repeats = RepeatsBuilder::new(1);
    repeats.repeat_start().unwrap();
    repeats.forward(400);
    repeats.next(2).unwrap();
    repeats.ending_start(Verses::one()).unwrap();
    repeats.forward(400);
    repeats.ending_end(Verses::one(), false).unwrap();
    repeats.repeat_end().unwrap();
    repeats.next(3).unwrap();
    repeats.ending_start(Verses::two()).unwrap();
    repeats.forward(400);
    repeats.ending_end(Verses::two(), true).unwrap();
    repeats.build().unwrap()
}

#[test]
fn test_kind_parse() {
    assert_eq!(Kind::parse("single"), Ok(Kind::Single));
    assert_eq!(Kind::parse("begin"), Ok(Kind::Begin));
    assert_eq!(Kind::parse("middle"), Ok(Kind::Middle));
    assert_eq!(Kind::parse("end"), Ok(Kind::End));
    assert_eq!("end".parse::<Kind>(), Ok(Kind::End));
    assert_eq!(
        Kind::parse("Single"),
        Err(Failure::Invalid {
            element: String::from("lyric"),
            name: String::from("syllabic"),
            value: String::from("Single"),
        }),
    );
}

#[test]
fn test_part_without_lyrics() {
    let repeats = plain(2);
    let mut builder = Builder::new(2);
    builder.bar_start();
    builder.bar_start();
    assert_eq!(builder.part_end(&repeats), Ok(None));
}

#[test]
fn test_syllables_are_put_in_order() {
    let repeats = plain(2);
    let mut builder = Builder::new(2);
    builder.bar_start();
    builder.lyric(1, 0, single(200, 300, "c"));
    builder.lyric(0, 0, single(0, 100, "b"));
    builder.lyric(0, 0, single(0, 100, "a"));
    builder.lyric(0, 0, single(0, 50, "z"));
    builder.bar_start();
    builder.lyric(0, 0, single(0, 100, "d"));
    assert_eq!(builder.limit(), 300);
    let part = builder.part_end(&repeats).unwrap().unwrap();
    assert_eq!(
        part.phrases,
        vec![phrase(vec![
            word(0, 50, "z"),
            word(0, 100, "a"),
            word(0, 100, "b"),
            word(200, 300, "c"),
            word(400, 500, "d"),
        ])],
    );
    // the collector is as new
    assert_eq!(builder.limit(), 0);
    builder.bar_start();
    builder.bar_start();
    assert_eq!(builder.part_end(&repeats), Ok(None));
}

#[test]
fn test_order_by_kind_and_text() {
    let repeats = plain(1);
    let mut builder = Builder::new(1);
    builder.bar_start();
    builder.lyric(0, 0, Syllable { start: 0, end: 10, kind: Kind::End, text: "d" });
    builder.lyric(0, 0, Syllable { start: 0, end: 10, kind: Kind::Begin, text: "c" });
    builder.lyric(0, 0, Syllable { start: 0, end: 10, kind: Kind::Single, text: "b" });
    builder.lyric(0, 0, Syllable { start: 0, end: 10, kind: Kind::Single, text: "ab" });
    builder.lyric(0, 0, Syllable { start: 0, end: 10, kind: Kind::Single, text: "a" });
    let part = builder.part_end(&repeats).unwrap().unwrap();
    assert_eq!(
        part.phrases,
        vec![phrase(vec![
            word(0, 10, "a"),
            word(0, 10, "ab"),
            word(0, 10, "b"),
            word(0, 10, "cd"),
        ])],
    );
}

#[test]
fn test_verses_of_a_repeat() {
    let repeats = repeated_with_endings();
    let mut builder = Builder::new(3);
    builder.bar_start();
    builder.lyric(0, 0, single(0, 100, "first"));
    builder.lyric(0, 1, single(0, 100, "second"));
    builder.lyric(0, 0, single(100, 200, "both"));
    builder.bar_start();
    builder.lyric(0, 0, single(0, 100, "one"));
    builder.bar_start();
    builder.lyric(0, 0, single(0, 100, "two"));
    let part = builder.part_end(&repeats).unwrap().unwrap();
    // bars 0 1 0 2: the first time with the common lyrics, the second time
    // with those of the second verse and then the common ones that follow
    assert_eq!(
        part.phrases,
        vec![phrase(vec![
            word(0, 100, "first"),
            word(100, 200, "both"),
            word(400, 500, "one"),
            word(800, 900, "second"),
            word(900, 1000, "both"),
            word(1200, 1300, "two"),
        ])],
    );
}

#[test]
fn test_part_with_fewer_bars() {
    let repeats = plain(3);
    let mut builder = Builder::new(3);
    builder.bar_start();
    builder.lyric(0, 0, single(0, 100, "a"));
    builder.bar_start();
    assert_eq!(builder.part_end(&repeats), Err(Failure::MissingBars));
}

#[test]
fn test_ticks_beyond_the_limit() {
    let repeats = plain(1);
    let mut builder = Builder::new(1);
    builder.bar_start();
    builder.lyric(0, 0, single(0, usize::MAX, "a"));
    assert_eq!(builder.part_end(&repeats), Err(Failure::Overflow));
}
