use lyric_check::error::Failure;
use lyric_check::music::repeat::{Bar, Repeat, RepeatsBuilder};
use lyric_check::music::verse::Verses;
use std::ops::Range;

type Result<T> = std::result::Result<T, Failure>;

fn new(bars: usize) -> Result<RepeatsBuilder> {
    assert!(bars > 0);
    let mut repeats = RepeatsBuilder::new(1);
    repeats.forward(1024);
    for bar in 1..bars {
        repeats.next(bar + 1)?;
        repeats.forward(1024);
    }
    Ok(repeats)
}

fn new_repeat(bars: usize) -> Result<RepeatsBuilder> {
    assert!(bars > 0);
    let mut repeats = RepeatsBuilder::new(1);
    repeats.repeat_start()?;
    repeats.forward(1024);
    for bar in 1..bars {
        repeats.next(bar + 1)?;
        repeats.forward(1024);
    }
    repeats.repeat_end()?;
    Ok(repeats)
}

fn new_repeat_start(bars: usize) -> Result<RepeatsBuilder> {
    assert!(bars > 0);
    let mut repeats = RepeatsBuilder::new(1);
    repeats.repeat_start()?;
    repeats.forward(1024);
    for bar in 1..bars {
        repeats.next(bar + 1)?;
        repeats.forward(1024);
    }
    Ok(repeats)
}

fn normal(repeats: &mut RepeatsBuilder, bars: Range<usize>) -> Result<()> {
    for bar in bars {
        repeats.next(bar + 1)?;
        repeats.forward(1024);
    }
    Ok(())
}

fn repeat(repeats: &mut RepeatsBuilder, mut bars: Range<usize>) -> Result<()> {
    repeats.next(bars.start + 1)?;
    repeats.repeat_start()?;
    repeats.forward(1024);
    bars.start += 1;
    for bar in bars {
        repeats.next(bar + 1)?;
        repeats.forward(1024);
    }
    repeats.repeat_end()?;
    Ok(())
}

fn repeat_start(repeats: &mut RepeatsBuilder, mut bars: Range<usize>) -> Result<()> {
    repeats.next(bars.start + 1)?;
    repeats.repeat_start()?;
    repeats.forward(1024);
    bars.start += 1;
    for bar in bars {
        repeats.next(bar + 1)?;
        repeats.forward(1024);
    }
    Ok(())
}

fn ending(repeats: &mut RepeatsBuilder, verses: Verses, mut bars: Range<usize>) -> Result<()> {
    repeats.next(bars.start + 1)?;
    repeats.ending_start(verses.clone())?;
    repeats.forward(1024);
    bars.start += 1;
    for bar in bars {
        repeats.next(bar + 1)?;
        repeats.forward(1024);
    }
    repeats.ending_end(verses, false)?;
    repeats.repeat_end()?;
    Ok(())
}

fn ending_last(repeats: &mut RepeatsBuilder, verses: Verses, mut bars: Range<usize>) -> Result<()> {
    repeats.next(bars.start + 1)?;
    repeats.ending_start(verses.clone())?;
    repeats.forward(1024);
    bars.start += 1;
    for bar in bars {
        repeats.next(bar + 1)?;
        repeats.forward(1024);
    }
    repeats.ending_end(verses, true)?;
    Ok(())
}

#[test]
fn test_no_repeats() -> Result<()> {
    let repeats = new(4)?;
    // build
    let repeats = repeats.build()?;
    assert_eq!(*repeats.repeats(), vec![
        Repeat { verse: None, bars: 0..4 },
    ]);
    Ok(())
}

#[test]
fn test_ending_not_in_repeat() -> Result<()> {
    let mut repeats = RepeatsBuilder::new(1);
    // MISSING repeats.repeat_start()?;
    repeats.forward(1024);
    // start of ending
    repeats.next(2)?;
    assert!(repeats.ending_start(Verses::one()).is_err());
    Ok(())
}

#[test]
fn test_repeat_not_started() -> Result<()> {
    let mut repeats = RepeatsBuilder::new(1);
    // MISSING repeats.repeat_start()?;
    repeats.forward(1024);
    // end of repeat
    repeats.next(2)?;
    repeats.forward(1024);
    assert!(repeats.repeat_end().is_err());
    Ok(())
}

#[test]
fn test_repeat() -> Result<()> {
    let repeats = new_repeat(4)?;
    // build
    let repeats = repeats.build()?;
    assert_eq!(*repeats.repeats(), vec![
        Repeat { verse: Some(0), bars: 0..4 },
        Repeat { verse: Some(1), bars: 0..4 },
    ]);
    Ok(())
}

#[test]
fn test_repeat_repeat() -> Result<()> {
    let mut repeats = new_repeat(4)?;
    normal(&mut repeats, 4..8)?;
    repeat(&mut repeats, 8..12)?;
    // build
    let repeats = repeats.build()?;
    assert_eq!(*repeats.repeats(), vec![
        Repeat { verse: Some(0), bars: 0..4 },
        Repeat { verse: Some(1), bars: 0..4 },
        Repeat { verse: None, bars: 4..8 },
        Repeat { verse: Some(0), bars: 8..12 },
        Repeat { verse: Some(1), bars: 8..12 },
    ]);
    Ok(())
}

#[test]
fn test_intro_repeat() -> Result<()> {
    let mut repeats = new(4)?;
    repeat(&mut repeats, 4..8)?;
    // build
    let repeats = repeats.build()?;
    assert_eq!(*repeats.repeats(), vec![
        Repeat { verse: None, bars: 0..4 },
        Repeat { verse: Some(0), bars: 4..8 },
        Repeat { verse: Some(1), bars: 4..8 },
    ]);
    Ok(())
}

#[test]
fn test_intro_repeat_outro() -> Result<()> {
    let mut repeats = new(4)?;
    repeat(&mut repeats, 4..8)?;
    normal(&mut repeats, 8..12)?;
    // build
    let repeats = repeats.build()?;
    assert_eq!(*repeats.repeats(), vec![
        Repeat { verse: None, bars: 0..4 },
        Repeat { verse: Some(0), bars: 4..8 },
        Repeat { verse: Some(1), bars: 4..8 },
        Repeat { verse: None, bars: 8..12 },
    ]);
    Ok(())
}

#[test]
fn test_repeat_outro() -> Result<()> {
    let mut repeats = new_repeat(4)?;
    normal(&mut repeats, 4..8)?;
    // build
    let repeats = repeats.build()?;
    assert_eq!(*repeats.repeats(), vec![
        Repeat { verse: Some(0), bars: 0..4 },
        Repeat { verse: Some(1), bars: 0..4 },
        Repeat { verse: None, bars: 4..8 },
    ]);
    Ok(())
}

#[test]
fn test_first_second() -> Result<()> {
    let mut repeats = new_repeat_start(4)?;
    ending(&mut repeats, Verses::one(), 4..8)?;
    ending_last(&mut repeats, Verses::two(), 8..12)?;
    // build
    let repeats = repeats.build()?;
    assert_eq!(*repeats.repeats(), vec![
        Repeat { verse: Some(0), bars: 0..4 },
        Repeat { verse: None, bars: 4..8 },
        Repeat { verse: Some(1), bars: 0..4 },
        Repeat { verse: None, bars: 8..12 },
    ]);
    Ok(())
}

#[test]
fn test_1st_2nd_3rd_time() -> Result<()> {
    let mut repeats = new(2)?;
    repeat_start(&mut repeats, 2..4)?;
    ending(&mut repeats, Verses::one(), 4..6)?;
    ending(&mut repeats, Verses::two(), 6..8)?;
    ending_last(&mut repeats, Verses::three(), 8..10)?;
    normal(&mut repeats, 10..12)?;
    // build
    let repeats = repeats.build()?;
    assert_eq!(*repeats.repeats(), vec![
        Repeat { verse: None, bars: 0..2 },
        Repeat { verse: Some(0), bars: 2..4 },
        Repeat { verse: None, bars: 4..6 },
        Repeat { verse: Some(1), bars: 2..4 },
        Repeat { verse: None, bars: 6..8 },
        Repeat { verse: Some(2), bars: 2..4 },
        Repeat { verse: None, bars: 8..10 },
        Repeat { verse: None, bars: 10..12 },
    ]);
    Ok(())
}

#[test]
fn test_odd_even_5th_time() -> Result<()> {
    let mut repeats = new(2)?;
    repeat_start(&mut repeats, 2..4)?;
    ending(&mut repeats, Verses::one_three(), 4..6)?;
    ending(&mut repeats, Verses::two_four(), 6..8)?;
    ending_last(&mut repeats, Verses::five(), 8..10)?;
    normal(&mut repeats, 10..12)?;
    // build
    let repeats = repeats.build()?;
    assert_eq!(*repeats.repeats(), vec![
        Repeat { verse: None, bars: 0..2 },
        Repeat { verse: Some(0), bars: 2..4 },
        Repeat { verse: Some(0), bars: 4..6 },
        Repeat { verse: Some(1), bars: 2..4 },
        Repeat { verse: Some(0), bars: 6..8 },
        Repeat { verse: Some(2), bars: 2..4 },
        Repeat { verse: Some(1), bars: 4..6 },
        Repeat { verse: Some(3), bars: 2..4 },
        Repeat { verse: Some(1), bars: 6..8 },
        Repeat { verse: Some(4), bars: 2..4 },
        Repeat { verse: None, bars: 8..10 },
        Repeat { verse: None, bars: 10..12 },
    ]);
    Ok(())
}

#[test]
fn test_plain_score_plays_each_bar_once() -> Result<()> {
    let repeats = new(4)?.build()?;
    assert_eq!(repeats.first_bar_number(), 1);
    assert_eq!(repeats.bar_count(), 4);
    assert_eq!(repeats.ticks(), 4096);
    assert_eq!(repeats.bars(), vec![
        Bar { index: 0, verse: None, tick: 0 },
        Bar { index: 1, verse: None, tick: 1024 },
        Bar { index: 2, verse: None, tick: 2048 },
        Bar { index: 3, verse: None, tick: 3072 },
    ]);
    Ok(())
}

#[test]
fn test_repeat_plays_twice() -> Result<()> {
    let repeats = new_repeat(4)?.build()?;
    let bars = repeats.bars();
    assert_eq!(bars.len(), 8);
    for (at, bar) in bars.iter().enumerate() {
        assert_eq!(bar.index, at % 4);
        assert_eq!(bar.verse, Some(at / 4));
        assert_eq!(bar.tick, at * 1024);
    }
    // a second call gives the whole play anew
    assert_eq!(repeats.bars(), bars);
    Ok(())
}

#[test]
fn test_bar_lasts_as_long_as_its_widest_voice() -> Result<()> {
    let mut repeats = RepeatsBuilder::new(7);
    repeats.forward(256);
    repeats.forward(256);
    repeats.backward(512);
    repeats.forward(768);
    repeats.backward(256);
    assert_eq!(repeats.position(), 512);
    repeats.next(8)?;
    repeats.forward(100);
    let repeats = repeats.build()?;
    assert_eq!(repeats.first_bar_number(), 7);
    assert_eq!(repeats.bars(), vec![
        Bar { index: 0, verse: None, tick: 0 },
        Bar { index: 1, verse: None, tick: 768 },
    ]);
    assert_eq!(repeats.ticks(), 868);
    Ok(())
}

#[test]
fn test_unexpected_bar_number() {
    let mut repeats = RepeatsBuilder::new(1);
    assert_eq!(repeats.next(3), Err(Failure::UnexpectedBar { number: 3, expected: 2 }));
    // the builder is as it was
    assert_eq!(repeats.next(2), Ok(()));
}

#[test]
fn test_bar_number_at_the_limit() {
    let mut repeats = RepeatsBuilder::new(usize::MAX);
    assert_eq!(repeats.next(0), Err(Failure::Overflow));
}

#[test]
fn test_repeat_inside_repeat() -> Result<()> {
    let mut repeats = new_repeat_start(2)?;
    assert_eq!(repeats.repeat_start(), Err(Failure::RepeatStart { bar: 2 }));
    Ok(())
}

#[test]
fn test_ending_without_repeat_names_the_bar() -> Result<()> {
    let mut repeats = new(3)?;
    assert_eq!(
        repeats.ending_start(Verses::one()),
        Err(Failure::EndingWithoutRepeat { bar: 3 }),
    );
    assert_eq!(repeats.repeat_end(), Err(Failure::RepeatEndWithoutStart { bar: 3 }));
    assert_eq!(repeats.ending_end(Verses::one(), false), Err(Failure::EndingEnd { bar: 3 }));
    Ok(())
}

#[test]
fn test_duplicate_ending() -> Result<()> {
    let mut repeats = new_repeat_start(2)?;
    ending(&mut repeats, Verses::one(), 2..4)?;
    repeats.next(5)?;
    repeats.ending_start(Verses::one())?;
    assert_eq!(
        repeats.ending_end(Verses::one(), false),
        Err(Failure::DuplicateEnding { verse: 0, first: 3, second: 5 }),
    );
    Ok(())
}

#[test]
fn test_ending_ends_for_other_verses() -> Result<()> {
    let mut repeats = new_repeat_start(2)?;
    repeats.next(3)?;
    repeats.ending_start(Verses::one())?;
    assert_eq!(
        repeats.ending_end(Verses::two(), false),
        Err(Failure::EndingMismatch { bar: 3 }),
    );
    Ok(())
}

#[test]
fn test_gap_between_ending_and_repeat() -> Result<()> {
    let mut repeats = new_repeat_start(2)?;
    repeats.next(3)?;
    repeats.ending_start(Verses::one())?;
    repeats.ending_end(Verses::one(), false)?;
    repeats.next(4)?;
    assert_eq!(repeats.repeat_end(), Err(Failure::EndingGap { ending: 4, repeat: 4 }));
    Ok(())
}

#[test]
fn test_ending_after_gap() -> Result<()> {
    let mut repeats = new_repeat(2)?;
    repeats.next(3)?;
    repeats.next(4)?;
    assert_eq!(repeats.ending_start(Verses::two()), Err(Failure::EndingAfterGap { bar: 4 }));
    Ok(())
}

#[test]
fn test_final_ending_for_two_verses() -> Result<()> {
    let mut repeats = new_repeat_start(2)?;
    repeats.next(3)?;
    repeats.ending_start(Verses::one_three())?;
    assert_eq!(
        repeats.ending_end(Verses::one_three(), true),
        Err(Failure::FinalEndingNotSingle { bar: 3 }),
    );
    Ok(())
}

#[test]
fn test_missing_ending() -> Result<()> {
    let mut repeats = new_repeat_start(2)?;
    repeats.next(3)?;
    repeats.ending_start(Verses::two())?;
    assert_eq!(
        repeats.ending_end(Verses::two(), true),
        Err(Failure::MissingEnding { bar: 3, verse: 0 }),
    );
    // nothing was taken: the ending can still end as one that is not the last
    assert_eq!(repeats.ending_end(Verses::two(), false), Ok(()));
    Ok(())
}

#[test]
fn test_second_ending_without_first() -> Result<()> {
    let mut repeats = new_repeat(2)?;
    ending_last(&mut repeats, Verses::two(), 2..4)?;
    let repeats = repeats.build()?;
    assert_eq!(*repeats.repeats(), vec![
        Repeat { verse: Some(0), bars: 0..2 },
        Repeat { verse: None, bars: 2..2 },
        Repeat { verse: Some(1), bars: 0..2 },
        Repeat { verse: None, bars: 2..4 },
    ]);
    Ok(())
}

#[test]
fn test_open_repeat_ends_with_the_score() -> Result<()> {
    let mut repeats = new(2)?;
    repeat_start(&mut repeats, 2..4)?;
    let repeats = repeats.build()?;
    assert_eq!(*repeats.repeats(), vec![
        Repeat { verse: None, bars: 0..2 },
        Repeat { verse: Some(0), bars: 2..4 },
        Repeat { verse: Some(1), bars: 2..4 },
    ]);
    Ok(())
}

#[test]
fn test_open_ending_is_the_last() -> Result<()> {
    let mut repeats = new_repeat_start(2)?;
    ending(&mut repeats, Verses::one(), 2..4)?;
    repeats.next(5)?;
    repeats.ending_start(Verses::two())?;
    repeats.forward(1024);
    let repeats = repeats.build()?;
    assert_eq!(*repeats.repeats(), vec![
        Repeat { verse: Some(0), bars: 0..2 },
        Repeat { verse: None, bars: 2..4 },
        Repeat { verse: Some(1), bars: 0..2 },
        Repeat { verse: None, bars: 4..5 },
    ]);
    Ok(())
}

#[test]
fn test_ticks_too_many() -> Result<()> {
    let mut repeats = RepeatsBuilder::new(1);
    repeats.repeat_start()?;
    repeats.forward(usize::MAX);
    repeats.repeat_end()?;
    assert!(matches!(repeats.build(), Err(Failure::Overflow)));
    Ok(())
}

#[test]
fn test_first_ending_only() -> Result<()> {
    let mut repeats = new_repeat_start(2)?;
    ending(&mut repeats, Verses::one(), 2..4)?;
    let repeats = repeats.build()?;
    assert_eq!(*repeats.repeats(), vec![
        Repeat { verse: Some(0), bars: 0..2 },
        Repeat { verse: None, bars: 2..4 },
    ]);
    Ok(())
}

#[test]
fn test_ending_missing_between_others() -> Result<()> {
    let mut repeats = new_repeat_start(2)?;
    ending(&mut repeats, Verses::one(), 2..4)?;
    ending(&mut repeats, Verses::three(), 4..6)?;
    assert!(matches!(repeats.build(), Err(Failure::MissingEnding { bar: 6, verse: 1 })));
    Ok(())
}

#[test]
fn test_repeat_after_endings() -> Result<()> {
    let mut repeats = new_repeat_start(2)?;
    ending(&mut repeats, Verses::one(), 2..4)?;
    ending(&mut repeats, Verses::two(), 4..6)?;
    normal(&mut repeats, 6..7)?;
    repeat(&mut repeats, 7..8)?;
    let repeats = repeats.build()?;
    assert_eq!(*repeats.repeats(), vec![
        Repeat { verse: Some(0), bars: 0..2 },
        Repeat { verse: None, bars: 2..4 },
        Repeat { verse: Some(1), bars: 0..2 },
        Repeat { verse: None, bars: 4..6 },
        Repeat { verse: None, bars: 6..7 },
        Repeat { verse: Some(0), bars: 7..8 },
        Repeat { verse: Some(1), bars: 7..8 },
    ]);
    Ok(())
}
