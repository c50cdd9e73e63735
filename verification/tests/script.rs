use lyric_check::script::{read, Word};

fn heading(text: &str) -> Word {
    Word::Heading(String::from(text))
}

fn line(text: &str) -> Word {
    Word::Line(String::from(text))
}

fn word(text: &str) -> Word {
    Word::Word(String::from(text))
}

#[test]
fn test_numbered_line() {
    assert_eq!(
        read("3. Amazing grace how sweet").unwrap(),
        vec![line("3"), word("Amazing"), word("grace"), word("how"), word("sweet")],
    );
}

#[test]
fn test_heading_and_lines() {
    let text = "Amazing Grace\n1. Amazing grace\n2.  how sweet \n";
    assert_eq!(
        read(text).unwrap(),
        vec![
            heading("Amazing Grace"),
            line("1"),
            word("Amazing"),
            word("grace"),
            line("2"),
            word("how"),
            word("sweet"),
        ],
    );
}

#[test]
fn test_empty_script() {
    assert_eq!(read("").unwrap(), Vec::new());
}

#[test]
fn test_empty_line_is_a_heading() {
    assert_eq!(read("\n").unwrap(), vec![heading("")]);
    assert_eq!(read("a\n\nb").unwrap(), vec![heading("a"), heading(""), heading("b")]);
}

#[test]
fn test_digits_alone_give_nothing() {
    assert_eq!(read("123").unwrap(), Vec::new());
    assert_eq!(read("123\nabc").unwrap(), vec![heading("abc")]);
}

#[test]
fn test_number_without_words() {
    assert_eq!(read("12.").unwrap(), vec![line("12")]);
    assert_eq!(read("12.   ").unwrap(), vec![line("12")]);
}

#[test]
fn test_word_straight_after_the_number() {
    assert_eq!(read("1.one two").unwrap(), vec![line("1"), word("one"), word("two")]);
}

#[test]
fn test_digits_then_text_is_a_heading() {
    assert_eq!(read("12 days").unwrap(), vec![heading("12 days")]);
    assert_eq!(read(" 1. indented").unwrap(), vec![heading(" 1. indented")]);
}

#[test]
fn test_typographic_characters_are_read_plain() {
    assert_eq!(
        read("1. don\u{2019}t stop\u{2026}").unwrap(),
        vec![line("1"), word("don't"), word("stop...")],
    );
    assert_eq!(read("It\u{2019}s").unwrap(), vec![heading("It's")]);
}

#[test]
fn test_carriage_returns() {
    assert_eq!(
        read("Title\r\n1. a b\r\n").unwrap(),
        vec![heading("Title"), line("1"), word("a"), word("b")],
    );
}

#[test]
fn test_tabs_do_not_part_words() {
    assert_eq!(read("1. a\tb c").unwrap(), vec![line("1"), word("a\tb"), word("c")]);
}
