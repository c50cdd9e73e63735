use lyric_check::error::Failure;
use lyric_check::music::verse::Verses;

fn parse_and_collect(s: &str, vs: &[usize]) {
    let verses: Verses = s.parse().expect("valid verses");
    let verses: Vec<usize> = verses.to_vec().into_iter().map(|v| v + 1).collect();
    assert_eq!(&verses, vs);
}

#[test]
fn test_parse_and_collect() {
    parse_and_collect("1", &[1]);
    parse_and_collect("1,2", &[1, 2]);
    parse_and_collect("1,2,3", &[1, 2, 3]);
    parse_and_collect("1,3", &[1, 3]);
    parse_and_collect("2", &[2]);
    parse_and_collect("2,3", &[2, 3]);
    parse_and_collect("2,3,4", &[2, 3, 4]);
    parse_and_collect("2,4", &[2, 4]);
    parse_and_collect("3", &[3]);
    parse_and_collect("4", &[4]);
    parse_and_collect("5", &[5]);
}

#[test]
fn test_parse_longer_lists() {
    parse_and_collect("1,2,3,4", &[1, 2, 3, 4]);
    parse_and_collect("1,2,3,4,5", &[1, 2, 3, 4, 5]);
    parse_and_collect("6", &[6]);
}

#[test]
fn test_parse_unknown_list() {
    assert_eq!(
        Verses::parse("7"),
        Err(Failure::Invalid {
            element: String::from("ending"),
            name: String::from("number"),
            value: String::from("7"),
        }),
    );
    assert!(Verses::parse("").is_err());
    assert!(Verses::parse("1, 2").is_err());
}

#[test]
fn test_to_single() {
    assert_eq!(Verses::one().to_single(), Some(0));
    assert_eq!(Verses::two().to_single(), Some(1));
    assert_eq!(Verses::three().to_single(), Some(2));
    assert_eq!(Verses::five().to_single(), Some(4));
    assert_eq!(Verses::one_three().to_single(), None);
    assert_eq!(Verses::two_four().to_single(), None);
}

#[test]
fn test_named_sets() {
    assert_eq!(Verses::one_three().to_vec(), vec![0, 2]);
    assert_eq!(Verses::two_four().to_vec(), vec![1, 3]);
    assert_eq!(Verses::parse("1,3"), Ok(Verses::one_three()));
    assert_eq!(Verses::parse("2"), Ok(Verses::two()));
}
