//! The verses that an ending is played for.
use vstd::prelude::*;
use crate::error::Failure;
use crate::text::{chars_of, same_text, string_from};

verus! {

/// A set of verses, counted from zero.
#[derive(Clone, Copy, Debug, PartialEq, Eq, Structural)]
pub struct Verses(usize);

/// The positions of the binary digits of `mask` that are one, in rising
/// order, where the lowest digit has the position `from`.
pub open spec fn ones(mask: nat, from: nat) -> Seq<usize>
    decreases mask,
{
    if mask == 0 {
        Seq::empty()
    } else if mask % 2 == 1 {
        seq![from as usize] + ones(mask / 2, from + 1)
    } else {
        ones(mask / 2, from + 1)
    }
}

/// The verses that the attribute `number` of an ending names, counted from
/// zero; `None` for a text that names no set of verses.
pub open spec fn named(number: Seq<char>) -> Option<Seq<usize>> {
    if number == "1"@ {
        Some(seq![0usize])
    } else if number == "1,2"@ {
        Some(seq![0usize, 1])
    } else if number == "1,2,3"@ {
        Some(seq![0usize, 1, 2])
    } else if number == "1,2,3,4"@ {
        Some(seq![0usize, 1, 2, 3])
    } else if number == "1,2,3,4,5"@ {
        Some(seq![0usize, 1, 2, 3, 4])
    } else if number == "1,3"@ {
        Some(seq![0usize, 2])
    } else if number == "2"@ {
        Some(seq![1usize])
    } else if number == "2,3"@ {
        Some(seq![1usize, 2])
    } else if number == "2,3,4"@ {
        Some(seq![1usize, 2, 3])
    } else if number == "2,4"@ {
        Some(seq![1usize, 3])
    } else if number == "3"@ {
        Some(seq![2usize])
    } else if number == "4"@ {
        Some(seq![3usize])
    } else if number == "5"@ {
        Some(seq![4usize])
    } else if number == "6"@ {
        Some(seq![5usize])
    } else {
        None
    }
}

/// The set of verses that the attribute `number` of an ending names.
pub closed spec fn verses_of(number: Seq<char>) -> Option<Verses> {
    if number == "1"@ {
        Some(Verses(1))
    } else if number == "1,2"@ {
        Some(Verses(3))
    } else if number == "1,2,3"@ {
        Some(Verses(7))
    } else if number == "1,2,3,4"@ {
        Some(Verses(15))
    } else if number == "1,2,3,4,5"@ {
        Some(Verses(31))
    } else if number == "1,3"@ {
        Some(Verses(5))
    } else if number == "2"@ {
        Some(Verses(2))
    } else if number == "2,3"@ {
        Some(Verses(6))
    } else if number == "2,3,4"@ {
        Some(Verses(14))
    } else if number == "2,4"@ {
        Some(Verses(10))
    } else if number == "3"@ {
        Some(Verses(4))
    } else if number == "4"@ {
        Some(Verses(8))
    } else if number == "5"@ {
        Some(Verses(16))
    } else if number == "6"@ {
        Some(Verses(32))
    } else {
        None
    }
}

/// The set that a text names holds the verses that the text names.
pub proof fn lemma_verses_of(number: Seq<char>)
    ensures
        match named(number) {
            Some(verses) => verses_of(number) is Some && verses_of(number)->0@ == verses,
            None => verses_of(number) is None,
        },
{
    lemma_ones_small(1);
    lemma_ones_small(2);
    lemma_ones_small(3);
    lemma_ones_small(4);
    lemma_ones_small(5);
    lemma_ones_small(6);
    lemma_ones_small(7);
    lemma_ones_small(8);
    lemma_ones_small(10);
    lemma_ones_small(14);
    lemma_ones_small(15);
    lemma_ones_small(16);
    lemma_ones_small(31);
    lemma_ones_small(32);
}

impl View for Verses {
    type V = Seq<usize>;

    /// The verses of the set, in rising order.
    closed spec fn view(&self) -> Seq<usize> {
        ones(self.0 as nat, 0)
    }
}

proof fn lemma_ones_small(mask: nat)
    requires
        mask < 64,
    ensures
        mask == 1 ==> ones(mask, 0) == seq![0usize],
        mask == 2 ==> ones(mask, 0) == seq![1usize],
        mask == 3 ==> ones(mask, 0) == seq![0usize, 1],
        mask == 4 ==> ones(mask, 0) == seq![2usize],
        mask == 5 ==> ones(mask, 0) == seq![0usize, 2],
        mask == 6 ==> ones(mask, 0) == seq![1usize, 2],
        mask == 7 ==> ones(mask, 0) == seq![0usize, 1, 2],
        mask == 8 ==> ones(mask, 0) == seq![3usize],
        mask == 10 ==> ones(mask, 0) == seq![1usize, 3],
        mask == 14 ==> ones(mask, 0) == seq![1usize, 2, 3],
        mask == 15 ==> ones(mask, 0) == seq![0usize, 1, 2, 3],
        mask == 16 ==> ones(mask, 0) == seq![4usize],
        mask == 31 ==> ones(mask, 0) == seq![0usize, 1, 2, 3, 4],
        mask == 32 ==> ones(mask, 0) == seq![5usize],
{
    reveal_with_fuel(ones, 8);
    assert(mask == 1 ==> ones(mask, 0) =~= seq![0usize]);
    assert(mask == 2 ==> ones(mask, 0) =~= seq![1usize]);
    assert(mask == 3 ==> ones(mask, 0) =~= seq![0usize, 1]);
    assert(mask == 4 ==> ones(mask, 0) =~= seq![2usize]);
    assert(mask == 5 ==> ones(mask, 0) =~= seq![0usize, 2]);
    assert(mask == 6 ==> ones(mask, 0) =~= seq![1usize, 2]);
    assert(mask == 7 ==> ones(mask, 0) =~= seq![0usize, 1, 2]);
    assert(mask == 8 ==> ones(mask, 0) =~= seq![3usize]);
    assert(mask == 10 ==> ones(mask, 0) =~= seq![1usize, 3]);
    assert(mask == 14 ==> ones(mask, 0) =~= seq![1usize, 2, 3]);
    assert(mask == 15 ==> ones(mask, 0) =~= seq![0usize, 1, 2, 3]);
    assert(mask == 16 ==> ones(mask, 0) =~= seq![4usize]);
    assert(mask == 31 ==> ones(mask, 0) =~= seq![0usize, 1, 2, 3, 4]);
    assert(mask == 32 ==> ones(mask, 0) =~= seq![5usize]);
}

impl Verses {
    /// The first verse alone.
    pub fn one() -> (verses: Verses)
        ensures
            verses@ == seq![0usize],
    {
        proof {
            lemma_ones_small(1);
        }
        Verses(1)
    }

    /// The first and the third verse.
    pub fn one_three() -> (verses: Verses)
        ensures
            verses@ == seq![0usize, 2],
    {
        proof {
            lemma_ones_small(5);
        }
        Verses(5)
    }

    /// The second verse alone.
    pub fn two() -> (verses: Verses)
        ensures
            verses@ == seq![1usize],
    {
        proof {
            lemma_ones_small(2);
        }
        Verses(2)
    }

    /// The second and the fourth verse.
    pub fn two_four() -> (verses: Verses)
        ensures
            verses@ == seq![1usize, 3],
    {
        proof {
            lemma_ones_small(10);
        }
        Verses(10)
    }

    /// The third verse alone.
    pub fn three() -> (verses: Verses)
        ensures
            verses@ == seq![2usize],
    {
        proof {
            lemma_ones_small(4);
        }
        Verses(4)
    }

    /// The fifth verse alone.
    pub fn five() -> (verses: Verses)
        ensures
            verses@ == seq![4usize],
    {
        proof {
            lemma_ones_small(16);
        }
        Verses(16)
    }

    /// The verses of the set, in rising order.
    pub fn to_vec(&self) -> (verses: Vec<usize>)
        ensures
            verses@ == self@,
            forall|k: int| 0 <= k < verses.len() ==> verses[k] < usize::MAX,
    {
        let mut verses: Vec<usize> = Vec::new();
        let mut mask: usize = self.0;
        let mut at: usize = 0;
        assert(verses@ + ones(mask as nat, at as nat) =~= ones(self.0 as nat, 0));
        while mask > 0
            invariant
                at + mask <= self.0,
                verses@ + ones(mask as nat, at as nat) == ones(self.0 as nat, 0),
                forall|k: int| 0 <= k < verses.len() ==> verses[k] < usize::MAX,
            decreases mask,
        {
            let ghost before = verses@;
            if mask % 2 == 1 {
                verses.push(at);
            }
            assert(verses@ + ones((mask / 2) as nat, (at + 1) as nat) =~= before + ones(
                mask as nat,
                at as nat,
            ));
            mask = mask / 2;
            at = at + 1;
        }
        assert(verses@ + Seq::<usize>::empty() =~= verses@);
        verses
    }

    /// The verse of a set of one verse.
    pub fn to_single(&self) -> (verse: Option<usize>)
        ensures
            verse == (if self@.len() == 1 {
                Some(self@[0])
            } else {
                None
            }),
            verse is Some ==> verse->0 < usize::MAX,
    {
        let verses = self.to_vec();
        if verses.len() == 1 {
            Some(verses[0])
        } else {
            None
        }
    }

    /// Reads the attribute `number` of an ending: one of the lists of verses
    /// that scores use, the verses counted from one.
    pub fn parse(number: &str) -> (r: Result<Verses, Failure>)
        ensures
            r is Ok ==> verses_of(number@) == Some(r->Ok_0),
            match named(number@) {
                Some(verses) => r is Ok && r->Ok_0@ == verses,
                None => r is Err && r->Err_0@ == (crate::error::FailureView::Invalid {
                    element: "ending"@,
                    name: "number"@,
                    value: number@,
                }),
            },
    {
        proof {
            lemma_ones_small(1);
            lemma_ones_small(2);
            lemma_ones_small(3);
            lemma_ones_small(4);
            lemma_ones_small(5);
            lemma_ones_small(6);
            lemma_ones_small(7);
            lemma_ones_small(8);
            lemma_ones_small(10);
            lemma_ones_small(14);
            lemma_ones_small(15);
            lemma_ones_small(16);
            lemma_ones_small(31);
            lemma_ones_small(32);
        }
        if same_text(number, "1") {
            Ok(Verses(1))
        } else if same_text(number, "1,2") {
            Ok(Verses(3))
        } else if same_text(number, "1,2,3") {
            Ok(Verses(7))
        } else if same_text(number, "1,2,3,4") {
            Ok(Verses(15))
        } else if same_text(number, "1,2,3,4,5") {
            Ok(Verses(31))
        } else if same_text(number, "1,3") {
            Ok(Verses(5))
        } else if same_text(number, "2") {
            Ok(Verses(2))
        } else if same_text(number, "2,3") {
            Ok(Verses(6))
        } else if same_text(number, "2,3,4") {
            Ok(Verses(14))
        } else if same_text(number, "2,4") {
            Ok(Verses(10))
        } else if same_text(number, "3") {
            Ok(Verses(4))
        } else if same_text(number, "4") {
            Ok(Verses(8))
        } else if same_text(number, "5") {
            Ok(Verses(16))
        } else if same_text(number, "6") {
            Ok(Verses(32))
        } else {
            Err(
                Failure::Invalid {
                    element: "ending".to_owned(),
                    name: "number".to_owned(),
                    value: string_from(&chars_of(number)),
                },
            )
        }
    }
}

impl std::str::FromStr for Verses {
    type Err = Failure;

    /// Reads the attribute `number` of an ending, as `Verses::parse` does.
    fn from_str(number: &str) -> (r: Result<Verses, Failure>)
        ensures
            r is Ok ==> verses_of(number@) == Some(r->Ok_0),
            match named(number@) {
                Some(verses) => r is Ok && r->Ok_0@ == verses,
                None => r is Err && r->Err_0@ == (crate::error::FailureView::Invalid {
                    element: "ending"@,
                    name: "number"@,
                    value: number@,
                }),
            },
    {
        Verses::parse(number)
    }
}

} // verus!
