use vstd::prelude::*;

verus! {

/// One decimal digit of a display.
#[derive(PartialEq, Eq, Structural, Debug, Clone, Copy)]
pub enum Digit {
    One,
    Two,
    Three,
    Four,
    Five,
    Six,
    Seven,
    Eight,
    Nine,
    Zero,
}

pub open spec fn is_digit_char(c: char) -> bool {
    '0' <= c && c <= '9'
}

/// The digit that a character from `'0'` to `'9'` names.
pub open spec fn digit_of(c: char) -> Digit {
    if c == '1' {
        Digit::One
    } else if c == '2' {
        Digit::Two
    } else if c == '3' {
        Digit::Three
    } else if c == '4' {
        Digit::Four
    } else if c == '5' {
        Digit::Five
    } else if c == '6' {
        Digit::Six
    } else if c == '7' {
        Digit::Seven
    } else if c == '8' {
        Digit::Eight
    } else if c == '9' {
        Digit::Nine
    } else {
        Digit::Zero
    }
}

/// Whether every character of `s` is a digit.
pub open spec fn all_digits(s: Seq<char>) -> bool {
    forall|k: int| 0 <= k < s.len() ==> is_digit_char(#[trigger] s[k])
}

/// The digits that a string of digit characters names, one for each.
pub open spec fn digits_of(s: Seq<char>) -> Seq<Digit> {
    s.map_values(|c: char| digit_of(c))
}

impl Digit {
    /// The digit that the character `c` names.
    pub fn from(c: char) -> (d: Digit)
        requires
            is_digit_char(c),
        ensures
            d == digit_of(c),
    {
        match c {
            '1' => Digit::One,
            '2' => Digit::Two,
            '3' => Digit::Three,
            '4' => Digit::Four,
            '5' => Digit::Five,
            '6' => Digit::Six,
            '7' => Digit::Seven,
            '8' => Digit::Eight,
            '9' => Digit::Nine,
            _ => Digit::Zero,
        }
    }
}

/// A row of digits.
#[derive(PartialEq, Debug)]
pub struct VecDigit {
    data: Vec<Digit>,
}

impl View for VecDigit {
    type V = Seq<Digit>;

    closed spec fn view(&self) -> Seq<Digit> {
        self.data@
    }
}

/// The error of a display whose input holds a character other than a digit.
#[derive(PartialEq, Eq, Structural, Debug)]
pub struct DisplayError;

impl DisplayError {
    fn new() -> (e: DisplayError) {
        DisplayError
    }
}

impl VecDigit {
    pub fn new(vec: Vec<Digit>) -> (r: VecDigit)
        ensures
            r@ == vec@,
    {
        VecDigit { data: vec }
    }

    /// The digits of `s`, or the error where a character of `s` is not one
    /// of `'0'` to `'9'`.
    pub fn from_str(s: &str) -> (r: Result<VecDigit, DisplayError>)
        ensures
            all_digits(s@) ==> r is Ok && r->Ok_0@ == digits_of(s@),
            !all_digits(s@) ==> r is Err,
    {
        let mut vec: Vec<Digit> = Vec::new();
        for c in it: s.chars()
            invariant
                it.seq() == s@,
                vec@ == digits_of(s@.take(it.index() as int)),
                forall|k: int| 0 <= k < it.index() ==> is_digit_char(#[trigger] s@[k]),
        {
            if c < '0' || c > '9' {
                return Err(DisplayError::new());
            }
            vec.push(Digit::from(c));
            proof {
                assert(s@.take(it.index() + 1) =~= s@.take(it.index() as int).push(c));
                assert(digits_of(s@.take(it.index() + 1)) =~= digits_of(s@.take(it.index() as int)).push(digit_of(c)));
            }
        }
        proof {
            assert(s@.take(s@.len() as int) =~= s@);
        }
        Ok(VecDigit::new(vec))
    }
}

/// A display that shows the digits of its last input.
pub struct Display {
    input: Option<&'static str>,
}

impl Display {
    pub closed spec fn input_text(&self) -> Option<Seq<char>> {
        match self.input {
            Some(d) => Some(d@),
            None => None,
        }
    }

    pub fn new() -> (d: Display)
        ensures
            d.input_text() is None,
    {
        Display { input: None }
    }

    /// Sets what the display shows.
    pub fn input(&mut self, data: &'static str)
        ensures
            final(self).input_text() == Some(data@),
    {
        self.input = Some(data);
    }

    /// The digits of the input; none where no input was given; the error where
    /// the input holds a character other than a digit.
    pub fn output(&self) -> (r: Result<VecDigit, DisplayError>)
        ensures
            match self.input_text() {
                None => r is Ok && r->Ok_0@ == Seq::<Digit>::empty(),
                Some(t) => if all_digits(t) {
                    r is Ok && r->Ok_0@ == digits_of(t)
                } else {
                    r is Err
                },
            },
    {
        match self.input {
            Some(data) => VecDigit::from_str(data),
            None => Ok(VecDigit::new(Vec::new())),
        }
    }
}

} // verus!
