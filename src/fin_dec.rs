//! Decimal digits and finite digit strings.
use vstd::prelude::*;
use vstd::string::StrSliceExecFns;

verus! {

/// A decimal digit.
#[derive(Debug, PartialEq, Eq, Clone, Copy, Structural)]
pub enum Digit {
    Zero,
    One,
    Two,
    Three,
    Four,
    Five,
    Six,
    Seven,
    Eight,
    Nine,
}

/// The digit whose value is `n`, for `n < 10`.
pub open spec fn digit_of(n: nat) -> Digit {
    if n == 0 {
        Digit::Zero
    } else if n == 1 {
        Digit::One
    } else if n == 2 {
        Digit::Two
    } else if n == 3 {
        Digit::Three
    } else if n == 4 {
        Digit::Four
    } else if n == 5 {
        Digit::Five
    } else if n == 6 {
        Digit::Six
    } else if n == 7 {
        Digit::Seven
    } else if n == 8 {
        Digit::Eight
    } else {
        Digit::Nine
    }
}

/// `c` is one of the characters `'0'` to `'9'`.
pub open spec fn is_digit_char(c: char) -> bool {
    '0' <= c <= '9'
}

/// The digit that the character `c` writes, for a digit character.
pub open spec fn char_digit(c: char) -> Digit {
    digit_of((c as nat - '0' as nat) as nat)
}

impl Digit {
    /// The value of the digit.
    pub open spec fn value(self) -> nat {
        match self {
            Digit::Zero => 0,
            Digit::One => 1,
            Digit::Two => 2,
            Digit::Three => 3,
            Digit::Four => 4,
            Digit::Five => 5,
            Digit::Six => 6,
            Digit::Seven => 7,
            Digit::Eight => 8,
            Digit::Nine => 9,
        }
    }

    /// The digit that `c` writes, if it is one of `'0'` to `'9'`.
    pub fn try_from_char(c: char) -> (r: Option<Digit>)
        ensures
            r is Some <==> is_digit_char(c),
            r is Some ==> r == Some(char_digit(c)),
    {
        match c {
            '0' => Some(Digit::Zero),
            '1' => Some(Digit::One),
            '2' => Some(Digit::Two),
            '3' => Some(Digit::Three),
            '4' => Some(Digit::Four),
            '5' => Some(Digit::Five),
            '6' => Some(Digit::Six),
            '7' => Some(Digit::Seven),
            '8' => Some(Digit::Eight),
            '9' => Some(Digit::Nine),
            _ => None,
        }
    }

    /// The digit whose value is `num`, if `num` is below ten.
    pub fn try_from_u64(num: u64) -> (r: Option<Digit>)
        ensures
            r is Some <==> num < 10,
            r is Some ==> r == Some(digit_of(num as nat)),
    {
        match num {
            0 => Some(Digit::Zero),
            1 => Some(Digit::One),
            2 => Some(Digit::Two),
            3 => Some(Digit::Three),
            4 => Some(Digit::Four),
            5 => Some(Digit::Five),
            6 => Some(Digit::Six),
            7 => Some(Digit::Seven),
            8 => Some(Digit::Eight),
            9 => Some(Digit::Nine),
            _ => None,
        }
    }

    /// The value of the digit.
    pub fn to_u64(self) -> (r: u64)
        ensures
            r as nat == self.value(),
    {
        match self {
            Digit::Zero => 0,
            Digit::One => 1,
            Digit::Two => 2,
            Digit::Three => 3,
            Digit::Four => 4,
            Digit::Five => 5,
            Digit::Six => 6,
            Digit::Seven => 7,
            Digit::Eight => 8,
            Digit::Nine => 9,
        }
    }
}

/// Sum of the values of the digits.
pub open spec fn digit_sum(d: Seq<Digit>) -> nat
    decreases d.len(),
{
    if d.len() == 0 {
        0
    } else {
        digit_sum(d.drop_last()) + d.last().value()
    }
}

/// A finite string of decimal digits.
#[derive(Debug, PartialEq, Eq, Clone)]
pub struct Decimal(Vec<Digit>);

impl View for Decimal {
    type V = Seq<Digit>;

    closed spec fn view(&self) -> Seq<Digit> {
        self.0@
    }
}

impl From<Vec<Digit>> for Decimal {
    fn from(digits: Vec<Digit>) -> (r: Decimal)
        ensures
            r@ == digits@,
    {
        Decimal(digits)
    }
}

impl vstd::std_specs::convert::FromSpecImpl<Vec<Digit>> for Decimal {
    open spec fn obeys_from_spec() -> bool {
        true
    }

    closed spec fn from_spec(v: Vec<Digit>) -> Decimal {
        Decimal(v)
    }
}

impl Decimal {
    /// The decimal written by `s`, if every character of `s` is a digit.
    pub fn try_from_str(s: &str) -> (r: Option<Decimal>)
        ensures
            r is Some <==> forall|i: int| 0 <= i < s@.len() ==> is_digit_char(#[trigger] s@[i]),
            r is Some ==> r->0@ == s@.map_values(|c: char| char_digit(c)),
    {
        let mut v: Vec<Digit> = Vec::new();
        let n = s.unicode_len();
        let mut i: usize = 0;
        while i < n
            invariant
                i <= n,
                n == s@.len(),
                forall|j: int| 0 <= j < i ==> is_digit_char(#[trigger] s@[j]),
                v@ == s@.take(i as int).map_values(|c: char| char_digit(c)),
            decreases n - i,
        {
            let c = s.get_char(i);
            match Digit::try_from_char(c) {
                Some(d) => {
                    v.push(d);
                },
                None => {
                    return None;
                },
            }
            assert(s@.take(i + 1).map_values(|c: char| char_digit(c)) =~= s@.take(
                i as int,
            ).map_values(|c: char| char_digit(c)).push(char_digit(c)));
            i = i + 1;
        }
        assert(s@.take(n as int) =~= s@);
        Some(Decimal(v))
    }

    /// Number of digits.
    pub fn len(&self) -> (r: usize)
        ensures
            r == self@.len(),
    {
        self.0.len()
    }

    /// Sum of the values of the digits.
    pub fn sum_digits(&self) -> (r: u64)
        requires
            9 * self@.len() <= u64::MAX,
        ensures
            r as nat == digit_sum(self@),
    {
        let mut total: u64 = 0;
        let mut i: usize = 0;
        while i < self.0.len()
            invariant
                i <= self@.len(),
                9 * self@.len() <= u64::MAX,
                total as nat == digit_sum(self@.take(i as int)),
                total <= 9 * i,
            decreases self@.len() - i,
        {
            assert(self@.take(i + 1).drop_last() =~= self@.take(i as int));
            total = total + self.0[i].to_u64();
            i = i + 1;
        }
        assert(self@.take(i as int) =~= self@);
        total
    }
}

} // verus!
