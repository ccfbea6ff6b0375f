//! Whole numbers in text, as C's `strtoul` reads them in base ten where a
//! `long` has 64 bits.

use vstd::prelude::*;

verus! {

/// A whole number that was scanned from the front of a text.
#[derive(Clone, Copy, Debug, PartialEq, Eq, Structural)]
pub struct CountScan {
    pub value: u64,
    /// How many bytes the number takes up; none where there is none.
    pub consumed: usize,
}

/// Whether a byte is white space.
pub open spec fn is_space(b: u8) -> bool {
    b == 32 || 9 <= b <= 13
}

/// Whether a byte is a decimal digit.
pub open spec fn is_digit(b: u8) -> bool {
    48 <= b <= 57
}

/// Where the white space that begins at `i` ends.
pub open spec fn end_of_spaces(s: Seq<u8>, i: int) -> int
    decreases s.len() - i,
{
    if 0 <= i < s.len() && is_space(s[i]) {
        end_of_spaces(s, i + 1)
    } else {
        i
    }
}

/// Where the digits that begin at `i` end.
pub open spec fn end_of_digits(s: Seq<u8>, i: int) -> int
    decreases s.len() - i,
{
    if 0 <= i < s.len() && is_digit(s[i]) {
        end_of_digits(s, i + 1)
    } else {
        i
    }
}

/// The number that the digits from `i` up to `j` write down.
pub open spec fn decimal(s: Seq<u8>, i: int, j: int) -> int
    decreases j - i,
{
    if j <= i {
        0
    } else {
        decimal(s, i, j - 1) * 10 + (s[j - 1] - 48)
    }
}

/// The number at the front of a text: white space, a sign, digits. A minus
/// sign gives the complement; what does not fit gives the largest number.
pub open spec fn scanned(s: Seq<u8>) -> CountScan {
    let start = end_of_spaces(s, 0);
    let minus = start < s.len() && s[start] == 45;
    let plus = start < s.len() && s[start] == 43;
    let first = if minus || plus {
        start + 1
    } else {
        start
    };
    let end = end_of_digits(s, first);
    let number = decimal(s, first, end);
    if end == first {
        CountScan { value: 0, consumed: 0 }
    } else if number > u64::MAX {
        CountScan { value: u64::MAX, consumed: end as usize }
    } else if minus && number > 0 {
        CountScan { value: (u64::MAX - number + 1) as u64, consumed: end as usize }
    } else {
        CountScan { value: number as u64, consumed: end as usize }
    }
}

/// A number without sign and white space, in base ten.
pub open spec fn decimal_text(n: nat) -> Seq<u8>
    decreases n,
{
    if n < 10 {
        seq![(48 + n) as u8]
    } else {
        decimal_text(n / 10).push((48 + n % 10) as u8)
    }
}

/// Scans the number at the front of a text.
pub fn scan_count(s: &[u8]) -> (r: CountScan)
    ensures
        r == scanned(s@),
{
    let n: usize = s.len();
    let mut i: usize = 0;
    while i < n && (s[i] == 32 || (9 <= s[i] && s[i] <= 13))
        invariant
            i <= n,
            n == s@.len(),
            end_of_spaces(s@, 0) == end_of_spaces(s@, i as int),
        decreases n - i,
    {
        i = i + 1;
    }
    let minus: bool = i < n && s[i] == 45;
    let plus: bool = i < n && s[i] == 43;
    if minus || plus {
        i = i + 1;
    }
    let first: usize = i;
    let mut value: u64 = 0;
    let mut fits: bool = true;
    while i < n && 48 <= s[i] && s[i] <= 57
        invariant
            first <= i <= n,
            n == s@.len(),
            end_of_digits(s@, first as int) == end_of_digits(s@, i as int),
            decimal(s@, first as int, i as int) >= 0,
            fits ==> value == decimal(s@, first as int, i as int),
            !fits ==> decimal(s@, first as int, i as int) > u64::MAX,
        decreases n - i,
    {
        let digit: u64 = (s[i] - 48) as u64;
        if value > (u64::MAX - digit) / 10 {
            fits = false;
        }
        if fits {
            value = value * 10 + digit;
        }
        i = i + 1;
    }
    if i == first {
        CountScan { value: 0, consumed: 0 }
    } else if !fits {
        CountScan { value: u64::MAX, consumed: i }
    } else if minus && value > 0 {
        CountScan { value: u64::MAX - value + 1, consumed: i }
    } else {
        CountScan { value, consumed: i }
    }
}

/// Digits only count where they stand.
proof fn lemma_decimal_prefix(s: Seq<u8>, t: Seq<u8>, j: int)
    requires
        0 <= j <= s.len(),
        j <= t.len(),
        forall|k: int| 0 <= k < j ==> s[k] == t[k],
    ensures
        decimal(s, 0, j) == decimal(t, 0, j),
    decreases j,
{
    if j > 0 {
        lemma_decimal_prefix(s, t, j - 1);
    }
}

/// Digits up to a place where there is none end there.
proof fn lemma_end_of_digits(s: Seq<u8>, i: int, j: int)
    requires
        0 <= i <= j <= s.len(),
        forall|k: int| i <= k < j ==> is_digit(#[trigger] s[k]),
        j < s.len() ==> !is_digit(s[j]),
    ensures
        end_of_digits(s, i) == j,
    decreases j - i,
{
    if i < j {
        assert(is_digit(s[i]));
        lemma_end_of_digits(s, i + 1, j);
    }
}

/// The decimal text of a number consists of digits and writes the number down.
pub proof fn lemma_decimal_text(n: nat)
    ensures
        ({
            let text = decimal_text(n);
            &&& text.len() > 0
            &&& decimal(text, 0, text.len() as int) == n
            &&& forall|k: int| 0 <= k < text.len() ==> is_digit(#[trigger] text[k])
        }),
    decreases n,
{
    let text = decimal_text(n);
    if n < 10 {
        assert(decimal(text, 0, 0) == 0);
    } else {
        let front = decimal_text(n / 10);
        lemma_decimal_text(n / 10);
        lemma_decimal_prefix(front, text, front.len() as int);
        assert forall|k: int| 0 <= k < text.len() implies is_digit(#[trigger] text[k]) by {
            if k < front.len() {
                assert(text[k] == front[k]);
            }
        }
    }
}

/// The decimal text of a number that fits is scanned as this number, up to
/// whatever follows that does not begin with a digit.
pub proof fn law_decimal_text_comes_back(n: nat, rest: Seq<u8>)
    requires
        n <= u64::MAX,
        rest.len() == 0 || !is_digit(rest[0]),
        decimal_text(n).len() + rest.len() <= usize::MAX,
    ensures
        scanned(decimal_text(n) + rest) == (CountScan {
            value: n as u64,
            consumed: decimal_text(n).len() as usize,
        }),
{
    let text = decimal_text(n);
    let s = text + rest;
    lemma_decimal_text(n);
    assert(is_digit(text[0]));
    assert(s[0] == text[0]);
    assert(end_of_spaces(s, 0) == 0);
    assert forall|k: int| 0 <= k < text.len() implies is_digit(#[trigger] s[k]) by {
        assert(s[k] == text[k]);
    }
    lemma_end_of_digits(s, 0, text.len() as int);
    lemma_decimal_prefix(text, s, text.len() as int);
}

/// White space ends where something else stands.
proof fn lemma_end_of_spaces(s: Seq<u8>, i: int, j: int)
    requires
        0 <= i <= j <= s.len(),
        forall|k: int| i <= k < j ==> is_space(#[trigger] s[k]),
        j < s.len() ==> !is_space(s[j]),
    ensures
        end_of_spaces(s, i) == j,
    decreases j - i,
{
    if i < j {
        assert(is_space(s[i]));
        lemma_end_of_spaces(s, i + 1, j);
    }
}

/// Digits write down the same number wherever they stand, and zeros before them
/// change nothing.
proof fn lemma_decimal_at(s: Seq<u8>, i: int, zeros: int, digits: Seq<u8>, j: int)
    requires
        0 <= i,
        0 <= zeros,
        0 <= j <= digits.len(),
        i + zeros + j <= s.len(),
        forall|k: int| i <= k < i + zeros ==> #[trigger] s[k] == 48,
        forall|k: int| 0 <= k < j ==> s[i + zeros + k] == #[trigger] digits[k],
    ensures
        decimal(s, i, i + zeros + j) == decimal(digits, 0, j),
    decreases zeros + j,
{
    if j > 0 {
        lemma_decimal_at(s, i, zeros, digits, j - 1);
        assert(s[i + zeros + (j - 1)] == digits[j - 1]);
    } else if zeros > 0 {
        lemma_decimal_at(s, i, zeros - 1, digits, 0);
        assert(s[i + zeros - 1] == 48);
    }
}

/// A number is scanned from white space, a sign, leading zeros and its decimal
/// text, whatever follows that does not begin with a digit. Numbers from 2 to
/// the power 64 on give the largest one, and a minus sign gives what is missing
/// from 2 to the power 64.
pub proof fn law_number_is_scanned(
    spaces: Seq<u8>,
    sign: Seq<u8>,
    zeros: nat,
    n: nat,
    rest: Seq<u8>,
)
    requires
        forall|k: int|
            0 <= k < spaces.len() ==> (#[trigger] spaces[k] == 32 || spaces[k] == 9 || spaces[k]
                == 10 || spaces[k] == 11 || spaces[k] == 12 || spaces[k] == 13),
        sign == Seq::<u8>::empty() || sign == seq![43u8] || sign == seq![45u8],
        rest.len() == 0 || rest[0] < 48 || rest[0] > 57,
        spaces.len() + sign.len() + zeros + decimal_text(n).len() + rest.len() <= usize::MAX,
    ensures
        ({
            let text = spaces + sign + Seq::new(zeros, |k: int| 48u8) + decimal_text(n) + rest;
            let scan = scanned(text);
            &&& scan.consumed == spaces.len() + sign.len() + zeros + decimal_text(n).len()
            &&& scan.value == if n >= 0x1_0000_0000_0000_0000 {
                0xFFFF_FFFF_FFFF_FFFF
            } else if sign == seq![45u8] && n > 0 {
                0x1_0000_0000_0000_0000 - n
            } else {
                n as int
            }
        }),
{
    let digits = decimal_text(n);
    let padding = Seq::new(zeros, |k: int| 48u8);
    let s = spaces + sign + padding + digits + rest;
    let (a, b): (int, int) = (spaces.len() as int, (spaces.len() + sign.len()) as int);
    let end: int = b + zeros + digits.len();
    lemma_decimal_text(n);
    assert forall|k: int| 0 <= k < a implies is_space(#[trigger] s[k]) by {
        assert(s[k] == spaces[k]);
    }
    assert forall|k: int| b <= k < b + zeros implies #[trigger] s[k] == 48 by {
        assert(s[k] == padding[k - b]);
    }
    assert forall|k: int| 0 <= k < digits.len() implies s[b + zeros + k] == #[trigger] digits[k] by {}
    assert forall|k: int| b <= k < end implies is_digit(#[trigger] s[k]) by {
        if k >= b + zeros {
            assert(s[k] == digits[k - b - zeros]);
            assert(is_digit(digits[k - b - zeros]));
        }
    }
    assert(end < s.len() ==> s[end] == rest[0]);
    assert(is_digit(s[b]));
    assert(sign.len() == 1 ==> s[a] == sign[0]);
    assert(seq![43u8][0] == 43 && seq![45u8][0] == 45);
    lemma_end_of_spaces(s, 0, a);
    lemma_end_of_digits(s, b, end);
    lemma_decimal_at(s, b, zeros as int, digits, digits.len() as int);
}

/// Where no digit stands behind the white space and the sign, there is no
/// number.
pub proof fn law_no_number_is_scanned(spaces: Seq<u8>, sign: Seq<u8>, rest: Seq<u8>)
    requires
        forall|k: int|
            0 <= k < spaces.len() ==> (#[trigger] spaces[k] == 32 || spaces[k] == 9 || spaces[k]
                == 10 || spaces[k] == 11 || spaces[k] == 12 || spaces[k] == 13),
        sign == Seq::<u8>::empty() || sign == seq![43u8] || sign == seq![45u8],
        rest.len() == 0 || rest[0] < 48 || rest[0] > 57,
        sign.len() == 0 && rest.len() > 0 ==> rest[0] != 32 && (rest[0] < 9 || rest[0] > 13)
            && rest[0] != 43 && rest[0] != 45,
    ensures
        scanned(spaces + sign + rest) == (CountScan { value: 0, consumed: 0 }),
{
    let s = spaces + sign + rest;
    let (a, b): (int, int) = (spaces.len() as int, (spaces.len() + sign.len()) as int);
    assert forall|k: int| 0 <= k < a implies is_space(#[trigger] s[k]) by {
        assert(s[k] == spaces[k]);
    }
    assert(sign.len() == 1 ==> s[a] == sign[0]);
    assert(seq![43u8][0] == 43 && seq![45u8][0] == 45);
    assert(b < s.len() ==> s[b] == rest[0]);
    lemma_end_of_spaces(s, 0, a);
    lemma_end_of_digits(s, b, b);
}

} // verus!
