//! Numbers as decimal text.
use vstd::prelude::*;

verus! {

/// The character of a decimal digit.
pub open spec fn digit_char(d: nat) -> char {
    (48 + d) as char
}

/// A number in decimal, without leading zeros.
pub open spec fn decimal(n: nat) -> Seq<char>
    decreases n,
{
    if n < 10 {
        seq![digit_char(n)]
    } else {
        decimal(n / 10).push(digit_char(n % 10))
    }
}

/// A number in decimal, with leading zeros up to four digits.
pub open spec fn decimal4(n: nat) -> Seq<char> {
    Seq::new((if n < 10 {
        3nat
    } else if n < 100 {
        2
    } else if n < 1000 {
        1
    } else {
        0
    }), |i: int| '0') + decimal(n)
}

/// The text of a decimal digit.
fn digit(d: u8) -> (text: &'static str)
    requires
        d < 10,
    ensures
        text@ == seq![digit_char(d as nat)],
{
    proof {
        reveal_strlit("0");
        reveal_strlit("1");
        reveal_strlit("2");
        reveal_strlit("3");
        reveal_strlit("4");
        reveal_strlit("5");
        reveal_strlit("6");
        reveal_strlit("7");
        reveal_strlit("8");
        reveal_strlit("9");
    }
    let text = if d == 0 {
        "0"
    } else if d == 1 {
        "1"
    } else if d == 2 {
        "2"
    } else if d == 3 {
        "3"
    } else if d == 4 {
        "4"
    } else if d == 5 {
        "5"
    } else if d == 6 {
        "6"
    } else if d == 7 {
        "7"
    } else if d == 8 {
        "8"
    } else {
        "9"
    };
    assert(text@ =~= seq![digit_char(d as nat)]);
    text
}

/// `x` in decimal.
pub fn to_decimal(x: u64) -> (text: String)
    ensures
        text@ == decimal(x as nat),
    decreases x,
{
    let mut text = if x < 10 {
        String::new()
    } else {
        to_decimal(x / 10)
    };
    text.append(digit((x % 10) as u8));
    assert(text@ =~= decimal(x as nat));
    text
}

/// `x` in decimal, with leading zeros up to four digits.
pub fn to_decimal4(x: u64) -> (text: String)
    ensures
        text@ == decimal4(x as nat),
{
    proof {
        reveal_strlit("000");
        reveal_strlit("00");
        reveal_strlit("0");
    }
    let mut text = String::new();
    if x < 10 {
        text.append("000");
    } else if x < 100 {
        text.append("00");
    } else if x < 1000 {
        text.append("0");
    }
    text.append(to_decimal(x).as_str());
    assert(text@ =~= decimal4(x as nat));
    text
}

/// Four digits are what [`decimal4`] gives to every number below ten
/// thousand, and larger numbers keep all of theirs.
pub proof fn law_decimal4_width(n: nat)
    ensures
        n < 10000 ==> decimal4(n).len() == 4,
        n >= 10000 ==> decimal4(n) == decimal(n) && decimal(n).len() > 4,
    decreases n,
{
    reveal_with_fuel(decimal, 5);
    if n >= 10000 {
        assert(decimal4(n) =~= decimal(n));
        lemma_decimal_nonempty(n / 10000);
        assert(decimal(n / 1000) == decimal(n / 1000 / 10).push(digit_char((n / 1000) % 10)));
        assert(n / 10 / 10 / 10 == n / 1000 && n / 1000 / 10 == n / 10000);
    }
}

proof fn lemma_decimal_nonempty(n: nat)
    ensures
        decimal(n).len() > 0,
{
}

/// Different numbers have different decimals.
pub proof fn law_decimal_injective(m: nat, n: nat)
    requires
        decimal(m) == decimal(n),
    ensures
        m == n,
    decreases m,
{
    if m < 10 {
        lemma_decimal_nonempty(n / 10);
        assert(decimal(m)[0] == digit_char(m));
        if n < 10 {
            assert(decimal(n)[0] == digit_char(n));
        } else {
            assert(decimal(n).len() == decimal(n / 10).len() + 1);
        }
    } else {
        lemma_decimal_nonempty(m / 10);
        assert(decimal(m).len() == decimal(m / 10).len() + 1);
        if n < 10 {
            assert(decimal(n).len() == 1);
        } else {
            assert(decimal(m).drop_last() =~= decimal(m / 10));
            assert(decimal(n).drop_last() =~= decimal(n / 10));
            law_decimal_injective(m / 10, n / 10);
            assert(decimal(m).last() == digit_char(m % 10));
            assert(decimal(n).last() == digit_char(n % 10));
        }
    }
}

/// The four digits that [`decimal4`] gives to a number below ten thousand.
proof fn lemma_decimal4_digits(n: nat)
    requires
        n < 10000,
    ensures
        decimal4(n) == seq![
            digit_char(n / 1000),
            digit_char(n / 100 % 10),
            digit_char(n / 10 % 10),
            digit_char(n % 10),
        ],
{
    reveal_with_fuel(decimal, 5);
    assert(n / 10 / 10 == n / 100 && n / 100 / 10 == n / 1000);
    assert(decimal4(n) =~= seq![
        digit_char(n / 1000),
        digit_char(n / 100 % 10),
        digit_char(n / 10 % 10),
        digit_char(n % 10),
    ]);
}

proof fn lemma_same_digit(d: nat, e: nat)
    requires
        d < 10,
        e < 10,
        digit_char(d) == digit_char(e),
    ensures
        d == e,
{
}

proof fn lemma_digits_make_the_number(n: nat)
    ensures
        n == 1000 * (n / 1000) + 100 * (n / 100 % 10) + 10 * (n / 10 % 10) + n % 10,
{
}

/// Different numbers have different decimals with leading zeros too.
#[verifier::spinoff_prover]
pub proof fn law_decimal4_injective(m: nat, n: nat)
    requires
        decimal4(m) == decimal4(n),
    ensures
        m == n,
{
    law_decimal4_width(m);
    law_decimal4_width(n);
    if m < 10000 && n < 10000 {
        lemma_decimal4_digits(m);
        lemma_decimal4_digits(n);
        let (a, b) = (decimal4(m), decimal4(n));
        assert(a[0] == digit_char(m / 1000) && b[0] == digit_char(n / 1000));
        assert(a[1] == digit_char(m / 100 % 10) && b[1] == digit_char(n / 100 % 10));
        assert(a[2] == digit_char(m / 10 % 10) && b[2] == digit_char(n / 10 % 10));
        assert(a[3] == digit_char(m % 10) && b[3] == digit_char(n % 10));
        lemma_same_digit(m / 1000, n / 1000);
        lemma_same_digit(m / 100 % 10, n / 100 % 10);
        lemma_same_digit(m / 10 % 10, n / 10 % 10);
        lemma_same_digit(m % 10, n % 10);
        lemma_digits_make_the_number(m);
        lemma_digits_make_the_number(n);
    } else if m >= 10000 && n >= 10000 {
        law_decimal_injective(m, n);
    }
}

/// A number is spelled in base ten: a digit stands for itself, and one digit
/// more is one place more.
pub proof fn law_decimal_places(n: nat, d: nat)
    requires
        d < 10,
    ensures
        decimal(d) == seq![(0x30 + d) as char],
        n > 0 ==> decimal(10 * n + d) == decimal(n).push((0x30 + d) as char),
{
    if n > 0 {
        assert((10 * n + d) / 10 == n && (10 * n + d) % 10 == d);
    }
}

/// The four digits of a number below ten thousand are its thousands, its
/// hundreds, its tens and its ones; a larger number is spelled as ever.
pub proof fn law_decimal4_digits(n: nat)
    ensures
        n < 10000 ==> decimal4(n) == seq![
            (0x30 + n / 1000) as char,
            (0x30 + n / 100 % 10) as char,
            (0x30 + n / 10 % 10) as char,
            (0x30 + n % 10) as char,
        ],
        n >= 10000 ==> decimal4(n) == decimal(n),
{
    law_decimal4_width(n);
    if n < 10000 {
        lemma_decimal4_digits(n);
    }
}

} // verus!
