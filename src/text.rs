//! Counting words: a number followed by the right plural form.
use vstd::prelude::*;

verus! {

pub open spec fn digit_char(d: nat) -> char {
    seq!['0', '1', '2', '3', '4', '5', '6', '7', '8', '9'][d as int]
}

/// Decimal digits of `n`, without leading zeros.
pub open spec fn digits(n: nat) -> Seq<char>
    decreases n,
{
    if n < 10 {
        seq![digit_char(n)]
    } else {
        digits(n / 10).push(digit_char(n % 10))
    }
}

/// Decimal text of `n`, with a leading `-` when negative.
pub open spec fn decimal(n: int) -> Seq<char> {
    if n < 0 {
        seq!['-'] + digits((-n) as nat)
    } else {
        digits(n as nat)
    }
}

/// Remainder of `n / d` with the sign of `n`, as Rust's `%` computes it.
pub open spec fn trunc_rem(n: int, d: int) -> int {
    if n >= 0 {
        n % d
    } else {
        -((-n) % d)
    }
}

/// Which of the three forms follows `num`: 0 for one (1, 21, 31, ...), 1 for
/// a few (2-4, 22-24, ...), 2 for many (0, 5-20, 25-30, ..., and 11-19).
pub open spec fn plural_form(num: int) -> int {
    let last = trunc_rem(num, 100);
    if 11 <= last <= 19 {
        2
    } else if trunc_rem(last, 10) == 1 {
        0
    } else if 2 <= trunc_rem(last, 10) <= 4 {
        1
    } else {
        2
    }
}

fn digit_str(d: u64) -> (r: &'static str)
    requires
        d < 10,
    ensures
        r@ == seq![digit_char(d as nat)],
{
    let r = match d {
        0 => "0",
        1 => "1",
        2 => "2",
        3 => "3",
        4 => "4",
        5 => "5",
        6 => "6",
        7 => "7",
        8 => "8",
        _ => "9",
    };
    proof {
        reveal_strlit("0");
        reveal_strlit("1");
        reveal_strlit("2");
        reveal_strlit("3");
        reveal_strlit("4");
        reveal_strlit("5");
        reveal_strlit("6");
        reveal_strlit("7");
        reveal_strlit("8");
        reveal_strlit("9");
        assert(r@ =~= seq![digit_char(d as nat)]);
    }
    r
}

fn push_digits(out: &mut String, n: u64)
    ensures
        final(out)@ == old(out)@ + digits(n as nat),
    decreases n,
{
    if n >= 10 {
        push_digits(out, n / 10);
    }
    let ghost before = out@;
    out.append(digit_str(n % 10));
    proof {
        if n >= 10 {
            assert(out@ =~= old(out)@ + digits(n as nat));
        } else {
            assert(out@ =~= old(out)@ + digits(n as nat));
        }
    }
}

/// The decimal text of `n`.
pub fn decimal_string(n: i64) -> (r: String)
    ensures
        r@ == decimal(n as int),
{
    let mut out = String::new();
    if n < 0 {
        out.append("-");
        proof {
            reveal_strlit("-");
        }
        let m: u64 = (-(n as i128)) as u64;
        push_digits(&mut out, m);
        proof {
            assert(out@ =~= decimal(n as int));
        }
    } else {
        push_digits(&mut out, n as u64);
        proof {
            assert(out@ =~= decimal(n as int));
        }
    }
    out
}

/// `num`, a space, and the form of the word that goes with it: `texts.0`
/// for one, `texts.1` for a few, `texts.2` for many.
pub fn pluralize(num: i64, texts: (&str, &str, &str)) -> (r: String)
    ensures
        r@ == decimal(num as int) + seq![' '] + (if plural_form(num as int) == 0 {
            texts.0@
        } else if plural_form(num as int) == 1 {
            texts.1@
        } else {
            texts.2@
        }),
{
    let last = num % 100;
    let tens = last % 10;
    let plural = if 11 <= last && last <= 19 {
        texts.2
    } else if tens == 1 {
        texts.0
    } else if 2 <= tens && tens <= 4 {
        texts.1
    } else {
        texts.2
    };
    let mut out = decimal_string(num);
    out.append(" ");
    out.append(plural);
    proof {
        reveal_strlit(" ");
    }
    out
}

} // verus!
