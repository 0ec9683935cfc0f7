//! Conversion between bit strings (`'0'` / `'1'`) and hexadecimal strings,
//! one hex digit for each group of four bits.
use vstd::arithmetic::power2::{lemma2_to64, lemma_pow2_unfold, pow2};
use vstd::prelude::*;

verus! {

/// A character that is neither a bit (for a bit string) nor a hex digit
/// (for a hex string) was found at `position`.
#[derive(Debug, Clone, Copy, PartialEq, Eq, Structural)]
pub struct EncodingError {
    pub position: usize,
}

pub open spec fn is_bit(c: char) -> bool {
    c == '0' || c == '1'
}

pub open spec fn is_bit_string(s: Seq<char>) -> bool {
    forall|i: int| 0 <= i < s.len() ==> is_bit(#[trigger] s[i])
}

pub open spec fn is_hex_char(c: char) -> bool {
    ('0' <= c && c <= '9') || ('a' <= c && c <= 'f') || ('A' <= c && c <= 'F')
}

pub open spec fn is_hex_string(s: Seq<char>) -> bool {
    forall|i: int| 0 <= i < s.len() ==> is_hex_char(#[trigger] s[i])
}

/// `p` is the first position of `s` whose character fails `ok`.
pub open spec fn first_failing(s: Seq<char>, p: int, ok: spec_fn(char) -> bool) -> bool {
    &&& 0 <= p < s.len()
    &&& !ok(s[p])
    &&& forall|j: int| 0 <= j < p ==> ok(#[trigger] s[j])
}

/// The number that a string of binary digits denotes (most significant first).
pub open spec fn bits_value(s: Seq<char>) -> nat
    decreases s.len(),
{
    if s.len() == 0 {
        0
    } else {
        2 * bits_value(s.drop_last()) + (if s.last() == '1' { 1nat } else { 0nat })
    }
}

/// The upper-case hex digit of `v < 16`.
pub open spec fn hex_digit(v: nat) -> char {
    seq!['0', '1', '2', '3', '4', '5', '6', '7', '8', '9', 'A', 'B', 'C', 'D', 'E', 'F'][v as int]
}

/// The value of a hex digit of either case.
pub open spec fn hex_value(c: char) -> nat {
    if '0' <= c && c <= '9' {
        (c as u32 - '0' as u32) as nat
    } else if 'a' <= c && c <= 'f' {
        (c as u32 - 'a' as u32 + 10) as nat
    } else {
        (c as u32 - 'A' as u32 + 10) as nat
    }
}

pub open spec fn bit_char(b: bool) -> char {
    if b { '1' } else { '0' }
}

/// The four binary digits of `v < 16`, most significant first.
pub open spec fn nibble_bits(v: nat) -> Seq<char> {
    seq![bit_char(v / 8 % 2 == 1), bit_char(v / 4 % 2 == 1), bit_char(v / 2 % 2 == 1), bit_char(v % 2 == 1)]
}

/// Hex encoding of a bit string: each group of four bits from the left gives
/// one digit; a shorter last group gives the digit of its own value.
pub open spec fn hex_of_bits(s: Seq<char>) -> Seq<char>
    decreases s.len(),
{
    if s.len() == 0 {
        Seq::empty()
    } else if s.len() <= 4 {
        seq![hex_digit(bits_value(s))]
    } else {
        seq![hex_digit(bits_value(s.take(4)))] + hex_of_bits(s.skip(4))
    }
}

/// Bit string of a hex string: four bits for each digit.
pub open spec fn bits_of_hex(s: Seq<char>) -> Seq<char>
    decreases s.len(),
{
    if s.len() == 0 {
        Seq::empty()
    } else {
        nibble_bits(hex_value(s[0])) + bits_of_hex(s.drop_first())
    }
}

/// A bit string whose length is a multiple of four has a quarter as many hex digits.
pub proof fn lemma_hex_of_bits_len(s: Seq<char>)
    requires
        s.len() % 4 == 0,
    ensures
        hex_of_bits(s).len() == s.len() / 4,
    decreases s.len(),
{
    if s.len() > 4 {
        lemma_hex_of_bits_len(s.skip(4));
    }
}

proof fn lemma_bits_value_bound(s: Seq<char>)
    ensures
        bits_value(s) < pow2(s.len()),
    decreases s.len(),
{
    if s.len() == 0 {
        lemma2_to64();
    } else {
        lemma_bits_value_bound(s.drop_last());
        lemma_pow2_unfold(s.len());
    }
}

/// Position of the first character of `cs` that is not a bit, if any.
fn find_non_bit(cs: &Vec<char>) -> (r: Option<usize>)
    ensures
        r matches Some(p) ==> first_failing(cs@, p as int, |c: char| is_bit(c)),
        r is None ==> is_bit_string(cs@),
{
    let mut i: usize = 0;
    while i < cs.len()
        invariant
            i <= cs@.len(),
            forall|j: int| 0 <= j < i ==> is_bit(#[trigger] cs@[j]),
        decreases cs@.len() - i,
    {
        if cs[i] != '0' && cs[i] != '1' {
            return Some(i);
        }
        i = i + 1;
    }
    None
}

/// The one-character string of the hex digit of `v`.
fn hex_digit_str(v: u8) -> (r: &'static str)
    requires
        v < 16,
    ensures
        r@ == seq![hex_digit(v as nat)],
{
    let r = match v {
        0 => "0",
        1 => "1",
        2 => "2",
        3 => "3",
        4 => "4",
        5 => "5",
        6 => "6",
        7 => "7",
        8 => "8",
        9 => "9",
        10 => "A",
        11 => "B",
        12 => "C",
        13 => "D",
        14 => "E",
        _ => "F",
    };
    proof {
        reveal_strlit("0");
        reveal_strlit("1");
        reveal_strlit("2");
        reveal_strlit("3");
        reveal_strlit("4");
        reveal_strlit("5");
        reveal_strlit("6");
        reveal_strlit("7");
        reveal_strlit("8");
        reveal_strlit("9");
        reveal_strlit("A");
        reveal_strlit("B");
        reveal_strlit("C");
        reveal_strlit("D");
        reveal_strlit("E");
        reveal_strlit("F");
        assert(r@ =~= seq![hex_digit(v as nat)]);
    }
    r
}

/// Encodes a bit string in upper-case hex, one digit for each group of four
/// bits; a last group of fewer than four bits gives the digit of its value.
pub fn from_binary_to_hex(s: &str) -> (r: Result<String, EncodingError>)
    ensures
        is_bit_string(s@) <==> r is Ok,
        r matches Ok(h) ==> h@ == hex_of_bits(s@),
        r matches Err(e) ==> first_failing(s@, e.position as int, |c: char| is_bit(c)),
{
    let cs = chars_of(s);
    if let Some(p) = find_non_bit(&cs) {
        return Err(EncodingError { position: p });
    }
    let n = cs.len();
    let mut out = String::new();
    let mut i: usize = 0;
    proof {
        assert(cs@.skip(0) =~= cs@);
        assert(out@ + hex_of_bits(cs@) =~= hex_of_bits(cs@));
    }
    while i < n
        invariant
            n == cs@.len(),
            cs@ == s@,
            is_bit_string(cs@),
            i <= n,
            out@ + hex_of_bits(cs@.skip(i as int)) == hex_of_bits(cs@),
        decreases n - i,
    {
        let end: usize = if n - i <= 4 { n } else { i + 4 };
        let mut v: u8 = 0;
        let mut j: usize = i;
        while j < end
            invariant
                i <= j <= end <= n,
                end - i <= 4,
                n == cs@.len(),
                v as nat == bits_value(cs@.subrange(i as int, j as int)),
                v < 16,
            decreases end - j,
        {
            proof {
                let t = cs@.subrange(i as int, j as int + 1);
                assert(t.drop_last() =~= cs@.subrange(i as int, j as int));
                lemma_bits_value_bound(t);
                lemma2_to64();
                lemma_pow2_unfold(1);
                lemma_pow2_unfold(2);
                lemma_pow2_unfold(3);
                lemma_pow2_unfold(4);
                assert(pow2(t.len()) <= 16);
            }
            v = 2 * v + if cs[j] == '1' { 1u8 } else { 0u8 };
            j = j + 1;
        }
        let d = hex_digit_str(v);
        proof {
            let rest = cs@.skip(i as int);
            if rest.len() <= 4 {
                assert(rest =~= cs@.subrange(i as int, end as int));
                assert(cs@.skip(end as int) =~= Seq::<char>::empty());
            } else {
                assert(rest.take(4) =~= cs@.subrange(i as int, end as int));
                assert(rest.skip(4) =~= cs@.skip(end as int));
            }
            assert(out@ + d@ + hex_of_bits(cs@.skip(end as int)) =~= out@ + hex_of_bits(rest));
        }
        out.append(d);
        i = end;
    }
    proof {
        assert(cs@.skip(n as int) =~= Seq::<char>::empty());
        assert(out@ + Seq::<char>::empty() =~= out@);
    }
    Ok(out)
}

/// The four-character bit string of `v`.
fn nibble_str(v: u8) -> (r: &'static str)
    requires
        v < 16,
    ensures
        r@ == nibble_bits(v as nat),
{
    let r = match v {
        0 => "0000",
        1 => "0001",
        2 => "0010",
        3 => "0011",
        4 => "0100",
        5 => "0101",
        6 => "0110",
        7 => "0111",
        8 => "1000",
        9 => "1001",
        10 => "1010",
        11 => "1011",
        12 => "1100",
        13 => "1101",
        14 => "1110",
        _ => "1111",
    };
    proof {
        reveal_strlit("0000");
        reveal_strlit("0001");
        reveal_strlit("0010");
        reveal_strlit("0011");
        reveal_strlit("0100");
        reveal_strlit("0101");
        reveal_strlit("0110");
        reveal_strlit("0111");
        reveal_strlit("1000");
        reveal_strlit("1001");
        reveal_strlit("1010");
        reveal_strlit("1011");
        reveal_strlit("1100");
        reveal_strlit("1101");
        reveal_strlit("1110");
        reveal_strlit("1111");
        assert(r@ =~= nibble_bits(v as nat));
    }
    r
}

/// The value of `c` as a hex digit, if it is one.
fn hex_digit_value(c: char) -> (r: Option<u8>)
    ensures
        r is Some <==> is_hex_char(c),
        r matches Some(v) ==> v as nat == hex_value(c) && v < 16,
{
    if '0' <= c && c <= '9' {
        Some((c as u32 - '0' as u32) as u8)
    } else if 'a' <= c && c <= 'f' {
        Some((c as u32 - 'a' as u32 + 10) as u8)
    } else if 'A' <= c && c <= 'F' {
        Some((c as u32 - 'A' as u32 + 10) as u8)
    } else {
        None
    }
}

/// Decodes a hex string (digits of either case) into its bit string, four
/// bits for each digit.
pub fn from_hex_to_binary(s: &str) -> (r: Result<String, EncodingError>)
    ensures
        is_hex_string(s@) <==> r is Ok,
        r matches Ok(b) ==> b@ == bits_of_hex(s@),
        r matches Err(e) ==> first_failing(s@, e.position as int, |c: char| is_hex_char(c)),
{
    let cs = chars_of(s);
    let n = cs.len();
    let mut out = String::new();
    let mut i: usize = 0;
    proof {
        assert(cs@.skip(0) =~= cs@);
        assert(out@ + bits_of_hex(cs@) =~= bits_of_hex(cs@));
    }
    while i < n
        invariant
            n == cs@.len(),
            cs@ == s@,
            i <= n,
            forall|j: int| 0 <= j < i ==> is_hex_char(#[trigger] cs@[j]),
            out@ + bits_of_hex(cs@.skip(i as int)) == bits_of_hex(cs@),
        decreases n - i,
    {
        match hex_digit_value(cs[i]) {
            None => {
                return Err(EncodingError { position: i });
            },
            Some(v) => {
                let d = nibble_str(v);
                proof {
                    let rest = cs@.skip(i as int);
                    assert(rest.drop_first() =~= cs@.skip(i + 1));
                    assert(out@ + d@ + bits_of_hex(cs@.skip(i + 1)) =~= out@ + bits_of_hex(rest));
                }
                out.append(d);
                i = i + 1;
            },
        }
    }
    proof {
        assert(cs@.skip(n as int) =~= Seq::<char>::empty());
        assert(out@ + Seq::<char>::empty() =~= out@);
    }
    Ok(out)
}

proof fn lemma_hex_digit_value(v: nat)
    requires
        v < 16,
    ensures
        is_hex_char(hex_digit(v)),
        hex_value(hex_digit(v)) == v,
{
    let t = seq!['0', '1', '2', '3', '4', '5', '6', '7', '8', '9', 'A', 'B', 'C', 'D', 'E', 'F'];
    assert(hex_digit(v) == t[v as int]);
}

proof fn lemma_nibble_of_bits(b: Seq<char>)
    requires
        b.len() == 4,
        is_bit_string(b),
    ensures
        nibble_bits(bits_value(b)) == b,
        bits_value(b) < 16,
{
    let b3 = b.drop_last();
    let b2 = b3.drop_last();
    let b1 = b2.drop_last();
    let b0 = b1.drop_last();
    assert(b0.len() == 0);
    assert(b1[0] == b[0]);
    assert(b2[1] == b[1]);
    assert(b3[2] == b[2]);
    assert(is_bit(b[0]) && is_bit(b[1]) && is_bit(b[2]) && is_bit(b[3]));
    let x0: nat = if b[0] == '1' { 1 } else { 0 };
    let x1: nat = if b[1] == '1' { 1 } else { 0 };
    let x2: nat = if b[2] == '1' { 1 } else { 0 };
    let x3: nat = if b[3] == '1' { 1 } else { 0 };
    assert(bits_value(b0) == 0);
    assert(bits_value(b1) == x0);
    assert(bits_value(b2) == 2 * x0 + x1);
    assert(bits_value(b3) == 4 * x0 + 2 * x1 + x2);
    let v = bits_value(b);
    assert(v == 8 * x0 + 4 * x1 + 2 * x2 + x3);
    assert(v / 8 % 2 == x0 && v / 4 % 2 == x1 && v / 2 % 2 == x2 && v % 2 == x3 && v < 16)
        by (nonlinear_arith)
        requires
            v == 8 * x0 + 4 * x1 + 2 * x2 + x3,
            x0 <= 1,
            x1 <= 1,
            x2 <= 1,
            x3 <= 1,
    ;
    assert(nibble_bits(v) =~= b);
}

/// Decoding the hex encoding of a bit string whose length is a multiple of
/// four gives the bit string back.
pub proof fn lemma_round_trip(b: Seq<char>)
    requires
        is_bit_string(b),
        b.len() % 4 == 0,
    ensures
        is_hex_string(hex_of_bits(b)),
        bits_of_hex(hex_of_bits(b)) == b,
    decreases b.len(),
{
    if b.len() > 0 {
        let head = b.take(4);
        let tail = b.skip(4);
        assert(is_bit_string(head));
        assert(is_bit_string(tail));
        lemma_nibble_of_bits(head);
        lemma_hex_digit_value(bits_value(head));
        lemma_round_trip(tail);
        let h = hex_of_bits(b);
        if b.len() == 4 {
            assert(head =~= b);
            assert(h.drop_first() =~= Seq::<char>::empty());
        } else {
            assert(h.drop_first() =~= hex_of_bits(tail));
        }
        assert(h[0] == hex_digit(bits_value(head)));
        assert(b =~= head + tail);
    }
}

/// Whether two strings hold the same characters.
pub fn same_text(a: &str, b: &str) -> (r: bool)
    ensures
        r == (a@ == b@),
{
    let x = chars_of(a);
    let y = chars_of(b);
    if x.len() != y.len() {
        return false;
    }
    let mut i: usize = 0;
    while i < x.len()
        invariant
            x@ == a@,
            y@ == b@,
            x@.len() == y@.len(),
            i <= x@.len(),
            forall|j: int| 0 <= j < i ==> x@[j] == y@[j],
        decreases x@.len() - i,
    {
        if x[i] != y[i] {
            proof {
                assert(x@[i as int] != y@[i as int]);
            }
            return false;
        }
        i = i + 1;
    }
    proof {
        assert(x@ =~= y@);
    }
    true
}

/// The characters of `s`, in order.
pub fn chars_of(s: &str) -> (r: Vec<char>)
    ensures
        r@ == s@,
{
    let mut r: Vec<char> = Vec::new();
    for c in it: s.chars()
        invariant
            r@ == it.seq().take(it.index() as int),
    {
        r.push(c);
    }
    r
}

} // verus!
