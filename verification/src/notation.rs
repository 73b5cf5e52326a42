//! The text form of a cube in saved maps and messages: its two coordinates
//! in decimal, joined by an underscore, such as `-3_12`.

use vstd::prelude::*;
use crate::cubic::Cube;

verus! {

/// The ASCII code of `0`.
pub open spec fn zero_byte() -> int {
    48
}

/// The byte is an ASCII digit.
pub open spec fn is_digit(b: u8) -> bool {
    48 <= b <= 57
}

/// The decimal digits of `n`, most significant first, without leading zeros.
pub open spec fn digits_of(n: nat) -> Seq<u8>
    decreases n,
{
    if n < 10 {
        seq![(n + zero_byte()) as u8]
    } else {
        digits_of(n / 10).push((n % 10 + zero_byte()) as u8)
    }
}

/// `v` in decimal, with a minus sign when negative.
pub open spec fn decimal(v: int) -> Seq<u8> {
    if v < 0 {
        seq![45u8] + digits_of((-v) as nat)
    } else {
        digits_of(v as nat)
    }
}

/// The text of a cube: `q`, an underscore, `r`.
pub open spec fn cube_text(c: Cube<i32>) -> Seq<u8> {
    decimal(c.0 as int) + seq![95u8] + decimal(c.1 as int)
}

/// The value of a string of digits.
pub open spec fn digits_value(s: Seq<u8>) -> int
    decreases s.len(),
{
    if s.len() == 0 {
        0
    } else {
        digits_value(s.drop_last()) * 10 + (s.last() - zero_byte())
    }
}

/// Every byte of `s` is a digit.
pub open spec fn all_digits(s: Seq<u8>) -> bool {
    forall|i: int| 0 <= i < s.len() ==> is_digit(#[trigger] s[i])
}

/// The integer written in `s` as the standard library reads an `i32`: an
/// optional sign, then at least one digit, the value within range.
pub open spec fn int_of(s: Seq<u8>) -> Option<i32> {
    let negative = s.len() > 0 && s[0] == 45u8;
    let signed = s.len() > 0 && (s[0] == 45u8 || s[0] == 43u8);
    let body = if signed { s.drop_first() } else { s };
    let v = if negative { -digits_value(body) } else { digits_value(body) };
    if body.len() > 0 && all_digits(body) && i32::MIN <= v <= i32::MAX {
        Some(v as i32)
    } else {
        None
    }
}

/// The only underscore of `s` is at `i`.
pub open spec fn single_underscore_at(s: Seq<u8>, i: int) -> bool {
    &&& 0 <= i < s.len()
    &&& s[i] == 95u8
    &&& forall|j: int| 0 <= j < s.len() && j != i ==> #[trigger] s[j] != 95u8
}

/// The cube written as two integers on either side of position `i` of `s`.
pub open spec fn cube_around(s: Seq<u8>, i: int) -> Option<Cube<i32>> {
    match (int_of(s.take(i)), int_of(s.skip(i + 1))) {
        (Some(q), Some(r)) => Some(Cube(q, r)),
        _ => None,
    }
}

/// The cube written in `s`: exactly one underscore, with an integer on
/// each side of it.
#[verifier::opaque]
pub open spec fn cube_of_text(s: Seq<u8>) -> Option<Cube<i32>> {
    if exists|i: int| #[trigger] single_underscore_at(s, i) {
        cube_around(s, choose|i: int| #[trigger] single_underscore_at(s, i))
    } else {
        None
    }
}

/// The digits of a number are digits, at most ten of them for an `i32`
/// magnitude, and read back as the number.
pub proof fn lemma_digits_of(n: nat)
    ensures
        all_digits(digits_of(n)),
        digits_of(n).len() >= 1,
        digits_value(digits_of(n)) == n,
        n < 10 ==> digits_of(n).len() == 1,
        n >= 10 ==> digits_of(n).len() == digits_of(n / 10).len() + 1,
    decreases n,
{
    let s = digits_of(n);
    if n >= 10 {
        lemma_digits_of(n / 10);
        assert(s.drop_last() =~= digits_of(n / 10));
        assert forall|i: int| 0 <= i < s.len() implies is_digit(#[trigger] s[i]) by {
            if i < s.len() - 1 {
                assert(s[i] == digits_of(n / 10)[i]);
            }
        }
        assert((n / 10) * 10 + n % 10 == n);
        assert(digits_value(s) == digits_value(digits_of(n / 10)) * 10 + (s.last() - zero_byte()));
    } else {
        assert(s.drop_last() =~= Seq::<u8>::empty());
        assert(digits_value(s) == digits_value(s.drop_last()) * 10 + (s.last() - zero_byte()));
    }
}

/// Writing an integer in decimal and reading it back gives the integer.
pub proof fn lemma_int_round_trip(v: i32)
    ensures
        int_of(decimal(v as int)) == Some(v),
        forall|i: int| 0 <= i < decimal(v as int).len() ==> #[trigger] decimal(v as int)[i] != 95u8,
{
    if v < 0 {
        lemma_digits_of((-v) as nat);
        let s = decimal(v as int);
        assert(s.drop_first() =~= digits_of((-v) as nat));
        assert forall|i: int| 0 <= i < s.len() implies #[trigger] s[i] != 95u8 by {
            if i > 0 {
                assert(s[i] == digits_of((-v) as nat)[i - 1]);
            }
        }
    } else {
        lemma_digits_of(v as nat);
        let s = decimal(v as int);
        assert forall|i: int| 0 <= i < s.len() implies #[trigger] s[i] != 95u8 by {
            assert(is_digit(s[i]));
        }
    }
}

/// Writing a cube as text and reading it back gives the cube.
pub proof fn law_cube_text_round_trip(c: Cube<i32>)
    ensures
        cube_of_text(cube_text(c)) == Some(c),
{
    lemma_int_round_trip(c.0);
    lemma_int_round_trip(c.1);
    let a = decimal(c.0 as int);
    let b = decimal(c.1 as int);
    let s = cube_text(c);
    let i = a.len() as int;
    assert(s[i] == 95u8);
    assert forall|j: int| 0 <= j < s.len() && j != i implies #[trigger] s[j] != 95u8 by {
        if j < i {
            assert(s[j] == a[j]);
        } else {
            assert(s[j] == b[j - i - 1]);
        }
    }
    lemma_single_underscore(s, i);
    assert(s.take(i) =~= a);
    assert(s.skip(i + 1) =~= b);
}

/// Appends the decimal digits of `n` to `out`.
fn push_digits(out: &mut Vec<u8>, n: u32)
    ensures
        final(out)@ == old(out)@ + digits_of(n as nat),
    decreases n,
{
    if n >= 10 {
        push_digits(out, n / 10);
    }
    let d: u8 = (n % 10) as u8;
    out.push(d + 48);
    proof {
        if n >= 10 {
            assert(digits_of(n as nat) == digits_of((n / 10) as nat).push((n % 10 + 48) as u8));
        }
    }
}

/// Appends `v` in decimal to `out`.
fn push_decimal(out: &mut Vec<u8>, v: i32)
    ensures
        final(out)@ == old(out)@ + decimal(v as int),
{
    if v < 0 {
        out.push(45);
        let magnitude: u32 = if v == i32::MIN { 2147483648u32 } else { (-v) as u32 };
        let ghost before = out@;
        push_digits(out, magnitude);
        assert(out@ =~= old(out)@ + decimal(v as int));
    } else {
        push_digits(out, v as u32);
    }
}

/// The text of a cube (see `cube_text`).
pub fn cube_to_text(c: &Cube<i32>) -> (t: Vec<u8>)
    ensures
        t@ == cube_text(*c),
{
    let mut t: Vec<u8> = Vec::new();
    push_decimal(&mut t, c.0);
    t.push(95);
    push_decimal(&mut t, c.1);
    assert(t@ =~= cube_text(*c));
    t
}

/// Reads the integer written in `s` (see `int_of`).
pub fn parse_int(s: &[u8]) -> (r: Option<i32>)
    ensures
        r == int_of(s@),
{
    let n = s.len();
    let negative = n > 0 && s[0] == 45;
    let signed = n > 0 && (s[0] == 45 || s[0] == 43);
    let start: usize = if signed { 1 } else { 0 };
    let ghost body = if signed { s@.drop_first() } else { s@ };
    assert(body =~= s@.skip(start as int));
    if start >= n {
        return None;
    }
    let mut value: i64 = 0;
    let mut i: usize = start;
    assert(body.take(0) =~= Seq::<u8>::empty());
    while i < n
        invariant
            n == s@.len(),
            start <= i <= n,
            start == (if signed { 1int } else { 0int }),
            body == s@.skip(start as int),
            body == (if s@.len() > 0 && (s@[0] == 45u8 || s@[0] == 43u8) { s@.drop_first() } else { s@ }),
            all_digits(body.take(i - start)),
            value == digits_value(body.take(i - start)),
            0 <= value <= 0x8000_0000,
        decreases n - i,
    {
        let b = s[i];
        assert(body[i - start] == b);
        if b < 48 || b > 57 {
            assert(!all_digits(body)) by {
                assert(!is_digit(body[i - start]));
            }
            proof {
                lemma_int_of_body(s@, body);
            }
            return None;
        }
        let ghost k = i - start;
        assert(body.take(k + 1).drop_last() =~= body.take(k));
        assert(all_digits(body.take(k + 1))) by {
            assert forall|j: int| 0 <= j < body.take(k + 1).len() implies is_digit(#[trigger] body.take(k + 1)[j]) by {
                if j < k {
                    assert(body.take(k + 1)[j] == body.take(k)[j]);
                }
            }
        }
        let next = value * 10 + (b - 48) as i64;
        assert(next == digits_value(body.take(k + 1)));
        if next > 0x8000_0000 {
            proof {
                if all_digits(body) {
                    assert(body.take(body.len() as int) =~= body);
                    lemma_digits_value_monotone(body, k + 1, body.len() as int);
                }
                lemma_int_of_body(s@, body);
            }
            return None;
        }
        value = next;
        i = i + 1;
    }
    assert(body.take(body.len() as int) =~= body);
    proof {
        lemma_int_of_body(s@, body);
    }
    if negative {
        Some((-value) as i32)
    } else if value <= 0x7fff_ffff {
        Some(value as i32)
    } else {
        None
    }
}

/// What `int_of` reads, in terms of the text after the sign.
proof fn lemma_int_of_body(s: Seq<u8>, body: Seq<u8>)
    requires
        body == (if s.len() > 0 && (s[0] == 45u8 || s[0] == 43u8) { s.drop_first() } else { s }),
    ensures
        int_of(s) == ({
            let v = if s.len() > 0 && s[0] == 45u8 { -digits_value(body) } else { digits_value(body) };
            if body.len() > 0 && all_digits(body) && i32::MIN <= v <= i32::MAX {
                Some(v as i32)
            } else {
                None
            }
        }),
{
}

/// A longer string of digits is worth at least as much.
proof fn lemma_digits_value_monotone(s: Seq<u8>, i: int, j: int)
    requires
        0 <= i <= j <= s.len(),
        all_digits(s.take(j)),
    ensures
        digits_value(s.take(i)) <= digits_value(s.take(j)),
        digits_value(s.take(i)) >= 0,
    decreases j - i,
{
    if i < j {
        lemma_digits_value_monotone(s, i, j - 1);
        assert(s.take(j).drop_last() =~= s.take(j - 1));
        assert(all_digits(s.take(j - 1))) by {
            assert forall|k: int| 0 <= k < s.take(j - 1).len() implies is_digit(#[trigger] s.take(j - 1)[k]) by {
                assert(s.take(j - 1)[k] == s.take(j)[k]);
            }
        }
        lemma_digits_value_monotone(s, j - 1, j - 1);
        assert(is_digit(s.take(j)[j - 1]));
        assert(digits_value(s.take(j - 1)) * 10 >= digits_value(s.take(j - 1))) by (nonlinear_arith)
            requires digits_value(s.take(j - 1)) >= 0;
    } else {
        lemma_digits_value_nonneg(s.take(i));
    }
}

/// A string of digits is worth at least zero.
proof fn lemma_digits_value_nonneg(s: Seq<u8>)
    requires
        all_digits(s),
    ensures
        digits_value(s) >= 0,
    decreases s.len(),
{
    if s.len() > 0 {
        assert(all_digits(s.drop_last())) by {
            assert forall|k: int| 0 <= k < s.drop_last().len() implies is_digit(#[trigger] s.drop_last()[k]) by {
                assert(s.drop_last()[k] == s[k]);
            }
        }
        lemma_digits_value_nonneg(s.drop_last());
        assert(is_digit(s[s.len() - 1]));
    }
}

/// With a single underscore at `i`, the text reads as the integers on
/// either side of it.
proof fn lemma_single_underscore(s: Seq<u8>, i: int)
    requires
        single_underscore_at(s, i),
    ensures
        cube_of_text(s) == cube_around(s, i),
{
    reveal(cube_of_text);
    let k = choose|k: int| #[trigger] single_underscore_at(s, k);
    if k != i {
        assert(s[i] != 95u8);
    }
}

/// Without an underscore, the text is no cube.
proof fn lemma_no_underscore(s: Seq<u8>)
    requires
        forall|j: int| 0 <= j < s.len() ==> s[j] != 95u8,
    ensures
        cube_of_text(s) is None,
{
    reveal(cube_of_text);
    assert forall|k: int| !#[trigger] single_underscore_at(s, k) by {
        if 0 <= k < s.len() {
            assert(s[k] != 95u8);
        }
    }
}

/// With two underscores, the text is no cube.
proof fn lemma_two_underscores(s: Seq<u8>, a: int, b: int)
    requires
        0 <= a < b < s.len(),
        s[a] == 95u8,
        s[b] == 95u8,
    ensures
        cube_of_text(s) is None,
{
    reveal(cube_of_text);
    assert forall|k: int| !#[trigger] single_underscore_at(s, k) by {
        if single_underscore_at(s, k) {
            if a != k {
                assert(s[a] != 95u8);
            } else {
                assert(s[b] != 95u8);
            }
        }
    }
}

/// Reads the cube written in `s` (see `cube_of_text`).
pub fn parse_cube(s: &[u8]) -> (r: Option<Cube<i32>>)
    ensures
        r == cube_of_text(s@),
{
    let n = s.len();
    let mut i: usize = 0;
    while i < n && s[i] != 95
        invariant
            n == s@.len(),
            0 <= i <= n,
            forall|j: int| 0 <= j < i ==> s@[j] != 95u8,
        decreases n - i,
    {
        i = i + 1;
    }
    if i == n {
        proof {
            lemma_no_underscore(s@);
        }
        return None;
    }
    let found = i;
    let mut j: usize = found + 1;
    while j < n && s[j] != 95
        invariant
            n == s@.len(),
            found < j <= n,
            forall|k: int| found < k < j ==> s@[k] != 95u8,
        decreases n - j,
    {
        j = j + 1;
    }
    if j < n {
        proof {
            lemma_two_underscores(s@, found as int, j as int);
        }
        return None;
    }
    proof {
        assert(single_underscore_at(s@, found as int));
        lemma_single_underscore(s@, found as int);
    }
    let (left, rest) = s.split_at(found);
    let (_, right) = rest.split_at(1);
    assert(left@ =~= s@.take(found as int));
    assert(right@ =~= s@.skip(found + 1));
    match (parse_int(left), parse_int(right)) {
        (Some(q), Some(r)) => Some(Cube(q, r)),
        _ => None,
    }
}

} // verus!
