//! ASCII decimal digits: the spec-level decimal notation used by the wire
//! protocol's length markers and integer bodies, and its executable
//! counterparts.

use vstd::prelude::*;

verus! {

/// True of the ASCII bytes `'0'` through `'9'`.
pub open spec fn is_digit(b: u8) -> bool {
    48 <= b <= 57
}

pub open spec fn all_digits(s: Seq<u8>) -> bool {
    forall|i: int| 0 <= i < s.len() ==> is_digit(#[trigger] s[i])
}

/// Numeric value of a sequence of ASCII digits, most significant first.
pub open spec fn digits_val(s: Seq<u8>) -> int
    decreases s.len(),
{
    if s.len() == 0 {
        0
    } else {
        digits_val(s.drop_last()) * 10 + (s.last() - 48)
    }
}

/// The canonical decimal notation of a non-negative number: no sign, no
/// leading zero except for the number zero itself.
pub open spec fn u_dec(n: nat) -> Seq<u8>
    decreases n,
{
    if n < 10 {
        seq![(n + 48) as u8]
    } else {
        u_dec(n / 10).push(((n % 10) + 48) as u8)
    }
}

pub proof fn lemma_u_dec_digits(n: nat)
    ensures
        u_dec(n).len() >= 1,
        all_digits(u_dec(n)),
        digits_val(u_dec(n)) == n,
    decreases n,
{
    if n < 10 {
        let s = seq![(n + 48) as u8];
        assert(s.drop_last() =~= Seq::<u8>::empty());
        assert(digits_val(s) == digits_val(s.drop_last()) * 10 + (s.last() - 48));
    } else {
        lemma_u_dec_digits(n / 10);
        let s = u_dec(n / 10).push(((n % 10) + 48) as u8);
        assert(s.drop_last() == u_dec(n / 10));
        assert(digits_val(s) == (n / 10) * 10 + n % 10);
    }
}

/// The decimal notation of a signed number: a minus sign for negative
/// numbers, then the canonical digits of the magnitude.
pub open spec fn int_dec(i: int) -> Seq<u8> {
    if i < 0 {
        seq![45u8] + u_dec((-i) as nat)
    } else {
        u_dec(i as nat)
    }
}

/// Appends the canonical decimal digits of `n`.
pub fn push_u64_dec(v: &mut Vec<u8>, n: u64)
    ensures
        final(v)@ == old(v)@ + u_dec(n as nat),
    decreases n,
{
    if n < 10 {
        v.push((n + 48) as u8);
        proof {
            assert(old(v)@.push((n + 48) as u8) =~= old(v)@ + seq![(n as nat + 48) as u8]);
        }
    } else {
        push_u64_dec(v, n / 10);
        v.push(((n % 10) + 48) as u8);
        proof {
            assert((old(v)@ + u_dec((n / 10) as nat)).push(((n % 10) + 48) as u8) =~= old(v)@ + u_dec(
                (n / 10) as nat,
            ).push((((n as nat) % 10) + 48) as u8));
        }
    }
}

/// Appends the decimal notation of `i`, sign included.
pub fn push_i64_dec(v: &mut Vec<u8>, i: i64)
    ensures
        final(v)@ == old(v)@ + int_dec(i as int),
{
    if i < 0 {
        let m: u64 = (-(i as i128)) as u64;
        v.push(45u8);
        push_u64_dec(v, m);
        proof {
            assert((old(v)@.push(45u8)) + u_dec(m as nat) =~= old(v)@ + (seq![45u8] + u_dec(
                (-(i as int)) as nat,
            )));
        }
    } else {
        push_u64_dec(v, i as u64);
    }
}

pub proof fn lemma_digits_val_nonneg(s: Seq<u8>)
    requires
        all_digits(s),
    ensures
        digits_val(s) >= 0,
    decreases s.len(),
{
    if s.len() > 0 {
        assert(all_digits(s.drop_last())) by {
            assert(forall|i: int|
                0 <= i < s.len() - 1 ==> #[trigger] s.drop_last()[i] == s[i]);
        }
        lemma_digits_val_nonneg(s.drop_last());
    }
}

pub proof fn lemma_digits_val_take_succ(s: Seq<u8>, i: int)
    requires
        0 <= i < s.len(),
    ensures
        digits_val(s.take(i + 1)) == digits_val(s.take(i)) * 10 + (s[i] - 48),
{
    assert(s.take(i + 1).drop_last() =~= s.take(i));
    assert(s.take(i + 1).last() == s[i]);
}

pub proof fn lemma_digits_val_prefix_le(s: Seq<u8>, i: int)
    requires
        all_digits(s),
        0 <= i <= s.len(),
    ensures
        digits_val(s.take(i)) <= digits_val(s),
    decreases s.len() - i,
{
    if i < s.len() {
        lemma_digits_val_take_succ(s, i);
        assert(all_digits(s.take(i))) by {
            assert(forall|j: int| 0 <= j < i ==> #[trigger] s.take(i)[j] == s[j]);
        }
        lemma_digits_val_nonneg(s.take(i));
        assert(digits_val(s.take(i)) * 10 >= digits_val(s.take(i))) by (nonlinear_arith)
            requires
                digits_val(s.take(i)) >= 0,
        ;
        lemma_digits_val_prefix_le(s, i + 1);
    } else {
        assert(s.take(i) =~= s);
    }
}

/// True exactly of a non-empty run of digits.
pub fn check_digits(s: &[u8]) -> (b: bool)
    ensures
        b == (s@.len() >= 1 && all_digits(s@)),
{
    if s.len() == 0 {
        return false;
    }
    let mut i: usize = 0;
    while i < s.len()
        invariant
            i <= s@.len(),
            forall|j: int| 0 <= j < i ==> is_digit(#[trigger] s@[j]),
        decreases s@.len() - i,
    {
        let b = s[i];
        if b < 48 || b > 57 {
            return false;
        }
        i = i + 1;
    }
    true
}

/// The numeric value of a run of digits, or `None` when it exceeds `cap`.
pub fn digits_value_capped(s: &[u8], cap: u64) -> (r: Option<u64>)
    requires
        s@.len() >= 1,
        all_digits(s@),
        cap >= 9,
    ensures
        match r {
            Some(n) => digits_val(s@) == n as int && n <= cap,
            None => digits_val(s@) > cap as int,
        },
{
    let mut acc: u64 = 0;
    let mut i: usize = 0;
    proof {
        assert(s@.take(0) =~= Seq::<u8>::empty());
    }
    while i < s.len()
        invariant
            i <= s@.len(),
            s@.len() >= 1,
            all_digits(s@),
            cap >= 9,
            acc <= cap,
            digits_val(s@.take(i as int)) == acc as int,
        decreases s@.len() - i,
    {
        proof {
            assert(is_digit(s@[i as int]));
        }
        let d: u64 = (s[i] - 48) as u64;
        proof {
            assert(d <= 9);
            lemma_digits_val_take_succ(s@, i as int);
        }
        if acc > (cap - d) / 10 {
            proof {
                assert(acc * 10 + d > cap) by (nonlinear_arith)
                    requires
                        acc > (cap - d) / 10,
                        0 <= d <= 9,
                        d <= cap,
                        (cap - d) / 10 >= 0,
                ;
                lemma_digits_val_prefix_le(s@, i + 1);
            }
            return None;
        }
        proof {
            assert(acc * 10 + d <= cap) by (nonlinear_arith)
                requires
                    acc <= (cap - d) / 10,
                    0 <= d,
                    d <= cap,
                ;
        }
        acc = acc * 10 + d;
        i = i + 1;
    }
    proof {
        assert(s@.take(s@.len() as int) =~= s@);
    }
    Some(acc)
}

/// True of a decimal integer body: an optional single sign, then digits.
pub open spec fn int_line_ok(s: Seq<u8>) -> bool {
    if s.len() == 0 {
        false
    } else if s[0] == 45 || s[0] == 43 {
        s.len() >= 2 && all_digits(s.drop_first())
    } else {
        all_digits(s)
    }
}

/// The signed value of a decimal integer body.
pub open spec fn int_line_val(s: Seq<u8>) -> int
    recommends
        int_line_ok(s),
{
    if s.len() > 0 && s[0] == 45 {
        -digits_val(s.drop_first())
    } else if s.len() > 0 && s[0] == 43 {
        digits_val(s.drop_first())
    } else {
        digits_val(s)
    }
}

/// True of an integer body whose value a 64-bit signed word can hold.
pub open spec fn int_line_i64(s: Seq<u8>) -> bool {
    int_line_ok(s) && i64::MIN <= int_line_val(s) <= i64::MAX
}

/// Parses a signed decimal integer body, exactly when it is well formed and
/// its value fits a 64-bit signed word.
pub fn parse_int_line(s: &[u8]) -> (r: Option<i64>)
    ensures
        match r {
            Some(v) => int_line_i64(s@) && v as int == int_line_val(s@),
            None => !int_line_i64(s@),
        },
{
    if s.len() == 0 {
        return None;
    }
    let first = s[0];
    let neg = first == 45;
    let signed = neg || first == 43;
    let digits: &[u8] = if signed {
        vstd::slice::slice_subrange(s, 1, s.len())
    } else {
        s
    };
    proof {
        if signed {
            assert(digits@ =~= s@.drop_first());
        }
    }
    if !check_digits(digits) {
        return None;
    }
    // 2^63: the magnitude of the most negative 64-bit value.
    let cap: u64 = 9223372036854775808;
    let m = match digits_value_capped(digits, cap) {
        Some(m) => m,
        None => {
            return None;
        },
    };
    if neg {
        if m == cap {
            Some(i64::MIN)
        } else {
            Some(-(m as i64))
        }
    } else {
        if m == cap {
            None
        } else {
            Some(m as i64)
        }
    }
}

/// Lower-casing of one ASCII byte; other bytes are untouched.
pub open spec fn lower_byte(b: u8) -> u8 {
    if 65 <= b <= 90 {
        (b + 32) as u8
    } else {
        b
    }
}

pub open spec fn lower_bytes(s: Seq<u8>) -> Seq<u8> {
    s.map_values(|b: u8| lower_byte(b))
}

/// ASCII lower-casing of a byte string.
pub fn to_lower(s: &[u8]) -> (r: Vec<u8>)
    ensures
        r@ == lower_bytes(s@),
{
    let mut r: Vec<u8> = Vec::new();
    let mut i: usize = 0;
    while i < s.len()
        invariant
            i <= s@.len(),
            r@.len() == i,
            forall|j: int| 0 <= j < i ==> #[trigger] r@[j] == lower_byte(s@[j]),
        decreases s@.len() - i,
    {
        let b = s[i];
        if 65 <= b && b <= 90 {
            r.push(b + 32);
        } else {
            r.push(b);
        }
        i = i + 1;
    }
    proof {
        assert(r@ =~= lower_bytes(s@));
    }
    r
}

/// True exactly when the two byte strings are equal.
pub fn bytes_eq(a: &[u8], b: &[u8]) -> (r: bool)
    ensures
        r == (a@ == b@),
{
    if a.len() != b.len() {
        return false;
    }
    let mut i: usize = 0;
    while i < a.len()
        invariant
            a@.len() == b@.len(),
            i <= a@.len(),
            forall|j: int| 0 <= j < i ==> #[trigger] a@[j] == b@[j],
        decreases a@.len() - i,
    {
        if a[i] != b[i] {
            return false;
        }
        i = i + 1;
    }
    proof {
        assert(a@ =~= b@);
    }
    true
}

/// The bytes of an ASCII character sequence.
pub open spec fn ascii_seq(s: Seq<char>) -> Seq<u8> {
    Seq::new(s.len(), |i: int| s[i] as u8)
}

/// The bytes of an ASCII string.
pub fn str_bytes(s: &str) -> (r: Vec<u8>)
    requires
        vstd::string::is_ascii(s),
    ensures
        r@ =~= ascii_seq(s@),
{
    let b = s.as_bytes();
    proof {
        vstd::string::is_ascii_spec_bytes(s);
    }
    vstd::slice::slice_to_vec(b)
}

} // verus!
