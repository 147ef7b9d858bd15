//! Decimal strings. The upstream API transmits page counters and play counts
//! as strings of ASCII digits; the caches store play counts the same way.
//! `parse_u64` / `parse_u32` and `format_u64` are the two directions, each
//! pinned to the spec-level `digits_val` / `digits_of`.

use vstd::arithmetic::div_mod::lemma_fundamental_div_mod;
use vstd::prelude::*;
use vstd::string::StrSliceExecFns;
use vstd::string::StringExecFns;

verus! {

pub open spec fn is_digit(c: char) -> bool {
    '0' <= c && c <= '9'
}

pub open spec fn all_digits(s: Seq<char>) -> bool {
    forall|i: int| 0 <= i < s.len() ==> is_digit(s[i])
}

/// Value of a digit string, most significant digit first.
pub open spec fn digits_val(s: Seq<char>) -> int
    decreases s.len(),
{
    if s.len() == 0 {
        0
    } else {
        digits_val(s.drop_last()) * 10 + (s.last() as int - '0' as int)
    }
}

/// What parsing an unsigned 64-bit decimal string yields: a non-empty string
/// of digits whose value fits, and nothing else.
pub open spec fn parse_u64_spec(s: Seq<char>) -> Option<u64> {
    if s.len() > 0 && all_digits(s) && digits_val(s) <= u64::MAX {
        Some(digits_val(s) as u64)
    } else {
        None
    }
}

pub open spec fn parse_u32_spec(s: Seq<char>) -> Option<u32> {
    if s.len() > 0 && all_digits(s) && digits_val(s) <= u32::MAX {
        Some(digits_val(s) as u32)
    } else {
        None
    }
}

pub proof fn lemma_digits_val_nonneg(s: Seq<char>)
    requires
        all_digits(s),
    ensures
        digits_val(s) >= 0,
    decreases s.len(),
{
    if s.len() > 0 {
        assert(all_digits(s.drop_last()));
        lemma_digits_val_nonneg(s.drop_last());
        assert(is_digit(s.last()));
    }
}

/// A digit string's value dominates the value of each of its prefixes.
pub proof fn lemma_digits_val_prefix(s: Seq<char>, i: int)
    requires
        all_digits(s),
        0 <= i <= s.len(),
    ensures
        digits_val(s.subrange(0, i)) <= digits_val(s),
    decreases s.len(),
{
    if i < s.len() {
        assert(all_digits(s.drop_last()));
        assert(s.drop_last().subrange(0, i) =~= s.subrange(0, i));
        lemma_digits_val_prefix(s.drop_last(), i);
        lemma_digits_val_nonneg(s.drop_last());
        assert(is_digit(s.last()));
    } else {
        assert(s.subrange(0, i) =~= s);
    }
}

/// Parses a non-empty all-digit string to a `u64`; any other input, including
/// one whose value overflows, yields `None`.
pub fn parse_u64(s: &str) -> (r: Option<u64>)
    ensures
        r == parse_u64_spec(s@),
{
    let n = s.unicode_len();
    if n == 0 {
        return None;
    }
    let mut val: u64 = 0;
    let mut i: usize = 0;
    while i < n
        invariant
            0 <= i <= n,
            n == s@.len(),
            all_digits(s@.subrange(0, i as int)),
            val == digits_val(s@.subrange(0, i as int)),
        decreases n - i,
    {
        let c = s.get_char(i);
        if c < '0' || c > '9' {
            assert(!is_digit(s@[i as int]));
            return None;
        }
        let d: u64 = (c as u32 - 48) as u64;
        assert(d == s@[i as int] as int - '0' as int);
        proof {
            assert(s@.subrange(0, i + 1).drop_last() =~= s@.subrange(0, i as int));
            assert(s@.subrange(0, i + 1).last() == s@[i as int]);
            assert(all_digits(s@.subrange(0, i + 1)));
        }
        let ghost q: int = ((u64::MAX - d) / 10) as int;
        let ghost m: int = ((u64::MAX - d) % 10) as int;
        if val > (u64::MAX - d) / 10 {
            proof {
                lemma_fundamental_div_mod((u64::MAX - d) as int, 10);
                assert(val * 10 + d > u64::MAX) by (nonlinear_arith)
                    requires
                        val > q,
                        q * 10 + m == (u64::MAX - d) as int,
                        0 <= m,
                        m < 10;
                assert(digits_val(s@.subrange(0, i + 1)) == val * 10 + d);
                if all_digits(s@) {
                    lemma_digits_val_prefix(s@, i + 1);
                    assert(digits_val(s@) > u64::MAX);
                }
            }
            return None;
        }
        proof {
            lemma_fundamental_div_mod((u64::MAX - d) as int, 10);
            assert(val * 10 + d <= u64::MAX) by (nonlinear_arith)
                requires
                    val <= q,
                    q * 10 + m == (u64::MAX - d) as int,
                    0 <= m,
                    m < 10,
                    0 <= d,
                    d <= 9;
        }
        val = val * 10 + d;
        i = i + 1;
    }
    proof {
        assert(s@.subrange(0, n as int) =~= s@);
    }
    Some(val)
}

/// Parses a non-empty all-digit string to a `u32`; any other input, including
/// one whose value overflows, yields `None`.
pub fn parse_u32(s: &str) -> (r: Option<u32>)
    ensures
        r == parse_u32_spec(s@),
{
    match parse_u64(s) {
        Some(v) => {
            proof {
                lemma_digits_val_nonneg(s@);
            }
            if v <= u32::MAX as u64 {
                Some(v as u32)
            } else {
                None
            }
        },
        None => {
            proof {
                if s@.len() > 0 && all_digits(s@) {
                    assert(digits_val(s@) > u64::MAX);
                }
            }
            None
        },
    }
}

pub open spec fn digit_char(d: int) -> char {
    if d == 0 {
        '0'
    } else if d == 1 {
        '1'
    } else if d == 2 {
        '2'
    } else if d == 3 {
        '3'
    } else if d == 4 {
        '4'
    } else if d == 5 {
        '5'
    } else if d == 6 {
        '6'
    } else if d == 7 {
        '7'
    } else if d == 8 {
        '8'
    } else {
        '9'
    }
}

/// The canonical decimal rendering of `n`: no sign, no leading zeros
/// (except for `n == 0` itself).
pub open spec fn digits_of(n: nat) -> Seq<char>
    decreases n,
{
    if n < 10 {
        seq![digit_char(n as int)]
    } else {
        digits_of(n / 10).push(digit_char((n % 10) as int))
    }
}

fn digit_str(d: u64) -> (r: &'static str)
    requires
        d < 10,
    ensures
        r@ == seq![digit_char(d as int)],
{
    proof {
        reveal_strlit("0");
        reveal_strlit("1");
        reveal_strlit("2");
        reveal_strlit("3");
        reveal_strlit("4");
        reveal_strlit("5");
        reveal_strlit("6");
        reveal_strlit("7");
        reveal_strlit("8");
        reveal_strlit("9");
    }
    let r = if d == 0 {
        "0"
    } else if d == 1 {
        "1"
    } else if d == 2 {
        "2"
    } else if d == 3 {
        "3"
    } else if d == 4 {
        "4"
    } else if d == 5 {
        "5"
    } else if d == 6 {
        "6"
    } else if d == 7 {
        "7"
    } else if d == 8 {
        "8"
    } else {
        "9"
    };
    proof {
        assert(r@ =~= seq![digit_char(d as int)]);
    }
    r
}

/// Renders `n` in decimal, matching `digits_of`.
pub fn format_u64(n: u64) -> (r: String)
    ensures
        r@ == digits_of(n as nat),
    decreases n,
{
    if n < 10 {
        digit_str(n).to_owned()
    } else {
        let mut s = format_u64(n / 10);
        s.append(digit_str(n % 10));
        proof {
            assert(s@ =~= digits_of(n as nat));
        }
        s
    }
}

pub proof fn lemma_digits_of_all_digits(n: nat)
    ensures
        all_digits(digits_of(n)),
        digits_of(n).len() > 0,
    decreases n,
{
    if n < 10 {
        assert(is_digit(digit_char(n as int)));
        assert(forall|i: int|
            0 <= i < digits_of(n).len() ==> is_digit(#[trigger] digits_of(n)[i]));
    } else {
        lemma_digits_of_all_digits(n / 10);
        assert(is_digit(digit_char((n % 10) as int)));
        assert(forall|i: int|
            0 <= i < digits_of(n).len() ==> is_digit(#[trigger] digits_of(n)[i]));
    }
}

pub proof fn lemma_digits_of_val(n: nat)
    ensures
        digits_val(digits_of(n)) == n,
    decreases n,
{
    if n < 10 {
        let s = seq![digit_char(n as int)];
        assert(s.drop_last() =~= Seq::<char>::empty());
        assert(digits_val(Seq::<char>::empty()) == 0);
        assert(digits_val(s) == digits_val(s.drop_last()) * 10 + (s.last() as int - '0' as int));
        assert(digit_char(n as int) as int - '0' as int == n);
    } else {
        lemma_digits_of_val(n / 10);
        let t = digits_of(n / 10);
        let c = digit_char((n % 10) as int);
        assert(t.push(c).drop_last() =~= t);
        assert(t.push(c).last() == c);
        assert(digits_val(t.push(c)) == digits_val(t) * 10 + (c as int - '0' as int));
        assert(c as int - '0' as int == n % 10);
        lemma_fundamental_div_mod(n as int, 10);
    }
}

/// Formatting then parsing is the identity: the caches and the request URLs
/// render numbers exactly as the parser reads them back.
pub proof fn lemma_format_parse_round_trip(n: u64)
    ensures
        parse_u64_spec(digits_of(n as nat)) == Some(n),
{
    lemma_digits_of_all_digits(n as nat);
    lemma_digits_of_val(n as nat);
}

} // verus!
