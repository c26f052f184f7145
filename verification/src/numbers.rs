//! Decimal conversions: the shell prints the last exit status for `$?` and
//! the `exit` builtin reads its argument as an `i32`, exactly as
//! `i32::from_str` would.

use vstd::prelude::*;

verus! {

pub open spec fn digit_char(d: int) -> char {
    if d == 0 {
        '0'
    } else if d == 1 {
        '1'
    } else if d == 2 {
        '2'
    } else if d == 3 {
        '3'
    } else if d == 4 {
        '4'
    } else if d == 5 {
        '5'
    } else if d == 6 {
        '6'
    } else if d == 7 {
        '7'
    } else if d == 8 {
        '8'
    } else {
        '9'
    }
}

/// The decimal digits of `n`, most significant first.
pub open spec fn dec_rep(n: nat) -> Seq<char>
    decreases n,
{
    if n < 10 {
        seq![digit_char(n as int)]
    } else {
        dec_rep((n / 10) as nat).push(digit_char((n % 10) as int))
    }
}

/// The decimal form of `n`, with a leading `-` when it is negative.
pub open spec fn int_dec(n: int) -> Seq<char> {
    if n < 0 {
        seq!['-'] + dec_rep((-n) as nat)
    } else {
        dec_rep(n as nat)
    }
}

fn digit_of(d: u64) -> (c: char)
    requires
        d < 10,
    ensures
        c == digit_char(d as int),
{
    if d == 0 {
        '0'
    } else if d == 1 {
        '1'
    } else if d == 2 {
        '2'
    } else if d == 3 {
        '3'
    } else if d == 4 {
        '4'
    } else if d == 5 {
        '5'
    } else if d == 6 {
        '6'
    } else if d == 7 {
        '7'
    } else if d == 8 {
        '8'
    } else {
        '9'
    }
}

fn u64_dec_chars(m0: u64) -> (r: Vec<char>)
    ensures
        r@ == dec_rep(m0 as nat),
{
    let mut m = m0;
    let mut rev: Vec<char> = Vec::new();
    while m >= 10
        invariant
            dec_rep(m0 as nat) =~= dec_rep(m as nat) + rev@.reverse(),
        decreases m,
    {
        let d = m % 10;
        proof {
            assert(m % 10 < 10 && m / 10 < m && (m >= 10 ==> m / 10 >= 1)) by (nonlinear_arith)
                requires
                    m >= 10,
            ;
        }
        rev.push(digit_of(d));
        proof {
            assert(rev@.reverse() =~= seq![digit_char(d as int)] + rev@.drop_last().reverse());
            assert(dec_rep(m as nat) == dec_rep((m / 10) as nat).push(
                digit_char((m % 10) as int),
            ));
            assert(dec_rep((m / 10) as nat) + rev@.reverse() =~= dec_rep(m as nat)
                + rev@.drop_last().reverse());
        }
        m = m / 10;
    }
    rev.push(digit_of(m));
    proof {
        assert(rev@.reverse() =~= seq![digit_char(m as int)] + rev@.drop_last().reverse());
        assert(dec_rep(m as nat) =~= seq![digit_char(m as int)]);
        assert(rev@.reverse() =~= dec_rep(m0 as nat));
    }
    let mut out: Vec<char> = Vec::new();
    let mut i: usize = rev.len();
    while i > 0
        invariant
            0 <= i <= rev@.len(),
            out@ =~= rev@.reverse().take(rev@.len() - i),
        decreases i,
    {
        i = i - 1;
        out.push(rev[i]);
    }
    proof {
        assert(out@ =~= rev@.reverse());
    }
    out
}

/// The decimal string of `n`, as `i32::to_string` prints it.
pub fn i32_to_string(n: i32) -> (r: String)
    ensures
        r@ == int_dec(n as int),
{
    let neg = n < 0;
    let m: u64 = if n < 0 {
        (-(n as i64)) as u64
    } else {
        n as u64
    };
    let digits = u64_dec_chars(m);
    let mut v: Vec<char> = Vec::new();
    if neg {
        v.push('-');
    }
    let mut i: usize = 0;
    while i < digits.len()
        invariant
            0 <= i <= digits@.len(),
            neg ==> v@ =~= seq!['-'] + digits@.take(i as int),
            !neg ==> v@ =~= digits@.take(i as int),
        decreases digits@.len() - i,
    {
        v.push(digits[i]);
        i = i + 1;
    }
    proof {
        assert(digits@.take(digits@.len() as int) =~= digits@);
    }
    crate::chars::string_of(&v)
}

pub open spec fn is_digit_char(c: char) -> bool {
    48 <= c as u32 && c as u32 <= 57
}

pub open spec fn digit_val(c: char) -> int {
    c as u32 - 48
}

/// The number a digit string denotes, most significant digit first.
pub open spec fn dec_val(s: Seq<char>) -> int
    decreases s.len(),
{
    if s.len() == 0 {
        0
    } else {
        10 * dec_val(s.drop_last()) + digit_val(s.last())
    }
}

pub open spec fn all_digits(s: Seq<char>) -> bool {
    forall|i: int| 0 <= i < s.len() ==> is_digit_char(s[i])
}

/// What `i32::from_str` accepts and returns: an optional sign, then one or
/// more digits, and a value within the range of `i32`.
pub open spec fn parse_i32_spec(s: Seq<char>) -> Option<int> {
    let neg = s.len() > 0 && s[0] == '-';
    let body = if s.len() > 0 && (s[0] == '-' || s[0] == '+') {
        s.drop_first()
    } else {
        s
    };
    if body.len() == 0 || !all_digits(body) {
        None
    } else {
        let v = if neg {
            -dec_val(body)
        } else {
            dec_val(body)
        };
        if v < -2147483648 || v > 2147483647 {
            None
        } else {
            Some(v)
        }
    }
}

proof fn lemma_dec_val_nonneg(s: Seq<char>)
    requires
        all_digits(s),
    ensures
        dec_val(s) >= 0,
    decreases s.len(),
{
    if s.len() > 0 {
        assert(all_digits(s.drop_last()));
        lemma_dec_val_nonneg(s.drop_last());
    }
}

proof fn lemma_dec_val_prefix(s: Seq<char>, i: int)
    requires
        all_digits(s),
        0 <= i <= s.len(),
    ensures
        dec_val(s) >= dec_val(s.take(i)),
    decreases s.len() - i,
{
    if i < s.len() {
        assert(all_digits(s.take(i)));
        lemma_dec_val_nonneg(s.take(i));
        assert(s.take(i + 1).drop_last() =~= s.take(i));
        assert(s.take(i + 1).last() == s[i]);
        assert(dec_val(s.take(i + 1)) == 10 * dec_val(s.take(i)) + digit_val(s[i]));
        lemma_dec_val_prefix(s, i + 1);
    } else {
        assert(s.take(i) =~= s);
    }
}

/// Reads a decimal integer exactly as `i32::from_str` does: `None` where it
/// would fail, the value where it would succeed.
pub fn parse_i32(s: &str) -> (r: Option<i32>)
    ensures
        r is Some <==> parse_i32_spec(s@) is Some,
        r is Some ==> r->0 as int == parse_i32_spec(s@)->0,
{
    let v = crate::chars::chars_of(s);
    let n = v.len();
    let mut start: usize = 0;
    let mut neg = false;
    if n > 0 && v[0] == '-' {
        neg = true;
        start = 1;
    } else if n > 0 && v[0] == '+' {
        start = 1;
    }
    let ghost body = if start == 1 {
        s@.drop_first()
    } else {
        s@
    };
    proof {
        assert(body =~= v@.skip(start as int));
    }
    if n == start {
        return None;
    }
    let limit: u64 = if neg {
        2147483648
    } else {
        2147483647
    };
    let mut acc: u64 = 0;
    let mut i: usize = start;
    while i < n
        invariant
            start <= i <= n,
            start < n,
            start <= 1,
            n == v@.len(),
            v@ == s@,
            neg == (v@.len() > 0 && v@[0] == '-'),
            (start == 1) == (v@.len() > 0 && (v@[0] == '-' || v@[0] == '+')),
            body == if start == 1 {
                s@.drop_first()
            } else {
                s@
            },
            body == v@.skip(start as int),
            all_digits(body.take(i - start)),
            acc as int == dec_val(body.take(i - start)),
            acc <= limit,
            limit == if neg {
                2147483648u64
            } else {
                2147483647u64
            },
        decreases n - i,
    {
        let c = v[i];
        let u = c as u32;
        if u < 48 || u > 57 {
            proof {
                assert(body[i - start] == c);
                assert(!is_digit_char(c));
                assert(!all_digits(body));
            }
            return None;
        }
        let d = (u - 48) as u64;
        proof {
            assert(body.take(i + 1 - start).drop_last() =~= body.take(i - start));
            assert(body.take(i + 1 - start).last() == c);
        }
        let next = acc * 10 + d;
        if next > limit {
            proof {
                assert(dec_val(body.take(i + 1 - start)) > limit);
                if all_digits(body) {
                    lemma_dec_val_prefix(body, i + 1 - start);
                    assert(dec_val(body) > limit);
                }
            }
            return None;
        }
        acc = next;
        i = i + 1;
        proof {
            assert(forall|k: int|
                0 <= k < i - start ==> body.take(i - start)[k] == #[trigger] body[k]);
        }
    }
    proof {
        assert(body.take(n - start) =~= body);
    }
    if neg {
        Some((-(acc as i64)) as i32)
    } else {
        Some(acc as i32)
    }
}

} // verus!
