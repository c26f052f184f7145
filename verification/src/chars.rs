//! Character-level helpers shared by the lexers: whitespace trimming as
//! `str::trim` does it, conversions between `&str`, `Vec<char>` and `String`,
//! and the alphanumeric test used by variable names.

use vstd::prelude::*;
use vstd::string::StrSliceExecFns;

verus! {

/// The Unicode `White_Space` code points, the set that `char::is_whitespace`
/// and therefore `str::trim` go by.
pub open spec fn is_space_char(c: char) -> bool {
    let u = c as u32;
    u == 0x09 || u == 0x0A || u == 0x0B || u == 0x0C || u == 0x0D || u == 0x20 || u == 0x85
        || u == 0xA0 || u == 0x1680 || (0x2000 <= u && u <= 0x200A) || u == 0x2028 || u == 0x2029
        || u == 0x202F || u == 0x205F || u == 0x3000
}

pub fn is_space(c: char) -> (r: bool)
    ensures
        r == is_space_char(c),
{
    let u = c as u32;
    u == 0x09 || u == 0x0A || u == 0x0B || u == 0x0C || u == 0x0D || u == 0x20 || u == 0x85
        || u == 0xA0 || u == 0x1680 || (0x2000 <= u && u <= 0x200A) || u == 0x2028 || u == 0x2029
        || u == 0x202F || u == 0x205F || u == 0x3000
}

/// What the name says of an alphanumeric character; the executable test is
/// `alphanumeric` below.
pub uninterp spec fn is_alphanum(c: char) -> bool;

/// Relies on `char::is_alphanumeric`: a pure function of the character,
/// true exactly on Unicode letters and numbers.
#[verifier::external_body]
pub fn alphanumeric(c: char) -> (r: bool)
    ensures
        r == is_alphanum(c),
{
    c.is_alphanumeric()
}

pub open spec fn trim_left(s: Seq<char>) -> Seq<char>
    decreases s.len(),
{
    if s.len() > 0 && is_space_char(s[0]) {
        trim_left(s.drop_first())
    } else {
        s
    }
}

pub open spec fn trim_right(s: Seq<char>) -> Seq<char>
    decreases s.len(),
{
    if s.len() > 0 && is_space_char(s.last()) {
        trim_right(s.drop_last())
    } else {
        s
    }
}

/// What `str::trim` leaves: the sequence without its maximal whitespace
/// prefix and suffix.
pub open spec fn trim_spec(s: Seq<char>) -> Seq<char> {
    trim_right(trim_left(s))
}

proof fn lemma_trim_left_skip(s: Seq<char>, lo: int)
    requires
        0 <= lo <= s.len(),
        forall|k: int| 0 <= k < lo ==> is_space_char(s[k]),
    ensures
        trim_left(s) == trim_left(s.skip(lo)),
    decreases lo,
{
    if lo > 0 {
        assert(s.skip(0) =~= s);
        assert(is_space_char(s[0]));
        assert(trim_left(s) == trim_left(s.drop_first()));
        assert(s.drop_first() =~= s.skip(1));
        lemma_trim_left_skip(s.skip(1), lo - 1);
        assert(s.skip(1).skip(lo - 1) =~= s.skip(lo));
    } else {
        assert(s.skip(0) =~= s);
    }
}

proof fn lemma_trim_right_take(s: Seq<char>, hi: int)
    requires
        0 <= hi <= s.len(),
        forall|k: int| hi <= k < s.len() ==> is_space_char(s[k]),
    ensures
        trim_right(s) == trim_right(s.take(hi)),
    decreases s.len() - hi,
{
    if hi < s.len() {
        assert(is_space_char(s.last()));
        assert(trim_right(s) == trim_right(s.drop_last()));
        assert(s.drop_last() =~= s.take(s.len() - 1));
        lemma_trim_right_take(s.take(s.len() - 1), hi);
        assert(s.take(s.len() - 1).take(hi) =~= s.take(hi));
    } else {
        assert(s.take(s.len() as int) =~= s);
    }
}

proof fn lemma_trim_left_contains(s: Seq<char>, x: char)
    requires
        !is_space_char(x),
        s.contains(x),
    ensures
        trim_left(s).contains(x),
    decreases s.len(),
{
    if s.len() > 0 && is_space_char(s[0]) {
        let i = choose|i: int| 0 <= i < s.len() && s[i] == x;
        assert(i > 0);
        assert(s.drop_first()[i - 1] == x);
        assert(s.drop_first().contains(x));
        lemma_trim_left_contains(s.drop_first(), x);
    }
}

proof fn lemma_trim_right_contains(s: Seq<char>, x: char)
    requires
        !is_space_char(x),
        s.contains(x),
    ensures
        trim_right(s).contains(x),
    decreases s.len(),
{
    if s.len() > 0 && is_space_char(s.last()) {
        let i = choose|i: int| 0 <= i < s.len() && s[i] == x;
        assert(i < s.len() - 1);
        assert(s.drop_last()[i] == x);
        assert(s.drop_last().contains(x));
        lemma_trim_right_contains(s.drop_last(), x);
    }
}

/// A character that is not whitespace survives trimming.
pub proof fn lemma_trim_contains(s: Seq<char>, x: char)
    requires
        !is_space_char(x),
        s.contains(x),
    ensures
        trim_spec(s).contains(x),
{
    lemma_trim_left_contains(s, x);
    lemma_trim_right_contains(trim_left(s), x);
}

/// Trims a character vector exactly as `str::trim` trims a string.
pub fn trim_chars(v: &Vec<char>) -> (r: Vec<char>)
    ensures
        r@ == trim_spec(v@),
{
    let mut lo: usize = 0;
    while lo < v.len() && is_space(v[lo])
        invariant
            0 <= lo <= v@.len(),
            forall|k: int| 0 <= k < lo ==> is_space_char(v@[k]),
        decreases v@.len() - lo,
    {
        lo = lo + 1;
    }
    proof {
        lemma_trim_left_skip(v@, lo as int);
    }
    let ghost left = v@.skip(lo as int);
    let mut hi: usize = v.len();
    while hi > lo && is_space(v[hi - 1])
        invariant
            lo <= hi <= v@.len(),
            left == v@.skip(lo as int),
            forall|k: int| hi <= k < v@.len() ==> is_space_char(v@[k]),
        decreases hi,
    {
        hi = hi - 1;
    }
    proof {
        assert(forall|k: int| #![auto] 0 <= k < left.len() ==> left[k] == v@[k + lo]);
        assert(forall|k: int| hi - lo <= k < left.len() ==> is_space_char(left[k]));
        lemma_trim_right_take(left, hi - lo);
        if hi > lo {
            assert(!is_space_char(v@[hi - 1]));
        }
    }
    let mut r: Vec<char> = Vec::new();
    let mut i: usize = lo;
    while i < hi
        invariant
            lo <= i <= hi <= v@.len(),
            r@ =~= v@.subrange(lo as int, i as int),
        decreases hi - i,
    {
        r.push(v[i]);
        i = i + 1;
    }
    proof {
        assert(r@ =~= left.take(hi - lo as int));
        if hi > lo {
            assert(trim_right(left.take(hi - lo as int)) =~= left.take(hi - lo as int));
        } else {
            assert(r@ =~= Seq::<char>::empty());
        }
    }
    r
}

/// Relies on `String::push`: appends the character to the string.
pub assume_specification[ String::push ](s: &mut String, c: char)
    ensures
        final(s)@ == old(s)@.push(c),
;

/// The characters of a string slice as a vector.
pub fn chars_of(s: &str) -> (r: Vec<char>)
    ensures
        r@ == s@,
{
    let n = s.unicode_len();
    let mut r: Vec<char> = Vec::new();
    let mut i: usize = 0;
    while i < n
        invariant
            0 <= i <= n,
            n == s@.len(),
            r@ =~= s@.take(i as int),
        decreases n - i,
    {
        r.push(s.get_char(i));
        i = i + 1;
    }
    proof {
        assert(r@ =~= s@);
    }
    r
}

/// A `String` holding exactly the given characters.
pub fn string_of(v: &Vec<char>) -> (r: String)
    ensures
        r@ == v@,
{
    let mut r = String::new();
    let mut i: usize = 0;
    while i < v.len()
        invariant
            0 <= i <= v@.len(),
            r@ =~= v@.take(i as int),
        decreases v@.len() - i,
    {
        r.push(v[i]);
        i = i + 1;
    }
    proof {
        assert(r@ =~= v@);
    }
    r
}

/// Appends the characters of `src` to `dst`.
pub fn extend_chars(dst: &mut Vec<char>, src: &Vec<char>)
    ensures
        final(dst)@ == old(dst)@ + src@,
{
    let mut i: usize = 0;
    while i < src.len()
        invariant
            0 <= i <= src@.len(),
            dst@ =~= old(dst)@ + src@.take(i as int),
        decreases src@.len() - i,
    {
        dst.push(src[i]);
        i = i + 1;
    }
    proof {
        assert(dst@ =~= old(dst)@ + src@);
    }
}

/// Trims a string as `str::trim` does and returns it as an owned `String`.
pub fn trim_str(s: &str) -> (r: String)
    ensures
        r@ == trim_spec(s@),
{
    let v = chars_of(s);
    let t = trim_chars(&v);
    string_of(&t)
}

} // verus!
