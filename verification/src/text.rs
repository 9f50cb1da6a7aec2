//! Character-level helpers shared by the date parser and the chart
//! renderer: digit handling, decimal formatting, splitting and trimming.

use vstd::prelude::*;

verus! {

// ---------------------------------------------------------------------------
// digits
// ---------------------------------------------------------------------------

/// The character for a single decimal digit.
pub open spec fn digit_char(d: int) -> char {
    ((48 + d) as u8) as char
}

pub open spec fn is_digit_char(c: char) -> bool {
    '0' <= c && c <= '9'
}

pub open spec fn digit_val(c: char) -> int {
    c as int - 48
}

pub open spec fn all_digits(s: Seq<char>) -> bool {
    forall|i: int| 0 <= i < s.len() ==> is_digit_char(#[trigger] s[i])
}

/// Numeric value of a digit string, most significant digit first.
pub open spec fn digits_val(s: Seq<char>) -> int
    decreases s.len(),
{
    if s.len() == 0 {
        0
    } else {
        digits_val(s.drop_last()) * 10 + digit_val(s.last())
    }
}

pub open spec fn pow10(k: int) -> int
    decreases k,
{
    if k <= 0 {
        1
    } else {
        10 * pow10(k - 1)
    }
}

/// Decimal digit sequence of a nonnegative number, no leading zeros.
pub open spec fn dec_chars(n: int) -> Seq<char>
    decreases n when n >= 0
{
    if n < 10 {
        seq![digit_char(n)]
    } else {
        dec_chars(n / 10).push(digit_char(n % 10))
    }
}

/// `s` left-padded with '0' up to width `k`.
pub open spec fn zero_pad(s: Seq<char>, k: int) -> Seq<char> {
    if s.len() >= k {
        s
    } else {
        Seq::new((k - s.len()) as nat, |_i: int| '0') + s
    }
}

proof fn lemma_pow10_small()
    ensures
        pow10(0) == 1,
        pow10(1) == 10,
        pow10(2) == 100,
        pow10(3) == 1000,
        pow10(4) == 10000,
        pow10(5) == 100000,
        pow10(6) == 1000000,
{
    assert(pow10(0) == 1);
    assert(pow10(1) == 10);
    assert(pow10(2) == 100);
    assert(pow10(3) == 1000);
    assert(pow10(4) == 10000);
    assert(pow10(5) == 100000);
    assert(pow10(6) == 1000000);
}

proof fn lemma_dec_chars_len(n: int)
    requires
        n >= 0,
    ensures
        dec_chars(n).len() >= 1,
        n < 10 ==> dec_chars(n).len() == 1,
        10 <= n < 100 ==> dec_chars(n).len() == 2,
        100 <= n < 1000 ==> dec_chars(n).len() == 3,
        n >= 1000 ==> dec_chars(n).len() >= 4,
    decreases n,
{
    if n >= 10 {
        lemma_dec_chars_len(n / 10);
    }
}

// ---------------------------------------------------------------------------
// splitting and trimming
// ---------------------------------------------------------------------------

/// Split on a separator character.  An empty input yields one empty part,
/// as `str::split` does.
pub open spec fn split_chars(s: Seq<char>, sep: char) -> Seq<Seq<char>>
    decreases s.len(),
{
    if s.len() == 0 {
        seq![Seq::<char>::empty()]
    } else {
        let r = split_chars(s.drop_last(), sep);
        if s.last() == sep {
            r.push(Seq::<char>::empty())
        } else {
            r.update(r.len() - 1, r.last().push(s.last()))
        }
    }
}

pub proof fn lemma_split_chars_len(s: Seq<char>, sep: char)
    ensures
        split_chars(s, sep).len() >= 1,
    decreases s.len(),
{
    if s.len() > 0 {
        lemma_split_chars_len(s.drop_last(), sep);
    }
}

pub open spec fn is_space_char(c: char) -> bool {
    c == ' ' || c == '\t' || c == '\n' || c == '\r'
}

/// All characters are whitespace (so the string trims to nothing).
pub open spec fn is_blank(s: Seq<char>) -> bool {
    forall|i: int| 0 <= i < s.len() ==> is_space_char(#[trigger] s[i])
}

/// `s` with leading and trailing whitespace removed.
pub open spec fn trim_chars(s: Seq<char>) -> Seq<char>
    decreases s.len(),
{
    if s.len() == 0 {
        s
    } else if is_space_char(s[0]) {
        trim_chars(s.drop_first())
    } else if is_space_char(s.last()) {
        trim_chars(s.drop_last())
    } else {
        s
    }
}

// ---------------------------------------------------------------------------
// executable helpers
// ---------------------------------------------------------------------------

/// Relies on `String::push`: appends exactly the given character.
#[verifier::external_body]
pub fn push_char(s: &mut String, c: char)
    ensures
        final(s)@ == old(s)@.push(c),
{
    s.push(c);
}

pub fn char_is_space(c: char) -> (r: bool)
    ensures
        r == is_space_char(c),
{
    c == ' ' || c == '\t' || c == '\n' || c == '\r'
}

pub fn char_is_digit(c: char) -> (r: bool)
    ensures
        r == is_digit_char(c),
{
    '0' <= c && c <= '9'
}

/// Appends the decimal digits of `n`.
pub fn push_u64(s: &mut String, n: u64)
    ensures
        final(s)@ == old(s)@ + dec_chars(n as int),
    decreases n,
{
    if n < 10 {
        let c = (48 + n as u8) as char;
        push_char(s, c);
        assert(s@ =~= old(s)@ + dec_chars(n as int));
    } else {
        push_u64(s, n / 10);
        let c = (48 + (n % 10) as u8) as char;
        push_char(s, c);
        assert(s@ =~= old(s)@ + dec_chars(n as int));
    }
}

/// Appends `n` zero-padded to at least two digits.
pub fn push_u64_pad2(s: &mut String, n: u64)
    ensures
        final(s)@ == old(s)@ + zero_pad(dec_chars(n as int), 2),
{
    proof {
        lemma_dec_chars_len(n as int);
    }
    if n < 10 {
        push_char(s, '0');
    }
    push_u64(s, n);
    assert(s@ =~= old(s)@ + zero_pad(dec_chars(n as int), 2));
}

/// Appends `n` zero-padded to at least four digits.
pub fn push_u64_pad4(s: &mut String, n: u64)
    ensures
        final(s)@ == old(s)@ + zero_pad(dec_chars(n as int), 4),
{
    proof {
        lemma_dec_chars_len(n as int);
    }
    if n < 10 {
        push_char(s, '0');
        push_char(s, '0');
        push_char(s, '0');
    } else if n < 100 {
        push_char(s, '0');
        push_char(s, '0');
    } else if n < 1000 {
        push_char(s, '0');
    }
    push_u64(s, n);
    assert(s@ =~= old(s)@ + zero_pad(dec_chars(n as int), 4));
}

/// Splits on a separator character, as `str::split` does.
pub fn split_str(s: &str, sep: char) -> (r: Vec<String>)
    ensures
        r.deep_view() == split_chars(s@, sep),
{
    let n = s.unicode_len();
    let mut parts: Vec<String> = Vec::new();
    let mut cur: String = String::new();
    let mut i: usize = 0;
    while i < n
        invariant
            n == s@.len(),
            0 <= i <= n,
            parts.deep_view() + seq![cur@] =~= split_chars(s@.subrange(0, i as int), sep),
        decreases n - i,
    {
        let c = s.get_char(i);
        proof {
            assert(s@.subrange(0, i as int + 1).drop_last() =~= s@.subrange(0, i as int));
            assert(s@.subrange(0, i as int + 1).last() == s@[i as int]);
            lemma_split_chars_len(s@.subrange(0, i as int), sep);
        }
        if c == sep {
            parts.push(cur);
            cur = String::new();
            assert(parts.deep_view() + seq![cur@] =~= split_chars(
                s@.subrange(0, i as int + 1),
                sep,
            ));
        } else {
            push_char(&mut cur, c);
            assert(parts.deep_view() + seq![cur@] =~= split_chars(
                s@.subrange(0, i as int + 1),
                sep,
            ));
        }
        i = i + 1;
    }
    proof {
        assert(s@.subrange(0, n as int) =~= s@);
    }
    parts.push(cur);
    assert(parts.deep_view() =~= split_chars(s@, sep));
    parts
}

/// True when the string is empty or all whitespace.
pub fn str_is_blank(s: &String) -> (r: bool)
    ensures
        r == is_blank(s@),
{
    let n = s.as_str().unicode_len();
    let mut i: usize = 0;
    while i < n
        invariant
            n == s@.len(),
            0 <= i <= n,
            forall|j: int| 0 <= j < i ==> is_space_char(#[trigger] s@[j]),
        decreases n - i,
    {
        if !char_is_space(s.as_str().get_char(i)) {
            return false;
        }
        i = i + 1;
    }
    true
}

/// Removes leading and trailing whitespace.
pub fn trim_str(s: &String) -> (r: String)
    ensures
        r@ == trim_chars(s@),
{
    let n = s.as_str().unicode_len();
    let mut lo: usize = 0;
    let mut hi: usize = n;
    proof {
        assert(s@.subrange(0, n as int) =~= s@);
    }
    while lo < hi && char_is_space(s.as_str().get_char(lo))
        invariant
            n == s@.len(),
            0 <= lo <= hi <= n,
            trim_chars(s@.subrange(lo as int, hi as int)) == trim_chars(s@),
            hi == n,
        decreases hi - lo,
    {
        proof {
            let sub = s@.subrange(lo as int, hi as int);
            assert(sub.drop_first() =~= s@.subrange(lo as int + 1, hi as int));
        }
        lo = lo + 1;
    }
    while lo < hi && char_is_space(s.as_str().get_char(hi - 1))
        invariant
            n == s@.len(),
            0 <= lo <= hi <= n,
            trim_chars(s@.subrange(lo as int, hi as int)) == trim_chars(s@),
            lo < hi ==> !is_space_char(s@[lo as int]),
        decreases hi - lo,
    {
        proof {
            let sub = s@.subrange(lo as int, hi as int);
            assert(sub.drop_last() =~= s@.subrange(lo as int, hi as int - 1));
            assert(sub[0] == s@[lo as int]);
        }
        hi = hi - 1;
    }
    proof {
        let sub = s@.subrange(lo as int, hi as int);
        if lo < hi {
            assert(sub[0] == s@[lo as int]);
            assert(sub.last() == s@[hi as int - 1]);
        }
        assert(trim_chars(sub) == sub);
    }
    let r = String::from_str(s.as_str().substring_char(lo, hi));
    r
}

/// Parses a string of at most six decimal digits.  Returns `None` when the
/// string is empty, too long, or holds a non-digit.
pub fn parse_digits(s: &String) -> (r: Option<u64>)
    ensures
        match r {
            Some(v) => 1 <= s@.len() <= 6 && all_digits(s@) && v == digits_val(s@),
            None => !(1 <= s@.len() <= 6 && all_digits(s@)),
        },
{
    let n = s.as_str().unicode_len();
    if n < 1 || n > 6 {
        return None;
    }
    proof {
        lemma_pow10_small();
    }
    let mut acc: u64 = 0;
    let mut i: usize = 0;
    while i < n
        invariant
            n == s@.len(),
            1 <= n <= 6,
            0 <= i <= n,
            forall|j: int| 0 <= j < i ==> is_digit_char(#[trigger] s@[j]),
            acc == digits_val(s@.subrange(0, i as int)),
            acc < pow10(i as int),
            acc < 1000000,
        decreases n - i,
    {
        let c = s.as_str().get_char(i);
        if !char_is_digit(c) {
            return None;
        }
        proof {
            lemma_pow10_small();
            let pre = s@.subrange(0, i as int + 1);
            assert(pre.drop_last() =~= s@.subrange(0, i as int));
            assert(pre.last() == s@[i as int]);
            assert(pow10(i as int + 1) == 10 * pow10(i as int));
        }
        let d = c as u8 - 48;
        acc = acc * 10 + d as u64;
        i = i + 1;
    }
    proof {
        assert(s@.subrange(0, n as int) =~= s@);
    }
    Some(acc)
}

} // verus!
