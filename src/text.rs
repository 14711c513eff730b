//! Decimal text: reading numbers out of CSV fields and writing them back,
//! plus space padding for fixed-width columns.
use vstd::prelude::*;

verus! {

pub open spec fn is_digit(c: char) -> bool {
    '0' <= c && c <= '9'
}

pub open spec fn digit_value(c: char) -> nat {
    (c as int - '0' as int) as nat
}

pub open spec fn all_digits(s: Seq<char>) -> bool {
    forall|i: int| 0 <= i < s.len() ==> is_digit(#[trigger] s[i])
}

/// The value of a run of decimal digits, most significant digit first.
pub open spec fn digits_value(s: Seq<char>) -> nat
    decreases s.len(),
{
    if s.len() == 0 {
        0
    } else {
        digits_value(s.drop_last()) * 10 + digit_value(s.last())
    }
}

/// The value of unsigned decimal text: an optional `+`, then at least one digit.
pub open spec fn unsigned_value(s: Seq<char>) -> Option<nat> {
    let body = if s.len() > 0 && s[0] == '+' { s.drop_first() } else { s };
    if body.len() > 0 && all_digits(body) {
        Some(digits_value(body))
    } else {
        None
    }
}

/// The value of signed decimal text: `-` then digits, or unsigned text.
pub open spec fn signed_value(s: Seq<char>) -> Option<int> {
    if s.len() > 0 && s[0] == '-' {
        let body = s.drop_first();
        if body.len() > 0 && all_digits(body) {
            Some(-(digits_value(body) as int))
        } else {
            None
        }
    } else {
        match unsigned_value(s) {
            Some(v) => Some(v as int),
            None => None,
        }
    }
}

/// A count written as unsigned decimal text, possibly followed by a `.` and
/// a run of fraction digits, which are dropped (`"12.0"` counts 12).
pub open spec fn count_value(s: Seq<char>) -> Option<nat> {
    if exists|k: int|
        0 <= k < s.len() && s[k] == '.' && #[trigger] unsigned_value(s.take(k)) is Some
            && all_digits(s.skip(k + 1)) {
        let k = choose|k: int|
            0 <= k < s.len() && s[k] == '.' && #[trigger] unsigned_value(s.take(k)) is Some
                && all_digits(s.skip(k + 1));
        unsigned_value(s.take(k))
    } else {
        unsigned_value(s)
    }
}

/// `v` as read by a parser that refuses values above `bound`.
pub open spec fn within(v: Option<nat>, bound: u64) -> Option<u64> {
    match v {
        Some(n) => if n <= bound { Some(n as u64) } else { None },
        None => None,
    }
}

proof fn lemma_digits_prefix(s: Seq<char>, j: int)
    requires
        0 <= j <= s.len(),
        all_digits(s),
    ensures
        digits_value(s.take(j)) <= digits_value(s),
    decreases s.len(),
{
    if j < s.len() {
        assert(s.drop_last().take(j) =~= s.take(j));
        lemma_digits_prefix(s.drop_last(), j);
    } else {
        assert(s.take(j) =~= s);
    }
}

/// Reads the digits of `s` between char positions `lo` and `hi`.
fn digits_in(s: &str, lo: usize, hi: usize, bound: u64) -> (r: Option<u64>)
    requires
        lo <= hi <= s@.len(),
    ensures
        r == (if all_digits(s@.subrange(lo as int, hi as int)) {
            within(Some(digits_value(s@.subrange(lo as int, hi as int))), bound)
        } else {
            None
        }),
{
    let ghost whole = s@.subrange(lo as int, hi as int);
    let mut v: u64 = 0;
    let mut i: usize = lo;
    while i < hi
        invariant
            lo <= i <= hi <= s@.len(),
            whole == s@.subrange(lo as int, hi as int),
            all_digits(s@.subrange(lo as int, i as int)),
            v as nat == digits_value(s@.subrange(lo as int, i as int)),
            v <= bound,
        decreases hi - i,
    {
        let c = s.get_char(i);
        let ghost next = s@.subrange(lo as int, i + 1);
        assert(next.drop_last() =~= s@.subrange(lo as int, i as int));
        assert(whole[i - lo] == c);
        if !('0' <= c && c <= '9') {
            return None;
        }
        let d: u64 = (c as u64) - ('0' as u64);
        let w: u128 = (v as u128) * 10 + (d as u128);
        assert(next.last() == c);
        if w > bound as u128 {
            proof {
                if all_digits(whole) {
                    assert(whole.take(i + 1 - lo) =~= next);
                    lemma_digits_prefix(whole, i + 1 - lo);
                }
            }
            return None;
        }
        v = w as u64;
        i = i + 1;
    }
    Some(v)
}


/// Whether the chars of `s` between positions `lo` and `hi` are all digits.
fn digits_only(s: &str, lo: usize, hi: usize) -> (r: bool)
    requires
        lo <= hi <= s@.len(),
    ensures
        r == all_digits(s@.subrange(lo as int, hi as int)),
{
    let mut i: usize = lo;
    while i < hi
        invariant
            lo <= i <= hi <= s@.len(),
            forall|j: int| lo <= j < i ==> is_digit(#[trigger] s@[j]),
        decreases hi - i,
    {
        let c = s.get_char(i);
        if !('0' <= c && c <= '9') {
            assert(s@.subrange(lo as int, hi as int)[i - lo] == c);
            return false;
        }
        i = i + 1;
    }
    assert forall|j: int| 0 <= j < hi - lo implies is_digit(#[trigger] s@.subrange(lo as int, hi as int)[j]) by {
        assert(s@.subrange(lo as int, hi as int)[j] == s@[lo + j]);
    }
    true
}

/// Reads unsigned decimal text, refusing values above `bound`.
pub fn parse_unsigned(s: &str, bound: u64) -> (r: Option<u64>)
    ensures
        r == within(unsigned_value(s@), bound),
{
    let n = s.unicode_len();
    let lo: usize = if n > 0 && s.get_char(0) == '+' { 1 } else { 0 };
    proof {
        if lo == 1 {
            assert(s@.drop_first() =~= s@.subrange(1, n as int));
        } else {
            assert(s@ =~= s@.subrange(0, n as int));
        }
    }
    if lo == n {
        return None;
    }
    digits_in(s, lo, n, bound)
}

/// Reads signed decimal text into an `i64`; `None` where it is not such
/// text or lies outside the range of `i64`.
pub fn parse_signed(s: &str) -> (r: Option<i64>)
    ensures
        r == (match signed_value(s@) {
            Some(v) => if i64::MIN <= v <= i64::MAX { Some(v as i64) } else { None },
            None => None,
        }),
{
    let n = s.unicode_len();
    if n > 0 && s.get_char(0) == '-' {
        assert(s@.drop_first() =~= s@.subrange(1, n as int));
        if n == 1 {
            return None;
        }
        match digits_in(s, 1, n, 0x8000_0000_0000_0000u64) {
            Some(m) => Some((0i128 - m as i128) as i64),
            None => None,
        }
    } else {
        match parse_unsigned(s, 0x7fff_ffff_ffff_ffffu64) {
            Some(m) => Some(m as i64),
            None => None,
        }
    }
}

/// Reads a count (see `count_value`), refusing values above `bound`.
pub fn parse_count(s: &str, bound: u64) -> (r: Option<u64>)
    ensures
        r == within(count_value(s@), bound),
{
    let n = s.unicode_len();
    let mut k: usize = 0;
    while k < n && s.get_char(k) != '.'
        invariant
            k <= n == s@.len(),
            forall|j: int| 0 <= j < k ==> s@[j] != '.',
        decreases n - k,
    {
        k = k + 1;
    }
    if k == n {
        proof {
            assert forall|j: int|
                0 <= j < s@.len() && s@[j] == '.' implies !(#[trigger] unsigned_value(s@.take(j)) is Some
                    && all_digits(s@.skip(j + 1))) by {}
        }
        return parse_unsigned(s, bound);
    }
    let head = s.substring_char(0, k);
    let tail_ok = digits_only(s, k + 1, n);
    let ghost sv = s@;
    proof {
        assert(head@ =~= sv.take(k as int));
        assert(sv.skip(k + 1) =~= sv.subrange(k + 1, n as int));
        assert forall|j: int|
            0 <= j < sv.len() && sv[j] == '.' && #[trigger] unsigned_value(sv.take(j)) is Some
                implies j == k by {
            if j > k {
                let t = sv.take(j);
                if t.len() > 0 && t[0] == '+' {
                    assert(t.drop_first()[k - 1] == sv[k as int]);
                } else {
                    assert(t[k as int] == sv[k as int]);
                }
            }
        }
    }
    proof {
        // the whole field holds a '.', so it is no plain unsigned text
        if sv.len() > 0 && sv[0] == '+' {
            assert(sv.drop_first()[k - 1] == sv[k as int]);
        } else {
            assert(sv[k as int] == '.');
        }
        assert(unsigned_value(sv) is None);
        if tail_ok && unsigned_value(sv.take(k as int)) is Some {
            assert(sv[k as int] == '.');
        }
    }
    if !tail_ok {
        return None;
    }
    parse_unsigned(head, bound)
}


pub open spec fn digit_char(d: nat) -> char {
    ((d % 10) + '0' as nat) as char
}

/// The decimal rendering of `n`, without leading zeros.
pub open spec fn decimal(n: nat) -> Seq<char>
    decreases n,
{
    if n < 10 {
        seq![digit_char(n)]
    } else {
        decimal(n / 10).push(digit_char(n % 10))
    }
}

/// `n` spaces.
pub open spec fn spaces(n: nat) -> Seq<char> {
    Seq::new(n, |i: int| ' ')
}

/// `s` right-aligned in a column of `w` chars (never cut).
pub open spec fn align_right(s: Seq<char>, w: nat) -> Seq<char> {
    if s.len() >= w {
        s
    } else {
        spaces((w - s.len()) as nat) + s
    }
}

/// `s` left-aligned in a column of `w` chars (never cut).
pub open spec fn align_left(s: Seq<char>, w: nat) -> Seq<char> {
    if s.len() >= w {
        s
    } else {
        s + spaces((w - s.len()) as nat)
    }
}

fn digit_str(d: u64) -> (r: &'static str)
    requires
        d < 10,
    ensures
        r@ == seq![digit_char(d as nat)],
{
    proof {
        reveal_strlit("0");
        reveal_strlit("1");
        reveal_strlit("2");
        reveal_strlit("3");
        reveal_strlit("4");
        reveal_strlit("5");
        reveal_strlit("6");
        reveal_strlit("7");
        reveal_strlit("8");
        reveal_strlit("9");
    }
    match d {
        0 => "0",
        1 => "1",
        2 => "2",
        3 => "3",
        4 => "4",
        5 => "5",
        6 => "6",
        7 => "7",
        8 => "8",
        _ => "9",
    }
}

/// The decimal text of `n`.
pub fn decimal_string(n: u64) -> (r: String)
    ensures
        r@ == decimal(n as nat),
    decreases n,
{
    if n < 10 {
        String::from_str(digit_str(n))
    } else {
        let mut s = decimal_string(n / 10);
        s.append(digit_str(n % 10));
        s
    }
}

fn append_spaces(s: &mut String, n: usize)
    ensures
        final(s)@ == old(s)@ + spaces(n as nat),
{
    let ghost start = s@;
    let mut i: usize = 0;
    proof { reveal_strlit(" "); }
    while i < n
        invariant
            i <= n,
            s@ =~= start + spaces(i as nat),
        decreases n - i,
    {
        proof { reveal_strlit(" "); }
        s.append(" ");
        assert(spaces((i + 1) as nat) =~= spaces(i as nat).push(' '));
        i = i + 1;
    }
}

/// `s` right-aligned in a column of `w` chars.
pub fn pad_right_aligned(s: &str, w: usize) -> (r: String)
    ensures
        r@ == align_right(s@, w as nat),
{
    let n = s.unicode_len();
    let mut r = String::new();
    if n < w {
        append_spaces(&mut r, w - n);
    }
    r.append(s);
    proof {
        if n >= w {
            assert(r@ =~= s@);
        }
    }
    r
}

/// `s` left-aligned in a column of `w` chars.
pub fn pad_left_aligned(s: &str, w: usize) -> (r: String)
    ensures
        r@ == align_left(s@, w as nat),
{
    let n = s.unicode_len();
    let mut r = String::from_str(s);
    if n < w {
        append_spaces(&mut r, w - n);
    }
    r
}

} // verus!
