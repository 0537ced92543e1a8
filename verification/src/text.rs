//! Character-level text handling shared by the parsers of the server:
//! whitespace trimming, prefixes and suffixes, splitting, and decimal numbers.

use vstd::prelude::*;

verus! {

/// Appends one character to a string (std's `String::push`).
#[verifier::external_body]
pub(crate) fn push_char(s: &mut String, c: char)
    ensures
        final(s)@ == old(s)@.push(c),
{
    s.push(c);
}

/// The characters of `s`, in order.
pub fn chars_of(s: &str) -> (r: Vec<char>)
    ensures
        r@ == s@,
{
    let n = s.unicode_len();
    let mut r: Vec<char> = Vec::new();
    let mut i: usize = 0;
    while i < n
        invariant
            n == s@.len(),
            i <= n,
            r@ == s@.take(i as int),
        decreases n - i,
    {
        let c = s.get_char(i);
        r.push(c);
        i = i + 1;
        assert(r@ =~= s@.take(i as int));
    }
    assert(s@.take(n as int) =~= s@);
    r
}

/// A string holding exactly the characters `v[lo..hi]`.
pub fn string_of_range(v: &Vec<char>, lo: usize, hi: usize) -> (r: String)
    requires
        lo <= hi <= v@.len(),
    ensures
        r@ == v@.subrange(lo as int, hi as int),
{
    let mut r = String::new();
    let mut i: usize = lo;
    while i < hi
        invariant
            lo <= i <= hi <= v@.len(),
            r@ == v@.subrange(lo as int, i as int),
        decreases hi - i,
    {
        push_char(&mut r, v[i]);
        i = i + 1;
        assert(r@ =~= v@.subrange(lo as int, i as int));
    }
    r
}

/// A string holding exactly the characters of `v`.
pub fn string_of(v: &Vec<char>) -> (r: String)
    ensures
        r@ == v@,
{
    let r = string_of_range(v, 0, v.len());
    assert(v@.subrange(0, v@.len() as int) =~= v@);
    r
}

/// Appends every character of `v` to `out`.
pub fn append_chars(out: &mut String, v: &Vec<char>)
    ensures
        final(out)@ == old(out)@ + v@,
{
    let mut i: usize = 0;
    while i < v.len()
        invariant
            i <= v@.len(),
            out@ == old(out)@ + v@.take(i as int),
        decreases v.len() - i,
    {
        push_char(out, v[i]);
        i = i + 1;
        assert(out@ =~= old(out)@ + v@.take(i as int));
    }
    assert(v@.take(v@.len() as int) =~= v@);
}

// ---------------------------------------------------------------------------
// Whitespace

/// Unicode `White_Space`, the set std's `char::is_whitespace` documents.
pub open spec fn is_ws(c: char) -> bool {
    ||| '\u{9}' <= c <= '\u{d}'
    ||| c == ' '
    ||| c == '\u{85}'
    ||| c == '\u{a0}'
    ||| c == '\u{1680}'
    ||| '\u{2000}' <= c <= '\u{200a}'
    ||| c == '\u{2028}'
    ||| c == '\u{2029}'
    ||| c == '\u{202f}'
    ||| c == '\u{205f}'
    ||| c == '\u{3000}'
}

pub fn is_whitespace(c: char) -> (r: bool)
    ensures
        r == is_ws(c),
{
    ('\u{9}' <= c && c <= '\u{d}') || c == ' ' || c == '\u{85}' || c == '\u{a0}' || c
        == '\u{1680}' || ('\u{2000}' <= c && c <= '\u{200a}') || c == '\u{2028}' || c
        == '\u{2029}' || c == '\u{202f}' || c == '\u{205f}' || c == '\u{3000}'
}

/// `s` without its leading whitespace.
pub open spec fn trim_start(s: Seq<char>) -> Seq<char>
    decreases s.len(),
{
    if s.len() > 0 && is_ws(s[0]) {
        trim_start(s.drop_first())
    } else {
        s
    }
}

/// `s` without its trailing whitespace.
pub open spec fn trim_end(s: Seq<char>) -> Seq<char>
    decreases s.len(),
{
    if s.len() > 0 && is_ws(s.last()) {
        trim_end(s.drop_last())
    } else {
        s
    }
}

/// `s` without leading and trailing whitespace (std's `str::trim`).
pub open spec fn trim(s: Seq<char>) -> Seq<char> {
    trim_end(trim_start(s))
}

/// The bounds `(lo, hi)` such that `v[lo..hi]` is `v` trimmed.
pub fn trim_bounds(v: &Vec<char>) -> (r: (usize, usize))
    ensures
        r.0 <= r.1 <= v@.len(),
        v@.subrange(r.0 as int, r.1 as int) == trim(v@),
        v@.skip(r.0 as int) == trim_start(v@),
{
    let n = v.len();
    let mut i: usize = 0;
    assert(v@.skip(0) =~= v@);
    while i < n && is_whitespace(v[i])
        invariant
            n == v@.len(),
            i <= n,
            trim_start(v@) == trim_start(v@.skip(i as int)),
        decreases n - i,
    {
        assert(v@.skip(i as int).drop_first() =~= v@.skip(i as int + 1));
        i = i + 1;
    }
    let mut j: usize = n;
    assert(v@.subrange(i as int, n as int) =~= v@.skip(i as int));
    while j > i && is_whitespace(v[j - 1])
        invariant
            n == v@.len(),
            i <= j <= n,
            trim_start(v@) == v@.skip(i as int),
            trim_end(v@.skip(i as int)) == trim_end(v@.subrange(i as int, j as int)),
        decreases j,
    {
        assert(v@.subrange(i as int, j as int).drop_last() =~= v@.subrange(i as int, j - 1));
        j = j - 1;
    }
    (i, j)
}

/// `v` trimmed of leading and trailing whitespace.
pub fn trim_chars(v: &Vec<char>) -> (r: Vec<char>)
    ensures
        r@ == trim(v@),
{
    let (lo, hi) = trim_bounds(v);
    slice_chars(v, lo, hi)
}

/// A copy of `v[lo..hi]`.
pub fn slice_chars(v: &Vec<char>, lo: usize, hi: usize) -> (r: Vec<char>)
    requires
        lo <= hi <= v@.len(),
    ensures
        r@ == v@.subrange(lo as int, hi as int),
{
    let mut r: Vec<char> = Vec::new();
    let mut i: usize = lo;
    while i < hi
        invariant
            lo <= i <= hi <= v@.len(),
            r@ == v@.subrange(lo as int, i as int),
        decreases hi - i,
    {
        r.push(v[i]);
        i = i + 1;
        assert(r@ =~= v@.subrange(lo as int, i as int));
    }
    r
}

// ---------------------------------------------------------------------------
// Prefixes and suffixes

pub open spec fn starts_with(s: Seq<char>, p: Seq<char>) -> bool {
    p.len() <= s.len() && s.take(p.len() as int) == p
}

pub open spec fn ends_with(s: Seq<char>, p: Seq<char>) -> bool {
    p.len() <= s.len() && s.skip(s.len() - p.len()) == p
}

/// Whether `v[at..]` begins with the characters of `p`.
pub fn matches_at(v: &Vec<char>, at: usize, p: &str) -> (r: bool)
    requires
        at <= v@.len(),
    ensures
        r == starts_with(v@.skip(at as int), p@),
{
    let m = p.unicode_len();
    let n = v.len();
    if m > n - at {
        return false;
    }
    let mut k: usize = 0;
    while k < m
        invariant
            m == p@.len(),
            n == v@.len(),
            at + m <= n,
            k <= m,
            forall|t: int| 0 <= t < k ==> v@[at + t] == p@[t],
        decreases m - k,
    {
        if v[at + k] != p.get_char(k) {
            assert(v@.skip(at as int).take(m as int)[k as int] != p@[k as int]);
            return false;
        }
        k = k + 1;
    }
    assert(v@.skip(at as int).take(m as int) =~= p@);
    true
}

/// Whether `v` begins with the characters of `p`.
pub fn has_prefix(v: &Vec<char>, p: &str) -> (r: bool)
    ensures
        r == starts_with(v@, p@),
{
    assert(v@.skip(0) =~= v@);
    matches_at(v, 0, p)
}

/// Whether `v` ends with the characters of `p`.
pub fn has_suffix(v: &Vec<char>, p: &str) -> (r: bool)
    ensures
        r == ends_with(v@, p@),
{
    let m = p.unicode_len();
    if m > v.len() {
        return false;
    }
    let r = matches_at(v, v.len() - m, p);
    assert(v@.skip(v@.len() - m).take(m as int) =~= v@.skip(v@.len() - m));
    r
}

/// Whether `v` holds exactly the characters of `p`.
pub fn equals_str(v: &Vec<char>, p: &str) -> (r: bool)
    ensures
        r == (v@ == p@),
{
    if v.len() != p.unicode_len() {
        return false;
    }
    let r = has_prefix(v, p);
    assert(v@.take(v@.len() as int) =~= v@);
    r
}

// ---------------------------------------------------------------------------
// Decimal numbers

pub open spec fn is_digit(c: char) -> bool {
    '0' <= c <= '9'
}

pub open spec fn digit_value(c: char) -> int {
    c as int - '0' as int
}

/// The decimal digit for `d` (`d < 10`).
pub open spec fn digit_char(d: nat) -> char {
    if d == 0 {
        '0'
    } else if d == 1 {
        '1'
    } else if d == 2 {
        '2'
    } else if d == 3 {
        '3'
    } else if d == 4 {
        '4'
    } else if d == 5 {
        '5'
    } else if d == 6 {
        '6'
    } else if d == 7 {
        '7'
    } else if d == 8 {
        '8'
    } else {
        '9'
    }
}

/// The decimal rendering of `n`, without sign or leading zeros.
pub open spec fn decimal(n: nat) -> Seq<char>
    decreases n,
{
    if n < 10 {
        seq![digit_char(n)]
    } else {
        decimal(n / 10).push(digit_char(n % 10))
    }
}

pub open spec fn all_digits(s: Seq<char>) -> bool {
    forall|i: int| 0 <= i < s.len() ==> is_digit(#[trigger] s[i])
}

/// The number that the decimal digits `s` denote.
pub open spec fn digits_value(s: Seq<char>) -> int
    decreases s.len(),
{
    if s.len() == 0 {
        0
    } else {
        digits_value(s.drop_last()) * 10 + digit_value(s.last())
    }
}

/// `s` without one leading `+`.
pub open spec fn unsigned_digits(s: Seq<char>) -> Seq<char> {
    if s.len() > 0 && s[0] == '+' {
        s.drop_first()
    } else {
        s
    }
}

/// What std's `FromStr` for an unsigned integer type whose largest value is
/// `max` gives: an optional `+`, then one or more decimal digits, denoting a
/// number no larger than `max`.
pub open spec fn parse_unsigned(s: Seq<char>, max: int) -> Option<int> {
    let d = unsigned_digits(s);
    if d.len() > 0 && all_digits(d) && digits_value(d) <= max {
        Some(digits_value(d))
    } else {
        None
    }
}

proof fn lemma_digit_char(d: nat)
    requires
        d < 10,
    ensures
        is_digit(digit_char(d)),
        digit_value(digit_char(d)) == d,
{
}

proof fn lemma_digits_value_nonneg(s: Seq<char>)
    requires
        all_digits(s),
    ensures
        digits_value(s) >= 0,
    decreases s.len(),
{
    if s.len() > 0 {
        lemma_digits_value_nonneg(s.drop_last());
    }
}

/// Appending digits never makes the denoted number smaller.
proof fn lemma_digits_value_grows(p: Seq<char>, q: Seq<char>)
    requires
        all_digits(p + q),
    ensures
        digits_value(p + q) >= digits_value(p),
    decreases q.len(),
{
    if q.len() == 0 {
        assert(p + q =~= p);
    } else {
        assert((p + q).drop_last() =~= p + q.drop_last());
        lemma_digits_value_grows(p, q.drop_last());
        lemma_digits_value_nonneg((p + q).drop_last());
    }
}

/// Rendering a number in decimal and reading it back gives the number.
pub proof fn lemma_decimal(n: nat)
    ensures
        decimal(n).len() > 0,
        all_digits(decimal(n)),
        digits_value(decimal(n)) == n,
        unsigned_digits(decimal(n)) == decimal(n),
    decreases n,
{
    if n < 10 {
        lemma_digit_char(n);
        assert(decimal(n).drop_last() =~= Seq::<char>::empty());
        assert(digits_value(Seq::<char>::empty()) == 0);
    } else {
        lemma_decimal(n / 10);
        lemma_digit_char(n % 10);
        assert(decimal(n).drop_last() =~= decimal(n / 10));
        assert(decimal(n).last() == digit_char(n % 10));
        assert(n == (n / 10) * 10 + n % 10);
        assert(all_digits(decimal(n)));
        assert(decimal(n)[0] == decimal(n / 10)[0]);
    }
}

/// `decimal(n)` read back as an unsigned number of any width that holds `n`.
pub proof fn lemma_parse_decimal(n: nat, max: int)
    requires
        n <= max,
    ensures
        parse_unsigned(decimal(n), max) == Some(n as int),
{
    lemma_decimal(n);
}

fn digit_of(d: u64) -> (r: char)
    requires
        d < 10,
    ensures
        r == digit_char(d as nat),
{
    if d == 0 {
        '0'
    } else if d == 1 {
        '1'
    } else if d == 2 {
        '2'
    } else if d == 3 {
        '3'
    } else if d == 4 {
        '4'
    } else if d == 5 {
        '5'
    } else if d == 6 {
        '6'
    } else if d == 7 {
        '7'
    } else if d == 8 {
        '8'
    } else {
        '9'
    }
}

/// Appends the decimal rendering of `n` to `out`.
pub fn push_decimal(out: &mut String, n: u64)
    ensures
        final(out)@ == old(out)@ + decimal(n as nat),
    decreases n,
{
    if n >= 10 {
        push_decimal(out, n / 10);
    }
    push_char(out, digit_of(n % 10));
    assert(out@ =~= old(out)@ + decimal(n as nat));
}

/// Reads `v` as an unsigned number no larger than `max`.
pub fn parse_decimal(v: &Vec<char>, max: u64) -> (r: Option<u64>)
    requires
        max <= u32::MAX,
    ensures
        match r {
            Some(x) => parse_unsigned(v@, max as int) == Some(x as int),
            None => parse_unsigned(v@, max as int) is None,
        },
{
    let n = v.len();
    let start: usize = if n > 0 && v[0] == '+' {
        1
    } else {
        0
    };
    let ghost d = unsigned_digits(v@);
    assert(d =~= v@.skip(start as int));
    if start == n {
        return None;
    }
    let mut acc: u64 = 0;
    let mut i: usize = start;
    assert(v@.subrange(start as int, start as int) =~= Seq::<char>::empty());
    while i < n
        invariant
            n == v@.len(),
            start < n,
            start <= i <= n,
            d == v@.skip(start as int),
            d == unsigned_digits(v@),
            max <= u32::MAX,
            all_digits(v@.subrange(start as int, i as int)),
            acc as int == digits_value(v@.subrange(start as int, i as int)),
            acc <= max,
        decreases n - i,
    {
        let c = v[i];
        let ghost pre = v@.subrange(start as int, i as int);
        let ghost cur = v@.subrange(start as int, i + 1);
        assert(cur.drop_last() =~= pre);
        assert(d[i - start] == c);
        if !('0' <= c && c <= '9') {
            assert(!is_digit(d[i - start]));
            assert(!all_digits(d));
            return None;
        }
        let dv = (c as u32 - '0' as u32) as u64;
        let next = acc * 10 + dv;
        assert(all_digits(cur));
        assert(cur.last() == c);
        assert(digits_value(cur) == next);
        if next > max {
            assert(d =~= cur + v@.skip(i as int + 1));
            proof {
                if all_digits(d) {
                    lemma_digits_value_grows(cur, v@.skip(i as int + 1));
                }
            }
            return None;
        }
        acc = next;
        i = i + 1;
    }
    assert(v@.subrange(start as int, n as int) =~= d);
    Some(acc)
}

// ---------------------------------------------------------------------------
// Splitting

/// The pieces of `s` between the occurrences of `c` (std's `str::split` on a
/// char): one more piece than there are occurrences.
pub open spec fn split_char(s: Seq<char>, c: char) -> Seq<Seq<char>>
    decreases s.len(),
{
    if s.len() == 0 {
        seq![Seq::empty()]
    } else {
        let r = split_char(s.drop_last(), c);
        if s.last() == c {
            r.push(Seq::empty())
        } else {
            r.update(r.len() - 1, r.last().push(s.last()))
        }
    }
}

pub proof fn lemma_split_nonempty(s: Seq<char>, c: char)
    ensures
        split_char(s, c).len() >= 1,
    decreases s.len(),
{
    if s.len() > 0 {
        lemma_split_nonempty(s.drop_last(), c);
    }
}

/// Without an occurrence of `c`, `s` is its own single piece.
pub proof fn lemma_split_none(s: Seq<char>, c: char)
    requires
        !s.contains(c),
    ensures
        split_char(s, c) == seq![s],
    decreases s.len(),
{
    if s.len() > 0 {
        assert(!s.drop_last().contains(c)) by {
            if s.drop_last().contains(c) {
                let k = choose|k: int| 0 <= k < s.drop_last().len() && s.drop_last()[k] == c;
                assert(s[k] == c);
            }
        }
        lemma_split_none(s.drop_last(), c);
        assert(s.last() != c) by {
            assert(s[s.len() - 1] == s.last());
        }
        let r = split_char(s.drop_last(), c);
        assert(r == seq![s.drop_last()]);
        assert(r.len() == 1);
        assert(r.last() == s.drop_last());
        assert(split_char(s, c) == r.update(0, r.last().push(s.last())));
        assert(s.drop_last().push(s.last()) =~= s);
        assert(r.update(0, s.drop_last().push(s.last())) =~= seq![s]);
    } else {
        assert(s =~= Seq::<char>::empty());
    }
}

/// Splitting at one occurrence of the separator.
pub proof fn lemma_split_concat(s: Seq<char>, c: char, t: Seq<char>)
    ensures
        split_char(s + seq![c] + t, c) == split_char(s, c) + split_char(t, c),
    decreases t.len(),
{
    let u = s + seq![c] + t;
    if t.len() == 0 {
        assert(u.drop_last() =~= s);
        assert(split_char(s, c).push(Seq::empty()) =~= split_char(s, c) + split_char(t, c));
    } else {
        let t2 = t.drop_last();
        assert(u.drop_last() =~= s + seq![c] + t2);
        lemma_split_concat(s, c, t2);
        lemma_split_nonempty(t2, c);
        lemma_split_nonempty(s, c);
        let a = split_char(s, c);
        let b = split_char(t2, c);
        if t.last() == c {
            assert((a + b).push(Seq::empty()) =~= a + b.push(Seq::empty()));
        } else {
            assert((a + b).update((a + b).len() - 1, (a + b).last().push(t.last())) =~= a
                + b.update(b.len() - 1, b.last().push(t.last())));
        }
    }
}

/// No piece of a split holds the separator, nor any character that the
/// whole text lacks.
pub proof fn lemma_split_pieces_lack(s: Seq<char>, c: char, d: char)
    requires
        d == c || !s.contains(d),
    ensures
        forall|i: int|
            0 <= i < split_char(s, c).len() ==> !(#[trigger] split_char(s, c)[i]).contains(d),
    decreases s.len(),
{
    if s.len() > 0 {
        assert(d == c || !s.drop_last().contains(d)) by {
            if d != c && s.drop_last().contains(d) {
                let k = choose|k: int| 0 <= k < s.drop_last().len() && s.drop_last()[k] == d;
                assert(s[k] == d);
            }
        }
        lemma_split_pieces_lack(s.drop_last(), c, d);
        lemma_split_nonempty(s.drop_last(), c);
        let r = split_char(s.drop_last(), c);
        if s.last() != c {
            assert(s.last() != d) by {
                if d != c {
                    assert(s[s.len() - 1] == s.last());
                }
            }
            let lp = r.last().push(s.last());
            assert(!lp.contains(d)) by {
                if lp.contains(d) {
                    let k = choose|k: int| 0 <= k < lp.len() && lp[k] == d;
                    if k < r.last().len() {
                        assert(r.last()[k] == d);
                        assert(r[r.len() - 1] == r.last());
                    }
                }
            }
        } else {
            assert(!Seq::<char>::empty().contains(d));
        }
        assert forall|i: int| 0 <= i < split_char(s, c).len() implies !(#[trigger] split_char(
            s,
            c,
        )[i]).contains(d) by {
            if i < r.len() - 1 || (i == r.len() - 1 && s.last() == c) {
                assert(split_char(s, c)[i] == r[i]);
            }
        }
    }
}

/// The position of the last occurrence of `c` in `s`, when there is one.
pub open spec fn is_last_index(s: Seq<char>, c: char, i: int) -> bool {
    0 <= i < s.len() && s[i] == c && !s.skip(i + 1).contains(c)
}

/// The position of the first occurrence of `c` in `s`, when there is one.
pub open spec fn is_first_index(s: Seq<char>, c: char, i: int) -> bool {
    0 <= i < s.len() && s[i] == c && !s.take(i).contains(c)
}

/// A text that holds `c` has a last occurrence of it.
pub proof fn lemma_last_index_exists(s: Seq<char>, c: char)
    requires
        s.contains(c),
    ensures
        exists|i: int| is_last_index(s, c, i),
    decreases s.len(),
{
    let t = s.drop_last();
    if s.last() == c {
        assert(s.skip(s.len() as int) =~= Seq::<char>::empty());
        assert(is_last_index(s, c, s.len() - 1));
    } else {
        let k = choose|k: int| 0 <= k < s.len() && s[k] == c;
        assert(k != s.len() - 1);
        assert(t[k] == c);
        lemma_last_index_exists(t, c);
        let i = choose|i: int| is_last_index(t, c, i);
        assert(s.skip(i + 1) =~= t.skip(i + 1).push(s.last()));
        let u = s.skip(i + 1);
        assert(!u.contains(c)) by {
            if u.contains(c) {
                let m = choose|m: int| 0 <= m < u.len() && u[m] == c;
                if m < t.skip(i + 1).len() {
                    assert(t.skip(i + 1)[m] == c);
                }
            }
        }
        assert(s[i] == t[i]);
        assert(is_last_index(s, c, i));
    }
}

/// The pieces around the last occurrence of a separator.
pub proof fn lemma_split_at_last(s: Seq<char>, c: char, i: int)
    requires
        is_last_index(s, c, i),
    ensures
        split_char(s, c).len() >= 2,
        split_char(s, c).last() == s.skip(i + 1),
        split_char(s, c) == split_char(s.take(i), c) + seq![s.skip(i + 1)],
{
    assert(s =~= s.take(i) + seq![c] + s.skip(i + 1));
    lemma_split_concat(s.take(i), c, s.skip(i + 1));
    lemma_split_none(s.skip(i + 1), c);
    lemma_split_nonempty(s.take(i), c);
}

/// The piece before the first occurrence of a separator.
pub proof fn lemma_split_at_first(s: Seq<char>, c: char, i: int)
    requires
        is_first_index(s, c, i),
    ensures
        split_char(s, c).len() >= 2,
        split_char(s, c)[0] == s.take(i),
        split_char(s, c) == seq![s.take(i)] + split_char(s.skip(i + 1), c),
{
    assert(s =~= s.take(i) + seq![c] + s.skip(i + 1));
    lemma_split_concat(s.take(i), c, s.skip(i + 1));
    lemma_split_none(s.take(i), c);
    lemma_split_nonempty(s.skip(i + 1), c);
}

pub open spec fn views(s: Seq<Vec<char>>) -> Seq<Seq<char>> {
    s.map_values(|p: Vec<char>| p@)
}

/// The pieces of `v` between the occurrences of `c`.
pub fn split_on(v: &Vec<char>, c: char) -> (r: Vec<Vec<char>>)
    ensures
        views(r@) == split_char(v@, c),
{
    let mut pieces: Vec<Vec<char>> = Vec::new();
    let mut cur: Vec<char> = Vec::new();
    let mut i: usize = 0;
    assert(v@.take(0) =~= Seq::<char>::empty());
    assert(views(pieces@).push(cur@) =~= split_char(v@.take(0), c));
    while i < v.len()
        invariant
            i <= v@.len(),
            views(pieces@).push(cur@) == split_char(v@.take(i as int), c),
        decreases v.len() - i,
    {
        let x = v[i];
        assert(v@.take(i + 1).drop_last() =~= v@.take(i as int));
        assert(v@.take(i + 1).last() == x);
        if x == c {
            pieces.push(cur);
            cur = Vec::new();
            assert(views(pieces@).push(cur@) =~= split_char(v@.take(i + 1), c));
        } else {
            cur.push(x);
            assert(views(pieces@).push(cur@) =~= split_char(v@.take(i + 1), c));
        }
        i = i + 1;
    }
    pieces.push(cur);
    assert(v@.take(v@.len() as int) =~= v@);
    assert(views(pieces@) =~= split_char(v@, c));
    pieces
}

/// The position of the last `c` in `v`, if any.
pub fn last_index_of(v: &Vec<char>, c: char) -> (r: Option<usize>)
    ensures
        match r {
            Some(i) => is_last_index(v@, c, i as int),
            None => !v@.contains(c),
        },
{
    let mut j: usize = v.len();
    while j > 0
        invariant
            j <= v@.len(),
            forall|k: int| j <= k < v@.len() ==> v@[k] != c,
        decreases j,
    {
        if v[j - 1] == c {
            assert forall|k: int| 0 <= k < v@.skip(j as int).len() implies #[trigger] v@.skip(
                j as int,
            )[k] != c by {
                assert(v@.skip(j as int)[k] == v@[j + k]);
            }
            return Some(j - 1);
        }
        j = j - 1;
    }
    None
}

/// The position of the first `c` in `v[from..]`, if any.
pub fn first_index_from(v: &Vec<char>, from: usize, c: char) -> (r: Option<usize>)
    requires
        from <= v@.len(),
    ensures
        match r {
            Some(i) => from <= i && is_first_index(v@.skip(from as int), c, i - from),
            None => !v@.skip(from as int).contains(c),
        },
{
    let mut j: usize = from;
    while j < v.len()
        invariant
            from <= j <= v@.len(),
            forall|k: int| from <= k < j ==> v@[k] != c,
        decreases v.len() - j,
    {
        if v[j] == c {
            assert forall|k: int| 0 <= k < v@.skip(from as int).take(j - from).len() implies
                #[trigger] v@.skip(from as int).take(j - from)[k] != c by {
                assert(v@.skip(from as int).take(j - from)[k] == v@[from + k]);
            }
            return Some(j);
        }
        j = j + 1;
    }
    assert forall|k: int| 0 <= k < v@.skip(from as int).len() implies #[trigger] v@.skip(
        from as int,
    )[k] != c by {
        assert(v@.skip(from as int)[k] == v@[from + k]);
    }
    None
}

/// The words of `s` so far, and the word being read at its end.
pub open spec fn words_state(s: Seq<char>) -> (Seq<Seq<char>>, Seq<char>)
    decreases s.len(),
{
    if s.len() == 0 {
        (Seq::empty(), Seq::empty())
    } else {
        let (w, cur) = words_state(s.drop_last());
        let c = s.last();
        if is_ws(c) {
            if cur.len() > 0 {
                (w.push(cur), Seq::empty())
            } else {
                (w, cur)
            }
        } else {
            (w, cur.push(c))
        }
    }
}

/// The maximal runs of non-whitespace characters of `s`, in order (std's
/// `str::split_whitespace`).
pub open spec fn words(s: Seq<char>) -> Seq<Seq<char>> {
    let (w, cur) = words_state(s);
    if cur.len() > 0 {
        w.push(cur)
    } else {
        w
    }
}

/// The whitespace-separated words of `v`.
pub fn split_whitespace(v: &Vec<char>) -> (r: Vec<Vec<char>>)
    ensures
        views(r@) == words(v@),
{
    let mut done: Vec<Vec<char>> = Vec::new();
    let mut cur: Vec<char> = Vec::new();
    let mut i: usize = 0;
    assert(v@.take(0) =~= Seq::<char>::empty());
    assert(views(done@) =~= Seq::<Seq<char>>::empty());
    while i < v.len()
        invariant
            i <= v@.len(),
            words_state(v@.take(i as int)) == (views(done@), cur@),
        decreases v.len() - i,
    {
        let c = v[i];
        assert(v@.take(i + 1).drop_last() =~= v@.take(i as int));
        assert(v@.take(i + 1).last() == c);
        if is_whitespace(c) {
            if cur.len() > 0 {
                let ghost before = done@;
                done.push(cur);
                cur = Vec::new();
                assert(views(done@) =~= views(before).push(done@.last()@));
                assert(cur@ =~= Seq::<char>::empty());
            }
        } else {
            cur.push(c);
        }
        i = i + 1;
    }
    assert(v@.take(v@.len() as int) =~= v@);
    if cur.len() > 0 {
        let ghost before = done@;
        done.push(cur);
        assert(views(done@) =~= views(before).push(done@.last()@));
    }
    done
}

/// Whether `needle` occurs in `hay` (std's `str::contains`).
pub open spec fn contains_text(hay: Seq<char>, needle: Seq<char>) -> bool {
    exists|i: int|
        0 <= i <= hay.len() - needle.len() && #[trigger] hay.subrange(i, i + needle.len())
            == needle
}

/// Whether `hay[at..]` begins with `needle`.
pub fn window_equals(hay: &Vec<char>, at: usize, needle: &Vec<char>) -> (r: bool)
    requires
        at + needle@.len() <= hay@.len(),
    ensures
        r == (hay@.subrange(at as int, at + needle@.len()) == needle@),
{
    let m = needle.len();
    let n = hay.len();
    let mut k: usize = 0;
    while k < m
        invariant
            m == needle@.len(),
            n == hay@.len(),
            at + m <= n,
            k <= m,
            forall|t: int| 0 <= t < k ==> hay@[at + t] == needle@[t],
        decreases m - k,
    {
        if hay[at + k] != needle[k] {
            assert(hay@.subrange(at as int, at + m)[k as int] != needle@[k as int]);
            return false;
        }
        k = k + 1;
    }
    assert(hay@.subrange(at as int, at + m) =~= needle@);
    true
}

/// Whether `needle` occurs in `hay`.
pub fn contains_chars(hay: &Vec<char>, needle: &Vec<char>) -> (r: bool)
    ensures
        r == contains_text(hay@, needle@),
{
    let n = hay.len();
    let m = needle.len();
    if m > n {
        return false;
    }
    let mut i: usize = 0;
    loop
        invariant
            n == hay@.len(),
            m == needle@.len(),
            m <= n,
            i <= n - m,
            forall|k: int| 0 <= k < i ==> #[trigger] hay@.subrange(k, k + m) != needle@,
        decreases n - m - i,
    {
        if window_equals(hay, i, needle) {
            return true;
        }
        if i == n - m {
            return false;
        }
        i = i + 1;
    }
}

/// A line without one trailing carriage return.
pub open spec fn strip_cr(p: Seq<char>) -> Seq<char> {
    if p.len() > 0 && p.last() == '\r' {
        p.drop_last()
    } else {
        p
    }
}

/// The lines of `s` (std's `str::lines`): the pieces between `\n`, each
/// that a `\n` ends without one `\r` before it, and no empty last line after
/// a final `\n`.
pub open spec fn lines(s: Seq<char>) -> Seq<Seq<char>> {
    let pieces = split_char(s, '\n');
    let n = if pieces.last().len() == 0 {
        pieces.len() - 1
    } else {
        pieces.len() as int
    };
    Seq::new(
        n as nat,
        |i: int|
            if i < pieces.len() - 1 {
                strip_cr(pieces[i])
            } else {
                pieces[i]
            },
    )
}

/// The lines of `v`.
pub fn lines_of(v: &Vec<char>) -> (r: Vec<Vec<char>>)
    ensures
        views(r@) == lines(v@),
{
    let pieces = split_on(v, '\n');
    let ghost ps = views(pieces@);
    proof {
        lemma_split_nonempty(v@, '\n');
    }
    let np = pieces.len();
    assert(ps.last() == pieces@[np - 1]@);
    let n = if pieces[np - 1].len() == 0 {
        np - 1
    } else {
        np
    };
    let mut r: Vec<Vec<char>> = Vec::new();
    let mut i: usize = 0;
    while i < n
        invariant
            np == pieces@.len(),
            np >= 1,
            n <= np,
            ps == views(pieces@),
            ps == split_char(v@, '\n'),
            n == (if ps.last().len() == 0 {
                ps.len() - 1
            } else {
                ps.len() as int
            }),
            i <= n,
            views(r@) == lines(v@).take(i as int),
        decreases n - i,
    {
        let p = &pieces[i];
        assert(ps[i as int] == p@);
        let len = p.len();
        let line = if i + 1 < np && len > 0 && p[len - 1] == '\r' {
            slice_chars(p, 0, len - 1)
        } else {
            slice_chars(p, 0, len)
        };
        assert(p@.subrange(0, len as int) =~= p@);
        assert(p@.subrange(0, len - 1) =~= p@.drop_last());
        let ghost before = r@;
        r.push(line);
        assert(views(r@) =~= views(before).push(line@));
        assert(lines(v@).take(i + 1) =~= lines(v@).take(i as int).push(lines(v@)[i as int]));
        i = i + 1;
    }
    assert(lines(v@).take(n as int) =~= lines(v@));
    r
}

} // verus!
