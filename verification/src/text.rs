//! Character-level model of the `str` operations that the parsers use
//! (`find`, `contains`, `starts_with`, `trim`, `lines`, `split_whitespace`,
//! integer parsing and decimal printing), with executable versions that work
//! on a window `lo..hi` of a `Vec<char>`.
use vstd::prelude::*;

verus! {

// ---------------------------------------------------------------------------
// Characters
// ---------------------------------------------------------------------------

/// `char::is_whitespace`: the characters with the Unicode `White_Space` property.
pub open spec fn is_ws(c: char) -> bool {
    ||| c == ' '
    ||| ('\t' <= c && c <= '\r')
    ||| c == '\u{85}'
    ||| c == '\u{a0}'
    ||| c == '\u{1680}'
    ||| ('\u{2000}' <= c && c <= '\u{200a}')
    ||| c == '\u{2028}'
    ||| c == '\u{2029}'
    ||| c == '\u{202f}'
    ||| c == '\u{205f}'
    ||| c == '\u{3000}'
}

pub fn is_whitespace(c: char) -> (b: bool)
    ensures
        b == is_ws(c),
{
    c == ' ' || ('\t' <= c && c <= '\r') || c == '\u{85}' || c == '\u{a0}' || c == '\u{1680}'
        || ('\u{2000}' <= c && c <= '\u{200a}') || c == '\u{2028}' || c == '\u{2029}' || c
        == '\u{202f}' || c == '\u{205f}' || c == '\u{3000}'
}

/// An ASCII decimal digit.
pub open spec fn is_digit(c: char) -> bool {
    '0' <= c && c <= '9'
}

/// The value of an ASCII decimal digit.
pub open spec fn digit_of(c: char) -> nat {
    (c as int - '0' as int) as nat
}

// ---------------------------------------------------------------------------
// Searching
// ---------------------------------------------------------------------------

/// `p` occurs in `s` at position `i`.
pub open spec fn matches_at(s: Seq<char>, p: Seq<char>, i: int) -> bool {
    0 <= i && i + p.len() <= s.len() && s.subrange(i, i + p.len()) == p
}

/// `i` is the position of the leftmost occurrence of `p` in `s`.
pub open spec fn is_first_match(s: Seq<char>, p: Seq<char>, i: int) -> bool {
    matches_at(s, p, i) && forall|j: int| 0 <= j < i ==> !matches_at(s, p, j)
}

/// `str::find`: the position of the leftmost occurrence of `p` in `s`
/// (counted in characters).
pub open spec fn find(s: Seq<char>, p: Seq<char>) -> Option<int> {
    if exists|i: int| is_first_match(s, p, i) {
        Some(choose|i: int| is_first_match(s, p, i))
    } else {
        None
    }
}

/// `str::contains`.
pub open spec fn contains(s: Seq<char>, p: Seq<char>) -> bool {
    exists|i: int| matches_at(s, p, i)
}

/// `str::starts_with`.
pub open spec fn starts_with(s: Seq<char>, p: Seq<char>) -> bool {
    p.len() <= s.len() && s.subrange(0, p.len() as int) == p
}

pub proof fn lemma_first_match_unique(s: Seq<char>, p: Seq<char>, i: int)
    requires
        is_first_match(s, p, i),
    ensures
        find(s, p) == Some(i),
{
    let k = choose|k: int| is_first_match(s, p, k);
    assert(is_first_match(s, p, k));
    if k < i {
        assert(!matches_at(s, p, k));
    } else if i < k {
        assert(!matches_at(s, p, i));
    }
}

pub proof fn lemma_find_bounds(s: Seq<char>, p: Seq<char>)
    ensures
        find(s, p) matches Some(i) ==> is_first_match(s, p, i) && 0 <= i && i + p.len() <= s.len(),
{
}

/// Whether `p` occurs in `v` at position `k`.
fn matches_here(v: &Vec<char>, k: usize, p: &Vec<char>) -> (b: bool)
    requires
        k + p@.len() <= v@.len(),
    ensures
        b == (v@.subrange(k as int, k + p@.len()) == p@),
{
    let n = v.len();
    let mut j: usize = 0;
    while j < p.len()
        invariant
            n == v@.len(),
            j <= p@.len(),
            k + p@.len() <= v@.len(),
            forall|t: int| 0 <= t < j ==> v@[k + t] == p@[t],
        decreases p@.len() - j,
    {
        if v[k + j] != p[j] {
            assert(v@.subrange(k as int, k + p@.len())[j as int] != p@[j as int]);
            return false;
        }
        j = j + 1;
    }
    assert(v@.subrange(k as int, k + p@.len()) =~= p@);
    true
}

/// `str::find` on the window `lo..hi` of `v`; the position is returned
/// relative to `v`.
pub fn find_in(v: &Vec<char>, lo: usize, hi: usize, p: &Vec<char>) -> (r: Option<usize>)
    requires
        lo <= hi <= v@.len(),
    ensures
        match r {
            Some(k) => lo <= k && k + p@.len() <= hi && find(v@.subrange(lo as int, hi as int), p@)
                == Some(k - lo),
            None => find(v@.subrange(lo as int, hi as int), p@) is None && !contains(
                v@.subrange(lo as int, hi as int),
                p@,
            ),
        },
{
    let ghost s = v@.subrange(lo as int, hi as int);
    if p.len() > hi - lo {
        assert forall|i: int| !matches_at(s, p@, i) by {}
        return None;
    }
    let last = hi - p.len();
    let n = v.len();
    let mut k: usize = lo;
    loop
        invariant
            n == v@.len(),
            lo <= k <= last,
            last + p@.len() == hi,
            hi <= v@.len(),
            s == v@.subrange(lo as int, hi as int),
            forall|j: int| 0 <= j < k - lo ==> !matches_at(s, p@, j),
        ensures
            forall|j: int| 0 <= j <= last - lo ==> !matches_at(s, p@, j),
        decreases last - k,
    {
        let m = matches_here(v, k, p);
        assert(s.subrange(k - lo, k - lo + p@.len()) =~= v@.subrange(k as int, k + p@.len()));
        if m {
            assert(is_first_match(s, p@, k - lo));
            proof {
                lemma_first_match_unique(s, p@, k - lo);
            }
            return Some(k);
        }
        if k == last {
            break;
        }
        k = k + 1;
    }
    assert forall|i: int| !matches_at(s, p@, i) by {
        if 0 <= i <= last - lo {
        }
    }
    None
}

/// `str::contains` on the window `lo..hi` of `v`.
pub fn contains_in(v: &Vec<char>, lo: usize, hi: usize, p: &Vec<char>) -> (b: bool)
    requires
        lo <= hi <= v@.len(),
    ensures
        b == contains(v@.subrange(lo as int, hi as int), p@),
{
    match find_in(v, lo, hi, p) {
        Some(k) => {
            proof {
                lemma_find_bounds(v@.subrange(lo as int, hi as int), p@);
            }
            true
        },
        None => false,
    }
}

/// `str::starts_with` on the window `lo..hi` of `v`.
pub fn starts_with_in(v: &Vec<char>, lo: usize, hi: usize, p: &Vec<char>) -> (b: bool)
    requires
        lo <= hi <= v@.len(),
    ensures
        b == starts_with(v@.subrange(lo as int, hi as int), p@),
{
    if p.len() > hi - lo {
        return false;
    }
    let b = matches_here(v, lo, p);
    assert(v@.subrange(lo as int, hi as int).subrange(0, p@.len() as int) =~= v@.subrange(
        lo as int,
        lo + p@.len(),
    ));
    b
}

/// The characters of `s`, in order.
pub fn chars_of(s: &str) -> (v: Vec<char>)
    ensures
        v@ == s@,
{
    let mut v: Vec<char> = Vec::new();
    for c in it: s.chars()
        invariant
            v@ == it.seq().take(it.index() as int),
            it.seq() == s@,
    {
        v.push(c);
    }
    v
}

// ---------------------------------------------------------------------------
// Trimming
// ---------------------------------------------------------------------------

/// `str::trim_start`.
pub open spec fn trim_start(s: Seq<char>) -> Seq<char>
    decreases s.len(),
{
    if s.len() > 0 && is_ws(s[0]) {
        trim_start(s.drop_first())
    } else {
        s
    }
}

/// `str::trim_end`.
pub open spec fn trim_end(s: Seq<char>) -> Seq<char>
    decreases s.len(),
{
    if s.len() > 0 && is_ws(s.last()) {
        trim_end(s.drop_last())
    } else {
        s
    }
}

/// `str::trim`: whitespace removed at both ends.
pub open spec fn trim(s: Seq<char>) -> Seq<char> {
    trim_start(trim_end(s))
}

/// `str::trim` on the window `lo..hi` of `v`: the result is the window `a..b`.
pub fn trim_in(v: &Vec<char>, lo: usize, hi: usize) -> (r: (usize, usize))
    requires
        lo <= hi <= v@.len(),
    ensures
        lo <= r.0 <= r.1 <= hi,
        v@.subrange(r.0 as int, r.1 as int) == trim(v@.subrange(lo as int, hi as int)),
{
    let mut b = hi;
    while b > lo && is_whitespace(v[b - 1])
        invariant
            lo <= b <= hi <= v@.len(),
            trim_end(v@.subrange(lo as int, hi as int)) == trim_end(v@.subrange(lo as int, b as int)),
        decreases b,
    {
        assert(v@.subrange(lo as int, b as int).drop_last() =~= v@.subrange(lo as int, b - 1));
        b = b - 1;
    }
    let mut a = lo;
    while a < b && is_whitespace(v[a])
        invariant
            lo <= a <= b <= hi <= v@.len(),
            trim_end(v@.subrange(lo as int, hi as int)) == v@.subrange(lo as int, b as int),
            trim(v@.subrange(lo as int, hi as int)) == trim_start(v@.subrange(a as int, b as int)),
        decreases b - a,
    {
        assert(v@.subrange(a as int, b as int).drop_first() =~= v@.subrange(a + 1, b as int));
        a = a + 1;
    }
    (a, b)
}

// ---------------------------------------------------------------------------
// Lines
// ---------------------------------------------------------------------------

/// A line without the `'\r'` that precedes its `'\n'`.
pub open spec fn strip_cr(l: Seq<char>) -> Seq<char> {
    if l.len() > 0 && l.last() == '\r' {
        l.drop_last()
    } else {
        l
    }
}

/// `str::lines`: the text split at each `'\n'` (a `'\r'` just before it is
/// dropped too); a final line ending is optional, and an empty text has no
/// lines.
pub open spec fn lines(s: Seq<char>) -> Seq<Seq<char>>
    decreases s.len(),
{
    if s.len() == 0 {
        Seq::empty()
    } else {
        match find(s, seq!['\n']) {
            Some(i) => {
                proof {
                    lemma_find_bounds(s, seq!['\n']);
                }
                seq![strip_cr(s.take(i))] + lines(s.skip(i + 1))
            },
            None => seq![s],
        }
    }
}

/// The first line of the text that starts at `pos` in `v`: the line is the
/// window `r.0..r.1`, and the rest of the text starts at `r.2`.
pub fn next_line(v: &Vec<char>, pos: usize) -> (r: (usize, usize, usize))
    requires
        pos < v@.len(),
    ensures
        pos <= r.0 <= r.1 <= v@.len(),
        pos < r.2 <= v@.len(),
        lines(v@.skip(pos as int)) == seq![v@.subrange(r.0 as int, r.1 as int)] + lines(
            v@.skip(r.2 as int),
        ),
{
    let n = v.len();
    let ghost s = v@.skip(pos as int);
    assert(v@.subrange(pos as int, n as int) =~= s);
    let nl = vec!['\n'];
    assert(nl@ =~= seq!['\n']);
    match find_in(v, pos, n, &nl) {
        Some(k) => {
            assert(s.skip(k - pos + 1) =~= v@.skip(k + 1));
            assert(s.take(k - pos) =~= v@.subrange(pos as int, k as int));
            if k > pos && v[k - 1] == '\r' {
                assert(v@.subrange(pos as int, k as int).drop_last() =~= v@.subrange(
                    pos as int,
                    k - 1,
                ));
                (pos, k - 1, k + 1)
            } else {
                (pos, k, k + 1)
            }
        },
        None => {
            assert(v@.skip(n as int) =~= Seq::<char>::empty());
            (pos, n, n)
        },
    }
}

/// `str::lines`, collected: the lines of `s`, without their line endings.
pub fn lines_of(s: &str) -> (r: Vec<String>)
    ensures
        r@.map_values(|l: String| l@) == lines(s@),
{
    let v = chars_of(s);
    let n = v.len();
    let mut out: Vec<String> = Vec::new();
    let mut pos: usize = 0;
    assert(v@.skip(0) =~= v@);
    while pos < n
        invariant
            pos <= n == v@.len(),
            v@ == s@,
            lines(s@) == out@.map_values(|l: String| l@) + lines(v@.skip(pos as int)),
        decreases n - pos,
    {
        let (a, b, next) = next_line(&v, pos);
        let ghost before = out@.map_values(|l: String| l@);
        out.push(s.substring_char(a, b).to_owned());
        assert(out@.map_values(|l: String| l@) =~= before.push(v@.subrange(a as int, b as int)));
        assert(before + (seq![v@.subrange(a as int, b as int)] + lines(v@.skip(next as int)))
            =~= out@.map_values(|l: String| l@) + lines(v@.skip(next as int)));
        pos = next;
    }
    assert(v@.skip(n as int) =~= Seq::<char>::empty());
    assert(lines(v@.skip(n as int)) =~= Seq::<Seq<char>>::empty());
    assert(out@.map_values(|l: String| l@) + Seq::<Seq<char>>::empty() =~= out@.map_values(|l: String| l@));
    out
}

// ---------------------------------------------------------------------------
// Words
// ---------------------------------------------------------------------------

/// The length of the run of non-whitespace characters at the start of `s`.
pub open spec fn word_len(s: Seq<char>) -> nat
    decreases s.len(),
{
    if s.len() > 0 && !is_ws(s[0]) {
        1 + word_len(s.drop_first())
    } else {
        0
    }
}

pub proof fn lemma_word_len_bound(s: Seq<char>)
    ensures
        word_len(s) <= s.len(),
    decreases s.len(),
{
    if s.len() > 0 {
        lemma_word_len_bound(s.drop_first());
    }
}

/// `str::split_whitespace`: the maximal runs of non-whitespace characters.
pub open spec fn words(s: Seq<char>) -> Seq<Seq<char>>
    decreases s.len(),
{
    if s.len() == 0 {
        Seq::empty()
    } else if is_ws(s[0]) {
        words(s.drop_first())
    } else {
        proof {
            lemma_word_len_bound(s);
        }
        seq![s.take(word_len(s) as int)] + words(s.skip(word_len(s) as int))
    }
}

/// The first word in the window `pos..hi` of `v`, as the window `r.0..r.1`.
pub fn next_word(v: &Vec<char>, pos: usize, hi: usize) -> (r: Option<(usize, usize)>)
    requires
        pos <= hi <= v@.len(),
    ensures
        match r {
            Some((a, b)) => pos <= a < b <= hi && words(v@.subrange(pos as int, hi as int)) == seq![
                v@.subrange(a as int, b as int),
            ] + words(v@.subrange(b as int, hi as int)),
            None => words(v@.subrange(pos as int, hi as int)) == Seq::<Seq<char>>::empty(),
        },
{
    let mut a = pos;
    while a < hi && is_whitespace(v[a])
        invariant
            pos <= a <= hi <= v@.len(),
            words(v@.subrange(pos as int, hi as int)) == words(v@.subrange(a as int, hi as int)),
        decreases hi - a,
    {
        assert(v@.subrange(a as int, hi as int).drop_first() =~= v@.subrange(a + 1, hi as int));
        a = a + 1;
    }
    if a == hi {
        return None;
    }
    let mut b = a + 1;
    assert(v@.subrange(a as int, hi as int).drop_first() =~= v@.subrange(a + 1, hi as int));
    while b < hi && !is_whitespace(v[b])
        invariant
            a < b <= hi <= v@.len(),
            !is_ws(v@[a as int]),
            word_len(v@.subrange(a as int, hi as int)) == (b - a) + word_len(
                v@.subrange(b as int, hi as int),
            ),
        decreases hi - b,
    {
        assert(v@.subrange(b as int, hi as int).drop_first() =~= v@.subrange(b + 1, hi as int));
        b = b + 1;
    }
    let ghost t = v@.subrange(a as int, hi as int);
    assert(word_len(v@.subrange(b as int, hi as int)) == 0);
    assert(t.take(b - a) =~= v@.subrange(a as int, b as int));
    assert(t.skip(b - a) =~= v@.subrange(b as int, hi as int));
    Some((a, b))
}

/// The number of non-whitespace characters at the end of `s`.
pub open spec fn trailing_word_len(s: Seq<char>) -> nat
    decreases s.len(),
{
    if s.len() > 0 && !is_ws(s.last()) {
        1 + trailing_word_len(s.drop_last())
    } else {
        0
    }
}

/// `str::split_whitespace().last()`: the last run of non-whitespace
/// characters, if there is one.
pub open spec fn last_word(s: Seq<char>) -> Option<Seq<char>> {
    let t = trim_end(s);
    if t.len() == 0 {
        None
    } else {
        Some(t.skip(t.len() - trailing_word_len(t)))
    }
}

/// The last word of the window `lo..hi` of `v`, as the window `r.0..r.1`.
pub fn last_word_in(v: &Vec<char>, lo: usize, hi: usize) -> (r: Option<(usize, usize)>)
    requires
        lo <= hi <= v@.len(),
    ensures
        match r {
            Some((a, b)) => lo <= a <= b <= hi && last_word(v@.subrange(lo as int, hi as int))
                == Some(v@.subrange(a as int, b as int)),
            None => last_word(v@.subrange(lo as int, hi as int)) is None,
        },
{
    let mut b = hi;
    while b > lo && is_whitespace(v[b - 1])
        invariant
            lo <= b <= hi <= v@.len(),
            trim_end(v@.subrange(lo as int, hi as int)) == trim_end(v@.subrange(lo as int, b as int)),
        decreases b,
    {
        assert(v@.subrange(lo as int, b as int).drop_last() =~= v@.subrange(lo as int, b - 1));
        b = b - 1;
    }
    if b == lo {
        return None;
    }
    let mut a = b;
    while a > lo && !is_whitespace(v[a - 1])
        invariant
            lo <= a <= b <= hi <= v@.len(),
            trailing_word_len(v@.subrange(lo as int, b as int)) == (b - a) + trailing_word_len(
                v@.subrange(lo as int, a as int),
            ),
        decreases a,
    {
        assert(v@.subrange(lo as int, a as int).drop_last() =~= v@.subrange(lo as int, a - 1));
        a = a - 1;
    }
    assert(trailing_word_len(v@.subrange(lo as int, a as int)) == 0);
    assert(v@.subrange(lo as int, b as int).skip(a - lo) =~= v@.subrange(a as int, b as int));
    Some((a, b))
}

// ---------------------------------------------------------------------------
// Unsigned integers
// ---------------------------------------------------------------------------

/// The number that a string of decimal digits denotes.
pub open spec fn decimal_value(s: Seq<char>) -> nat
    decreases s.len(),
{
    if s.len() == 0 {
        0
    } else {
        decimal_value(s.drop_last()) * 10 + digit_of(s.last())
    }
}

/// The digits of an unsigned number: the text without one leading `'+'`.
pub open spec fn unsigned_digits(s: Seq<char>) -> Seq<char> {
    if s.len() > 0 && s[0] == '+' {
        s.drop_first()
    } else {
        s
    }
}

/// `str::parse` for an unsigned integer type whose largest value is `max`:
/// an optional `'+'`, then one or more ASCII digits whose value is at most
/// `max`.
pub open spec fn parse_unsigned(s: Seq<char>, max: nat) -> Option<nat> {
    let d = unsigned_digits(s);
    if d.len() > 0 && (forall|i: int| 0 <= i < d.len() ==> is_digit(#[trigger] d[i]))
        && decimal_value(d) <= max {
        Some(decimal_value(d))
    } else {
        None
    }
}

pub proof fn lemma_decimal_value_prefix(s: Seq<char>, k: int)
    requires
        0 <= k <= s.len(),
    ensures
        decimal_value(s.take(k)) <= decimal_value(s),
    decreases s.len(),
{
    if k < s.len() {
        assert(s.drop_last().take(k) =~= s.take(k));
        lemma_decimal_value_prefix(s.drop_last(), k);
    } else {
        assert(s.take(k) =~= s);
    }
}

/// `str::parse` of the window `lo..hi` of `v` as an unsigned integer whose
/// largest value is `max`.
pub fn parse_unsigned_in(v: &Vec<char>, lo: usize, hi: usize, max: u32) -> (r: Option<u32>)
    requires
        lo <= hi <= v@.len(),
    ensures
        match r {
            Some(x) => parse_unsigned(v@.subrange(lo as int, hi as int), max as nat) == Some(
                x as nat,
            ),
            None => parse_unsigned(v@.subrange(lo as int, hi as int), max as nat) is None,
        },
{
    let ghost s = v@.subrange(lo as int, hi as int);
    let start = if lo < hi && v[lo] == '+' {
        lo + 1
    } else {
        lo
    };
    let ghost d = v@.subrange(start as int, hi as int);
    assert(unsigned_digits(s) =~= d);
    if start == hi {
        return None;
    }
    let mut acc: u64 = 0;
    let mut i = start;
    while i < hi
        invariant
            lo <= start <= i <= hi <= v@.len(),
            d == v@.subrange(start as int, hi as int),
            unsigned_digits(v@.subrange(lo as int, hi as int)) == d,
            acc <= max,
            acc == decimal_value(d.take(i - start)),
            forall|j: int| 0 <= j < i - start ==> is_digit(#[trigger] d[j]),
        decreases hi - i,
    {
        let c = v[i];
        if !('0' <= c && c <= '9') {
            assert(!is_digit(d[i - start]));
            return None;
        }
        assert(d.take(i - start + 1).drop_last() =~= d.take(i - start));
        let digit = (c as u32 - '0' as u32) as u64;
        acc = acc * 10 + digit;
        i = i + 1;
        if acc > max as u64 {
            proof {
                lemma_decimal_value_prefix(d, i - start);
            }
            return None;
        }
    }
    assert(d.take(i - start) =~= d);
    Some(acc as u32)
}

// ---------------------------------------------------------------------------
// Decimal printing
// ---------------------------------------------------------------------------

/// The ASCII digit for `d < 10`.
pub open spec fn digit_char(d: nat) -> char {
    (d + '0' as nat) as char
}

/// The decimal representation of `n`, without leading zeros (`Display` for
/// unsigned integers).
pub open spec fn decimal(n: nat) -> Seq<char>
    decreases n,
{
    if n < 10 {
        seq![digit_char(n)]
    } else {
        decimal(n / 10).push(digit_char(n % 10))
    }
}

fn digit_str(d: u64) -> (s: &'static str)
    requires
        d < 10,
    ensures
        s@ == seq![digit_char(d as nat)],
{
    let digits = "0123456789";
    proof {
        reveal_strlit("0123456789");
    }
    let s = digits.substring_char(d as usize, d as usize + 1);
    assert(s@ =~= seq![digit_char(d as nat)]);
    s
}

/// Appends the decimal representation of `n` to `out`.
pub fn push_decimal(out: &mut String, n: u64)
    ensures
        final(out)@ == old(out)@ + decimal(n as nat),
    decreases n,
{
    if n >= 10 {
        push_decimal(out, n / 10);
    }
    out.append(digit_str(n % 10));
    assert(final(out)@ =~= old(out)@ + decimal(n as nat));
}

// ---------------------------------------------------------------------------
// Properties
// ---------------------------------------------------------------------------

/// Nothing in `s` before the leftmost occurrence of `p` holds `p`.
pub proof fn lemma_no_match_before_first(s: Seq<char>, p: Seq<char>, i: int)
    requires
        is_first_match(s, p, i),
        p.len() > 0,
    ensures
        !contains(s.take(i), p),
{
    assert forall|j: int| !matches_at(s.take(i), p, j) by {
        if matches_at(s.take(i), p, j) {
            assert(s.take(i).subrange(j, j + p.len()) =~= s.subrange(j, j + p.len()));
            assert(matches_at(s, p, j));
        }
    }
}

/// `trim_start(s)` is a suffix of `s` that is empty or starts with a
/// non-whitespace character.
pub proof fn lemma_trim_start(s: Seq<char>)
    ensures
        trim_start(s).len() <= s.len(),
        trim_start(s) == s.skip(s.len() - trim_start(s).len()),
        trim_start(s).len() > 0 ==> !is_ws(trim_start(s)[0]),
    decreases s.len(),
{
    if s.len() > 0 && is_ws(s[0]) {
        lemma_trim_start(s.drop_first());
        assert(s.drop_first().skip(s.drop_first().len() - trim_start(s).len()) =~= s.skip(
            s.len() - trim_start(s).len(),
        ));
    } else {
        assert(s.skip(0) =~= s);
    }
}

/// `trim_end(s)` is a prefix of `s` that is empty or ends with a
/// non-whitespace character.
pub proof fn lemma_trim_end(s: Seq<char>)
    ensures
        trim_end(s).len() <= s.len(),
        trim_end(s) == s.take(trim_end(s).len() as int),
        trim_end(s).len() > 0 ==> !is_ws(trim_end(s).last()),
    decreases s.len(),
{
    if s.len() > 0 && is_ws(s.last()) {
        lemma_trim_end(s.drop_last());
        assert(s.drop_last().take(trim_end(s).len() as int) =~= s.take(trim_end(s).len() as int));
    } else {
        assert(s.take(s.len() as int) =~= s);
    }
}

/// `trim(s)` is a piece of `s` that neither starts nor ends with whitespace.
pub proof fn lemma_trim(s: Seq<char>)
    ensures
        exists|a: int, b: int| 0 <= a <= b <= s.len() && trim(s) == s.subrange(a, b),
        trim(s).len() > 0 ==> !is_ws(trim(s)[0]) && !is_ws(trim(s).last()),
{
    let t = trim_end(s);
    lemma_trim_end(s);
    lemma_trim_start(t);
    let a = t.len() - trim(s).len();
    assert(trim(s) =~= s.subrange(a, t.len() as int));
    if trim(s).len() > 0 {
        assert(trim(s).last() == t.last());
    }
}

/// Trimming twice is trimming once.
pub proof fn lemma_trim_idempotent(s: Seq<char>)
    ensures
        trim(trim(s)) == trim(s),
{
    lemma_trim(s);
    let t = trim(s);
    if t.len() > 0 {
        assert(trim_end(t) == t);
        assert(trim_start(t) == t);
    } else {
        assert(trim_end(t) == t);
    }
}

/// The first `word_len(s)` characters of `s` are not whitespace.
pub proof fn lemma_word_len(s: Seq<char>)
    ensures
        word_len(s) <= s.len(),
        forall|i: int| 0 <= i < word_len(s) ==> !is_ws(#[trigger] s[i]),
        s.len() > 0 && !is_ws(s[0]) ==> word_len(s) >= 1,
    decreases s.len(),
{
    if s.len() > 0 && !is_ws(s[0]) {
        lemma_word_len(s.drop_first());
        assert forall|i: int| 0 <= i < word_len(s) implies !is_ws(#[trigger] s[i]) by {
            if i > 0 {
                assert(s[i] == s.drop_first()[i - 1]);
            }
        }
    }
}

/// Every word is non-empty and holds no whitespace.
pub open spec fn is_word(w: Seq<char>) -> bool {
    w.len() > 0 && forall|i: int| 0 <= i < w.len() ==> !is_ws(#[trigger] w[i])
}

/// The words of a text are non-empty and hold no whitespace, and a text that
/// starts with a non-whitespace character starts with its first word.
pub proof fn lemma_words(s: Seq<char>)
    ensures
        forall|k: int| 0 <= k < words(s).len() ==> is_word(#[trigger] words(s)[k]),
        s.len() > 0 && !is_ws(s[0]) ==> words(s).len() > 0 && words(s)[0][0] == s[0],
    decreases s.len(),
{
    if s.len() > 0 {
        if is_ws(s[0]) {
            lemma_words(s.drop_first());
            assert(words(s) == words(s.drop_first()));
        } else {
            lemma_word_len(s);
            let k = word_len(s) as int;
            lemma_words(s.skip(k));
            let w = s.take(k);
            assert(is_word(w));
            assert(words(s) == seq![w] + words(s.skip(k)));
            assert forall|j: int| 0 <= j < words(s).len() implies is_word(#[trigger] words(s)[j]) by {
                if j > 0 {
                    assert(words(s)[j] == words(s.skip(k))[j - 1]);
                }
            }
        }
    }
}

/// The decimal representation of a number consists of digits and denotes it.
pub proof fn lemma_decimal(n: nat)
    ensures
        decimal(n).len() > 0,
        forall|i: int| 0 <= i < decimal(n).len() ==> is_digit(#[trigger] decimal(n)[i]),
        decimal_value(decimal(n)) == n,
    decreases n,
{
    let c = digit_char(n % 10);
    assert(is_digit(c) && digit_of(c) == n % 10);
    if n < 10 {
        assert(decimal(n).drop_last() =~= Seq::<char>::empty());
        assert(decimal_value(Seq::<char>::empty()) == 0);
        assert(decimal_value(decimal(n)) == decimal_value(decimal(n).drop_last()) * 10 + digit_of(c));
    } else {
        lemma_decimal(n / 10);
        let d = decimal(n);
        assert(d.drop_last() =~= decimal(n / 10));
        assert(d.last() == c);
        assert(decimal_value(d) == (n / 10) * 10 + n % 10);
        assert forall|i: int| 0 <= i < d.len() implies is_digit(#[trigger] d[i]) by {
            if i < d.len() - 1 {
                assert(d[i] == decimal(n / 10)[i]);
            }
        }
    }
}

/// Parsing the decimal representation of a number gives the number back.
pub proof fn parse_decimal_round_trip(n: nat, max: nat)
    requires
        n <= max,
    ensures
        parse_unsigned(decimal(n), max) == Some(n),
{
    lemma_decimal(n);
    assert(is_digit(decimal(n)[0]));
    assert(unsigned_digits(decimal(n)) == decimal(n));
}

/// The leftmost occurrence of a single character.
pub proof fn lemma_first_char(s: Seq<char>, c: char, i: int)
    ensures
        is_first_match(s, seq![c], i) <==> (0 <= i < s.len() && s[i] == c && forall|j: int|
            0 <= j < i ==> s[j] != c),
{
    assert forall|j: int| matches_at(s, seq![c], j) <==> (0 <= j < s.len() && s[j] == c) by {
        if 0 <= j < s.len() {
            assert(s.subrange(j, j + 1)[0] == s[j]);
            if s[j] == c {
                assert(s.subrange(j, j + 1) =~= seq![c]);
            }
        }
    }
    if is_first_match(s, seq![c], i) {
        assert forall|j: int| 0 <= j < i implies s[j] != c by {
            assert(!matches_at(s, seq![c], j));
        }
    }
    if 0 <= i < s.len() && s[i] == c && forall|j: int| 0 <= j < i ==> s[j] != c {
        assert forall|j: int| 0 <= j < i implies !matches_at(s, seq![c], j) by {
            assert(s[j] != c);
        }
    }
}

/// Every character of `s` is whitespace.
pub open spec fn all_ws(s: Seq<char>) -> bool {
    forall|i: int| 0 <= i < s.len() ==> is_ws(#[trigger] s[i])
}

proof fn lemma_trim_start_cut(s: Seq<char>)
    ensures
        trim_start(s).len() <= s.len(),
        all_ws(s.take(s.len() - trim_start(s).len())),
    decreases s.len(),
{
    lemma_trim_start(s);
    if s.len() > 0 && is_ws(s[0]) {
        lemma_trim_start_cut(s.drop_first());
        let k = s.len() - trim_start(s).len();
        assert forall|i: int| 0 <= i < k implies is_ws(#[trigger] s.take(k)[i]) by {
            if i > 0 {
                assert(s.take(k)[i] == s.drop_first().take(k - 1)[i - 1]);
            }
        }
    }
}

proof fn lemma_trim_end_cut(s: Seq<char>)
    ensures
        trim_end(s).len() <= s.len(),
        all_ws(s.skip(trim_end(s).len() as int)),
    decreases s.len(),
{
    lemma_trim_end(s);
    if s.len() > 0 && is_ws(s.last()) {
        lemma_trim_end_cut(s.drop_last());
        let e = trim_end(s).len() as int;
        assert forall|i: int| 0 <= i < s.len() - e implies is_ws(#[trigger] s.skip(e)[i]) by {
            if e + i < s.len() - 1 {
                assert(s.skip(e)[i] == s.drop_last().skip(e)[i]);
            }
        }
    }
}

/// `trim(s)` is `s` without the whitespace around it.
pub proof fn lemma_trim_around(s: Seq<char>)
    ensures
        exists|a: int, b: int|
            0 <= a <= b <= s.len() && trim(s) == s.subrange(a, b) && all_ws(s.take(a)) && all_ws(
                s.skip(b),
            ),
        trim(s).len() > 0 ==> !is_ws(trim(s)[0]) && !is_ws(trim(s).last()),
{
    lemma_trim(s);
    let t = trim_end(s);
    lemma_trim_end(s);
    lemma_trim_end_cut(s);
    lemma_trim_start(t);
    lemma_trim_start_cut(t);
    let e = t.len() as int;
    let a = t.len() - trim(s).len();
    assert(trim(s) =~= s.subrange(a, e));
    assert(s.take(a) =~= t.take(a));
}

/// The words of `ws`, with the gaps `gaps` between them.
pub open spec fn joined(ws: Seq<Seq<char>>, gaps: Seq<Seq<char>>) -> Seq<char>
    decreases ws.len(),
{
    if ws.len() == 0 {
        Seq::empty()
    } else if ws.len() == 1 {
        ws[0]
    } else {
        ws[0] + gaps[0] + joined(ws.drop_first(), gaps.drop_first())
    }
}

/// Gaps between words: non-empty runs of whitespace.
pub open spec fn good_gaps(gaps: Seq<Seq<char>>) -> bool {
    forall|k: int| 0 <= k < gaps.len() ==> #[trigger] gaps[k].len() > 0 && all_ws(gaps[k])
}

/// `s` is the (non-empty) words `ws`, separated by whitespace, with whitespace
/// around them.
pub open spec fn spaced_words(s: Seq<char>, ws: Seq<Seq<char>>) -> bool {
    &&& ws.len() > 0
    &&& forall|k: int| 0 <= k < ws.len() ==> is_word(#[trigger] ws[k])
    &&& exists|lead: Seq<char>, gaps: Seq<Seq<char>>, trail: Seq<char>|
        #![trigger all_ws(lead), all_ws(trail), joined(ws, gaps)]
        all_ws(lead) && all_ws(trail) && gaps.len() + 1 == ws.len() && good_gaps(gaps) && s == lead
            + joined(ws, gaps) + trail
}

proof fn lemma_word_len_stop(s: Seq<char>)
    ensures
        word_len(s) < s.len() ==> is_ws(s[word_len(s) as int]),
    decreases s.len(),
{
    if s.len() > 0 && !is_ws(s[0]) {
        lemma_word_len_stop(s.drop_first());
        if word_len(s) < s.len() {
            assert(s[word_len(s) as int] == s.drop_first()[word_len(s.drop_first()) as int]);
        }
    }
}

proof fn lemma_joined_first(ws: Seq<Seq<char>>, gaps: Seq<Seq<char>>)
    requires
        ws.len() > 0,
        ws[0].len() > 0,
    ensures
        joined(ws, gaps).len() > 0,
        joined(ws, gaps)[0] == ws[0][0],
{
    if ws.len() > 1 {
        assert((ws[0] + gaps[0] + joined(ws.drop_first(), gaps.drop_first()))[0] == ws[0][0]);
    }
}

/// A text is its words separated by whitespace, with whitespace around them
/// (all whitespace when it has no words).
pub proof fn lemma_words_spaced(s: Seq<char>)
    ensures
        words(s).len() == 0 ==> all_ws(s),
        words(s).len() > 0 ==> spaced_words(s, words(s)),
    decreases s.len(),
{
    lemma_words(s);
    if s.len() == 0 {
    } else if is_ws(s[0]) {
        let d = s.drop_first();
        lemma_words_spaced(d);
        assert(words(s) == words(d));
        if words(d).len() == 0 {
            assert forall|i: int| 0 <= i < s.len() implies is_ws(#[trigger] s[i]) by {
                if i > 0 {
                    assert(s[i] == d[i - 1]);
                }
            }
        } else {
            let (lead, gaps, trail) = choose|lead: Seq<char>, gaps: Seq<Seq<char>>, trail: Seq<char>|
                #![trigger all_ws(lead), all_ws(trail), joined(words(d), gaps)]
                all_ws(lead) && all_ws(trail) && gaps.len() + 1 == words(d).len() && good_gaps(gaps)
                    && d == lead + joined(words(d), gaps) + trail;
            let lead2 = seq![s[0]] + lead;
            assert(all_ws(lead2)) by {
                assert forall|i: int| 0 <= i < lead2.len() implies is_ws(#[trigger] lead2[i]) by {
                    if i > 0 {
                        assert(lead2[i] == lead[i - 1]);
                    }
                }
            }
            assert(s =~= seq![s[0]] + d);
            assert(seq![s[0]] + (lead + joined(words(d), gaps) + trail) =~= lead2 + joined(
                words(d),
                gaps,
            ) + trail);
            assert(s =~= lead2 + joined(words(s), gaps) + trail);
            assert(all_ws(trail));
        }
    } else {
        lemma_word_len(s);
        lemma_word_len_stop(s);
        let k = word_len(s) as int;
        let w = s.take(k);
        let r = s.skip(k);
        lemma_words_spaced(r);
        lemma_words(r);
        assert(words(s) == seq![w] + words(r));
        let ws = words(s);
        assert(ws[0] == w);
        assert(ws.drop_first() =~= words(r));
        if words(r).len() == 0 {
            let e = Seq::<char>::empty();
            let g = Seq::<Seq<char>>::empty();
            assert(joined(ws, g) == w);
            assert(all_ws(e));
            assert(s =~= e + joined(ws, g) + r);
            assert(good_gaps(g));
            assert(all_ws(r));
        } else {
            let (lead, gaps, trail) = choose|lead: Seq<char>, gaps: Seq<Seq<char>>, trail: Seq<char>|
                #![trigger all_ws(lead), all_ws(trail), joined(words(r), gaps)]
                all_ws(lead) && all_ws(trail) && gaps.len() + 1 == words(r).len() && good_gaps(gaps)
                    && r == lead + joined(words(r), gaps) + trail;
            assert(k < s.len());
            assert(r[0] == s[k]);
            if lead.len() == 0 {
                lemma_joined_first(words(r), gaps);
                assert(is_word(words(r)[0]));
                assert(r[0] == joined(words(r), gaps)[0]);
                assert(false);
            }
            let g2 = seq![lead] + gaps;
            assert(g2[0] == lead);
            assert(g2.drop_first() =~= gaps);
            assert(good_gaps(g2)) by {
                assert forall|j: int| 0 <= j < g2.len() implies #[trigger] g2[j].len() > 0 && all_ws(
                    g2[j],
                ) by {
                    if j > 0 {
                        assert(g2[j] == gaps[j - 1]);
                    }
                }
            }
            assert(joined(ws, g2) == w + lead + joined(words(r), gaps));
            let e = Seq::<char>::empty();
            assert(all_ws(e));
            assert(s =~= w + r);
            assert(w + (lead + joined(words(r), gaps) + trail) =~= e + (w + lead + joined(
                words(r),
                gaps,
            )) + trail);
            assert(s =~= e + joined(ws, g2) + trail);
            assert(all_ws(trail));
        }
    }
}

/// `s[a..b]` is the last word of `s`: it is non-empty, holds no whitespace,
/// starts `s` or follows whitespace, and only whitespace follows it.
pub open spec fn is_last_word_at(s: Seq<char>, a: int, b: int) -> bool {
    &&& 0 <= a < b <= s.len()
    &&& a == 0 || is_ws(s[a - 1])
    &&& forall|i: int| a <= i < b ==> !is_ws(#[trigger] s[i])
    &&& forall|i: int| b <= i < s.len() ==> is_ws(#[trigger] s[i])
}

proof fn lemma_trim_end_at(s: Seq<char>, b: int)
    requires
        0 <= b <= s.len(),
        b == 0 || !is_ws(s[b - 1]),
        forall|i: int| b <= i < s.len() ==> is_ws(#[trigger] s[i]),
    ensures
        trim_end(s) == s.take(b),
    decreases s.len(),
{
    if s.len() > b {
        assert(is_ws(s.last()));
        assert forall|i: int| b <= i < s.drop_last().len() implies is_ws(#[trigger] s.drop_last()[i]) by {
            assert(s.drop_last()[i] == s[i]);
        }
        if b > 0 {
            assert(s.drop_last()[b - 1] == s[b - 1]);
        }
        lemma_trim_end_at(s.drop_last(), b);
        assert(s.drop_last().take(b) =~= s.take(b));
    } else {
        assert(s.take(b) =~= s);
        if b > 0 {
            assert(s.last() == s[b - 1]);
        }
    }
}

proof fn lemma_trailing_word_at(t: Seq<char>, a: int)
    requires
        0 <= a <= t.len(),
        a == 0 || is_ws(t[a - 1]),
        forall|i: int| a <= i < t.len() ==> !is_ws(#[trigger] t[i]),
    ensures
        trailing_word_len(t) == t.len() - a,
    decreases t.len(),
{
    if t.len() > a {
        assert(!is_ws(t.last()));
        assert forall|i: int| a <= i < t.drop_last().len() implies !is_ws(#[trigger] t.drop_last()[i]) by {
            assert(t.drop_last()[i] == t[i]);
        }
        if a > 0 {
            assert(t.drop_last()[a - 1] == t[a - 1]);
        }
        lemma_trailing_word_at(t.drop_last(), a);
    } else if a > 0 {
        assert(is_ws(t.last()));
    }
}

/// `split_whitespace().last()`: the last word, exactly where it stands; none
/// when the text is all whitespace.
pub proof fn last_word_law(s: Seq<char>, a: int, b: int)
    ensures
        is_last_word_at(s, a, b) ==> last_word(s) == Some(s.subrange(a, b)),
        all_ws(s) ==> last_word(s) is None,
{
    if is_last_word_at(s, a, b) {
        lemma_trim_end_at(s, b);
        let t = s.take(b);
        assert forall|i: int| a <= i < t.len() implies !is_ws(#[trigger] t[i]) by {
            assert(t[i] == s[i]);
        }
        if a > 0 {
            assert(t[a - 1] == s[a - 1]);
        }
        lemma_trailing_word_at(t, a);
        assert(t.skip(a) =~= s.subrange(a, b));
    }
    if all_ws(s) {
        lemma_trim_end_at(s, 0);
        assert(s.take(0) =~= Seq::<char>::empty());
    }
}

/// The decimal representation has no leading zero: it starts with `'0'` only
/// when it is `"0"`.
pub proof fn decimal_has_no_leading_zero(n: nat)
    ensures
        decimal(n).len() > 0,
        decimal(n)[0] == '0' ==> n == 0 && decimal(n).len() == 1,
    decreases n,
{
    lemma_decimal(n);
    if n >= 10 {
        decimal_has_no_leading_zero(n / 10);
        assert(decimal(n)[0] == decimal(n / 10)[0]);
    } else {
        let c = digit_char(n);
        assert(c as int == n + '0' as int);
    }
}

} // verus!
