//! Character-level scanning of topology lines: trimming, delimiter scans and
//! unsigned decimal numbers.
use vstd::prelude::*;
use vstd::string::*;

verus! {

/// Whether a character has the Unicode White_Space property (as
/// `char::is_whitespace` decides it).
pub open spec fn is_space(c: char) -> bool {
    let u = c as u32;
    (0x9 <= u && u <= 0xD) || u == 0x20 || u == 0x85 || u == 0xA0 || u == 0x1680 || (0x2000 <= u
        && u <= 0x200A) || u == 0x2028 || u == 0x2029 || u == 0x202F || u == 0x205F || u == 0x3000
}

/// Whether `c` is Unicode white space.
pub fn whitespace(c: char) -> (r: bool)
    ensures
        r == is_space(c),
{
    let u = c as u32;
    (0x9 <= u && u <= 0xD) || u == 0x20 || u == 0x85 || u == 0xA0 || u == 0x1680 || (0x2000 <= u
        && u <= 0x200A) || u == 0x2028 || u == 0x2029 || u == 0x202F || u == 0x205F || u == 0x3000
}

/// `s` without its leading white space.
pub open spec fn trim_front(s: Seq<char>) -> Seq<char>
    decreases s.len(),
{
    if s.len() > 0 && is_space(s[0]) {
        trim_front(s.drop_first())
    } else {
        s
    }
}

/// `s` without its trailing white space.
pub open spec fn trim_back(s: Seq<char>) -> Seq<char>
    decreases s.len(),
{
    if s.len() > 0 && is_space(s.last()) {
        trim_back(s.drop_last())
    } else {
        s
    }
}

/// `s` without leading and trailing white space.
pub open spec fn trimmed(s: Seq<char>) -> Seq<char> {
    trim_back(trim_front(s))
}

proof fn lemma_trim_back_len(s: Seq<char>)
    ensures
        trim_back(s).len() <= s.len(),
    decreases s.len(),
{
    if s.len() > 0 && is_space(s.last()) {
        lemma_trim_back_len(s.drop_last());
    }
}

proof fn lemma_trim_front_len(s: Seq<char>)
    ensures
        trim_front(s).len() <= s.len(),
    decreases s.len(),
{
    if s.len() > 0 && is_space(s[0]) {
        lemma_trim_front_len(s.drop_first());
    }
}

/// Trimming never lengthens a text.
pub proof fn lemma_trimmed_len(s: Seq<char>)
    ensures
        trimmed(s).len() <= s.len(),
{
    lemma_trim_front_len(s);
    lemma_trim_back_len(trim_front(s));
}

/// Removes leading and trailing white space.
pub fn trim_text<'a>(s: &'a str) -> (r: &'a str)
    ensures
        r@ == trimmed(s@),
{
    let n = s.unicode_len();
    let mut i: usize = 0;
    assert(s@.subrange(0, n as int) =~= s@);
    while i < n && whitespace(s.get_char(i))
        invariant
            i <= n,
            n == s@.len(),
            trim_front(s@) == trim_front(s@.subrange(i as int, n as int)),
        decreases n - i,
    {
        assert(s@.subrange(i as int, n as int).drop_first() =~= s@.subrange(i + 1, n as int));
        i = i + 1;
    }
    assert(trim_front(s@) =~= s@.subrange(i as int, n as int));
    let mut j: usize = n;
    while j > i && whitespace(s.get_char(j - 1))
        invariant
            i <= j <= n,
            n == s@.len(),
            trimmed(s@) == trim_back(s@.subrange(i as int, j as int)),
        decreases j,
    {
        assert(s@.subrange(i as int, j as int).drop_last() =~= s@.subrange(i as int, j - 1));
        j = j - 1;
    }
    assert(trimmed(s@) =~= s@.subrange(i as int, j as int));
    s.substring_char(i, j)
}

/// The index of the first `d` in `t` at or after `i`.
pub open spec fn find_from(t: Seq<char>, d: char, i: int) -> Option<int>
    decreases t.len() - i,
{
    if i < 0 || i >= t.len() {
        None
    } else if t[i] == d {
        Some(i)
    } else {
        find_from(t, d, i + 1)
    }
}

/// Scanning `t` from `start` up to the delimiter `d`: the index after the
/// delimiter and the text before it. Without a delimiter, the index stays at
/// `start` and the text runs to the end.
pub open spec fn scan(t: Seq<char>, d: char, start: int) -> (int, Seq<char>) {
    match find_from(t, d, start) {
        Some(k) => (k + 1, t.subrange(start, k)),
        None => (
            start,
            if start < t.len() {
                t.subrange(start, t.len() as int)
            } else {
                Seq::empty()
            },
        ),
    }
}

proof fn lemma_find_from_bounds(t: Seq<char>, d: char, i: int)
    ensures
        find_from(t, d, i) matches Some(k) ==> i <= k < t.len() && t[k] == d,
    decreases t.len() - i,
{
    if 0 <= i < t.len() && t[i] != d {
        lemma_find_from_bounds(t, d, i + 1);
    }
}

/// A scan ends at most at its start or at the end of the text.
pub proof fn lemma_scan_bound(t: Seq<char>, d: char, start: int)
    requires
        0 <= start,
    ensures
        scan(t, d, start).0 <= start || scan(t, d, start).0 <= t.len(),
{
    lemma_find_from_bounds(t, d, start);
}

/// Scans the (already trimmed) text `t` from `start` up to `delimeter`.
pub fn scan_chars(t: &str, delimeter: char, start: usize) -> (r: (usize, String))
    ensures
        r.0 as int == scan(t@, delimeter, start as int).0,
        r.1@ == scan(t@, delimeter, start as int).1,
{
    let n = t.unicode_len();
    let mut i: usize = start;
    while i < n
        invariant
            n == t@.len(),
            start <= i,
            find_from(t@, delimeter, start as int) == find_from(t@, delimeter, i as int),
        decreases n - i,
    {
        if t.get_char(i) == delimeter {
            let part = t.substring_char(start, i);
            return (i + 1, part.to_owned());
        }
        i = i + 1;
    }
    if start < n {
        (start, t.substring_char(start, n).to_owned())
    } else {
        (start, String::new())
    }
}

/// Trims `line`, then scans it from `startindex` up to `delimeter`; gives
/// the index after the delimiter (or `startindex` where there is none) and
/// the text scanned over.
pub fn scanUntilDelimeter(line: &String, delimeter: char, startindex: u32) -> (r: (u32, String))
    requires
        line@.len() <= u32::MAX,
    ensures
        r.0 as int == scan(trimmed(line@), delimeter, startindex as int).0,
        r.1@ == scan(trimmed(line@), delimeter, startindex as int).1,
{
    let t = trim_text(line.as_str());
    proof {
        lemma_trimmed_len(line@);
        lemma_find_from_bounds(t@, delimeter, startindex as int);
    }
    let (k, s) = scan_chars(t, delimeter, startindex as usize);
    (k as u32, s)
}

/// Whether `c` is an ASCII decimal digit.
pub open spec fn is_digit(c: char) -> bool {
    '0' <= c && c <= '9'
}

/// The value of the decimal digit string `s` (empty is zero).
pub open spec fn digits_value(s: Seq<char>) -> nat
    decreases s.len(),
{
    if s.len() == 0 {
        0
    } else {
        digits_value(s.drop_last()) * 10 + ((s.last() as nat) - ('0' as nat)) as nat
    }
}

/// `s` without one leading `+`.
pub open spec fn unsigned_part(s: Seq<char>) -> Seq<char> {
    if s.len() > 0 && s[0] == '+' {
        s.drop_first()
    } else {
        s
    }
}

/// The unsigned 32-bit number that `s` writes in decimal: an optional `+`,
/// then one or more digits, with a value that fits.
pub open spec fn count_of(s: Seq<char>) -> Option<u32> {
    let d = unsigned_part(s);
    if d.len() > 0 && (forall|i: int| 0 <= i < d.len() ==> is_digit(#[trigger] d[i]))
        && digits_value(d) <= u32::MAX {
        Some(digits_value(d) as u32)
    } else {
        None
    }
}

proof fn lemma_digits_grow(s: Seq<char>, i: int, j: int)
    requires
        0 <= i <= j <= s.len(),
        forall|k: int| 0 <= k < s.len() ==> is_digit(#[trigger] s[k]),
    ensures
        digits_value(s.subrange(0, i)) <= digits_value(s.subrange(0, j)),
    decreases j - i,
{
    if i < j {
        lemma_digits_grow(s, i, j - 1);
        assert(s.subrange(0, j).drop_last() =~= s.subrange(0, j - 1));
    }
}

proof fn lemma_prefix_too_large(d: Seq<char>, i: int)
    requires
        0 <= i <= d.len(),
        digits_value(d.subrange(0, i)) > u32::MAX,
    ensures
        !((forall|k: int| 0 <= k < d.len() ==> is_digit(#[trigger] d[k])) && digits_value(d)
            <= u32::MAX),
{
    if forall|k: int| 0 <= k < d.len() ==> is_digit(#[trigger] d[k]) {
        lemma_digits_grow(d, i, d.len() as int);
        assert(d.subrange(0, d.len() as int) =~= d);
    }
}

/// Reads an unsigned decimal number: an optional `+`, then digits only.
pub fn parse_count(s: &str) -> (r: Option<u32>)
    ensures
        r == count_of(s@),
{
    let n = s.unicode_len();
    let mut i: usize = 0;
    if n > 0 && s.get_char(0) == '+' {
        i = 1;
    }
    let first = i;
    let ghost d = unsigned_part(s@);
    assert(d =~= s@.subrange(first as int, n as int));
    if first == n {
        return None;
    }
    let mut acc: u64 = 0;
    while i < n
        invariant
            first <= i <= n,
            n == s@.len(),
            d =~= s@.subrange(first as int, n as int),
            d == unsigned_part(s@),
            d.len() > 0,
            forall|k: int| 0 <= k < i - first ==> is_digit(#[trigger] d[k]),
            acc == digits_value(d.subrange(0, i - first)),
            acc <= u32::MAX,
        decreases n - i,
    {
        let c = s.get_char(i);
        if c < '0' || c > '9' {
            assert(d[i - first] == c);
            assert(!is_digit(d[i - first]));
            assert(!(forall|k: int| 0 <= k < d.len() ==> is_digit(#[trigger] d[k])));
            return None;
        }
        proof {
            let p = d.subrange(0, i + 1 - first);
            assert(p.drop_last() =~= d.subrange(0, i - first));
            assert(p.last() == c);
            assert(digits_value(p) == acc * 10 + (c as nat - '0' as nat));
        }
        acc = acc * 10 + (c as u64 - '0' as u64);
        if acc > u32::MAX as u64 {
            proof {
                lemma_prefix_too_large(d, i + 1 - first);
            }
            return None;
        }
        i = i + 1;
    }
    assert(d.subrange(0, n - first) =~= d);
    Some(acc as u32)
}

} // verus!
