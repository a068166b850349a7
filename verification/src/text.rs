//! Character-level text operations over `Seq<char>`, with executable
//! counterparts over `Vec<char>` and `String`.

use vstd::prelude::*;

verus! {

/// The Unicode `White_Space` property, which `char::is_whitespace` and
/// `str::trim` go by.
pub open spec fn is_ws(c: char) -> bool {
    ||| ('\u{9}' <= c && c <= '\u{d}')
    ||| c == ' '
    ||| c == '\u{85}'
    ||| c == '\u{a0}'
    ||| c == '\u{1680}'
    ||| ('\u{2000}' <= c && c <= '\u{200a}')
    ||| c == '\u{2028}'
    ||| c == '\u{2029}'
    ||| c == '\u{202f}'
    ||| c == '\u{205f}'
    ||| c == '\u{3000}'
}

pub fn char_is_ws(c: char) -> (r: bool)
    ensures
        r == is_ws(c),
{
    ('\u{9}' <= c && c <= '\u{d}') || c == ' ' || c == '\u{85}' || c == '\u{a0}'
        || c == '\u{1680}' || ('\u{2000}' <= c && c <= '\u{200a}') || c == '\u{2028}'
        || c == '\u{2029}' || c == '\u{202f}' || c == '\u{205f}' || c == '\u{3000}'
}

pub open spec fn is_ascii_char(c: char) -> bool {
    (c as u32) < 128
}

pub open spec fn is_ascii_digit(c: char) -> bool {
    '0' <= c && c <= '9'
}

/// Number of bytes of `c` in UTF-8.
pub open spec fn char_utf8_len(c: char) -> nat {
    if (c as u32) < 0x80 {
        1
    } else if (c as u32) < 0x800 {
        2
    } else if (c as u32) < 0x10000 {
        3
    } else {
        4
    }
}

/// Number of bytes of `s` in UTF-8 (what `str::len` returns).
pub open spec fn utf8_len(s: Seq<char>) -> nat
    decreases s.len(),
{
    if s.len() == 0 {
        0
    } else {
        utf8_len(s.drop_last()) + char_utf8_len(s.last())
    }
}

/// `s` without its leading white space (`str::trim_start`).
pub open spec fn trim_start(s: Seq<char>) -> Seq<char>
    decreases s.len(),
{
    if s.len() > 0 && is_ws(s[0]) {
        trim_start(s.drop_first())
    } else {
        s
    }
}

/// `s` without its trailing white space (`str::trim_end`).
pub open spec fn trim_end(s: Seq<char>) -> Seq<char>
    decreases s.len(),
{
    if s.len() > 0 && is_ws(s.last()) {
        trim_end(s.drop_last())
    } else {
        s
    }
}

/// `s` without white space at either end (`str::trim`).
pub open spec fn trim(s: Seq<char>) -> Seq<char> {
    trim_end(trim_start(s))
}

pub open spec fn starts_with(s: Seq<char>, p: Seq<char>) -> bool {
    p.len() <= s.len() && s.take(p.len() as int) == p
}

pub open spec fn ends_with(s: Seq<char>, p: Seq<char>) -> bool {
    p.len() <= s.len() && s.skip(s.len() - p.len()) == p
}

/// `p` occurs in `s` starting at position `i`.
pub open spec fn occurs_at(s: Seq<char>, p: Seq<char>, i: int) -> bool {
    0 <= i && i + p.len() <= s.len() && s.subrange(i, i + p.len()) == p
}

/// The first position at or after `from` where `p` occurs in `s`.
pub open spec fn find_from(s: Seq<char>, p: Seq<char>, from: int) -> Option<nat>
    decreases s.len() - from,
{
    if from < 0 || from + p.len() > s.len() {
        None
    } else if occurs_at(s, p, from) {
        Some(from as nat)
    } else if from >= s.len() {
        None
    } else {
        find_from(s, p, from + 1)
    }
}

/// The first position of `c` in `s`.
pub open spec fn index_of(s: Seq<char>, c: char) -> Option<nat>
    decreases s.len(),
{
    if s.len() == 0 {
        None
    } else if s[0] == c {
        Some(0)
    } else {
        match index_of(s.drop_first(), c) {
            Some(i) => Some(i + 1),
            None => None,
        }
    }
}

/// Every non-overlapping occurrence of `p`, scanning from the left, replaced by
/// `r` (`str::replace` with a non-empty pattern).
pub open spec fn replace_all(s: Seq<char>, p: Seq<char>, r: Seq<char>) -> Seq<char>
    decreases s.len(),
{
    if s.len() == 0 || p.len() == 0 {
        s
    } else if starts_with(s, p) {
        r + replace_all(s.skip(p.len() as int), p, r)
    } else {
        seq![s[0]] + replace_all(s.drop_first(), p, r)
    }
}

/// The pieces of `s` between occurrences of `c` (`str::split` on a char).
pub open spec fn split_char(s: Seq<char>, c: char) -> Seq<Seq<char>>
    decreases s.len(),
{
    match index_of(s, c) {
        None => seq![s],
        Some(i) => if i < s.len() {
            seq![s.take(i as int)] + split_char(s.skip(i + 1 as int), c)
        } else {
            seq![s]
        },
    }
}

/// The parts joined with `sep` between consecutive parts (`[String]::join`).
pub open spec fn join(parts: Seq<Seq<char>>, sep: Seq<char>) -> Seq<char>
    decreases parts.len(),
{
    if parts.len() == 0 {
        seq![]
    } else if parts.len() == 1 {
        parts[0]
    } else {
        join(parts.drop_last(), sep) + sep + parts.last()
    }
}

/// The character sequences of a vector of lines.
pub open spec fn view_lines(v: Seq<Vec<char>>) -> Seq<Seq<char>> {
    Seq::new(v.len(), |i: int| v[i]@)
}

pub open spec fn contains_char(s: Seq<char>, c: char) -> bool {
    exists|i: int| 0 <= i < s.len() && s[i] == c
}

/// The value of an ASCII digit.
pub open spec fn digit_value(c: char) -> nat {
    ((c as u32) - ('0' as u32)) as nat
}

pub open spec fn all_digits(s: Seq<char>) -> bool {
    forall|i: int| 0 <= i < s.len() ==> is_ascii_digit(s[i])
}

/// The number that the decimal digits `s` spell.
pub open spec fn digits_value(s: Seq<char>) -> nat
    decreases s.len(),
{
    if s.len() == 0 {
        0
    } else {
        digits_value(s.drop_last()) * 10 + digit_value(s.last())
    }
}

/// What `u64::from_str` reads: an optional `+`, then one or more ASCII digits
/// whose value fits in a `u64`.
pub open spec fn parse_u64(s: Seq<char>) -> Option<u64> {
    let d = if s.len() > 0 && s[0] == '+' {
        s.drop_first()
    } else {
        s
    };
    if d.len() > 0 && all_digits(d) && digits_value(d) <= u64::MAX {
        Some(digits_value(d) as u64)
    } else {
        None
    }
}

pub open spec fn digit_char(d: nat) -> char {
    ((d + 48) as u8) as char
}

/// The decimal representation of `n` (what `Display` writes for integers).
pub open spec fn decimal(n: nat) -> Seq<char>
    decreases n,
{
    if n < 10 {
        seq![digit_char(n)]
    } else {
        decimal(n / 10).push(digit_char(n % 10))
    }
}

// ---------------------------------------------------------------------------
// Lemmas

pub proof fn lemma_index_of_first(s: Seq<char>, c: char, j: int)
    requires
        0 <= j < s.len(),
        s[j] == c,
        forall|k: int| 0 <= k < j ==> s[k] != c,
    ensures
        index_of(s, c) == Some(j as nat),
    decreases j,
{
    if j > 0 {
        lemma_index_of_first(s.drop_first(), c, j - 1);
    }
}

pub proof fn lemma_index_of_none(s: Seq<char>, c: char)
    requires
        forall|k: int| 0 <= k < s.len() ==> s[k] != c,
    ensures
        index_of(s, c) == None::<nat>,
    decreases s.len(),
{
    if s.len() > 0 {
        lemma_index_of_none(s.drop_first(), c);
    }
}

pub proof fn lemma_index_of_some(s: Seq<char>, c: char)
    ensures
        match index_of(s, c) {
            Some(i) => i < s.len() && s[i as int] == c && forall|k: int| 0 <= k < i ==> s[k] != c,
            None => forall|k: int| 0 <= k < s.len() ==> s[k] != c,
        },
    decreases s.len(),
{
    if s.len() > 0 {
        lemma_index_of_some(s.drop_first(), c);
        if s[0] != c {
            match index_of(s.drop_first(), c) {
                Some(i) => {
                    assert forall|k: int| 0 <= k < i + 1 implies s[k] != c by {
                        if k > 0 {
                            assert(s[k] == s.drop_first()[k - 1]);
                        }
                    }
                },
                None => {
                    assert forall|k: int| 0 <= k < s.len() implies s[k] != c by {
                        if k > 0 {
                            assert(s[k] == s.drop_first()[k - 1]);
                        }
                    }
                },
            }
        }
    }
}

pub proof fn lemma_find_from_some(s: Seq<char>, p: Seq<char>, from: int, j: int)
    requires
        0 <= from <= j,
        occurs_at(s, p, j),
        forall|k: int| from <= k < j ==> !occurs_at(s, p, k),
    ensures
        find_from(s, p, from) == Some(j as nat),
    decreases j - from,
{
    if from < j {
        lemma_find_from_some(s, p, from + 1, j);
    }
}

pub proof fn lemma_find_from_none(s: Seq<char>, p: Seq<char>, from: int)
    requires
        0 <= from,
        forall|k: int| from <= k ==> !occurs_at(s, p, k),
    ensures
        find_from(s, p, from) == None::<nat>,
    decreases s.len() - from,
{
    if from < s.len() && from + p.len() <= s.len() {
        lemma_find_from_none(s, p, from + 1);
    }
}

pub proof fn lemma_find_from_spec(s: Seq<char>, p: Seq<char>, from: int)
    requires
        0 <= from,
    ensures
        match find_from(s, p, from) {
            Some(j) => from <= j && occurs_at(s, p, j as int) && forall|k: int|
                from <= k < j ==> !occurs_at(s, p, k),
            None => forall|k: int| from <= k ==> !occurs_at(s, p, k),
        },
    decreases s.len() - from,
{
    if from < s.len() && from + p.len() <= s.len() && !occurs_at(s, p, from) {
        lemma_find_from_spec(s, p, from + 1);
    }
}

pub proof fn lemma_trim_start_sub(s: Seq<char>, lo: int, hi: int)
    requires
        0 <= lo < hi <= s.len(),
        is_ws(s[lo]),
    ensures
        trim_start(s.subrange(lo, hi)) == trim_start(s.subrange(lo + 1, hi)),
{
    assert(s.subrange(lo, hi).drop_first() =~= s.subrange(lo + 1, hi));
}

pub proof fn lemma_trim_end_sub(s: Seq<char>, lo: int, hi: int)
    requires
        0 <= lo < hi <= s.len(),
        is_ws(s[hi - 1]),
    ensures
        trim_end(s.subrange(lo, hi)) == trim_end(s.subrange(lo, hi - 1)),
{
    assert(s.subrange(lo, hi).drop_last() =~= s.subrange(lo, hi - 1));
}

pub proof fn lemma_join_push(parts: Seq<Seq<char>>, sep: Seq<char>, x: Seq<char>)
    ensures
        join(parts.push(x), sep) == if parts.len() == 0 {
            x
        } else {
            join(parts, sep) + sep + x
        },
{
    assert(parts.push(x).drop_last() =~= parts);
}

pub proof fn lemma_trim_start_len(s: Seq<char>)
    ensures
        trim_start(s).len() <= s.len(),
        exists|k: int| 0 <= k <= s.len() && trim_start(s) == s.skip(k),
    decreases s.len(),
{
    if s.len() > 0 && is_ws(s[0]) {
        lemma_trim_start_len(s.drop_first());
        let k = choose|k: int| 0 <= k <= s.drop_first().len() && trim_start(s.drop_first()) == s.drop_first().skip(k);
        assert(s.drop_first().skip(k) =~= s.skip(k + 1));
    } else {
        assert(s.skip(0) =~= s);
    }
}

pub proof fn lemma_trim_end_prefix(s: Seq<char>)
    ensures
        trim_end(s).len() <= s.len(),
        trim_end(s) == s.take(trim_end(s).len() as int),
    decreases s.len(),
{
    if s.len() > 0 && is_ws(s.last()) {
        lemma_trim_end_prefix(s.drop_last());
        assert(s.drop_last().take(trim_end(s).len() as int) =~= s.take(trim_end(s).len() as int));
    } else {
        assert(s.take(s.len() as int) =~= s);
    }
}

/// A trimmed text starting with a non-empty `p` comes from a text whose
/// trimmed start starts with `p`.
pub proof fn lemma_trim_starts_with(s: Seq<char>, p: Seq<char>)
    requires
        p.len() > 0,
        starts_with(trim(s), p),
    ensures
        starts_with(trim_start(s), p),
{
    let x = trim_start(s);
    lemma_trim_end_prefix(x);
    let y = trim_end(x);
    assert(y == x.take(y.len() as int));
    assert(x.take(p.len() as int) =~= y.take(p.len() as int));
}

pub proof fn lemma_replace_all_len(s: Seq<char>, p: Seq<char>, r: Seq<char>)
    requires
        r.len() <= p.len(),
    ensures
        replace_all(s, p, r).len() <= s.len(),
    decreases s.len(),
{
    if s.len() == 0 || p.len() == 0 {
    } else if starts_with(s, p) {
        lemma_replace_all_len(s.skip(p.len() as int), p, r);
    } else {
        lemma_replace_all_len(s.drop_first(), p, r);
    }
}

pub proof fn lemma_split_char_pieces(s: Seq<char>, c: char)
    ensures
        split_char(s, c).len() >= 1,
        forall|i: int| 0 <= i < split_char(s, c).len() ==> #[trigger] split_char(s, c)[i].len() <= s.len(),
    decreases s.len(),
{
    lemma_index_of_some(s, c);
    match index_of(s, c) {
        None => {},
        Some(i) => {
            if i < s.len() {
                lemma_split_char_pieces(s.skip(i + 1 as int), c);
                let rest = split_char(s.skip(i + 1 as int), c);
                assert forall|j: int| 0 <= j < split_char(s, c).len() implies #[trigger] split_char(s, c)[j].len() <= s.len() by {
                    if j > 0 {
                        assert(split_char(s, c)[j] == rest[j - 1]);
                    }
                }
            }
        },
    }
}

pub proof fn lemma_digits_value_mono(s: Seq<char>, i: int, k: int)
    requires
        0 <= i <= k <= s.len(),
        all_digits(s),
    ensures
        digits_value(s.take(i)) <= digits_value(s.take(k)),
    decreases k - i,
{
    if i < k {
        lemma_digits_value_mono(s, i, k - 1);
        assert(s.take(k).drop_last() =~= s.take(k - 1));
    }
}

/// Decimal digits read back as the number they were written from.
pub proof fn lemma_decimal_digits(n: nat)
    ensures
        decimal(n).len() > 0,
        all_digits(decimal(n)),
        digits_value(decimal(n)) == n,
        decimal(n)[0] != '+',
    decreases n,
{
    if n < 10 {
        assert(seq![digit_char(n)].drop_last() =~= Seq::<char>::empty());
        assert(digit_char(n) as u32 == n + 48);
        assert(digits_value(Seq::<char>::empty()) == 0);
        assert(digits_value(decimal(n)) == digits_value(Seq::<char>::empty()) * 10 + digit_value(
            digit_char(n),
        ));
    } else {
        lemma_decimal_digits(n / 10);
        let d = decimal(n / 10);
        assert(d.push(digit_char(n % 10)).drop_last() =~= d);
        assert(digit_char(n % 10) as u32 == n % 10 + 48);
        assert forall|i: int| 0 <= i < decimal(n).len() implies is_ascii_digit(decimal(n)[i]) by {
            if i < d.len() {
                assert(decimal(n)[i] == d[i]);
            }
        }
        assert(decimal(n)[0] == d[0]);
        assert((n / 10) * 10 + n % 10 == n);
        assert(digits_value(decimal(n)) == digits_value(d) * 10 + digit_value(digit_char(n % 10)));
    }
}

/// Every number in range is read back from its decimal representation.
pub proof fn lemma_parse_decimal(n: u64)
    ensures
        parse_u64(decimal(n as nat)) == Some(n),
{
    lemma_decimal_digits(n as nat);
}

/// The bytes of a prefix one character longer.
pub proof fn lemma_utf8_len_step(s: Seq<char>, i: int)
    requires
        0 <= i < s.len(),
    ensures
        utf8_len(s.take(i + 1)) == utf8_len(s.take(i)) + char_utf8_len(s[i]),
{
    assert(s.take(i + 1).drop_last() =~= s.take(i));
}

/// The bytes of a prefix never exceed those of the whole.
pub proof fn lemma_utf8_len_prefix(s: Seq<char>, i: int)
    requires
        0 <= i <= s.len(),
    ensures
        utf8_len(s.take(i)) <= utf8_len(s),
    decreases s.len() - i,
{
    if i < s.len() {
        lemma_utf8_len_prefix(s, i + 1);
        lemma_utf8_len_step(s, i);
    } else {
        assert(s.take(i) =~= s);
    }
}

// ---------------------------------------------------------------------------
// Executable operations

/// The byte length of one character.
pub fn char_len(c: char) -> (n: usize)
    ensures
        n == char_utf8_len(c),
{
    if (c as u32) < 0x80 {
        1
    } else if (c as u32) < 0x800 {
        2
    } else if (c as u32) < 0x10000 {
        3
    } else {
        4
    }
}


/// The characters of `s`, in order.
pub fn chars_of(s: &str) -> (v: Vec<char>)
    ensures
        v@ == s@,
{
    let mut v: Vec<char> = Vec::new();
    for c in it: s.chars()
        invariant
            v@ == it.seq().take(it.index() as int),
            it.seq() == s@,
    {
        v.push(c);
    }
    v
}

/// Appends one character to a `String` (`String::push`).
#[verifier::external_body]
fn push_char(s: &mut String, c: char)
    ensures
        final(s)@ == old(s)@.push(c),
{
    s.push(c);
}

/// A `String` holding exactly the characters of `v`.
pub fn string_of(v: &Vec<char>) -> (s: String)
    ensures
        s@ == v@,
{
    let mut s = String::new();
    let mut i: usize = 0;
    while i < v.len()
        invariant
            i <= v.len(),
            s@ == v@.take(i as int),
        decreases v.len() - i,
    {
        push_char(&mut s, v[i]);
        i = i + 1;
        assert(s@ =~= v@.take(i as int));
    }
    assert(v@.take(v.len() as int) =~= v@);
    s
}

/// A copy of `v[lo..hi]`.
pub fn slice_of(v: &Vec<char>, lo: usize, hi: usize) -> (r: Vec<char>)
    requires
        lo <= hi <= v.len(),
    ensures
        r@ == v@.subrange(lo as int, hi as int),
{
    let mut r: Vec<char> = Vec::new();
    let mut i = lo;
    while i < hi
        invariant
            lo <= i <= hi <= v.len(),
            r@ == v@.subrange(lo as int, i as int),
        decreases hi - i,
    {
        r.push(v[i]);
        i = i + 1;
        assert(r@ =~= v@.subrange(lo as int, i as int));
    }
    r
}

/// Bounds of `v[lo..hi]` with leading white space removed.
pub fn trim_start_from(v: &Vec<char>, lo: usize, hi: usize) -> (a: usize)
    requires
        lo <= hi <= v.len(),
    ensures
        lo <= a <= hi,
        trim_start(v@.subrange(lo as int, hi as int)) == v@.subrange(a as int, hi as int),
{
    let mut a = lo;
    while a < hi && char_is_ws(v[a])
        invariant
            lo <= a <= hi <= v.len(),
            trim_start(v@.subrange(lo as int, hi as int)) == trim_start(
                v@.subrange(a as int, hi as int),
            ),
        decreases hi - a,
    {
        proof {
            lemma_trim_start_sub(v@, a as int, hi as int);
        }
        a = a + 1;
    }
    a
}

/// Bounds of `v[lo..hi]` with trailing white space removed.
pub fn trim_end_from(v: &Vec<char>, lo: usize, hi: usize) -> (b: usize)
    requires
        lo <= hi <= v.len(),
    ensures
        lo <= b <= hi,
        trim_end(v@.subrange(lo as int, hi as int)) == v@.subrange(lo as int, b as int),
{
    let mut b = hi;
    while b > lo && char_is_ws(v[b - 1])
        invariant
            lo <= b <= hi <= v.len(),
            trim_end(v@.subrange(lo as int, hi as int)) == trim_end(
                v@.subrange(lo as int, b as int),
            ),
        decreases b - lo,
    {
        proof {
            lemma_trim_end_sub(v@, lo as int, b as int);
        }
        b = b - 1;
    }
    b
}

/// Bounds of `v[lo..hi]` with white space removed at both ends.
pub fn trim_range(v: &Vec<char>, lo: usize, hi: usize) -> (r: (usize, usize))
    requires
        lo <= hi <= v.len(),
    ensures
        lo <= r.0 <= r.1 <= hi,
        trim(v@.subrange(lo as int, hi as int)) == v@.subrange(r.0 as int, r.1 as int),
{
    let a = trim_start_from(v, lo, hi);
    let b = trim_end_from(v, a, hi);
    (a, b)
}

/// `v[lo..hi]` trimmed at both ends, as a new vector.
pub fn trimmed(v: &Vec<char>, lo: usize, hi: usize) -> (r: Vec<char>)
    requires
        lo <= hi <= v.len(),
    ensures
        r@ == trim(v@.subrange(lo as int, hi as int)),
        r@.len() <= hi - lo,
{
    let (a, b) = trim_range(v, lo, hi);
    slice_of(v, a, b)
}

/// Whether `p` occurs in `v` at position `i`.
pub fn matches_at(v: &Vec<char>, i: usize, p: &Vec<char>) -> (r: bool)
    ensures
        r == occurs_at(v@, p@, i as int),
{
    if i > v.len() || p.len() > v.len() - i {
        return false;
    }
    let mut k: usize = 0;
    while k < p.len()
        invariant
            i + p.len() <= v.len(),
            k <= p.len(),
            forall|j: int| 0 <= j < k ==> v@[i + j] == p@[j],
        decreases p.len() - k,
    {
        if v[i + k] != p[k] {
            assert(v@.subrange(i as int, i + p.len())[k as int] != p@[k as int]);
            return false;
        }
        k = k + 1;
    }
    assert(v@.subrange(i as int, i + p.len()) =~= p@);
    true
}

/// Whether `v` starts with `p`.
pub fn starts_with_exec(v: &Vec<char>, p: &Vec<char>) -> (r: bool)
    ensures
        r == starts_with(v@, p@),
{
    let r = matches_at(v, 0, p);
    proof {
        if p@.len() <= v@.len() {
            assert(v@.subrange(0, p@.len() as int) =~= v@.take(p@.len() as int));
        }
    }
    r
}

/// Whether `v[lo..]` starts with `p`.
pub fn starts_with_from(v: &Vec<char>, lo: usize, p: &Vec<char>) -> (r: bool)
    requires
        lo <= v.len(),
    ensures
        r == starts_with(v@.subrange(lo as int, v.len() as int), p@),
{
    let r = matches_at(v, lo, p);
    proof {
        if p@.len() <= v@.len() - lo {
            assert(v@.subrange(lo as int, v.len() as int).take(p@.len() as int) =~= v@.subrange(
                lo as int,
                lo + p@.len(),
            ));
        }
    }
    r
}

/// Whether `v` ends with `p`.
pub fn ends_with_exec(v: &Vec<char>, p: &Vec<char>) -> (r: bool)
    ensures
        r == ends_with(v@, p@),
{
    if p.len() > v.len() {
        return false;
    }
    let r = matches_at(v, v.len() - p.len(), p);
    assert(v@.subrange(v@.len() - p@.len(), v@.len() as int) =~= v@.skip(v@.len() - p@.len()));
    r
}

/// Whether `c` occurs in `v`.
pub fn contains_char_exec(v: &Vec<char>, c: char) -> (r: bool)
    ensures
        r == contains_char(v@, c),
{
    let mut i: usize = 0;
    while i < v.len()
        invariant
            i <= v.len(),
            forall|k: int| 0 <= k < i ==> v@[k] != c,
        decreases v.len() - i,
    {
        if v[i] == c {
            return true;
        }
        i = i + 1;
    }
    false
}

/// First position at or after `from` where `p` occurs in `v`.
pub fn find_from_exec(v: &Vec<char>, p: &Vec<char>, from: usize) -> (r: Option<usize>)
    ensures
        match r {
            Some(j) => find_from(v@, p@, from as int) == Some(j as nat),
            None => find_from(v@, p@, from as int) is None,
        },
{
    let mut i = from;
    while i <= v.len() && p.len() <= v.len() - i
        invariant
            from <= i,
            forall|k: int| from <= k < i ==> !occurs_at(v@, p@, k),
        decreases v.len() + 1 - i,
    {
        if matches_at(v, i, p) {
            proof {
                lemma_find_from_some(v@, p@, from as int, i as int);
            }
            return Some(i);
        }
        if p.len() == 0 {
            assert(v@.subrange(i as int, i as int) =~= p@);
        }
        i = i + 1;
    }
    proof {
        assert forall|k: int| from <= k implies !occurs_at(v@, p@, k) by {
            if k >= i {
                assert(k + p@.len() > v@.len());
            }
        }
        lemma_find_from_none(v@, p@, from as int);
    }
    None
}

/// `v` with every occurrence of the non-empty `p` replaced by `r`.
pub fn replace_all_exec(v: &Vec<char>, p: &Vec<char>, r: &Vec<char>) -> (out: Vec<char>)
    requires
        p.len() > 0,
    ensures
        out@ == replace_all(v@, p@, r@),
{
    let mut out: Vec<char> = Vec::new();
    let mut i: usize = 0;
    assert(v@.skip(0) =~= v@);
    while i < v.len()
        invariant
            i <= v.len(),
            p.len() > 0,
            out@ + replace_all(v@.skip(i as int), p@, r@) == replace_all(v@, p@, r@),
        decreases v.len() - i,
    {
        let ghost rest = v@.skip(i as int);
        if matches_at(v, i, p) {
            assert(rest.take(p@.len() as int) =~= v@.subrange(i as int, i + p@.len()));
            assert(rest.skip(p@.len() as int) =~= v@.skip(i + p@.len()));
            let mut k: usize = 0;
            let ghost out0 = out@;
            while k < r.len()
                invariant
                    k <= r.len(),
                    out@ == out0 + r@.take(k as int),
                decreases r.len() - k,
            {
                out.push(r[k]);
                k = k + 1;
                assert(out@ =~= out0 + r@.take(k as int));
            }
            assert(r@.take(r@.len() as int) =~= r@);
            assert(out@ + replace_all(v@.skip(i + p@.len()), p@, r@) =~= out0 + (r@
                + replace_all(rest.skip(p@.len() as int), p@, r@)));
            i = i + p.len();
        } else {
            assert(!starts_with(rest, p@)) by {
                if starts_with(rest, p@) {
                    assert(rest.take(p@.len() as int) =~= v@.subrange(i as int, i + p@.len()));
                }
            }
            assert(rest.drop_first() =~= v@.skip(i + 1));
            let ghost out0 = out@;
            out.push(v[i]);
            assert(out@ + replace_all(v@.skip(i + 1), p@, r@) =~= out0 + (seq![rest[0]]
                + replace_all(rest.drop_first(), p@, r@)));
            i = i + 1;
        }
    }
    assert(v@.skip(i as int) =~= Seq::<char>::empty());
    assert(out@ + replace_all(v@.skip(i as int), p@, r@) =~= out@);
    out
}

/// The pieces of `v` between occurrences of `c`.
pub fn split_char_exec(v: &Vec<char>, c: char) -> (parts: Vec<Vec<char>>)
    ensures
        view_lines(parts@) == split_char(v@, c),
{
    let mut parts: Vec<Vec<char>> = Vec::new();
    let mut st: usize = 0;
    let mut i: usize = 0;
    assert(v@.skip(0) =~= v@);
    assert(view_lines(parts@) + split_char(v@, c) =~= split_char(v@, c));
    while i < v.len()
        invariant
            st <= i <= v.len(),
            forall|k: int| st <= k < i ==> v@[k] != c,
            view_lines(parts@) + split_char(v@.skip(st as int), c) == split_char(v@, c),
        decreases v.len() - i,
    {
        if v[i] == c {
            let ghost rest = v@.skip(st as int);
            proof {
                lemma_index_of_first(rest, c, i - st);
                assert(rest.take(i - st) =~= v@.subrange(st as int, i as int));
                assert(rest.skip(i - st + 1) =~= v@.skip(i + 1));
            }
            let piece = slice_of(v, st, i);
            let ghost p0 = view_lines(parts@);
            parts.push(piece);
            assert(view_lines(parts@) =~= p0.push(piece@));
            assert(view_lines(parts@) + split_char(v@.skip(i + 1), c) =~= p0 + (seq![rest.take(
                i - st,
            )] + split_char(rest.skip(i - st + 1), c)));
            st = i + 1;
        }
        i = i + 1;
    }
    let ghost rest = v@.skip(st as int);
    proof {
        lemma_index_of_none(rest, c);
        assert(rest =~= v@.subrange(st as int, v.len() as int));
    }
    let piece = slice_of(v, st, v.len());
    let ghost p0 = view_lines(parts@);
    parts.push(piece);
    assert(view_lines(parts@) =~= p0.push(piece@));
    assert(view_lines(parts@) =~= p0 + seq![rest]);
    parts
}

/// `parts[lo..hi]` joined with `sep`.
pub fn join_range(parts: &Vec<Vec<char>>, lo: usize, hi: usize, sep: &Vec<char>) -> (out: Vec<
    char,
>)
    requires
        lo <= hi <= parts.len(),
    ensures
        out@ == join(view_lines(parts@).subrange(lo as int, hi as int), sep@),
{
    let mut out: Vec<char> = Vec::new();
    let mut i = lo;
    while i < hi
        invariant
            lo <= i <= hi <= parts.len(),
            out@ == join(view_lines(parts@).subrange(lo as int, i as int), sep@),
        decreases hi - i,
    {
        let ghost prev = view_lines(parts@).subrange(lo as int, i as int);
        proof {
            lemma_join_push(prev, sep@, parts@[i as int]@);
            assert(view_lines(parts@).subrange(lo as int, i + 1) =~= prev.push(parts@[i as int]@));
        }
        if i > lo {
            let mut k: usize = 0;
            let ghost o0 = out@;
            while k < sep.len()
                invariant
                    k <= sep.len(),
                    out@ == o0 + sep@.take(k as int),
                decreases sep.len() - k,
            {
                out.push(sep[k]);
                k = k + 1;
                assert(out@ =~= o0 + sep@.take(k as int));
            }
            assert(sep@.take(sep@.len() as int) =~= sep@);
        }
        let line = &parts[i];
        let mut k: usize = 0;
        let ghost o1 = out@;
        while k < line.len()
            invariant
                k <= line.len(),
                out@ == o1 + line@.take(k as int),
            decreases line.len() - k,
        {
            out.push(line[k]);
            k = k + 1;
            assert(out@ =~= o1 + line@.take(k as int));
        }
        assert(line@.take(line@.len() as int) =~= line@);
        i = i + 1;
    }
    out
}

/// What `u64::from_str` reads from `v`.
pub fn parse_u64_exec(v: &Vec<char>) -> (r: Option<u64>)
    ensures
        r == parse_u64(v@),
{
    let mut i: usize = 0;
    if v.len() > 0 && v[0] == '+' {
        i = 1;
    }
    let ghost d = if v@.len() > 0 && v@[0] == '+' {
        v@.drop_first()
    } else {
        v@
    };
    assert(d =~= v@.subrange(i as int, v@.len() as int));
    if i >= v.len() {
        return None;
    }
    let st = i;
    let mut value: u64 = 0;
    assert(d.take(0) =~= Seq::<char>::empty());
    while i < v.len()
        invariant
            st <= i <= v.len(),
            st < v.len(),
            d == v@.subrange(st as int, v@.len() as int),
            d == (if v@.len() > 0 && v@[0] == '+' {
                v@.drop_first()
            } else {
                v@
            }),
            all_digits(d.take(i - st)),
            value == digits_value(d.take(i - st)),
        decreases v.len() - i,
    {
        let c = v[i];
        if !('0' <= c && c <= '9') {
            assert(d[i - st] == c);
            assert(!is_ascii_digit(d[i - st]));
            assert(!all_digits(d));
            return None;
        }
        let dv = (c as u32 - '0' as u32) as u64;
        assert(d.take(i - st + 1).drop_last() =~= d.take(i - st));
        assert(d.take(i - st + 1).last() == c);
        assert(digit_value(c) == dv);
        assert(digits_value(d.take(i - st + 1)) == value * 10 + dv);
        let ghost nt = d.take(i - st + 1);
        assert(all_digits(nt)) by {
            assert forall|q: int| 0 <= q < nt.len() implies is_ascii_digit(#[trigger] nt[q]) by {
                if q < i - st {
                    assert(nt[q] == d.take(i - st)[q]);
                }
            }
        }
        if value > (u64::MAX - dv) / 10 {
            proof {
                assert(value * 10 + dv > u64::MAX) by (nonlinear_arith)
                    requires
                        value > (u64::MAX - dv) / 10,
                        dv <= 9,
                ;
                if all_digits(d) {
                    lemma_digits_value_mono(d, i - st + 1, d.len() as int);
                    assert(d.take(d.len() as int) =~= d);
                    assert(digits_value(d) > u64::MAX);
                }
            }
            return None;
        }
        value = value * 10 + dv;
        i = i + 1;
    }
    assert(d.take(i - st) =~= d);
    Some(value)
}

/// A digit as a character.
fn digit_to_char(d: u64) -> (c: char)
    requires
        d < 10,
    ensures
        c == digit_char(d as nat),
{
    ((d as u8) + 48u8) as char
}

/// The decimal representation of `n`.
pub fn decimal_chars(n: u64) -> (v: Vec<char>)
    ensures
        v@ == decimal(n as nat),
    decreases n,
{
    if n < 10 {
        let v = vec![digit_to_char(n)];
        assert(v@ =~= decimal(n as nat));
        v
    } else {
        let mut v = decimal_chars(n / 10);
        v.push(digit_to_char(n % 10));
        v
    }
}

/// The decimal representation of `n`, as a `String`.
pub fn decimal_string(n: u64) -> (s: String)
    ensures
        s@ == decimal(n as nat),
{
    string_of(&decimal_chars(n))
}

/// `a` followed by `b`.
pub fn concat(a: &Vec<char>, b: &Vec<char>) -> (r: Vec<char>)
    ensures
        r@ == a@ + b@,
{
    let mut r = slice_of(a, 0, a.len());
    assert(a@.subrange(0, a@.len() as int) =~= a@);
    let mut i: usize = 0;
    while i < b.len()
        invariant
            i <= b.len(),
            r@ == a@ + b@.take(i as int),
        decreases b.len() - i,
    {
        r.push(b[i]);
        i = i + 1;
        assert(r@ =~= a@ + b@.take(i as int));
    }
    assert(b@.take(b@.len() as int) =~= b@);
    r
}

/// Whether `a` and `b` hold the same characters.
pub fn chars_eq(a: &Vec<char>, b: &Vec<char>) -> (r: bool)
    ensures
        r == (a@ == b@),
{
    if a.len() != b.len() {
        return false;
    }
    let mut i: usize = 0;
    while i < a.len()
        invariant
            i <= a.len() == b.len(),
            forall|k: int| 0 <= k < i ==> a@[k] == b@[k],
        decreases a.len() - i,
    {
        if a[i] != b[i] {
            return false;
        }
        i = i + 1;
    }
    assert(a@ =~= b@);
    true
}

} // verus!
