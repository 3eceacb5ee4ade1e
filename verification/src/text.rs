//! Character-level helpers shared by the parser and the shell.
use vstd::prelude::*;

verus! {

/// Appends one character to `s` (std's `String::push`).
#[verifier::external_body]
pub(crate) fn push_char(s: &mut String, c: char)
    ensures
        final(s)@ == old(s)@.push(c),
{
    s.push(c);
}

/// The characters of `s`, in order.
pub fn to_chars(s: &str) -> (r: Vec<char>)
    ensures
        r@ == s@,
{
    let mut r: Vec<char> = Vec::new();
    for c in it: s.chars()
        invariant
            r@ == it.seq().take(it.index() as int),
            it.seq() == s@,
    {
        r.push(c);
    }
    r
}

/// A `String` holding exactly the characters of `cs`.
pub fn from_chars(cs: &[char]) -> (r: String)
    ensures
        r@ == cs@,
{
    let mut r = String::new();
    let mut i: usize = 0;
    while i < cs.len()
        invariant
            i <= cs@.len(),
            r@ == cs@.take(i as int),
        decreases cs@.len() - i,
    {
        push_char(&mut r, cs[i]);
        i = i + 1;
        assert(r@ == cs@.take(i as int));
    }
    assert(cs@.take(cs@.len() as int) == cs@);
    r
}


/// The Unicode `White_Space` property, the set of characters that
/// `char::is_whitespace` accepts.
pub open spec fn spec_is_whitespace(c: char) -> bool {
    ||| ('\u{9}' <= c && c <= '\u{d}')
    ||| c == ' '
    ||| c == '\u{85}'
    ||| c == '\u{a0}'
    ||| c == '\u{1680}'
    ||| ('\u{2000}' <= c && c <= '\u{200a}')
    ||| c == '\u{2028}'
    ||| c == '\u{2029}'
    ||| c == '\u{202f}'
    ||| c == '\u{205f}'
    ||| c == '\u{3000}'
}

/// Whether `c` is white space in the Unicode sense.
pub fn is_whitespace(c: char) -> (r: bool)
    ensures
        r == spec_is_whitespace(c),
{
    ('\u{9}' <= c && c <= '\u{d}') || c == ' ' || c == '\u{85}' || c == '\u{a0}' || c == '\u{1680}'
        || ('\u{2000}' <= c && c <= '\u{200a}') || c == '\u{2028}' || c == '\u{2029}'
        || c == '\u{202f}' || c == '\u{205f}' || c == '\u{3000}'
}

/// Whether two strings hold the same characters.
pub fn str_eq(a: &str, b: &str) -> (r: bool)
    ensures
        r == (a@ == b@),
{
    let x = to_chars(a);
    let y = to_chars(b);
    if x.len() != y.len() {
        return false;
    }
    let mut i: usize = 0;
    while i < x.len()
        invariant
            x@ == a@,
            y@ == b@,
            x@.len() == y@.len(),
            i <= x@.len(),
            forall|j: int| 0 <= j < i ==> x@[j] == y@[j],
        decreases x@.len() - i,
    {
        if x[i] != y[i] {
            return false;
        }
        i = i + 1;
    }
    assert(x@ =~= y@);
    true
}


/// The position of the first occurrence of `pat` in `s`.
pub open spec fn index_of(s: Seq<char>, pat: Seq<char>) -> Option<nat>
    decreases s.len(),
{
    if s.len() < pat.len() {
        None
    } else if s.take(pat.len() as int) == pat {
        Some(0)
    } else if s.len() == 0 {
        None
    } else {
        match index_of(s.drop_first(), pat) {
            Some(i) => Some(i + 1),
            None => None,
        }
    }
}

/// `pat` occurs in `s` at position `j`.
pub open spec fn matches_at(s: Seq<char>, pat: Seq<char>, j: int) -> bool {
    s.subrange(j, j + pat.len()) == pat
}

/// `pat` occurs somewhere in `s`.
pub open spec fn spec_contains(s: Seq<char>, pat: Seq<char>) -> bool {
    index_of(s, pat) is Some
}

/// A found occurrence lies inside `s`, matches there, and no earlier one does.
pub proof fn lemma_index_of(s: Seq<char>, pat: Seq<char>)
    ensures
        index_of(s, pat) matches Some(i) ==> {
            &&& i + pat.len() <= s.len()
            &&& matches_at(s, pat, i as int)
            &&& forall|j: int| 0 <= j < i ==> !#[trigger] matches_at(s, pat, j)
        },
        index_of(s, pat) is None ==> forall|j: int|
            0 <= j && j + pat.len() <= s.len() ==> !#[trigger] matches_at(s, pat, j),
    decreases s.len(),
{
    if s.len() < pat.len() {
    } else if s.take(pat.len() as int) == pat {
    } else if s.len() == 0 {
    } else {
        lemma_index_of(s.drop_first(), pat);
        let t = s.drop_first();
        assert forall|j: int| 0 <= j && j + pat.len() <= s.len() && (index_of(s, pat) is None
            || j < index_of(s, pat)->0) implies !matches_at(s, pat, j) by {
            if j == 0 {
                assert(s.subrange(0, pat.len() as int) == s.take(pat.len() as int));
            } else {
                assert(s.subrange(j, j + pat.len()) =~= t.subrange(j - 1, j - 1 + pat.len()));
                assert(!matches_at(t, pat, j - 1));
            }
        }
        if let Some(i) = index_of(t, pat) {
            assert(s.subrange(i + 1 as int, i + 1 + pat.len() as int) =~= t.subrange(
                i as int,
                i + pat.len() as int,
            ));
            assert(matches_at(t, pat, i as int));
        }
    }
}

/// The pieces of `s` between the non-overlapping occurrences of `pat`,
/// found from left to right (`str::split`).
pub open spec fn split_by(s: Seq<char>, pat: Seq<char>) -> Seq<Seq<char>>
    decreases s.len(),
{
    if pat.len() == 0 {
        seq![s]
    } else {
        match index_of(s, pat) {
            None => seq![s],
            Some(i) => {
                proof {
                    lemma_index_of(s, pat);
                }
                seq![s.take(i as int)] + split_by(s.skip(i + pat.len() as int), pat)
            },
        }
    }
}

/// Matching in a suffix is matching in the whole, shifted.
pub proof fn lemma_matches_at_skip(s: Seq<char>, pat: Seq<char>, from: int, j: int)
    requires
        0 <= from <= s.len(),
        0 <= j,
        j + pat.len() <= s.len() - from,
    ensures
        matches_at(s.skip(from), pat, j) == matches_at(s, pat, from + j),
{
    assert(s.skip(from).subrange(j, j + pat.len()) =~= s.subrange(from + j, from + j + pat.len()));
}

/// The first occurrence of `pat` in `s[from..]`, as a position in `s`.
pub fn find_from(s: &[char], pat: &[char], from: usize) -> (r: Option<usize>)
    requires
        from <= s@.len(),
    ensures
        match index_of(s@.skip(from as int), pat@) {
            Some(i) => r == Some((from + i) as usize),
            None => r is None,
        },
{
    let ghost t = s@.skip(from as int);
    proof {
        lemma_index_of(t, pat@);
    }
    let n = s.len();
    let m = pat.len();
    if n - from < m {
        return None;
    }
    let mut i: usize = from;
    while i <= n - m
        invariant
            from <= i,
            n == s@.len(),
            m == pat@.len(),
            from + m <= n,
            t == s@.skip(from as int),
            forall|j: int| from <= j < i ==> !#[trigger] matches_at(s@, pat@, j),
        decreases n - i,
    {
        let mut k: usize = 0;
        while k < m && s[i + k] == pat[k]
            invariant
                k <= m,
                i + m <= n,
                n == s@.len(),
                m == pat@.len(),
                forall|j: int| 0 <= j < k ==> s@[i + j] == pat@[j],
            decreases m - k,
        {
            k = k + 1;
        }
        if k == m {
            assert(s@.subrange(i as int, i + m) =~= pat@);
            proof {
                lemma_index_of(t, pat@);
                lemma_matches_at_skip(s@, pat@, from as int, i - from);
                assert(matches_at(t, pat@, i - from));
                if let Some(kk) = index_of(t, pat@) {
                    if kk < i - from {
                        lemma_matches_at_skip(s@, pat@, from as int, kk as int);
                    }
                }
            }
            return Some(i);
        }
        assert(s@.subrange(i as int, i + m)[k as int] != pat@[k as int]);
        i = i + 1;
    }
    proof {
        if let Some(kk) = index_of(t, pat@) {
            lemma_matches_at_skip(s@, pat@, from as int, kk as int);
        }
    }
    None
}


/// The characters `s[from..to]`.
pub fn copy_range(s: &[char], from: usize, to: usize) -> (r: Vec<char>)
    requires
        from <= to <= s@.len(),
    ensures
        r@ == s@.subrange(from as int, to as int),
{
    let mut r: Vec<char> = Vec::new();
    let mut i: usize = from;
    while i < to
        invariant
            from <= i <= to,
            to <= s@.len(),
            r@ == s@.subrange(from as int, i as int),
        decreases to - i,
    {
        r.push(s[i]);
        i = i + 1;
        assert(r@ =~= s@.subrange(from as int, i as int));
    }
    r
}

/// Appends the characters of `t` to `r`.
pub fn extend_chars(r: &mut Vec<char>, t: &[char])
    ensures
        final(r)@ == old(r)@ + t@,
{
    let mut i: usize = 0;
    while i < t.len()
        invariant
            i <= t@.len(),
            r@ == old(r)@ + t@.take(i as int),
        decreases t@.len() - i,
    {
        r.push(t[i]);
        i = i + 1;
        assert(r@ =~= old(r)@ + t@.take(i as int));
    }
    assert(t@.take(t@.len() as int) =~= t@);
}

/// The character sequences held by a vector of character vectors.
pub open spec fn rows(v: Seq<Vec<char>>) -> Seq<Seq<char>> {
    v.map_values(|r: Vec<char>| r@)
}

/// The pieces of `s` between the occurrences of `pat` (`str::split`).
pub fn split_chars(s: &[char], pat: &[char]) -> (r: Vec<Vec<char>>)
    requires
        pat@.len() > 0,
    ensures
        rows(r@) == split_by(s@, pat@),
{
    let n = s.len();
    let m = pat.len();
    let mut pieces: Vec<Vec<char>> = Vec::new();
    let mut p: usize = 0;
    assert(s@.skip(0) =~= s@);
    loop
        invariant
            p <= n,
            n == s@.len(),
            m == pat@.len(),
            m > 0,
            rows(pieces@) + split_by(s@.skip(p as int), pat@) == split_by(s@, pat@),
        decreases n - p,
    {
        let ghost rest = s@.skip(p as int);
        let ghost before = rows(pieces@);
        proof {
            lemma_index_of(rest, pat@);
        }
        match find_from(s, pat, p) {
            Some(q) => {
                let piece = copy_range(s, p, q);
                pieces.push(piece);
                assert(rows(pieces@) =~= before.push(s@.subrange(p as int, q as int)));
                assert(rest.take(q - p) =~= s@.subrange(p as int, q as int));
                assert(rest.skip(q - p + m) =~= s@.skip(q + m));
                assert(before.push(s@.subrange(p as int, q as int)) + split_by(s@.skip(q + m), pat@)
                    =~= before + (seq![rest.take(q - p)] + split_by(rest.skip(q - p + m), pat@)));
                p = q + m;
            },
            None => {
                let piece = copy_range(s, p, n);
                pieces.push(piece);
                assert(rows(pieces@) =~= before.push(rest));
                assert(before.push(rest) =~= before + seq![rest]);
                return pieces;
            },
        }
    }
}


/// Appends the characters of `t` to `r`.
pub fn append_str(r: &mut Vec<char>, t: &str)
    ensures
        final(r)@ == old(r)@ + t@,
{
    let c = to_chars(t);
    extend_chars(r, c.as_slice());
}

/// The character for a decimal digit.
pub open spec fn digit_char(d: nat) -> char {
    (d + 48) as char
}

/// The decimal digits of `n`, most significant first, without leading zeros.
pub open spec fn decimal(n: nat) -> Seq<char>
    decreases n,
{
    if n < 10 {
        seq![digit_char(n)]
    } else {
        decimal(n / 10).push(digit_char(n % 10))
    }
}

/// Appends the decimal digits of `n` to `out`.
pub fn push_decimal(out: &mut Vec<char>, n: usize)
    ensures
        final(out)@ == old(out)@ + decimal(n as nat),
    decreases n,
{
    if n >= 10 {
        push_decimal(out, n / 10);
    }
    let d: u8 = (n % 10) as u8;
    let c: char = (d + 48u8) as char;
    out.push(c);
    assert(c == digit_char((n % 10) as nat));
    if n >= 10 {
        assert(out@ =~= old(out)@ + decimal(n as nat));
    } else {
        assert(out@ =~= old(out)@ + decimal(n as nat));
    }
}

/// `c` is an ASCII decimal digit (`char::is_digit(10)`).
pub open spec fn is_decimal_digit(c: char) -> bool {
    '0' <= c && c <= '9'
}

/// The number that a string of decimal digits denotes.
pub open spec fn digits_value(s: Seq<char>) -> nat
    decreases s.len(),
{
    if s.len() == 0 {
        0
    } else {
        digits_value(s.drop_last()) * 10 + (s.last() as nat - 48) as nat
    }
}

/// Every character of `d` is a decimal digit.
pub open spec fn all_digits(d: Seq<char>) -> bool {
    forall|i: int| 0 <= i < d.len() ==> is_decimal_digit(#[trigger] d[i])
}

/// `s` without one leading `+`.
pub open spec fn unsigned_part(s: Seq<char>) -> Seq<char> {
    if s.len() > 0 && s[0] == '+' {
        s.drop_first()
    } else {
        s
    }
}

/// What `str::parse::<usize>` gives: an optional `+` then one or more
/// decimal digits whose value fits in a `usize`; otherwise nothing.
pub open spec fn spec_parse_usize(s: Seq<char>) -> Option<nat> {
    let d = unsigned_part(s);
    if d.len() > 0 && all_digits(d) && digits_value(d) <= usize::MAX {
        Some(digits_value(d))
    } else {
        None
    }
}

/// A longer digit string never has a smaller value.
pub proof fn lemma_digits_value_grows(s: Seq<char>, k: int)
    requires
        0 <= k <= s.len(),
        forall|i: int| 0 <= i < s.len() ==> is_decimal_digit(#[trigger] s[i]),
    ensures
        digits_value(s.take(k)) <= digits_value(s),
    decreases s.len() - k,
{
    if k < s.len() {
        lemma_digits_value_grows(s, k + 1);
        assert(s.take(k + 1).drop_last() =~= s.take(k));
    } else {
        assert(s.take(k) =~= s);
    }
}

/// Parses a decimal `usize` as `str::parse::<usize>` does.
pub fn parse_usize(s: &str) -> (r: Option<usize>)
    ensures
        match spec_parse_usize(s@) {
            Some(v) => r == Some(v as usize),
            None => r is None,
        },
{
    let c = to_chars(s);
    let start: usize = if c.len() > 0 && c[0] == '+' { 1 } else { 0 };
    let ghost d = unsigned_part(s@);
    assert(d =~= c@.skip(start as int));
    if start == c.len() {
        return None;
    }
    let mut i: usize = start;
    while i < c.len()
        invariant
            start <= i <= c@.len(),
            c@ == s@,
            start < c@.len(),
            start == 1 <==> (s@.len() > 0 && s@[0] == '+'),
            d == unsigned_part(s@),
            d == c@.skip(start as int),
            forall|j: int| 0 <= j < i - start ==> is_decimal_digit(#[trigger] d[j]),
        decreases c@.len() - i,
    {
        if !('0' <= c[i] && c[i] <= '9') {
            assert(!is_decimal_digit(d[i - start]));
            assert(!all_digits(d));
            return None;
        }
        i = i + 1;
    }
    let mut value: usize = 0;
    let mut i: usize = start;
    assert(d.take(0) =~= Seq::<char>::empty());
    while i < c.len()
        invariant
            start <= i <= c@.len(),
            c@ == s@,
            start < c@.len(),
            d == unsigned_part(s@),
            d == c@.skip(start as int),
            forall|j: int| 0 <= j < d.len() ==> is_decimal_digit(#[trigger] d[j]),
            value == digits_value(d.take(i - start)),
        decreases c@.len() - i,
    {
        let k = i - start;
        assert(d.take(k + 1).drop_last() =~= d.take(k as int));
        assert(d[k as int] == c@[i as int]);
        assert(is_decimal_digit(d[k as int]));
        let digit: usize = (c[i] as u32 - 48) as usize;
        match value.checked_mul(10) {
            Some(t) => match t.checked_add(digit) {
                Some(v) => {
                    value = v;
                },
                None => {
                    proof {
                        lemma_digits_value_grows(d, k + 1);
                    }
                    return None;
                },
            },
            None => {
                proof {
                    lemma_digits_value_grows(d, k + 1);
                    assert(digits_value(d.take(k + 1)) >= value * 10) by (nonlinear_arith)
                        requires
                            digits_value(d.take(k + 1)) == value * 10 + (d[k as int] as nat - 48) as nat,
                    ;
                }
                return None;
            },
        }
        i = i + 1;
    }
    assert(d.take(i - start) =~= d);
    Some(value)
}

/// `s` with every trailing copy of `suffix` removed (`str::trim_end_matches`).
pub open spec fn trim_end_all(s: Seq<char>, suffix: Seq<char>) -> Seq<char>
    decreases s.len(),
{
    if suffix.len() > 0 && suffix.len() <= s.len() && s.skip(s.len() - suffix.len()) == suffix {
        trim_end_all(s.take(s.len() - suffix.len()), suffix)
    } else {
        s
    }
}

/// Removes every trailing copy of `suffix` from `s`.
pub fn trim_end_matches(s: &[char], suffix: &[char]) -> (r: Vec<char>)
    ensures
        r@ == trim_end_all(s@, suffix@),
{
    let mut end: usize = s.len();
    let m = suffix.len();
    assert(s@.take(end as int) =~= s@);
    loop
        invariant
            end <= s@.len(),
            m == suffix@.len(),
            trim_end_all(s@.take(end as int), suffix@) == trim_end_all(s@, suffix@),
        ensures
            trim_end_all(s@.take(end as int), suffix@) == s@.take(end as int),
        decreases end,
    {
        if m == 0 || m > end {
            break;
        }
        let mut k: usize = 0;
        while k < m && s[end - m + k] == suffix[k]
            invariant
                k <= m,
                m <= end <= s@.len(),
                m == suffix@.len(),
                forall|j: int| 0 <= j < k ==> s@[end - m + j] == suffix@[j],
            decreases m - k,
        {
            k = k + 1;
        }
        let ghost t = s@.take(end as int);
        if k < m {
            assert(t.skip(t.len() - m)[k as int] != suffix@[k as int]);
            break;
        }
        assert(t.skip(t.len() - m) =~= suffix@);
        assert(t.take(t.len() - m) =~= s@.take(end - m));
        end = end - m;
    }
    assert(s@.subrange(0, end as int) =~= s@.take(end as int));
    copy_range(s, 0, end)
}

/// `s` without leading and trailing white space (`str::trim`).
pub open spec fn spec_trim(s: Seq<char>) -> Seq<char> {
    if trim_start_index(s) < trim_end_index(s) {
        s.subrange(trim_start_index(s), trim_end_index(s))
    } else {
        seq![]
    }
}

/// The index of the first character that is not white space (or the length).
pub open spec fn trim_start_index(s: Seq<char>) -> int
    decreases s.len(),
{
    if s.len() == 0 {
        0
    } else if spec_is_whitespace(s[0]) {
        1 + trim_start_index(s.drop_first())
    } else {
        0
    }
}

/// One past the last character that is not white space (or zero).
pub open spec fn trim_end_index(s: Seq<char>) -> int
    decreases s.len(),
{
    if s.len() == 0 {
        0
    } else if spec_is_whitespace(s.last()) {
        trim_end_index(s.drop_last())
    } else {
        s.len() as int
    }
}


/// `s` without leading and trailing white space.
pub fn trim(s: &[char]) -> (r: Vec<char>)
    ensures
        r@ == spec_trim(s@),
{
    let n = s.len();
    let mut i: usize = 0;
    assert(s@.skip(0) =~= s@);
    while i < n && is_whitespace(s[i])
        invariant
            i <= n,
            n == s@.len(),
            trim_start_index(s@) == i + trim_start_index(s@.skip(i as int)),
        decreases n - i,
    {
        assert(s@.skip(i as int).drop_first() =~= s@.skip(i + 1));
        i = i + 1;
    }
    assert(trim_start_index(s@) == i);
    let mut j: usize = n;
    assert(s@.take(n as int) =~= s@);
    while j > 0 && is_whitespace(s[j - 1])
        invariant
            j <= n,
            n == s@.len(),
            trim_end_index(s@) == trim_end_index(s@.take(j as int)),
        decreases j,
    {
        assert(s@.take(j as int).drop_last() =~= s@.take(j - 1));
        j = j - 1;
    }
    assert(trim_end_index(s@) == j);
    if i < j {
        copy_range(s, i, j)
    } else {
        Vec::new()
    }
}


/// The words separated by `sep` (`[String]::join`).
pub open spec fn join(words: Seq<Seq<char>>, sep: Seq<char>) -> Seq<char>
    decreases words.len(),
{
    if words.len() == 0 {
        seq![]
    } else if words.len() == 1 {
        words[0]
    } else {
        join(words.drop_last(), sep) + sep + words.last()
    }
}

/// The words of `words[from..]` separated by `sep`.
pub fn join_from(words: &[String], from: usize, sep: &str) -> (r: Vec<char>)
    requires
        from <= words@.len(),
    ensures
        r@ == join(words@.skip(from as int).map_values(|w: String| w@), sep@),
{
    let ghost ws = words@.skip(from as int).map_values(|w: String| w@);
    let mut r: Vec<char> = Vec::new();
    let mut i: usize = from;
    assert(ws.take(0) =~= Seq::<Seq<char>>::empty());
    while i < words.len()
        invariant
            from <= i <= words@.len(),
            ws == words@.skip(from as int).map_values(|w: String| w@),
            r@ == join(ws.take(i - from), sep@),
        decreases words@.len() - i,
    {
        let ghost t = ws.take(i - from + 1);
        assert(t.drop_last() =~= ws.take(i - from));
        assert(t.last() == words@[i as int]@);
        if i > from {
            append_str(&mut r, sep);
        } else {
            assert(t.len() == 1);
        }
        append_str(&mut r, words[i].as_str());
        i = i + 1;
    }
    assert(ws.take(i - from) =~= ws);
    r
}

/// Whether `c` is alphabetic or numeric in the Unicode sense
/// (`char::is_alphanumeric`).
pub uninterp spec fn char_is_alphanumeric(c: char) -> bool;

/// Calls `char::is_alphanumeric`. Its result is named, not stated: it follows
/// the Unicode `Alphabetic` and `Numeric` tables.
#[verifier::external_body]
pub(crate) fn is_alphanumeric(c: char) -> (r: bool)
    ensures
        r == char_is_alphanumeric(c),
{
    c.is_alphanumeric()
}

/// An ASCII letter or digit.
pub open spec fn is_ascii_letter_or_digit(c: char) -> bool {
    ||| ('a' <= c && c <= 'z')
    ||| ('A' <= c && c <= 'Z')
    ||| ('0' <= c && c <= '9')
}

/// Whether `c` is alphanumeric: among ASCII characters exactly the letters
/// and digits (as `char::is_alphanumeric` has it there), beyond ASCII as
/// `char::is_alphanumeric` says.
pub open spec fn spec_alphanumeric(c: char) -> bool {
    if c <= '\u{7f}' {
        is_ascii_letter_or_digit(c)
    } else {
        char_is_alphanumeric(c)
    }
}

/// Whether `c` is alphanumeric; ASCII characters are decided here, others
/// by `char::is_alphanumeric`.
pub fn alphanumeric(c: char) -> (r: bool)
    ensures
        r == spec_alphanumeric(c),
{
    if c <= '\u{7f}' {
        ('a' <= c && c <= 'z') || ('A' <= c && c <= 'Z') || ('0' <= c && c <= '9')
    } else {
        is_alphanumeric(c)
    }
}

/// The concatenation of `parts`, in order.
pub open spec fn concat(parts: Seq<Seq<char>>) -> Seq<char>
    decreases parts.len(),
{
    if parts.len() == 0 {
        seq![]
    } else {
        concat(parts.drop_last()) + parts.last()
    }
}

} // verus!
