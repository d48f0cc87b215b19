//! Character-level text operations: searching, splitting, trimming and number formatting.

use crate::unicode::chars_of;
use vstd::prelude::*;

verus! {

/// Whether `c` has the Unicode `White_Space` property: the code points that the Unicode
/// Character Database lists under it.
pub open spec fn is_ws(c: char) -> bool {
    let u = c as u32;
    ||| 0x09 <= u <= 0x0d
    ||| u == 0x20
    ||| u == 0x85
    ||| u == 0xa0
    ||| u == 0x1680
    ||| 0x2000 <= u <= 0x200a
    ||| u == 0x2028
    ||| u == 0x2029
    ||| u == 0x202f
    ||| u == 0x205f
    ||| u == 0x3000
}

/// Whether `c` has the `White_Space` property: what `char::is_whitespace` answers.
pub fn char_is_whitespace(c: char) -> (r: bool)
    ensures
        r == is_ws(c),
{
    let u = c as u32;
    (0x09 <= u && u <= 0x0d) || u == 0x20 || u == 0x85 || u == 0xa0 || u == 0x1680 || (0x2000
        <= u && u <= 0x200a) || u == 0x2028 || u == 0x2029 || u == 0x202f || u == 0x205f || u
        == 0x3000
}

/// Whether `c` has the Unicode `Uppercase` property.
pub uninterp spec fn is_upper(c: char) -> bool;

/// Whether `c` has the Unicode `Lowercase` property.
pub uninterp spec fn is_lower(c: char) -> bool;

/// The first character of the upper-case mapping of `c`.
pub uninterp spec fn upper_first(c: char) -> char;

/// `char::is_uppercase`.
#[verifier::external_body]
pub(crate) fn char_is_uppercase(c: char) -> (r: bool)
    ensures
        r == is_upper(c),
{
    c.is_uppercase()
}

/// `char::is_lowercase`.
#[verifier::external_body]
pub(crate) fn char_is_lowercase(c: char) -> (r: bool)
    ensures
        r == is_lower(c),
{
    c.is_lowercase()
}

/// The first character that `char::to_uppercase` yields (it always yields at least one).
#[verifier::external_body]
pub(crate) fn char_to_uppercase_first(c: char) -> (r: char)
    ensures
        r == upper_first(c),
{
    c.to_uppercase().next().unwrap()
}

/// The index of the first occurrence of `pat` in `s`.
pub open spec fn first_match(s: Seq<char>, pat: Seq<char>) -> Option<int>
    decreases s.len(),
{
    if s.len() < pat.len() {
        None
    } else if s.take(pat.len() as int) == pat {
        Some(0)
    } else if s.len() == 0 {
        None
    } else {
        match first_match(s.drop_first(), pat) {
            Some(i) => Some(i + 1),
            None => None,
        }
    }
}

/// `s` without leading repetitions of `pat`.
pub open spec fn trim_start_str(s: Seq<char>, pat: Seq<char>) -> Seq<char>
    decreases s.len(),
{
    if pat.len() > 0 && s.len() >= pat.len() && s.take(pat.len() as int) == pat {
        trim_start_str(s.skip(pat.len() as int), pat)
    } else {
        s
    }
}

/// `s` ends with `suffix`.
pub open spec fn ends_with(s: Seq<char>, suffix: Seq<char>) -> bool {
    s.len() >= suffix.len() && s.skip(s.len() - suffix.len()) == suffix
}

/// Code-point lexicographic order, which is the order of `String`s.
pub open spec fn str_lt(a: Seq<char>, b: Seq<char>) -> bool
    decreases a.len(),
{
    if a.len() == 0 {
        b.len() > 0
    } else if b.len() == 0 {
        false
    } else if (a[0] as u32) < (b[0] as u32) {
        true
    } else if a[0] == b[0] {
        str_lt(a.drop_first(), b.drop_first())
    } else {
        false
    }
}

/// The texts that `f` gives for the items, one after another.
pub open spec fn concat_map(items: Seq<Seq<char>>, f: spec_fn(Seq<char>) -> Seq<char>) -> Seq<char>
    decreases items.len(),
{
    if items.len() == 0 {
        Seq::empty()
    } else {
        concat_map(items.drop_last(), f) + f(items.last())
    }
}

/// The index of the first `c` in `s`.
pub open spec fn first_index(s: Seq<char>, c: char) -> Option<int>
    decreases s.len(),
{
    if s.len() == 0 {
        None
    } else if s[0] == c {
        Some(0)
    } else {
        match first_index(s.drop_first(), c) {
            Some(i) => Some(i + 1),
            None => None,
        }
    }
}

/// The index of the last `c` in `s`.
pub open spec fn last_index(s: Seq<char>, c: char) -> Option<int>
    decreases s.len(),
{
    if s.len() == 0 {
        None
    } else if s.last() == c {
        Some(s.len() - 1)
    } else {
        last_index(s.drop_last(), c)
    }
}

/// The pieces of `s` between occurrences of `c` (always at least one piece).
pub open spec fn split_on(s: Seq<char>, c: char) -> Seq<Seq<char>>
    decreases s.len(),
{
    match first_index(s, c) {
        None => seq![s],
        Some(i) => {
            proof {
                lemma_first_index(s, c);
            }
            seq![s.take(i)] + split_on(s.skip(i + 1), c)
        },
    }
}

/// `s` without leading white space.
pub open spec fn trim_start(s: Seq<char>) -> Seq<char>
    decreases s.len(),
{
    if s.len() > 0 && is_ws(s[0]) {
        trim_start(s.drop_first())
    } else {
        s
    }
}

/// `s` without trailing white space.
pub open spec fn trim_end(s: Seq<char>) -> Seq<char>
    decreases s.len(),
{
    if s.len() > 0 && is_ws(s.last()) {
        trim_end(s.drop_last())
    } else {
        s
    }
}

/// `s` without leading and trailing white space.
pub open spec fn trim(s: Seq<char>) -> Seq<char> {
    trim_end(trim_start(s))
}

/// `s` without trailing occurrences of `c`.
pub open spec fn trim_end_char(s: Seq<char>, c: char) -> Seq<char>
    decreases s.len(),
{
    if s.len() > 0 && s.last() == c {
        trim_end_char(s.drop_last(), c)
    } else {
        s
    }
}

/// `s` without leading occurrences of `c`.
pub open spec fn trim_start_char(s: Seq<char>, c: char) -> Seq<char>
    decreases s.len(),
{
    if s.len() > 0 && s[0] == c {
        trim_start_char(s.drop_first(), c)
    } else {
        s
    }
}

/// The length of the leading run of characters that are not white space.
pub open spec fn word_len(s: Seq<char>) -> nat
    decreases s.len(),
{
    if s.len() == 0 || is_ws(s[0]) {
        0
    } else {
        1 + word_len(s.drop_first())
    }
}

/// The maximal runs of characters that are not white space, in order.
pub open spec fn words(s: Seq<char>) -> Seq<Seq<char>>
    decreases s.len(),
{
    let t = trim_start(s);
    proof {
        lemma_trim_start_len(s);
    }
    if t.len() == 0 {
        Seq::empty()
    } else {
        proof {
            lemma_word_len(t);
        }
        seq![t.take(word_len(t) as int)] + words(t.skip(word_len(t) as int))
    }
}

/// A line without the carriage return that preceded its newline.
pub open spec fn strip_cr(l: Seq<char>) -> Seq<char> {
    if l.len() > 0 && l.last() == '\r' {
        l.drop_last()
    } else {
        l
    }
}

/// The lines of `s`: separated by `\n` or `\r\n`, a final line ending being optional.
pub open spec fn lines_of(s: Seq<char>) -> Seq<Seq<char>>
    decreases s.len(),
{
    if s.len() == 0 {
        Seq::empty()
    } else {
        match first_index(s, '\n') {
            None => seq![s],
            Some(i) => {
                proof {
                    lemma_first_index(s, '\n');
                }
                seq![strip_cr(s.take(i))] + lines_of(s.skip(i + 1))
            },
        }
    }
}

pub open spec fn is_digit(c: char) -> bool {
    '0' <= c <= '9'
}

/// `s` without one leading `+`.
pub open spec fn unsigned_body(s: Seq<char>) -> Seq<char> {
    if s.len() > 0 && s[0] == '+' {
        s.drop_first()
    } else {
        s
    }
}

pub open spec fn all_digits(s: Seq<char>) -> bool {
    forall|i: int| 0 <= i < s.len() ==> is_digit(#[trigger] s[i])
}

/// The value of a run of decimal digits.
pub open spec fn digits_value(s: Seq<char>) -> nat
    decreases s.len(),
{
    if s.len() == 0 {
        0
    } else {
        digits_value(s.drop_last()) * 10 + (s.last() as nat - '0' as nat) as nat
    }
}

/// What `str::parse::<usize>` gives: an optional `+`, then at least one decimal digit, and the
/// value must fit in `usize`.
pub open spec fn parse_usize(s: Seq<char>) -> Option<usize> {
    let body = unsigned_body(s);
    if body.len() == 0 || !all_digits(body) {
        None
    } else if digits_value(body) > usize::MAX {
        None
    } else {
        Some(digits_value(body) as usize)
    }
}

/// The digit character for `d < 16`, lower case.
pub open spec fn digit_char(d: nat) -> char {
    if d < 10 {
        ((d + 48) as u32) as char
    } else {
        ((d + 87) as u32) as char
    }
}

/// The digits of `n` in base `b`, most significant first, without leading zeros (`0` is `"0"`).
pub open spec fn digits(n: nat, b: nat) -> Seq<char>
    decreases n,
{
    if b < 2 || n < b {
        seq![digit_char(n)]
    } else {
        proof {
            vstd::arithmetic::div_mod::lemma_div_decreases(n as int, b as int);
        }
        digits(n / b, b).push(digit_char(n % b))
    }
}

/// The decimal form of `n`.
pub open spec fn decimal(n: nat) -> Seq<char> {
    digits(n, 10)
}

pub proof fn lemma_first_index(s: Seq<char>, c: char)
    ensures
        first_index(s, c) matches Some(i) ==> 0 <= i < s.len() && s[i] == c && forall|j: int|
            0 <= j < i ==> s[j] != c,
        first_index(s, c) is None ==> forall|j: int| 0 <= j < s.len() ==> s[j] != c,
    decreases s.len(),
{
    if s.len() > 0 {
        lemma_first_index(s.drop_first(), c);
        if s[0] != c {
            assert forall|j: int| 1 <= j < s.len() implies s[j] == s.drop_first()[j - 1] by {}
        }
    }
}

pub proof fn lemma_last_index(s: Seq<char>, c: char)
    ensures
        last_index(s, c) matches Some(i) ==> 0 <= i < s.len() && s[i] == c && forall|j: int|
            i < j < s.len() ==> s[j] != c,
        last_index(s, c) is None ==> forall|j: int| 0 <= j < s.len() ==> s[j] != c,
    decreases s.len(),
{
    if s.len() > 0 {
        lemma_last_index(s.drop_last(), c);
        assert forall|j: int| 0 <= j < s.len() - 1 implies s.drop_last()[j] == s[j] by {}
    }
}

pub proof fn lemma_trim_start_len(s: Seq<char>)
    ensures
        trim_start(s).len() <= s.len(),
        trim_start(s) == s.skip(s.len() - trim_start(s).len()),
        trim_start(s).len() > 0 ==> !is_ws(trim_start(s)[0]),
    decreases s.len(),
{
    if s.len() > 0 && is_ws(s[0]) {
        lemma_trim_start_len(s.drop_first());
        assert(s.drop_first().skip(s.drop_first().len() - trim_start(s).len()) =~= s.skip(
            s.len() - trim_start(s).len(),
        ));
    } else {
        assert(s.skip(0) =~= s);
    }
}

pub proof fn lemma_word_len(s: Seq<char>)
    ensures
        word_len(s) <= s.len(),
        s.len() > 0 && !is_ws(s[0]) ==> word_len(s) > 0,
        forall|j: int| 0 <= j < word_len(s) ==> !is_ws(#[trigger] s[j]),
        word_len(s) < s.len() ==> is_ws(s[word_len(s) as int]),
    decreases s.len(),
{
    if s.len() > 0 && !is_ws(s[0]) {
        lemma_word_len(s.drop_first());
        assert forall|j: int| 0 <= j < word_len(s) implies !is_ws(#[trigger] s[j]) by {
            if j > 0 {
                assert(s[j] == s.drop_first()[j - 1]);
            }
        }
    }
}

/// Whether `a` and `b` hold the same characters.
pub fn chars_eq(a: &[char], b: &[char]) -> (r: bool)
    ensures
        r == (a@ == b@),
{
    if a.len() != b.len() {
        return false;
    }
    let mut i: usize = 0;
    while i < a.len()
        invariant
            a@.len() == b@.len(),
            i <= a@.len(),
            a@.subrange(0, i as int) == b@.subrange(0, i as int),
        decreases a@.len() - i,
    {
        if a[i] != b[i] {
            assert(a@[i as int] != b@[i as int]);
            return false;
        }
        i = i + 1;
        assert(a@.subrange(0, i as int) =~= b@.subrange(0, i as int));
    }
    assert(a@ =~= a@.subrange(0, a@.len() as int));
    assert(b@ =~= b@.subrange(0, b@.len() as int));
    true
}

/// Whether `a` holds the characters of the string `b`.
pub fn chars_eq_str(a: &[char], b: &str) -> (r: bool)
    ensures
        r == (a@ == b@),
{
    let bc = chars_of(b);
    chars_eq(a, bc.as_slice())
}

/// The index of the first `c` in `s`.
pub fn find_char(s: &[char], c: char) -> (r: Option<usize>)
    ensures
        r matches Some(i) ==> first_index(s@, c) == Some(i as int) && i < s@.len() && s@[i as int]
            == c,
        r is None ==> first_index(s@, c) is None,
{
    let mut i: usize = 0;
    while i < s.len()
        invariant
            i <= s@.len(),
            forall|j: int| 0 <= j < i ==> s@[j] != c,
        decreases s@.len() - i,
    {
        if s[i] == c {
            proof {
                lemma_first_index_is(s@, c, i as int);
            }
            return Some(i);
        }
        i = i + 1;
    }
    proof {
        lemma_first_index(s@, c);
        if first_index(s@, c) is Some {
            let k = first_index(s@, c)->Some_0;
            assert(s@[k] == c);
        }
    }
    None
}

/// The first index found is the first position holding `c`.
pub proof fn lemma_first_index_is(s: Seq<char>, c: char, i: int)
    requires
        0 <= i < s.len(),
        s[i] == c,
        forall|j: int| 0 <= j < i ==> s[j] != c,
    ensures
        first_index(s, c) == Some(i),
    decreases s.len(),
{
    if i > 0 {
        assert forall|j: int| 0 <= j < i - 1 implies s.drop_first()[j] != c by {
            assert(s.drop_first()[j] == s[j + 1]);
        }
        lemma_first_index_is(s.drop_first(), c, i - 1);
    }
}

/// The index of the last `c` in `s`.
pub fn rfind_char(s: &[char], c: char) -> (r: Option<usize>)
    ensures
        r matches Some(i) ==> last_index(s@, c) == Some(i as int) && i < s@.len(),
        r is None ==> last_index(s@, c) is None,
{
    let mut i: usize = s.len();
    assert(s@.subrange(0, s@.len() as int) =~= s@);
    while i > 0
        invariant
            i <= s@.len(),
            last_index(s@, c) == last_index(s@.subrange(0, i as int), c),
        decreases i,
    {
        let ghost prefix = s@.subrange(0, i as int);
        if s[i - 1] == c {
            return Some(i - 1);
        }
        assert(prefix.drop_last() =~= s@.subrange(0, i - 1));
        i = i - 1;
    }
    None
}

pub proof fn lemma_first_match(s: Seq<char>, pat: Seq<char>)
    ensures
        first_match(s, pat) matches Some(i) ==> 0 <= i && i + pat.len() <= s.len()
            && s.subrange(i, i + pat.len() as int) == pat,
    decreases s.len(),
{
    if s.len() >= pat.len() && s.take(pat.len() as int) != pat && s.len() > 0 {
        lemma_first_match(s.drop_first(), pat);
        if let Some(i) = first_match(s.drop_first(), pat) {
            assert(s.subrange(i + 1, i + 1 + pat.len()) =~= s.drop_first().subrange(
                i,
                i + pat.len(),
            ));
        }
    }
}

/// The index of the first occurrence of `pat` in `s`.
pub fn find_sub(s: &[char], pat: &str) -> (r: Option<usize>)
    ensures
        r matches Some(i) ==> first_match(s@, pat@) == Some(i as int) && i + pat@.len() <= s@.len(),
        r is None ==> first_match(s@, pat@) is None,
{
    let p = chars_of(pat);
    let n = s.len();
    let m = p.len();
    let mut i: usize = 0;
    assert(s@.skip(0) =~= s@);
    while i < n
        invariant
            i <= n,
            n == s@.len(),
            m == p@.len(),
            p@ == pat@,
            first_match(s@, pat@) == match first_match(s@.skip(i as int), pat@) {
                Some(k) => Some(k + i),
                None => None::<int>,
            },
        decreases n - i,
    {
        let ghost rest = s@.skip(i as int);
        if n - i < m {
            return None;
        }
        let window = copy_range(s, i, i + m);
        assert(rest.take(m as int) =~= window@);
        if chars_eq(window.as_slice(), p.as_slice()) {
            return Some(i);
        }
        assert(rest.drop_first() =~= s@.skip(i + 1));
        i = i + 1;
    }
    if m == 0 {
        assert(s@.skip(n as int).take(0) =~= pat@);
        return Some(n);
    }
    None
}

pub proof fn lemma_str_lt_irreflexive(a: Seq<char>)
    ensures
        !str_lt(a, a),
    decreases a.len(),
{
    if a.len() > 0 {
        lemma_str_lt_irreflexive(a.drop_first());
    }
}

pub proof fn lemma_str_lt_transitive(a: Seq<char>, b: Seq<char>, c: Seq<char>)
    requires
        str_lt(a, b),
        str_lt(b, c),
    ensures
        str_lt(a, c),
    decreases a.len(),
{
    if a.len() > 0 && b.len() > 0 && c.len() > 0 && a[0] == b[0] && b[0] == c[0] {
        lemma_str_lt_transitive(a.drop_first(), b.drop_first(), c.drop_first());
    }
    vstd::utf8::char_u32_cast(a.first(), a.first() as u32);
}

pub proof fn lemma_str_lt_total(a: Seq<char>, b: Seq<char>)
    ensures
        str_lt(a, b) || str_lt(b, a) || a == b,
    decreases a.len(),
{
    if a.len() > 0 && b.len() > 0 {
        if a[0] == b[0] {
            lemma_str_lt_total(a.drop_first(), b.drop_first());
            if a.drop_first() == b.drop_first() {
                assert(a =~= seq![a[0]] + a.drop_first());
                assert(b =~= seq![b[0]] + b.drop_first());
            }
        } else {
            vstd::utf8::char_u32_cast(a[0], a[0] as u32);
            vstd::utf8::char_u32_cast(b[0], b[0] as u32);
        }
    } else if a.len() == 0 && b.len() == 0 {
        assert(a =~= b);
    }
}

/// Whether `a` comes before `b` in code-point order.
pub fn chars_lt(a: &[char], b: &[char]) -> (r: bool)
    ensures
        r == str_lt(a@, b@),
{
    let mut i: usize = 0;
    assert(a@.skip(0) =~= a@);
    assert(b@.skip(0) =~= b@);
    while i < a.len() && i < b.len()
        invariant
            i <= a@.len(),
            i <= b@.len(),
            str_lt(a@, b@) == str_lt(a@.skip(i as int), b@.skip(i as int)),
        decreases a@.len() - i,
    {
        if (a[i] as u32) < (b[i] as u32) {
            return true;
        }
        if a[i] != b[i] {
            return false;
        }
        assert(a@.skip(i as int).drop_first() =~= a@.skip(i + 1));
        assert(b@.skip(i as int).drop_first() =~= b@.skip(i + 1));
        i = i + 1;
    }
    i < b.len()
}

/// Whether `s` starts with `pat`.
pub fn starts_with_str(s: &[char], pat: &str) -> (r: bool)
    ensures
        r == (s@.len() >= pat@.len() && s@.take(pat@.len() as int) == pat@),
{
    let p = chars_of(pat);
    if s.len() < p.len() {
        return false;
    }
    let head = copy_range(s, 0, p.len());
    assert(head@ =~= s@.take(p@.len() as int));
    chars_eq(head.as_slice(), p.as_slice())
}

/// `s` without leading repetitions of `pat`.
pub fn trim_start_matches_str(s: &[char], pat: &str) -> (r: Vec<char>)
    ensures
        r@ == trim_start_str(s@, pat@),
{
    let m = chars_of(pat).len();
    let mut start: usize = 0;
    assert(s@.skip(0) =~= s@);
    loop
        invariant
            start <= s@.len(),
            m == pat@.len(),
            trim_start_str(s@, pat@) == trim_start_str(s@.skip(start as int), pat@),
        decreases s@.len() - start,
    {
        let rest = copy_range(s, start, s.len());
        assert(rest@ =~= s@.skip(start as int));
        if m > 0 && starts_with_str(rest.as_slice(), pat) {
            assert(rest@.skip(m as int) =~= s@.skip(start + m));
            start = start + m;
        } else {
            return rest;
        }
    }
}

/// `s` without the suffix `suffix`, if it ends with it.
pub fn strip_suffix_str(s: &[char], suffix: &str) -> (r: Option<Vec<char>>)
    ensures
        ends_with(s@, suffix@) ==> (r matches Some(t) && t@ == s@.take(s@.len() - suffix@.len())),
        !ends_with(s@, suffix@) ==> r is None,
{
    let p = chars_of(suffix);
    if s.len() < p.len() {
        return None;
    }
    let cut = s.len() - p.len();
    let tail = copy_range(s, cut, s.len());
    assert(tail@ =~= s@.skip(cut as int));
    if chars_eq(tail.as_slice(), p.as_slice()) {
        let head = copy_range(s, 0, cut);
        assert(head@ =~= s@.take(cut as int));
        Some(head)
    } else {
        None
    }
}

/// Whether `c` occurs in `s`.
pub fn contains_char(s: &[char], c: char) -> (r: bool)
    ensures
        r == (first_index(s@, c) is Some),
{
    find_char(s, c).is_some()
}

/// A copy of `s[from..to]`.
pub fn copy_range(s: &[char], from: usize, to: usize) -> (r: Vec<char>)
    requires
        from <= to <= s@.len(),
    ensures
        r@ == s@.subrange(from as int, to as int),
{
    let mut out: Vec<char> = Vec::new();
    let mut i: usize = from;
    while i < to
        invariant
            from <= i <= to,
            to <= s@.len(),
            out@ == s@.subrange(from as int, i as int),
        decreases to - i,
    {
        out.push(s[i]);
        i = i + 1;
        assert(out@ =~= s@.subrange(from as int, i as int));
    }
    out
}

/// Appends the characters of `s`.
pub fn push_str(out: &mut Vec<char>, s: &str)
    ensures
        final(out)@ == old(out)@ + s@,
{
    let mut chars = chars_of(s);
    out.append(&mut chars);
}

/// Appends the characters `s`.
pub fn push_chars(out: &mut Vec<char>, s: &[char])
    ensures
        final(out)@ == old(out)@ + s@,
{
    let ghost start = out@;
    let mut i: usize = 0;
    while i < s.len()
        invariant
            i <= s@.len(),
            out@ == start + s@.subrange(0, i as int),
        decreases s@.len() - i,
    {
        out.push(s[i]);
        i = i + 1;
        assert(out@ =~= start + s@.subrange(0, i as int));
    }
    assert(s@.subrange(0, s@.len() as int) =~= s@);
}

/// `s` without leading and trailing white space.
pub fn trim_chars(s: &[char]) -> (r: Vec<char>)
    ensures
        r@ == trim(s@),
{
    let mut start: usize = 0;
    assert(s@.skip(0) =~= s@);
    while start < s.len() && char_is_whitespace(s[start])
        invariant
            start <= s@.len(),
            trim_start(s@) == trim_start(s@.skip(start as int)),
        decreases s@.len() - start,
    {
        assert(s@.skip(start as int).drop_first() =~= s@.skip(start + 1));
        start = start + 1;
    }
    assert(trim_start(s@.skip(start as int)) == s@.skip(start as int));
    let mut end: usize = s.len();
    while end > start && char_is_whitespace(s[end - 1])
        invariant
            start <= end <= s@.len(),
            trim(s@) == trim_end(s@.subrange(start as int, end as int)),
        decreases end,
    {
        assert(s@.subrange(start as int, end as int).drop_last() =~= s@.subrange(
            start as int,
            end - 1,
        ));
        end = end - 1;
    }
    copy_range(s, start, end)
}

/// `s` without trailing occurrences of `c`.
pub fn trim_end_matches(s: &[char], c: char) -> (r: Vec<char>)
    ensures
        r@ == trim_end_char(s@, c),
{
    let mut end: usize = s.len();
    assert(s@.subrange(0, s@.len() as int) =~= s@);
    while end > 0 && s[end - 1] == c
        invariant
            end <= s@.len(),
            trim_end_char(s@, c) == trim_end_char(s@.subrange(0, end as int), c),
        decreases end,
    {
        assert(s@.subrange(0, end as int).drop_last() =~= s@.subrange(0, end - 1));
        end = end - 1;
    }
    assert(s@.subrange(0, end as int) =~= trim_end_char(s@, c));
    copy_range(s, 0, end)
}

/// `s` without leading and trailing occurrences of `c`.
pub fn trim_matches(s: &[char], c: char) -> (r: Vec<char>)
    ensures
        r@ == trim_end_char(trim_start_char(s@, c), c),
{
    let mut start: usize = 0;
    assert(s@.skip(0) =~= s@);
    while start < s.len() && s[start] == c
        invariant
            start <= s@.len(),
            trim_start_char(s@, c) == trim_start_char(s@.skip(start as int), c),
        decreases s@.len() - start,
    {
        assert(s@.skip(start as int).drop_first() =~= s@.skip(start + 1));
        start = start + 1;
    }
    assert(trim_start_char(s@.skip(start as int), c) == s@.skip(start as int));
    let rest = copy_range(s, start, s.len());
    assert(rest@ =~= s@.skip(start as int));
    trim_end_matches(rest.as_slice(), c)
}

/// `s` without leading occurrences of `c`.
pub fn trim_matches_start(s: &[char], c: char) -> (r: Vec<char>)
    ensures
        r@ == trim_start_char(s@, c),
{
    let mut start: usize = 0;
    assert(s@.skip(0) =~= s@);
    while start < s.len() && s[start] == c
        invariant
            start <= s@.len(),
            trim_start_char(s@, c) == trim_start_char(s@.skip(start as int), c),
        decreases s@.len() - start,
    {
        assert(s@.skip(start as int).drop_first() =~= s@.skip(start + 1));
        start = start + 1;
    }
    let rest = copy_range(s, start, s.len());
    assert(rest@ =~= s@.skip(start as int));
    rest
}

/// The pieces of `s` between occurrences of `c`.
pub fn split_char(s: &[char], c: char) -> (r: Vec<Vec<char>>)
    ensures
        r@.len() == split_on(s@, c).len(),
        forall|i: int| 0 <= i < r@.len() ==> (#[trigger] r@[i])@ == split_on(s@, c)[i],
{
    let mut out: Vec<Vec<char>> = Vec::new();
    let mut start: usize = 0;
    let mut i: usize = 0;
    let ghost mut done: Seq<Seq<char>> = Seq::empty();
    assert(s@.skip(0) =~= s@);
    assert(done + split_on(s@, '\n') =~= split_on(s@, '\n'));
    assert(done + words(s@) =~= words(s@));
    assert(done + lines_of(s@) =~= lines_of(s@));
    assert(forall|c: char| done + split_on(s@, c) =~= split_on(s@, c));
    while i < s.len()
        invariant
            start <= i <= s@.len(),
            forall|j: int| start <= j < i ==> s@[j] != c,
            split_on(s@, c) == done + split_on(s@.skip(start as int), c),
            out@.len() == done.len(),
            forall|k: int| 0 <= k < out@.len() ==> (#[trigger] out@[k])@ == done[k],
        decreases s@.len() - i,
    {
        if s[i] == c {
            let piece = copy_range(s, start, i);
            proof {
                let rest = s@.skip(start as int);
                lemma_first_index_is(rest, c, i - start);
                assert(rest.take(i - start) =~= s@.subrange(start as int, i as int));
                assert(rest.skip(i - start + 1) =~= s@.skip(i + 1));
                done = done.push(piece@);
                assert(split_on(s@, c) =~= done + split_on(s@.skip(i + 1), c));
            }
            out.push(piece);
            start = i + 1;
        }
        i = i + 1;
    }
    let piece = copy_range(s, start, s.len());
    proof {
        let rest = s@.skip(start as int);
        lemma_first_index(rest, c);
        if first_index(rest, c) is Some {
            let k = first_index(rest, c)->Some_0;
            assert(rest[k] == s@[start + k]);
        }
        assert(piece@ =~= rest);
        done = done.push(piece@);
        assert(split_on(s@, c) =~= done);
    }
    out.push(piece);
    out
}

/// The maximal runs of characters of `s` that are not white space.
pub fn split_whitespace(s: &[char]) -> (r: Vec<Vec<char>>)
    ensures
        r@.len() == words(s@).len(),
        forall|i: int| 0 <= i < r@.len() ==> (#[trigger] r@[i])@ == words(s@)[i],
{
    let mut out: Vec<Vec<char>> = Vec::new();
    let mut i: usize = 0;
    let ghost mut done: Seq<Seq<char>> = Seq::empty();
    assert(s@.skip(0) =~= s@);
    assert(done + split_on(s@, '\n') =~= split_on(s@, '\n'));
    assert(done + words(s@) =~= words(s@));
    assert(done + lines_of(s@) =~= lines_of(s@));
    assert(forall|c: char| done + split_on(s@, c) =~= split_on(s@, c));
    while i < s.len()
        invariant
            i <= s@.len(),
            words(s@) == done + words(s@.skip(i as int)),
            out@.len() == done.len(),
            forall|k: int| 0 <= k < out@.len() ==> (#[trigger] out@[k])@ == done[k],
        decreases s@.len() - i,
    {
        if char_is_whitespace(s[i]) {
            proof {
                let rest = s@.skip(i as int);
                assert(rest.drop_first() =~= s@.skip(i + 1));
                assert(trim_start(rest) == trim_start(s@.skip(i + 1)));
                assert(words(rest) == words(s@.skip(i + 1)));
            }
            i = i + 1;
        } else {
            let start = i;
            while i < s.len() && !char_is_whitespace(s[i])
                invariant
                    start <= i <= s@.len(),
                    forall|j: int| start <= j < i ==> !is_ws(#[trigger] s@[j]),
                decreases s@.len() - i,
            {
                i = i + 1;
            }
            let word = copy_range(s, start, i);
            proof {
                let rest = s@.skip(start as int);
                assert(trim_start(rest) == rest);
                lemma_word_len_is(rest, (i - start) as nat);
                assert(rest.take(i - start) =~= word@);
                assert(rest.skip(i - start) =~= s@.skip(i as int));
                done = done.push(word@);
                assert(words(s@) =~= done + words(s@.skip(i as int)));
            }
            out.push(word);
        }
    }
    proof {
        assert(s@.skip(i as int) =~= Seq::<char>::empty());
        assert(done + Seq::<Seq<char>>::empty() =~= done);
    }
    out
}

/// The leading run of non-white-space characters has exactly length `n` when the first `n`
/// characters are not white space and the next one is (or the text ends).
pub proof fn lemma_word_len_is(s: Seq<char>, n: nat)
    requires
        n <= s.len(),
        forall|j: int| 0 <= j < n ==> !is_ws(#[trigger] s[j]),
        n < s.len() ==> is_ws(s[n as int]),
    ensures
        word_len(s) == n,
    decreases n,
{
    if n > 0 {
        assert forall|j: int| 0 <= j < n - 1 implies !is_ws(#[trigger] s.drop_first()[j]) by {
            assert(s.drop_first()[j] == s[j + 1]);
        }
        lemma_word_len_is(s.drop_first(), (n - 1) as nat);
    }
}

/// The lines of `s`.
pub fn lines(s: &[char]) -> (r: Vec<Vec<char>>)
    ensures
        r@.len() == lines_of(s@).len(),
        forall|i: int| 0 <= i < r@.len() ==> (#[trigger] r@[i])@ == lines_of(s@)[i],
{
    let mut out: Vec<Vec<char>> = Vec::new();
    let mut start: usize = 0;
    let mut i: usize = 0;
    let ghost mut done: Seq<Seq<char>> = Seq::empty();
    assert(s@.skip(0) =~= s@);
    assert(done + split_on(s@, '\n') =~= split_on(s@, '\n'));
    assert(done + words(s@) =~= words(s@));
    assert(done + lines_of(s@) =~= lines_of(s@));
    assert(forall|c: char| done + split_on(s@, c) =~= split_on(s@, c));
    while i < s.len()
        invariant
            start <= i <= s@.len(),
            forall|j: int| start <= j < i ==> s@[j] != '\n',
            lines_of(s@) == done + lines_of(s@.skip(start as int)),
            out@.len() == done.len(),
            forall|k: int| 0 <= k < out@.len() ==> (#[trigger] out@[k])@ == done[k],
        decreases s@.len() - i,
    {
        if s[i] == '\n' {
            let end = if i > start && s[i - 1] == '\r' {
                i - 1
            } else {
                i
            };
            let piece = copy_range(s, start, end);
            proof {
                let rest = s@.skip(start as int);
                lemma_first_index_is(rest, '\n', i - start);
                assert(rest.take(i - start) =~= s@.subrange(start as int, i as int));
                assert(strip_cr(rest.take(i - start)) =~= piece@);
                assert(rest.skip(i - start + 1) =~= s@.skip(i + 1));
                done = done.push(piece@);
                assert(lines_of(s@) =~= done + lines_of(s@.skip(i + 1)));
            }
            out.push(piece);
            start = i + 1;
        }
        i = i + 1;
    }
    if start < s.len() {
        let piece = copy_range(s, start, s.len());
        proof {
            let rest = s@.skip(start as int);
            lemma_first_index(rest, '\n');
            if first_index(rest, '\n') is Some {
                let k = first_index(rest, '\n')->Some_0;
                assert(rest[k] == s@[start + k]);
            }
            assert(piece@ =~= rest);
            done = done.push(piece@);
            assert(lines_of(s@) =~= done);
        }
        out.push(piece);
    } else {
        proof {
            assert(s@.skip(start as int) =~= Seq::<char>::empty());
            assert(lines_of(s@) =~= done);
        }
    }
    out
}

/// `str::parse::<usize>` on characters.
pub fn parse_usize_chars(s: &[char]) -> (r: Option<usize>)
    ensures
        r == parse_usize(s@),
{
    let start: usize = if s.len() > 0 && s[0] == '+' {
        1
    } else {
        0
    };
    let ghost body = s@.skip(start as int);
    assert(body =~= unsigned_body(s@));
    if start == s.len() {
        return None;
    }
    let mut value: usize = 0;
    let mut i: usize = start;
    while i < s.len()
        invariant
            start <= i <= s@.len(),
            start < s@.len(),
            body == s@.skip(start as int),
            body == unsigned_body(s@),
            forall|j: int| start <= j < i ==> is_digit(#[trigger] s@[j]),
            value == digits_value(s@.subrange(start as int, i as int)),
        decreases s@.len() - i,
    {
        let c = s[i];
        if !('0' <= c && c <= '9') {
            proof {
                let k = i - start;
                assert(body[k] == s@[i as int]);
                assert(!is_digit(body[k]));
                assert(0 <= k < body.len());
            }
            return None;
        }
        let d = (c as u32 - '0' as u32) as usize;
        assert(s@.subrange(start as int, i + 1).drop_last() =~= s@.subrange(start as int, i as int));
        let next = match value.checked_mul(10) {
            Some(v) => match v.checked_add(d) {
                Some(v) => v,
                None => {
                    proof {
                        lemma_digits_value_grows(body, (i + 1 - start) as int);
                        assert(body.take((i + 1 - start) as int) =~= s@.subrange(start as int, i + 1));
                    }
                    return None;
                },
            },
            None => {
                proof {
                    lemma_digits_value_grows(body, (i + 1 - start) as int);
                    assert(body.take((i + 1 - start) as int) =~= s@.subrange(start as int, i + 1));
                }
                return None;
            },
        };
        value = next;
        i = i + 1;
    }
    assert(s@.subrange(start as int, s@.len() as int) =~= body);
    Some(value)
}

/// The value of all digits is at least the value of any prefix of them.
pub proof fn lemma_digits_value_grows(s: Seq<char>, k: int)
    requires
        0 <= k <= s.len(),
    ensures
        digits_value(s) >= digits_value(s.take(k)),
    decreases s.len(),
{
    if k < s.len() {
        assert(s.drop_last().take(k) =~= s.take(k));
        lemma_digits_value_grows(s.drop_last(), k);
    } else {
        assert(s.take(k) =~= s);
    }
}

/// The digit character for `d < 16`.
pub fn digit(d: u64) -> (c: char)
    requires
        d < 16,
    ensures
        c == digit_char(d as nat),
{
    if d < 10 {
        ((d + 48) as u8) as char
    } else {
        ((d + 87) as u8) as char
    }
}

/// Appends the digits of `n` in base `base`.
pub fn push_digits(out: &mut Vec<char>, n: u64, base: u64)
    requires
        base == 10 || base == 16,
    ensures
        final(out)@ == old(out)@ + digits(n as nat, base as nat),
{
    let mut rev: Vec<char> = Vec::new();
    let mut m: u64 = n;
    let ghost mut done: Seq<char> = Seq::empty();
    while m >= base
        invariant
            base == 10 || base == 16,
            digits(n as nat, base as nat) == digits(m as nat, base as nat) + done,
            rev@ == done.reverse(),
        decreases m,
    {
        let c = digit(m % base);
        rev.push(c);
        proof {
            assert(digits(m as nat, base as nat) == digits((m / base) as nat, base as nat).push(c));
            assert(digits(m as nat, base as nat) + done =~= digits((m / base) as nat, base as nat)
                + (seq![c] + done));
            done = seq![c] + done;
            assert(rev@ =~= done.reverse());
        }
        m = m / base;
    }
    let c = digit(m);
    rev.push(c);
    proof {
        assert(digits(m as nat, base as nat) == seq![c]);
        done = seq![c] + done;
        assert(rev@ =~= done.reverse());
    }
    let mut i: usize = rev.len();
    let ghost start = out@;
    while i > 0
        invariant
            i <= rev@.len(),
            out@ == start + rev@.subrange(i as int, rev@.len() as int).reverse(),
        decreases i,
    {
        i = i - 1;
        out.push(rev[i]);
        assert(out@ =~= start + rev@.subrange(i as int, rev@.len() as int).reverse());
    }
    assert(rev@.subrange(0, rev@.len() as int) =~= rev@);
    assert(rev@.reverse() =~= done);
}


/// `pat` occurs at `i` and nowhere before: that is its first match.
pub proof fn lemma_first_match_is(s: Seq<char>, pat: Seq<char>, i: int)
    requires
        0 <= i,
        i + pat.len() <= s.len(),
        s.subrange(i, i + pat.len() as int) == pat,
        forall|j: int| 0 <= j < i ==> #[trigger] s.subrange(j, j + pat.len() as int) != pat,
    ensures
        first_match(s, pat) == Some(i),
    decreases i,
{
    if i == 0 {
        assert(s.take(pat.len() as int) =~= s.subrange(0, pat.len() as int));
    } else {
        assert(s.take(pat.len() as int) =~= s.subrange(0, pat.len() as int));
        assert(s.subrange(0, 0 + pat.len() as int) != pat);
        let t = s.drop_first();
        assert(t.subrange(i - 1, i - 1 + pat.len() as int) =~= s.subrange(i, i + pat.len() as int));
        assert forall|j: int| 0 <= j < i - 1 implies #[trigger] t.subrange(j, j + pat.len() as int)
            != pat by {
            assert(t.subrange(j, j + pat.len() as int) =~= s.subrange(j + 1, j + 1 + pat.len() as int));
        }
        lemma_first_match_is(t, pat, i - 1);
    }
}

/// Before its first match, `pat` does not occur; without a match, it occurs nowhere.
pub proof fn lemma_first_match_before(s: Seq<char>, pat: Seq<char>, j: int)
    requires
        0 <= j,
        j + pat.len() <= s.len(),
        match first_match(s, pat) {
            Some(i) => j < i,
            None => true,
        },
    ensures
        s.subrange(j, j + pat.len() as int) != pat,
    decreases j,
{
    assert(s.take(pat.len() as int) =~= s.subrange(0, pat.len() as int));
    if j > 0 {
        let t = s.drop_first();
        assert(t.subrange(j - 1, j - 1 + pat.len() as int) =~= s.subrange(j, j + pat.len() as int));
        lemma_first_match_before(t, pat, j - 1);
    }
}

/// The first `c` in `a + b`: the first in `a`, else the first in `b` shifted by `a`'s length.
pub proof fn lemma_first_index_concat(a: Seq<char>, b: Seq<char>, c: char)
    ensures
        first_index(a + b, c) == match first_index(a, c) {
            Some(i) => Some(i),
            None => match first_index(b, c) {
                Some(j) => Some(a.len() + j),
                None => None,
            },
        },
    decreases a.len(),
{
    if a.len() == 0 {
        assert(a + b =~= b);
    } else {
        assert((a + b).drop_first() =~= a.drop_first() + b);
        lemma_first_index_concat(a.drop_first(), b, c);
    }
}

/// Splitting at a separator between two texts splits each of them.
pub proof fn lemma_split_join(a: Seq<char>, b: Seq<char>, c: char)
    ensures
        split_on(a + seq![c] + b, c) == split_on(a, c) + split_on(b, c),
    decreases a.len(),
{
    lemma_first_index_concat(a, seq![c] + b, c);
    assert(a + seq![c] + b =~= a + (seq![c] + b));
    assert(first_index(seq![c] + b, c) == Some(0int));
    lemma_first_index(a, c);
    match first_index(a, c) {
        None => {
            assert((a + seq![c] + b).take(a.len() as int) =~= a);
            assert((a + seq![c] + b).skip(a.len() as int + 1) =~= b);
        },
        Some(i) => {
            let rest = a.skip(i + 1);
            assert((a + seq![c] + b).take(i) =~= a.take(i));
            assert((a + seq![c] + b).skip(i + 1) =~= rest + seq![c] + b);
            lemma_split_join(rest, b, c);
            assert(split_on(a, c) == seq![a.take(i)] + split_on(rest, c));
        },
    }
}

/// Appending text without the separator lengthens the last piece.
pub proof fn lemma_split_extend(x: Seq<char>, u: Seq<char>, c: char)
    requires
        first_index(u, c) is None,
    ensures
        split_on(x + u, c) == split_on(x, c).drop_last().push(split_on(x, c).last() + u),
    decreases x.len(),
{
    lemma_first_index_concat(x, u, c);
    lemma_first_index(x, c);
    match first_index(x, c) {
        None => {},
        Some(i) => {
            let rest = x.skip(i + 1);
            assert((x + u).take(i) =~= x.take(i));
            assert((x + u).skip(i + 1) =~= rest + u);
            lemma_split_extend(rest, u, c);
            crate::parser::lemma_split_on_len(rest, c);
            assert(split_on(x, c) == seq![x.take(i)] + split_on(rest, c));
            assert(split_on(x + u, c) == seq![x.take(i)] + split_on(rest + u, c));
            assert(split_on(x + u, c) =~= split_on(x, c).drop_last().push(split_on(x, c).last() + u));
        },
    }
}


pub proof fn lemma_trim_end_len(s: Seq<char>)
    ensures
        trim_end(s).len() <= s.len(),
        trim_end(s) == s.take(trim_end(s).len() as int),
        trim_end(s).len() > 0 ==> !is_ws(trim_end(s).last()),
    decreases s.len(),
{
    if s.len() > 0 && is_ws(s.last()) {
        lemma_trim_end_len(s.drop_last());
        assert(s.drop_last().take(trim_end(s).len() as int) =~= s.take(trim_end(s).len() as int));
    } else {
        assert(s.take(s.len() as int) =~= s);
    }
}

pub proof fn lemma_trim_start_char(s: Seq<char>, c: char)
    ensures
        trim_start_char(s, c).len() <= s.len(),
        trim_start_char(s, c) == s.skip(s.len() - trim_start_char(s, c).len()),
        trim_start_char(s, c).len() > 0 ==> trim_start_char(s, c)[0] != c,
    decreases s.len(),
{
    if s.len() > 0 && s[0] == c {
        lemma_trim_start_char(s.drop_first(), c);
        assert(s.drop_first().skip(s.drop_first().len() - trim_start_char(s, c).len()) =~= s.skip(
            s.len() - trim_start_char(s, c).len(),
        ));
    } else {
        assert(s.skip(0) =~= s);
    }
}

pub proof fn lemma_trim_end_char(s: Seq<char>, c: char)
    ensures
        trim_end_char(s, c).len() <= s.len(),
        trim_end_char(s, c) == s.take(trim_end_char(s, c).len() as int),
        trim_end_char(s, c).len() > 0 ==> trim_end_char(s, c).last() != c,
    decreases s.len(),
{
    if s.len() > 0 && s.last() == c {
        lemma_trim_end_char(s.drop_last(), c);
        assert(s.drop_last().take(trim_end_char(s, c).len() as int) =~= s.take(
            trim_end_char(s, c).len() as int,
        ));
    } else {
        assert(s.take(s.len() as int) =~= s);
    }
}

/// The pieces of a split hold no separator, and no character that the whole text lacks.
pub proof fn lemma_split_pieces(s: Seq<char>, c: char)
    ensures
        forall|k: int| 0 <= k < split_on(s, c).len() ==> !(#[trigger] split_on(s, c)[k]).contains(c),
        forall|k: int, d: char|
            0 <= k < split_on(s, c).len() && !s.contains(d) ==> !(#[trigger] split_on(s, c)[k].contains(
                d,
            )),
    decreases s.len(),
{
    lemma_first_index(s, c);
    match first_index(s, c) {
        None => {},
        Some(i) => {
            let rest = s.skip(i + 1);
            lemma_split_pieces(rest, c);
            let ps = split_on(s, c);
            assert(ps == seq![s.take(i)] + split_on(rest, c));
            assert forall|k: int| 0 <= k < ps.len() implies !(#[trigger] ps[k]).contains(c) by {
                if k == 0 {
                    if s.take(i).contains(c) {
                        let j = choose|j: int| 0 <= j < s.take(i).len() && s.take(i)[j] == c;
                        assert(s[j] == c);
                    }
                } else {
                    assert(ps[k] == split_on(rest, c)[k - 1]);
                }
            }
            assert forall|k: int, d: char| 0 <= k < ps.len() && !s.contains(d) implies !(
            #[trigger] ps[k].contains(d)) by {
                if k == 0 {
                    if s.take(i).contains(d) {
                        let j = choose|j: int| 0 <= j < s.take(i).len() && s.take(i)[j] == d;
                        assert(s[j] == d);
                    }
                } else {
                    if rest.contains(d) {
                        let j = choose|j: int| 0 <= j < rest.len() && rest[j] == d;
                        assert(s[j + i + 1] == d);
                    }
                    assert(ps[k] == split_on(rest, c)[k - 1]);
                }
            }
        },
    }
}

} // verus!
