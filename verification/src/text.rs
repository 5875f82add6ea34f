//! Character-sequence helpers shared by every module: equality, search,
//! trimming, ASCII case folding and decimal rendering, each with the
//! specification that the rest of the crate states its contracts in.
use vstd::prelude::*;
use vstd::utf8::*;

verus! {

broadcast use vstd::utf8::encode_utf8_decode_utf8;

/// The characters of `s`, in order.
pub fn chars_of(s: &str) -> (r: Vec<char>)
    ensures
        r@ == s@,
{
    broadcast use vstd::string::axiom_spec_iter;

    let mut out: Vec<char> = Vec::new();
    for c in iter: s.chars()
        invariant
            iter.seq() == s@,
            out@ == s@.take(iter.index() as int),
    {
        out.push(c);
    }
    assert(out@ =~= s@);
    out
}

/// A `String` holding exactly the characters of `chars`.
///
/// Calls `Iterator::collect` into `String`; the contract claims the string's
/// characters are those of the slice, in order.
#[verifier::external_body]
pub fn string_of(chars: &[char]) -> (r: String)
    ensures
        r@ == chars@,
{
    chars.iter().collect()
}

/// Whether `s` and `t` hold the same characters, compared through their UTF-8 bytes.
pub fn str_equals(s: &str, t: &str) -> (r: bool)
    ensures
        r == (s@ == t@),
{
    let a = s.as_bytes();
    let b = t.as_bytes();
    if a.len() != b.len() {
        return false;
    }
    let mut i: usize = 0;
    while i < a.len()
        invariant
            a@ == encode_utf8(s@),
            b@ == encode_utf8(t@),
            a@.len() == b@.len(),
            0 <= i <= a@.len(),
            forall|j: int| 0 <= j < i ==> a@[j] == b@[j],
        decreases a@.len() - i,
    {
        if a[i] != b[i] {
            return false;
        }
        i = i + 1;
    }
    assert(a@ =~= b@);
    assert(decode_utf8(encode_utf8(s@)) == s@);
    assert(decode_utf8(encode_utf8(t@)) == t@);
    true
}

/// Whether the `String` `s` holds the characters of `t`.
pub fn string_is(s: &String, t: &str) -> (r: bool)
    ensures
        r == (s@ == t@),
{
    str_equals(s.as_str(), t)
}

/// `pattern` occurs in `text` starting at position `at`.
pub open spec fn occurs_at(text: Seq<char>, pattern: Seq<char>, at: int) -> bool {
    0 <= at && at + pattern.len() <= text.len() && text.subrange(at, at + pattern.len())
        == pattern
}

/// `pattern` occurs somewhere in `text` (the empty pattern occurs everywhere).
pub open spec fn contains_seq(text: Seq<char>, pattern: Seq<char>) -> bool {
    exists|at: int| occurs_at(text, pattern, at)
}

/// Whether `pattern` occurs in `text` at position `at`.
pub fn matches_at(text: &[char], pattern: &[char], at: usize) -> (r: bool)
    ensures
        r == occurs_at(text@, pattern@, at as int),
{
    if at > text.len() || pattern.len() > text.len() - at {
        return false;
    }
    let mut k: usize = 0;
    while k < pattern.len()
        invariant
            at + pattern@.len() <= text@.len(),
            text@.len() == text.len(),
            0 <= k <= pattern@.len(),
            forall|j: int| 0 <= j < k ==> text@[at + j] == pattern@[j],
        decreases pattern@.len() - k,
    {
        if text[at + k] != pattern[k] {
            assert(text@.subrange(at as int, at + pattern@.len())[k as int] != pattern@[k as int]);
            return false;
        }
        k = k + 1;
    }
    assert(text@.subrange(at as int, at + pattern@.len()) =~= pattern@);
    true
}

/// Whether `pattern` occurs anywhere in `text`.
pub fn contains_chars(text: &[char], pattern: &[char]) -> (r: bool)
    ensures
        r == contains_seq(text@, pattern@),
{
    if pattern.len() > text.len() {
        return false;
    }
    let last: usize = text.len() - pattern.len();
    let mut at: usize = 0;
    loop
        invariant
            last == text@.len() - pattern@.len(),
            0 <= at <= last,
            forall|j: int| 0 <= j < at ==> !occurs_at(text@, pattern@, j),
        decreases last - at,
    {
        if matches_at(text, pattern, at) {
            return true;
        }
        if at == last {
            assert forall|j: int| !occurs_at(text@, pattern@, j) by {
                if 0 <= j && j + pattern@.len() <= text@.len() {
                    assert(j <= last);
                }
            }
            return false;
        }
        at = at + 1;
    }
}

/// Whether the characters of `pattern` occur in `text`.
pub fn contains_str(text: &[char], pattern: &str) -> (r: bool)
    ensures
        r == contains_seq(text@, pattern@),
{
    let p = chars_of(pattern);
    contains_chars(text, p.as_slice())
}

/// `text` ends with `suffix`.
pub open spec fn ends_with_seq(text: Seq<char>, suffix: Seq<char>) -> bool {
    suffix.len() <= text.len() && text.subrange(text.len() - suffix.len(), text.len() as int)
        == suffix
}

/// Whether `text` ends with the characters of `suffix`.
pub fn ends_with_str(text: &[char], suffix: &str) -> (r: bool)
    ensures
        r == ends_with_seq(text@, suffix@),
{
    let p = chars_of(suffix);
    if p.len() > text.len() {
        return false;
    }
    matches_at(text, p.as_slice(), text.len() - p.len())
}

/// Whether the characters of `text` are exactly those of `lit`.
pub fn chars_are(text: &[char], lit: &str) -> (r: bool)
    ensures
        r == (text@ == lit@),
{
    let p = chars_of(lit);
    if p.len() != text.len() {
        return false;
    }
    let r = matches_at(text, p.as_slice(), 0);
    assert(text@.subrange(0, text@.len() as int) =~= text@);
    r
}

/// Unicode `White_Space`, the set that `char::is_whitespace` documents.
pub open spec fn is_whitespace(c: char) -> bool {
    let u = c as u32;
    (0x09 <= u && u <= 0x0d) || u == 0x20 || u == 0x85 || u == 0xa0 || u == 0x1680 || (0x2000
        <= u && u <= 0x200a) || u == 0x2028 || u == 0x2029 || u == 0x202f || u == 0x205f || u
        == 0x3000
}

/// Whether `c` is Unicode white space.
pub fn whitespace(c: char) -> (r: bool)
    ensures
        r == is_whitespace(c),
{
    let u = c as u32;
    (0x09 <= u && u <= 0x0d) || u == 0x20 || u == 0x85 || u == 0xa0 || u == 0x1680 || (0x2000
        <= u && u <= 0x200a) || u == 0x2028 || u == 0x2029 || u == 0x202f || u == 0x205f || u
        == 0x3000
}

/// `text` without its leading white space.
pub open spec fn trim_start(text: Seq<char>) -> Seq<char>
    decreases text.len(),
{
    if text.len() > 0 && is_whitespace(text[0]) {
        trim_start(text.drop_first())
    } else {
        text
    }
}

/// `text` without its trailing white space.
pub open spec fn trim_end(text: Seq<char>) -> Seq<char>
    decreases text.len(),
{
    if text.len() > 0 && is_whitespace(text.last()) {
        trim_end(text.drop_last())
    } else {
        text
    }
}

/// `text` without leading and trailing white space, as `str::trim` documents.
pub open spec fn trim(text: Seq<char>) -> Seq<char> {
    trim_end(trim_start(text))
}

proof fn lemma_trim_start_skip(text: Seq<char>, i: int)
    requires
        0 <= i <= text.len(),
        forall|j: int| 0 <= j < i ==> is_whitespace(text[j]),
    ensures
        trim_start(text) == trim_start(text.subrange(i, text.len() as int)),
    decreases i,
{
    if i > 0 {
        assert(is_whitespace(text[0]));
        assert(text.drop_first().subrange(i - 1, text.drop_first().len() as int) =~= text.subrange(
            i,
            text.len() as int,
        ));
        assert forall|j: int| 0 <= j < i - 1 implies is_whitespace(text.drop_first()[j]) by {
            assert(text.drop_first()[j] == text[j + 1]);
        }
        lemma_trim_start_skip(text.drop_first(), i - 1);
    } else {
        assert(text.subrange(0, text.len() as int) =~= text);
    }
}

proof fn lemma_trim_end_take(text: Seq<char>, e: int)
    requires
        0 <= e <= text.len(),
        forall|j: int| e <= j < text.len() ==> is_whitespace(text[j]),
    ensures
        trim_end(text) == trim_end(text.subrange(0, e)),
    decreases text.len() - e,
{
    if e < text.len() {
        assert(is_whitespace(text.last()));
        assert(text.drop_last().subrange(0, e) =~= text.subrange(0, e));
        lemma_trim_end_take(text.drop_last(), e);
    } else {
        assert(text.subrange(0, e) =~= text);
    }
}

/// The bounds `(start, end)` of `text` once trimmed: `trim(text)` is
/// `text[start..end]`.
pub fn trim_bounds(text: &[char]) -> (r: (usize, usize))
    ensures
        r.0 <= r.1 <= text@.len(),
        text@.subrange(r.0 as int, r.1 as int) == trim(text@),
{
    let mut start: usize = 0;
    while start < text.len() && whitespace(text[start])
        invariant
            0 <= start <= text@.len(),
            forall|j: int| 0 <= j < start ==> is_whitespace(text@[j]),
        decreases text@.len() - start,
    {
        start = start + 1;
    }
    proof {
        lemma_trim_start_skip(text@, start as int);
    }
    let ghost rest = text@.subrange(start as int, text@.len() as int);
    assert(trim_start(rest) == rest);
    let mut end: usize = text.len();
    while end > start && whitespace(text[end - 1])
        invariant
            start <= end <= text@.len(),
            forall|j: int| end <= j < text@.len() ==> is_whitespace(text@[j]),
        decreases end,
    {
        end = end - 1;
    }
    proof {
        let tail = text@.subrange(start as int, text@.len() as int);
        lemma_trim_end_take(tail, end - start);
        assert(tail.subrange(0, end - start) =~= text@.subrange(start as int, end as int));
        let t = text@.subrange(start as int, end as int);
        if t.len() > 0 {
            assert(!is_whitespace(t.last()));
        }
    }
    (start, end)
}

/// Whether `text`, trimmed, is exactly `lit`.
pub fn trimmed_is(text: &[char], lit: &str) -> (r: bool)
    ensures
        r == (trim(text@) == lit@),
{
    let bounds: (usize, usize) = trim_bounds(text);
    let p = chars_of(lit);
    if bounds.1 - bounds.0 != p.len() {
        return false;
    }
    let r = matches_at(text, p.as_slice(), bounds.0);
    proof {
        if r {
            assert(text@.subrange(bounds.0 as int, bounds.1 as int) =~= text@.subrange(bounds.0 as int, bounds.0 + p@.len()));
        }
    }
    r
}

/// ASCII lower case of one character; other characters are unchanged.
pub open spec fn lower_char(c: char) -> char {
    if 'A' <= c && c <= 'Z' {
        ((c as u32) + 32) as char
    } else {
        c
    }
}

/// ASCII lower case of `text`, as `str::to_ascii_lowercase` documents.
pub open spec fn lower(text: Seq<char>) -> Seq<char> {
    text.map_values(|c: char| lower_char(c))
}

/// The ASCII lower-case form of `text`.
pub fn to_lower(text: &[char]) -> (r: Vec<char>)
    ensures
        r@ == lower(text@),
{
    let mut r: Vec<char> = Vec::new();
    let mut i: usize = 0;
    while i < text.len()
        invariant
            0 <= i <= text@.len(),
            r@ == lower(text@.subrange(0, i as int)),
        decreases text@.len() - i,
    {
        let c = text[i];
        let l = if 'A' <= c && c <= 'Z' {
            let b: u8 = (c as u8) + 32;
            b as char
        } else {
            c
        };
        r.push(l);
        assert(lower(text@.subrange(0, i + 1)) =~= lower(text@.subrange(0, i as int)).push(
            lower_char(c),
        ));
        i = i + 1;
    }
    assert(text@.subrange(0, text@.len() as int) =~= text@);
    r
}

/// Whether the ASCII lower-case form of `text` is exactly `lit`.
pub fn lower_is(text: &[char], lit: &str) -> (r: bool)
    ensures
        r == (lower(text@) == lit@),
{
    let l = to_lower(text);
    chars_are(l.as_slice(), lit)
}

/// The decimal digits of `n`, most significant first, without leading zeros.
pub open spec fn decimal(n: nat) -> Seq<char>
    decreases n,
{
    if n < 10 {
        seq![digit_char(n)]
    } else {
        decimal(n / 10).push(digit_char(n % 10))
    }
}

/// The ASCII digit for `d < 10`.
pub open spec fn digit_char(d: nat) -> char {
    (('0' as u32) + d) as char
}

/// The decimal rendering of `n`, as `usize`'s `Display` writes it.
pub fn decimal_chars(n: usize) -> (r: Vec<char>)
    ensures
        r@ == decimal(n as nat),
    decreases n,
{
    let d: u8 = (n % 10) as u8;
    let c: char = (48 + d) as char;
    if n < 10 {
        let mut r = Vec::new();
        r.push(c);
        r
    } else {
        let mut r = decimal_chars(n / 10);
        r.push(c);
        r
    }
}

/// Whether `a` and `b` hold the same characters.
pub fn chars_equal(a: &[char], b: &[char]) -> (r: bool)
    ensures
        r == (a@ == b@),
{
    if a.len() != b.len() {
        return false;
    }
    let r = matches_at(a, b, 0);
    assert(a@.subrange(0, a@.len() as int) =~= a@);
    r
}

/// Whether `a` holds the characters of `s`.
pub fn chars_equal_string(a: &[char], s: &String) -> (r: bool)
    ensures
        r == (a@ == s@),
{
    let b = chars_of(s.as_str());
    chars_equal(a, b.as_slice())
}

/// Appends the characters of `lit` to `out`.
pub fn push_str(out: &mut Vec<char>, lit: &str)
    ensures
        final(out)@ == old(out)@ + lit@,
{
    let p = chars_of(lit);
    push_all(out, p.as_slice());
}

/// A copy of `chars`.
pub fn copy_chars(chars: &[char]) -> (r: Vec<char>)
    ensures
        r@ == chars@,
{
    let mut r: Vec<char> = Vec::new();
    push_all(&mut r, chars);
    r
}

/// Appends `chars` to `out`.
pub fn push_all(out: &mut Vec<char>, chars: &[char])
    ensures
        final(out)@ == old(out)@ + chars@,
{
    let mut i: usize = 0;
    while i < chars.len()
        invariant
            0 <= i <= chars@.len(),
            out@ == old(out)@ + chars@.subrange(0, i as int),
        decreases chars@.len() - i,
    {
        out.push(chars[i]);
        assert(chars@.subrange(0, i + 1) =~= chars@.subrange(0, i as int).push(chars@[i as int]));
        i = i + 1;
    }
    assert(chars@.subrange(0, chars@.len() as int) =~= chars@);
}

/// Lexicographic order of character sequences by code point: the order of
/// `str`'s `Ord`, which compares UTF-8 bytes.
pub open spec fn lex_less(a: Seq<char>, b: Seq<char>) -> bool
    decreases a.len(),
{
    if b.len() == 0 {
        false
    } else if a.len() == 0 {
        true
    } else if a[0] != b[0] {
        (a[0] as int) < (b[0] as int)
    } else {
        lex_less(a.drop_first(), b.drop_first())
    }
}

/// No sequence comes before itself, and of two different sequences exactly
/// one comes first.
pub proof fn lemma_lex_total(a: Seq<char>, b: Seq<char>)
    ensures
        !lex_less(a, a),
        lex_less(a, b) ==> !lex_less(b, a),
        a != b ==> lex_less(a, b) || lex_less(b, a),
    decreases a.len(),
{
    if a.len() > 0 {
        lemma_lex_total(a.drop_first(), a.drop_first());
    }
    if a.len() > 0 && b.len() > 0 && a[0] == b[0] {
        lemma_lex_total(a.drop_first(), b.drop_first());
        if a.drop_first() == b.drop_first() {
            assert(a =~= seq![a[0]] + a.drop_first());
            assert(b =~= seq![b[0]] + b.drop_first());
        }
    }
    if a.len() == 0 && b.len() == 0 {
        assert(a =~= b);
    }
}

/// The order is transitive.
pub proof fn lemma_lex_trans(a: Seq<char>, b: Seq<char>, c: Seq<char>)
    requires
        lex_less(a, b),
        lex_less(b, c),
    ensures
        lex_less(a, c),
    decreases a.len(),
{
    if a.len() > 0 && b.len() > 0 && c.len() > 0 && a[0] == b[0] && b[0] == c[0] {
        lemma_lex_trans(a.drop_first(), b.drop_first(), c.drop_first());
    }
}

/// Whether `a` comes before `b` in the order of `lex_less`.
pub fn chars_less(a: &[char], b: &[char]) -> (r: bool)
    ensures
        r == lex_less(a@, b@),
{
    let mut i: usize = 0;
    assert(a@.skip(0) =~= a@);
    assert(b@.skip(0) =~= b@);
    while i < a.len() && i < b.len()
        invariant
            0 <= i <= a@.len(),
            i <= b@.len(),
            lex_less(a@, b@) == lex_less(a@.skip(i as int), b@.skip(i as int)),
        decreases a@.len() - i,
    {
        if a[i] != b[i] {
            assert(a@.skip(i as int)[0] == a@[i as int]);
            assert(b@.skip(i as int)[0] == b@[i as int]);
            return a[i] < b[i];
        }
        assert(a@.skip(i as int).drop_first() =~= a@.skip(i + 1));
        assert(b@.skip(i as int).drop_first() =~= b@.skip(i + 1));
        i = i + 1;
    }
    a.len() < b.len()
}

} // verus!
