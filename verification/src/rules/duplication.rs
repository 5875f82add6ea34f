//! Native structural duplication analysis: sources become streams of
//! normalised tokens (identifiers and literals abstracted, comments
//! dropped), and each pair of files is searched for its longest clone of at
//! least thirty tokens, or failing that for the first clone spanning ten
//! lines.
use crate::rules::{findings, FindingView, Violation};
use crate::sorting::{
    insert_sorted, lemma_insert_at_first_greater, lemma_sorted_by_multiset, lemma_sorted_by_permutation, sorted_by,
    strict_order, total_on,
};
use crate::syntax::{SyntaxTree, MAX_ROW};
use crate::text::{decimal, decimal_chars, push_all, push_str, chars_less, lemma_lex_total, lemma_lex_trans, lex_less, chars_of, ends_with_seq, ends_with_str, string_of, string_is, trim, trim_bounds};
use vstd::arithmetic::div_mod::{
    lemma_add_mod_noop, lemma_mod_bound, lemma_mul_mod_noop_left, lemma_mul_mod_noop_right,
    lemma_small_mod, lemma_sub_mod_noop,
};
use std::collections::{HashMap, HashSet};
use vstd::prelude::*;
use vstd::utf8::*;

verus! {

/// Fewest tokens that make a clone on their own.
pub const MIN_TOKENS: usize = 30;

/// Fewest lines that make a clone of fewer tokens.
pub const MIN_LINES: usize = 10;

/// Base of the polynomial rolling hash.
pub const HASH_BASE: u64 = 1_099_511_628_211;

/// `2^64`, the modulus of wrapping `u64` arithmetic.
pub open spec fn modulus() -> int {
    0x1_0000_0000_0000_0000
}

/// Comment nodes: `comment` and every kind ending in `_comment`.
pub open spec fn comment_kind(kind: Seq<char>) -> bool {
    kind == "comment"@ || ends_with_seq(kind, "_comment"@)
}

/// Literal nodes of the Java and Kotlin grammars.
pub open spec fn literal_kind(kind: Seq<char>) -> bool {
    kind == "boolean_literal"@ || kind == "bin_literal"@ || kind == "character_literal"@ || kind
        == "decimal_floating_point_literal"@ || kind == "decimal_integer_literal"@ || kind
        == "false"@ || kind == "hex_floating_point_literal"@ || kind == "hex_integer_literal"@
        || kind == "hex_literal"@ || kind == "integer_literal"@ || kind == "long_literal"@ || kind
        == "null_literal"@ || kind == "real_literal"@ || kind == "string_literal"@ || kind
        == "true"@ || kind == "unsigned_literal"@
}

/// Identifier nodes: `identifier` and every kind ending in `_identifier`.
pub open spec fn identifier_kind(kind: Seq<char>) -> bool {
    kind == "identifier"@ || ends_with_seq(kind, "_identifier"@)
}

/// Whether `kind` is a comment kind.
pub fn is_comment(kind: &String) -> (r: bool)
    ensures
        r == comment_kind(kind@),
{
    let k = chars_of(kind.as_str());
    string_is(kind, "comment") || ends_with_str(k.as_slice(), "_comment")
}

/// Whether `kind` is a literal kind.
pub fn is_literal(kind: &String) -> (r: bool)
    ensures
        r == literal_kind(kind@),
{
    string_is(kind, "boolean_literal") || string_is(kind, "bin_literal") || string_is(
        kind,
        "character_literal",
    ) || string_is(kind, "decimal_floating_point_literal") || string_is(
        kind,
        "decimal_integer_literal",
    ) || string_is(kind, "false") || string_is(kind, "hex_floating_point_literal") || string_is(
        kind,
        "hex_integer_literal",
    ) || string_is(kind, "hex_literal") || string_is(kind, "integer_literal") || string_is(
        kind,
        "long_literal",
    ) || string_is(kind, "null_literal") || string_is(kind, "real_literal") || string_is(
        kind,
        "string_literal",
    ) || string_is(kind, "true") || string_is(kind, "unsigned_literal")
}

/// Whether `kind` is an identifier kind.
pub fn is_identifier(kind: &String) -> (r: bool)
    ensures
        r == identifier_kind(kind@),
{
    let k = chars_of(kind.as_str());
    string_is(kind, "identifier") || ends_with_str(k.as_slice(), "_identifier")
}

/// A normalised token before it is numbered: its value and its 1-based lines.
pub struct TokenText {
    pub value: Vec<char>,
    pub start_line: usize,
    pub end_line: usize,
}

/// Every token starts on a line a syntax tree can number.
pub open spec fn lines_bounded(v: Seq<TokenText>) -> bool {
    forall|k: int| 0 <= k < v.len() ==> #[trigger] v[k].start_line <= MAX_ROW + 1
}

/// The ghost form of a token text.
pub open spec fn token_text_model(t: TokenText) -> (Seq<char>, int, int) {
    (t.value@, t.start_line as int, t.end_line as int)
}

/// The ghost forms of `v`.
pub open spec fn token_texts(v: Seq<TokenText>) -> Seq<(Seq<char>, int, int)> {
    v.map_values(|t: TokenText| token_text_model(t))
}

/// The token that node `i` stands for when it is a leaf: `IDENTIFIER` for
/// identifiers, its text otherwise.
pub open spec fn leaf_value(t: &SyntaxTree, i: int) -> Seq<char> {
    if identifier_kind(t.kind(i)) {
        "IDENTIFIER"@
    } else {
        t.text(i)
    }
}

/// The normalised tokens of the subtree at node `i`, in source order:
/// comments contribute nothing, a literal contributes one `LITERAL` token
/// spanning it, a leaf with non-blank text contributes its value, and any
/// other node contributes its children's tokens.
pub open spec fn node_tokens(t: &SyntaxTree, i: int) -> Seq<(Seq<char>, int, int)>
    decreases t.nodes.len() - i, t.nodes[i].children.len() + 1,
{
    if i < 0 || i >= t.nodes.len() {
        Seq::empty()
    } else {
        let n = t.nodes[i];
        if comment_kind(n.kind@) {
            Seq::empty()
        } else if literal_kind(n.kind@) {
            seq![("LITERAL"@, n.start_row + 1, n.end_row + 1)]
        } else if n.children.len() == 0 {
            if trim(t.text(i)).len() > 0 {
                seq![(leaf_value(t, i), n.start_row + 1, n.end_row + 1)]
            } else {
                Seq::empty()
            }
        } else {
            child_tokens(t, i, 0)
        }
    }
}

/// The tokens of the children of node `i` from the `k`-th on.
pub open spec fn child_tokens(t: &SyntaxTree, i: int, k: int) -> Seq<(Seq<char>, int, int)>
    decreases t.nodes.len() - i, t.nodes[i].children.len() - k,
{
    if i < 0 || i >= t.nodes.len() || k < 0 || k >= t.nodes[i].children.len() {
        Seq::empty()
    } else {
        let c = t.nodes[i].children[k] as int;
        if c <= i || c >= t.nodes.len() {
            child_tokens(t, i, k + 1)
        } else {
            node_tokens(t, c) + child_tokens(t, i, k + 1)
        }
    }
}

fn push_literal(out: &mut Vec<TokenText>, value: &str, start_line: usize, end_line: usize)
    requires
        lines_bounded(old(out)@),
        start_line <= MAX_ROW + 1,
    ensures
        lines_bounded(final(out)@),
        token_texts(final(out)@) == token_texts(old(out)@).push(
            (value@, start_line as int, end_line as int),
        ),
{
    let t = TokenText { value: chars_of(value), start_line, end_line };
    out.push(t);
    assert(token_texts(out@) =~= token_texts(old(out)@).push(token_text_model(t)));
}

/// Appends the normalised tokens of the subtree at node `i` to `out`.
fn collect_tokens(t: &SyntaxTree, i: usize, out: &mut Vec<TokenText>)
    requires
        t.wf(),
        i < t.nodes.len(),
        lines_bounded(old(out)@),
    ensures
        token_texts(final(out)@) == token_texts(old(out)@) + node_tokens(t, i as int),
        lines_bounded(final(out)@),
    decreases t.nodes.len() - i, t.nodes[i as int].children.len() + 1,
{
    let n = &t.nodes[i];
    if is_comment(&n.kind) {
        assert(token_texts(out@) =~= token_texts(old(out)@) + Seq::empty());
        return;
    }
    if is_literal(&n.kind) {
        push_literal(out, "LITERAL", n.start_row + 1, n.end_row + 1);
        return;
    }
    if n.children.len() == 0 {
        let text = t.text_of(i);
        let bounds: (usize, usize) = trim_bounds(text);
        if bounds.0 < bounds.1 {
            if is_identifier(&n.kind) {
                push_literal(out, "IDENTIFIER", n.start_row + 1, n.end_row + 1);
            } else {
                let tt = TokenText {
                    value: crate::text::copy_chars(text),
                    start_line: n.start_row + 1,
                    end_line: n.end_row + 1,
                };
                out.push(tt);
                assert(token_texts(out@) =~= token_texts(old(out)@).push(token_text_model(tt)));
            }
        } else {
            assert(token_texts(out@) =~= token_texts(old(out)@) + Seq::empty());
        }
        return;
    }
    let mut k: usize = 0;
    assert(token_texts(out@) =~= token_texts(old(out)@) + Seq::empty());
    while k < n.children.len()
        invariant
            t.wf(),
            i < t.nodes.len(),
            n == t.nodes[i as int],
            0 <= k <= n.children@.len(),
            !comment_kind(n.kind@),
            !literal_kind(n.kind@),
            n.children@.len() > 0,
            lines_bounded(out@),
            token_texts(out@) + child_tokens(t, i as int, k as int) == token_texts(old(out)@)
                + node_tokens(t, i as int),
        decreases n.children@.len() - k,
    {
        let c = n.children[k];
        assert(i < c < t.nodes.len());
        let ghost before = token_texts(out@);
        collect_tokens(t, c, out);
        assert(token_texts(out@) + child_tokens(t, i as int, k + 1) =~= before + child_tokens(
            t,
            i as int,
            k as int,
        ));
        k = k + 1;
    }
    assert(token_texts(out@) =~= token_texts(out@) + child_tokens(t, i as int, k as int));
}

/// The normalised token texts of a whole tree.
pub fn tokens(t: &SyntaxTree) -> (r: Vec<TokenText>)
    requires
        t.wf(),
    ensures
        token_texts(r@) == node_tokens(t, 0),
        lines_bounded(r@),
{
    let mut out: Vec<TokenText> = Vec::new();
    collect_tokens(t, 0, &mut out);
    assert(token_texts(out@) =~= node_tokens(t, 0));
    out
}

/// A numbered token: its value's id and its 1-based lines.
#[derive(Clone, Copy, Debug)]
pub struct Token {
    pub id: u64,
    pub start_line: usize,
    pub end_line: usize,
}

/// The ids of `tokens`.
pub open spec fn ids(tokens: Seq<Token>) -> Seq<u64> {
    tokens.map_values(|t: Token| t.id)
}

/// The rolling-hash prefix of the first `i` ids.
#[verifier::opaque]
pub open spec fn prefix_hash(ids: Seq<u64>, i: int) -> u64
    decreases i,
{
    if i <= 0 {
        0
    } else {
        vstd::wrapping::u64_specs::wrapping_add(
            vstd::wrapping::u64_specs::wrapping_mul(prefix_hash(ids, i - 1), HASH_BASE),
            stable_token_hash_spec(ids[i - 1]),
        )
    }
}

/// `HASH_BASE` to the power `k`, wrapping.
#[verifier::opaque]
pub open spec fn base_power(k: int) -> u64
    decreases k,
{
    if k <= 0 {
        1
    } else {
        vstd::wrapping::u64_specs::wrapping_mul(base_power(k - 1), HASH_BASE)
    }
}

/// The polynomial hash of `ids[start..end]` modulo `2^64`.
pub open spec fn window_hash(ids: Seq<u64>, start: int, end: int) -> int
    decreases end - start,
{
    if end <= start {
        0
    } else {
        (window_hash(ids, start, end - 1) * HASH_BASE + stable_token_hash_spec(ids[end - 1]))
            % modulus()
    }
}

/// The hash of one token id (the id itself).
pub open spec fn stable_token_hash_spec(id: u64) -> u64 {
    id
}

/// The hash of one token id.
fn stable_token_hash(id: u64) -> (r: u64)
    ensures
        r == stable_token_hash_spec(id),
{
    id
}

proof fn lemma_window_hash_bound(ids: Seq<u64>, start: int, end: int)
    ensures
        0 <= window_hash(ids, start, end) < modulus(),
    decreases end - start,
{
    if end > start {
        lemma_mod_bound(
            window_hash(ids, start, end - 1) * HASH_BASE + stable_token_hash_spec(ids[end - 1]),
            modulus(),
        );
    }
}

proof fn lemma_hash_steps(ids: Seq<u64>, i: int)
    requires
        0 <= i < ids.len(),
    ensures
        prefix_hash(ids, 0) == 0,
        base_power(0) == 1,
        prefix_hash(ids, i + 1) == vstd::wrapping::u64_specs::wrapping_add(
            vstd::wrapping::u64_specs::wrapping_mul(prefix_hash(ids, i), HASH_BASE),
            ids[i],
        ),
        base_power(i + 1) == vstd::wrapping::u64_specs::wrapping_mul(base_power(i), HASH_BASE),
{
    reveal(prefix_hash);
    reveal(base_power);
}

proof fn lemma_prefix_split(ids: Seq<u64>, start: int, end: int)
    requires
        0 <= start <= end,
    ensures
        (prefix_hash(ids, start) * base_power(end - start) + window_hash(ids, start, end))
            % modulus() == prefix_hash(ids, end) as int,
    decreases end - start,
{
    let m = modulus();
    reveal(prefix_hash);
    reveal(base_power);
    if end == start {
        lemma_small_mod(prefix_hash(ids, start) as nat, m as nat);
        assert(base_power(0) == 1);
        assert(window_hash(ids, start, end) == 0);
        assert(prefix_hash(ids, start) * base_power(end - start) == prefix_hash(ids, start) as int);
    } else {
        lemma_prefix_split(ids, start, end - 1);
        let p = prefix_hash(ids, start) as int;
        let w = base_power(end - 1 - start) as int;
        let h = window_hash(ids, start, end - 1);
        let x = stable_token_hash_spec(ids[end - 1]) as int;
        let b = HASH_BASE as int;
        let pe = prefix_hash(ids, end - 1) as int;
        // pe == (p * w + h) % m
        assert(base_power(end - start) as int == (w * b) % m);
        assert(prefix_hash(ids, end) as int == ((pe * b) % m + x) % m) by {
            let mm = vstd::wrapping::u64_specs::wrapping_mul(prefix_hash(ids, end - 1), HASH_BASE);
            assert(mm as int == (pe * b) % m);
            lemma_mod_bound(pe * b, m);
            if mm as int + x >= m {
                lemma_small_mod((mm as int + x - m) as nat, m as nat);
                assert((mm as int + x) % m == mm as int + x - m) by {
                    vstd::arithmetic::div_mod::lemma_mod_sub_multiples_vanish(mm as int + x, m);
                }
            } else {
                lemma_small_mod((mm as int + x) as nat, m as nat);
            }
        }
        // ((pe * b) % m + x) % m == (pe * b + x) % m
        lemma_add_mod_noop(pe * b, x, m);
        lemma_small_mod(x as nat, m as nat);
        assert(((pe * b) % m + x) % m == (pe * b + x) % m);
        // pe * b % m == ((p*w + h) * b) % m
        lemma_mul_mod_noop_left(p * w + h, b, m);
        assert((pe * b) % m == ((p * w + h) * b) % m);
        assert((pe * b + x) % m == ((p * w + h) * b + x) % m) by {
            lemma_add_mod_noop(pe * b, x, m);
            lemma_add_mod_noop((p * w + h) * b, x, m);
        }
        // target: (p * ((w*b)%m) + (h*b + x)%m) % m
        lemma_mul_mod_noop_right(p, w * b, m);
        lemma_add_mod_noop(p * ((w * b) % m), h * b + x, m);
        lemma_add_mod_noop(p * (w * b), h * b + x, m);
        lemma_mod_bound(h * b + x, m);
        lemma_add_mod_noop(p * ((w * b) % m), (h * b + x) % m, m);
        vstd::arithmetic::div_mod::lemma_mod_twice(h * b + x, m);
        vstd::arithmetic::div_mod::lemma_mod_twice(p * ((w * b) % m), m);
        assert((p * ((w * b) % m) + (h * b + x) % m) % m == (p * (w * b) + (h * b + x)) % m);
        assert(p * (w * b) + (h * b + x) == (p * w + h) * b + x) by (nonlinear_arith);
        assert(window_hash(ids, start, end) == (h * b + x) % m);
        assert(pe == (p * w + h) % m);
        assert(prefix_hash(ids, end) as int == ((p * w + h) * b + x) % m);
        assert((p * ((w * b) % m) + (h * b + x) % m) % m == prefix_hash(ids, end) as int);
        assert(prefix_hash(ids, start) * base_power(end - start) == p * ((w * b) % m));
    }
}

/// Prefix hashes and powers of a token stream.
pub struct RollingHashes {
    pub prefix: Vec<u64>,
    pub powers: Vec<u64>,
}

impl RollingHashes {
    /// The hashes of every prefix of `ids`, with the powers they need.
    pub open spec fn of(&self, ids: Seq<u64>) -> bool {
        &&& self.prefix@.len() == ids.len() + 1
        &&& self.powers@.len() == ids.len() + 1
        &&& forall|i: int| 0 <= i <= ids.len() ==> self.prefix@[i] == prefix_hash(ids, i)
        &&& forall|i: int| 0 <= i <= ids.len() ==> self.powers@[i] == base_power(i)
    }

    /// Prefix hashes of `tokens`.
    pub fn new(tokens: &[Token]) -> (r: Self)
        requires
            tokens@.len() < usize::MAX,
        ensures
            r.of(ids(tokens@)),
    {
        let ghost g = ids(tokens@);
        let mut prefix: Vec<u64> = Vec::new();
        let mut powers: Vec<u64> = Vec::new();
        prefix.push(0u64);
        powers.push(1u64);
        proof {
            reveal(prefix_hash);
            reveal(base_power);
        }
        let mut i: usize = 0;
        while i < tokens.len()
            invariant
                g == ids(tokens@),
                g.len() == tokens@.len(),
                tokens@.len() < usize::MAX,
                0 <= i <= tokens@.len(),
                prefix@.len() == i + 1,
                powers@.len() == i + 1,
                forall|j: int| 0 <= j <= i ==> prefix@[j] == prefix_hash(g, j),
                forall|j: int| 0 <= j <= i ==> powers@[j] == base_power(j),
            decreases tokens@.len() - i,
        {
            let last = prefix[i];
            let id = stable_token_hash(tokens[i].id);
            let mul = last.wrapping_mul(HASH_BASE);
            let next = mul.wrapping_add(id);
            let p = powers[i];
            let q = p.wrapping_mul(HASH_BASE);
            proof {
                assert(g[i as int] == tokens@[i as int].id);
                lemma_hash_steps(g, i as int);
            }
            prefix.push(next);
            powers.push(q);
            i = i + 1;
        }
        RollingHashes { prefix, powers }
    }

    /// The hash of the ids in `start..end`.
    pub fn range(&self, start: usize, end: usize, ids: Ghost<Seq<u64>>) -> (r: u64)
        requires
            self.of(ids@),
            start <= end <= ids@.len(),
        ensures
            r as int == window_hash(ids@, start as int, end as int),
    {
        let r = self.prefix[end].wrapping_sub(self.prefix[start].wrapping_mul(self.powers[end - start]));
        proof {
            let m = modulus();
            let pe = prefix_hash(ids@, end as int) as int;
            let ps = prefix_hash(ids@, start as int) as int;
            let w = base_power(end - start) as int;
            let h = window_hash(ids@, start as int, end as int);
            lemma_prefix_split(ids@, start as int, end as int);
            lemma_window_hash_bound(ids@, start as int, end as int);
            let mm = (ps * w) % m;
            lemma_mod_bound(ps * w, m);
            // r == (pe - mm) mod m
            assert(r as int == (pe - mm) % m) by {
                if pe - mm < 0 {
                    lemma_small_mod((pe - mm + m) as nat, m as nat);
                    vstd::arithmetic::div_mod::lemma_mod_add_multiples_vanish(pe - mm, m);
                } else {
                    lemma_small_mod((pe - mm) as nat, m as nat);
                }
            }
            // pe == (ps*w + h) % m, so pe - mm == h (mod m)
            lemma_sub_mod_noop(ps * w + h, ps * w, m);
            vstd::arithmetic::div_mod::lemma_mod_twice(ps * w + h, m);
            vstd::arithmetic::div_mod::lemma_mod_twice(ps * w, m);
            lemma_sub_mod_noop(pe, mm, m);
            lemma_small_mod(h as nat, m as nat);
            assert((ps * w + h) - ps * w == h);
        }
        r
    }
}


/// `left[a..a+len]` and `right[b..b+len]` exist and hold the same ids.
pub open spec fn window_equal(left: Seq<u64>, a: int, right: Seq<u64>, b: int, len: int) -> bool {
    0 <= a && 0 <= b && 0 <= len && a + len <= left.len() && b + len <= right.len()
        && left.subrange(a, a + len) == right.subrange(b, b + len)
}

/// The length of the longest common run of `left` from `a` and `right` from `b`.
pub open spec fn common_run(left: Seq<u64>, a: int, right: Seq<u64>, b: int) -> nat
    decreases left.len() - a,
{
    if 0 <= a < left.len() && 0 <= b < right.len() && left[a] == right[b] {
        1 + common_run(left, a + 1, right, b + 1)
    } else {
        0
    }
}

proof fn lemma_common_run(left: Seq<u64>, a: int, right: Seq<u64>, b: int, len: int)
    requires
        0 <= a <= left.len(),
        0 <= b <= right.len(),
        0 <= len,
    ensures
        window_equal(left, a, right, b, len) <==> len <= common_run(left, a, right, b),
        a + common_run(left, a, right, b) <= left.len(),
        b + common_run(left, a, right, b) <= right.len(),
    decreases left.len() - a,
{
    let run = common_run(left, a, right, b);
    if a < left.len() && b < right.len() && left[a] == right[b] {
        if len > 0 {
            lemma_common_run(left, a + 1, right, b + 1, len - 1);
            if window_equal(left, a, right, b, len) {
                assert(left.subrange(a + 1, a + len) =~= left.subrange(a, a + len).drop_first());
                assert(right.subrange(b + 1, b + len) =~= right.subrange(b, b + len).drop_first());
                assert(window_equal(left, a + 1, right, b + 1, len - 1));
            }
            if len <= run {
                assert(window_equal(left, a + 1, right, b + 1, len - 1));
                assert(left.subrange(a, a + len) =~= seq![left[a]] + left.subrange(a + 1, a + len));
                assert(right.subrange(b, b + len) =~= seq![right[b]] + right.subrange(b + 1, b + len));
            }
        } else {
            lemma_common_run(left, a + 1, right, b + 1, 0);
            assert(left.subrange(a, a) =~= right.subrange(b, b));
        }
    } else {
        assert(run == 0);
        if len > 0 && window_equal(left, a, right, b, len) {
            assert(left.subrange(a, a + len)[0] == right.subrange(b, b + len)[0]);
            assert(false);
        }
        if len == 0 {
            assert(left.subrange(a, a) =~= right.subrange(b, b));
        }
    }
}

proof fn lemma_window_hash_local(ids: Seq<u64>, start: int, end: int)
    requires
        0 <= start <= end <= ids.len(),
    ensures
        window_hash(ids, start, end) == window_hash(ids.subrange(start, end), 0, end - start),
    decreases end - start,
{
    if end > start {
        lemma_window_hash_local(ids, start, end - 1);
        let sub = ids.subrange(start, end);
        assert(sub.subrange(0, end - 1 - start) =~= ids.subrange(start, end - 1));
        lemma_window_hash_prefix(sub, end - 1 - start);
    }
}

proof fn lemma_window_hash_prefix(ids: Seq<u64>, n: int)
    requires
        0 <= n <= ids.len(),
    ensures
        window_hash(ids, 0, n) == window_hash(ids.subrange(0, n), 0, n),
    decreases n,
{
    if n > 0 {
        lemma_window_hash_prefix(ids, n - 1);
        let sub = ids.subrange(0, n);
        assert(sub.subrange(0, n - 1) =~= ids.subrange(0, n - 1));
        lemma_window_hash_prefix(sub, n - 1);
    }
}

/// Equal windows hash alike.
proof fn lemma_equal_windows_hash(left: Seq<u64>, a: int, right: Seq<u64>, b: int, len: int)
    requires
        window_equal(left, a, right, b, len),
    ensures
        window_hash(left, a, a + len) == window_hash(right, b, b + len),
{
    lemma_window_hash_local(left, a, a + len);
    lemma_window_hash_local(right, b, b + len);
}

/// Whether `left[a..a+len]` and `right[b..b+len]` hold the same ids.
pub fn tokens_equal(left: &[Token], a: usize, right: &[Token], b: usize, len: usize) -> (r: bool)
    requires
        a + len <= left@.len(),
        b + len <= right@.len(),
    ensures
        r == window_equal(ids(left@), a as int, ids(right@), b as int, len as int),
{
    let ghost l = ids(left@);
    let ghost rr = ids(right@);
    let mut k: usize = 0;
    while k < len
        invariant
            l == ids(left@),
            rr == ids(right@),
            a + len <= left.len(),
            b + len <= right.len(),
            left.len() == left@.len(),
            right.len() == right@.len(),
            0 <= k <= len,
            forall|j: int| 0 <= j < k ==> #[trigger] l.subrange(a as int, a + len)[j] == rr.subrange(b as int, b + len)[j],
        decreases len - k,
    {
        if left[a + k].id != right[b + k].id {
            assert(l.subrange(a as int, a + len)[k as int] != rr.subrange(b as int, b + len)[k as int]);
            return false;
        }
        assert(l.subrange(a as int, a + len)[k as int] == rr.subrange(b as int, b + len)[k as int]);
        k = k + 1;
    }
    assert(l.subrange(a as int, a + len) =~= rr.subrange(b as int, b + len));
    true
}

/// The length of the longest common run of `left` from `a` and `right` from
/// `b`, found by binary search over hashed prefixes (each probe confirmed
/// token by token); the two streams agree on their first `MIN_TOKENS` ids.
pub fn longest_common_span(
    left: &[Token],
    right: &[Token],
    left_hashes: &RollingHashes,
    right_hashes: &RollingHashes,
    left_start: usize,
    right_start: usize,
) -> (r: usize)
    requires
        left_hashes.of(ids(left@)),
        right_hashes.of(ids(right@)),
        window_equal(ids(left@), left_start as int, ids(right@), right_start as int, MIN_TOKENS as int),
    ensures
        r == common_run(ids(left@), left_start as int, ids(right@), right_start as int),
{
    let ghost l = ids(left@);
    let ghost rr = ids(right@);
    let ghost run = common_run(l, left_start as int, rr, right_start as int);
    proof {
        lemma_common_run(l, left_start as int, rr, right_start as int, MIN_TOKENS as int);
        lemma_common_run(l, left_start as int, rr, right_start as int, 0);
    }
    let a_room = left.len() - left_start;
    let b_room = right.len() - right_start;
    let max_length: usize = if a_room < b_room {
        a_room
    } else {
        b_room
    };
    let mut low: usize = MIN_TOKENS;
    let mut high: usize = max_length;
    while low < high
        invariant
            l == ids(left@),
            rr == ids(right@),
            left_hashes.of(l),
            right_hashes.of(rr),
            run == common_run(l, left_start as int, rr, right_start as int),
            left_start + max_length <= left.len(),
            right_start + max_length <= right.len(),
            left.len() == left@.len(),
            right.len() == right@.len(),
            MIN_TOKENS <= low <= run <= high <= max_length,
        decreases high - low,
    {
        let gap = high - low;
        let middle = low + (gap / 2 + gap % 2);
        let lh = left_hashes.range(left_start, left_start + middle, Ghost(l));
        let rh = right_hashes.range(right_start, right_start + middle, Ghost(rr));
        let equal = lh == rh && tokens_equal(left, left_start, right, right_start, middle);
        proof {
            lemma_common_run(l, left_start as int, rr, right_start as int, middle as int);
            if window_equal(l, left_start as int, rr, right_start as int, middle as int) {
                lemma_equal_windows_hash(l, left_start as int, rr, right_start as int, middle as int);
            }
        }
        if equal {
            low = middle;
        } else {
            high = middle - 1;
        }
    }
    proof {
        lemma_common_run(l, left_start as int, rr, right_start as int, low as int);
    }
    while low > MIN_TOKENS && !tokens_equal(left, left_start, right, right_start, low)
        invariant
            l == ids(left@),
            rr == ids(right@),
            left_start + max_length <= left.len(),
            right_start + max_length <= right.len(),
            left.len() == left@.len(),
            right.len() == right@.len(),
            MIN_TOKENS <= low <= max_length,
            low == run,
            run == common_run(l, left_start as int, rr, right_start as int),
        decreases low,
    {
        proof {
            lemma_common_run(l, left_start as int, rr, right_start as int, low as int);
        }
        low = low - 1;
    }
    if tokens_equal(left, left_start, right, right_start, low) {
        low
    } else {
        proof {
            lemma_common_run(l, left_start as int, rr, right_start as int, low as int);
        }
        0
    }
}

/// `positions` lists, in increasing order, exactly the indices below `n` at
/// which `keys` holds `h`.
pub open spec fn lists_positions(positions: Seq<usize>, keys: Seq<u64>, h: u64, n: int) -> bool {
    &&& forall|i: int, j: int| 0 <= i < j < positions.len() ==> positions[i] < positions[j]
    &&& forall|i: int|
        0 <= i < positions.len() ==> positions[i] < n && keys[positions[i] as int] == h
    &&& forall|p: int| 0 <= p < n && keys[p] == h ==> positions.contains(p as usize)
}

/// `index` maps each key among the first `n` entries of `keys` to the
/// positions that hold it.
pub open spec fn indexes(index: Map<u64, Vec<usize>>, keys: Seq<u64>, n: int) -> bool {
    &&& forall|h: u64| #[trigger] index.contains_key(h) ==> lists_positions(index[h]@, keys, h, n)
    &&& forall|p: int| 0 <= p < n ==> #[trigger] index.contains_key(keys[p])
}

/// Groups the positions of `keys` by key.
fn index_positions(keys: &Vec<u64>) -> (r: HashMap<u64, Vec<usize>>)
    ensures
        indexes(r@, keys@, keys@.len() as int),
{
    let mut index: HashMap<u64, Vec<usize>> = HashMap::new();
    let mut i: usize = 0;
    while i < keys.len()
        invariant
            0 <= i <= keys@.len(),
            indexes(index@, keys@, i as int),
        decreases keys@.len() - i,
    {
        let k = keys[i];
        let ghost before = index@;
        let removed = index.remove(&k);
        let mut bucket: Vec<usize> = match removed {
            Some(b) => b,
            None => Vec::new(),
        };
        let ghost old_bucket = bucket@;
        proof {
            if before.contains_key(k) {
                assert(old_bucket == before[k]@);
            } else {
                assert(forall|p: int| 0 <= p < i ==> keys@[p] != k);
                assert(old_bucket.len() == 0);
            }
        }
        bucket.push(i);
        index.insert(k, bucket);
        proof {
            assert(index@ == before.insert(k, bucket));
            assert forall|h: u64| #[trigger] index@.contains_key(h) implies lists_positions(
                index@[h]@,
                keys@,
                h,
                i + 1,
            ) by {
                if h == k {
                    let b = index@[h]@;
                    assert(b == old_bucket.push(i));
                    assert forall|p: int| 0 <= p < i + 1 && keys@[p] == h implies b.contains(
                        p as usize,
                    ) by {
                        if p == i {
                            assert(b[b.len() - 1] == i);
                        } else {
                            let q = choose|q: int| 0 <= q < old_bucket.len() && old_bucket[q] == p as usize;
                            assert(b[q] == p as usize);
                        }
                    }
                } else {
                    assert(before.contains_key(h));
                    assert(index@[h] == before[h]);
                }
            }
        }
        i = i + 1;
    }
    index
}

/// The last line a ten-line window starting at token `s` has to reach.
pub open spec fn min_end_line(tokens: Seq<Token>, s: int) -> int {
    tokens[s].start_line + MIN_LINES - 1
}

/// Whether every token's start line leaves room for a ten-line window.
pub open spec fn lines_fit(tokens: Seq<Token>) -> bool {
    forall|k: int| 0 <= k < tokens.len() ==> #[trigger] tokens[k].start_line + MIN_LINES <= usize::MAX
}

/// The first index from `e` on whose token ends on or after line `m`, or
/// the length of `tokens` when none does.
pub open spec fn reach(tokens: Seq<Token>, e: int, m: int) -> int
    decreases tokens.len() - e,
{
    if e < 0 || e >= tokens.len() || tokens[e].end_line >= m {
        e
    } else {
        reach(tokens, e + 1, m)
    }
}

/// Where the window scan ends for start `s`: it goes on from where the scan
/// for `s - 1` ended (or from `s`, if that is further), never back.
pub open spec fn scan_end(tokens: Seq<Token>, s: int) -> int
    decreases s,
{
    if s <= 0 {
        reach(tokens, 0, min_end_line(tokens, 0))
    } else {
        let prev = scan_end(tokens, s - 1);
        reach(tokens, if prev > s { prev } else { s }, min_end_line(tokens, s))
    }
}

/// The line windows `(start, end)` of the first `s` starts: a start yields a
/// window when its scan ends inside the stream.
pub open spec fn line_windows_upto(tokens: Seq<Token>, s: int) -> Seq<(usize, usize)>
    decreases s,
{
    if s <= 0 {
        Seq::empty()
    } else {
        let prev = line_windows_upto(tokens, s - 1);
        let e = scan_end(tokens, s - 1);
        if e < tokens.len() {
            prev.push(((s - 1) as usize, (e + 1) as usize))
        } else {
            prev
        }
    }
}

/// The windows of `tokens` that span at least `MIN_LINES` lines, each ending
/// at the first token that reaches that far.
pub open spec fn line_windows_of(tokens: Seq<Token>) -> Seq<(usize, usize)> {
    line_windows_upto(tokens, tokens.len() as int)
}

proof fn lemma_reach_bounds(tokens: Seq<Token>, e: int, m: int)
    requires
        0 <= e <= tokens.len(),
    ensures
        e <= reach(tokens, e, m) <= tokens.len(),
        reach(tokens, e, m) < tokens.len() ==> tokens[reach(tokens, e, m)].end_line >= m,
    decreases tokens.len() - e,
{
    if e < tokens.len() && tokens[e].end_line < m {
        lemma_reach_bounds(tokens, e + 1, m);
    }
}

proof fn lemma_scan_end_bounds(tokens: Seq<Token>, s: int)
    requires
        0 <= s < tokens.len(),
    ensures
        s <= scan_end(tokens, s) <= tokens.len(),
    decreases s,
{
    if s == 0 {
        lemma_reach_bounds(tokens, 0, min_end_line(tokens, 0));
    } else {
        lemma_scan_end_bounds(tokens, s - 1);
        let prev = scan_end(tokens, s - 1);
        lemma_reach_bounds(tokens, if prev > s { prev } else { s }, min_end_line(tokens, s));
    }
}

proof fn lemma_line_windows_valid(tokens: Seq<Token>, s: int)
    requires
        0 <= s <= tokens.len(),
        tokens.len() < usize::MAX,
    ensures
        forall|k: int|
            0 <= k < line_windows_upto(tokens, s).len() ==> {
                let w = #[trigger] line_windows_upto(tokens, s)[k];
                w.0 < w.1 <= tokens.len()
            },
    decreases s,
{
    if s > 0 {
        lemma_line_windows_valid(tokens, s - 1);
        lemma_scan_end_bounds(tokens, s - 1);
        let prev = line_windows_upto(tokens, s - 1);
        let e = scan_end(tokens, s - 1);
        if e < tokens.len() {
            let w = ((s - 1) as usize, (e + 1) as usize);
            assert(w.0 == s - 1 && w.1 == e + 1);
            assert(line_windows_upto(tokens, s) == prev.push(w));
        }
    }
}

/// Appends to `windows` each window of `tokens` that spans `MIN_LINES`
/// lines, by start.
fn line_windows(tokens: &[Token], windows: &mut Vec<(usize, usize)>)
    requires
        lines_fit(tokens@),
    ensures
        final(windows)@ == old(windows)@ + line_windows_of(tokens@),
{
    let n = tokens.len();
    let mut end: usize = 0;
    let mut start: usize = 0;
    while start < n
        invariant
            n == tokens@.len(),
            lines_fit(tokens@),
            0 <= start <= n,
            start == 0 ==> end == 0,
            start > 0 ==> end == scan_end(tokens@, start - 1),
            end <= n,
            windows@ == old(windows)@ + line_windows_upto(tokens@, start as int),
        decreases n - start,
    {
        if end < start {
            end = start;
        }
        let ghost e0 = end as int;
        let minimum_end_line = tokens[start].start_line + MIN_LINES - 1;
        proof {
            if start > 0 {
                lemma_scan_end_bounds(tokens@, start - 1);
            }
            assert(minimum_end_line == min_end_line(tokens@, start as int));
        }
        while end < n && tokens[end].end_line < minimum_end_line
            invariant
                n == tokens@.len(),
                e0 <= end <= n,
                reach(tokens@, end as int, minimum_end_line as int) == reach(
                    tokens@,
                    e0,
                    minimum_end_line as int,
                ),
            decreases n - end,
        {
            end = end + 1;
        }
        proof {
            assert(end as int == reach(tokens@, e0, minimum_end_line as int));
            assert(end as int == scan_end(tokens@, start as int));
        }
        if end < n {
            windows.push((start, end + 1));
        }
        proof {
            assert(windows@ =~= old(windows)@ + line_windows_upto(tokens@, start + 1));
        }
        start = start + 1;
    }
}

/// A clone found between two token streams.
#[derive(Clone, Copy, Debug)]
pub struct Match {
    pub left_start: usize,
    pub right_start: usize,
    pub length: usize,
}

/// A clone seed: `left` from `a` and `right` from `b` agree on a whole
/// window of `MIN_TOKENS` ids.
pub open spec fn seed(left: Seq<u64>, a: int, right: Seq<u64>, b: int) -> bool {
    window_equal(left, a, right, b, MIN_TOKENS as int)
}

/// `(a1, b1)` comes before `(a2, b2)`: by left start, then right start.
pub open spec fn before(a1: int, b1: int, a2: int, b2: int) -> bool {
    a1 < a2 || (a1 == a2 && b1 < b2)
}

/// Among the seeds before `(ua, ub)`, `(a, b)` has the longest common run,
/// and it is the first seed with a run that long.
pub open spec fn best_seed_before(
    left: Seq<u64>,
    right: Seq<u64>,
    a: int,
    b: int,
    ua: int,
    ub: int,
) -> bool {
    &&& seed(left, a, right, b)
    &&& before(a, b, ua, ub)
    &&& forall|a2: int, b2: int|
        #![trigger seed(left, a2, right, b2)]
        seed(left, a2, right, b2) && before(a2, b2, ua, ub) ==> common_run(left, a2, right, b2)
            <= common_run(left, a, right, b)
    &&& forall|a2: int, b2: int|
        #![trigger seed(left, a2, right, b2)]
        seed(left, a2, right, b2) && before(a2, b2, a, b) ==> common_run(left, a2, right, b2)
            < common_run(left, a, right, b)
}

/// Whether `left` and `right` share any seed.
pub open spec fn has_seed(left: Seq<u64>, right: Seq<u64>) -> bool {
    exists|a: int, b: int| seed(left, a, right, b)
}

/// `(a, b)` is the seed with the longest common run, the first such in
/// order of left start, then right start.
pub open spec fn longest_seed(left: Seq<u64>, right: Seq<u64>, a: int, b: int) -> bool {
    best_seed_before(left, right, a, b, left.len() as int, 0)
}

/// The `i`-th line window of `left` and the `j`-th of `right` are equally
/// long and hold the same ids.
pub open spec fn windows_match(left: Seq<Token>, right: Seq<Token>, i: int, j: int) -> bool {
    let lw = line_windows_of(left);
    let rw = line_windows_of(right);
    &&& 0 <= i < lw.len()
    &&& 0 <= j < rw.len()
    &&& lw[i].1 - lw[i].0 == rw[j].1 - rw[j].0
    &&& window_equal(ids(left), lw[i].0 as int, ids(right), rw[j].0 as int, lw[i].1 - lw[i].0)
}

/// `(i, j)` is the first pair of matching line windows: by left window, then
/// right window.
pub open spec fn first_windows_match(left: Seq<Token>, right: Seq<Token>, i: int, j: int) -> bool {
    &&& windows_match(left, right, i, j)
    &&& forall|i2: int, j2: int|
        #![trigger windows_match(left, right, i2, j2)]
        0 <= i2 < i ==> !windows_match(left, right, i2, j2)
    &&& forall|j2: int| 0 <= j2 < j ==> !#[trigger] windows_match(left, right, i, j2)
}

/// The clone reported between two token streams: the longest seeded clone
/// if there is a seed, otherwise the first pair of matching line windows.
pub open spec fn reported_clone(left: Seq<Token>, right: Seq<Token>, m: Match) -> bool {
    let l = ids(left);
    let r = ids(right);
    if has_seed(l, r) {
        &&& longest_seed(l, r, m.left_start as int, m.right_start as int)
        &&& m.length == common_run(l, m.left_start as int, r, m.right_start as int)
    } else {
        exists|i: int, j: int|
            #![trigger windows_match(left, right, i, j)]
            first_windows_match(left, right, i, j) && m.left_start == line_windows_of(left)[i].0
                && m.right_start == line_windows_of(right)[j].0 && m.length
                == line_windows_of(left)[i].1 - line_windows_of(left)[i].0
    }
}

/// Whether some pair of line windows matches.
pub open spec fn has_windows_match(left: Seq<Token>, right: Seq<Token>) -> bool {
    exists|i: int, j: int| windows_match(left, right, i, j)
}

/// The state of the seed search once every seed before `(ua, ub)` is seen.
pub open spec fn seed_search(
    left: Seq<u64>,
    right: Seq<u64>,
    best: Option<Match>,
    ua: int,
    ub: int,
) -> bool {
    match best {
        None => forall|a2: int, b2: int|
            #![trigger seed(left, a2, right, b2)]
            seed(left, a2, right, b2) ==> !before(a2, b2, ua, ub),
        Some(m) => best_seed_before(left, right, m.left_start as int, m.right_start as int, ua, ub)
            && m.length == common_run(left, m.left_start as int, right, m.right_start as int),
    }
}

/// The token streams a clone search can take.
pub open spec fn searchable(tokens: Seq<Token>) -> bool {
    tokens.len() < usize::MAX && lines_fit(tokens)
}

proof fn lemma_position_between(positions: Seq<usize>, x: usize, k: int)
    requires
        forall|i: int, j: int| 0 <= i < j < positions.len() ==> positions[i] < positions[j],
        0 <= k <= positions.len(),
        k == 0 || positions[k - 1] < x,
        k == positions.len() || x < positions[k],
    ensures
        !positions.contains(x),
{
    if positions.contains(x) {
        let m = choose|m: int| 0 <= m < positions.len() && positions[m] == x;
        if m < k {
            if m < k - 1 {
                assert(positions[m] < positions[k - 1]);
            }
        } else {
            if m > k {
                assert(positions[k] < positions[m]);
            }
        }
    }
}

proof fn lemma_seed_listed(l: Seq<u64>, r: Seq<u64>, keys: Seq<u64>, starts: Seq<usize>, a: int, h: u64)
    requires
        keys.len() + MIN_TOKENS == r.len() + 1,
        forall|p: int| 0 <= p < keys.len() ==> keys[p] as int == window_hash(r, p, p + MIN_TOKENS),
        h as int == window_hash(l, a, a + MIN_TOKENS),
        lists_positions(starts, keys, h, keys.len() as int),
    ensures
        forall|b2: int| #[trigger] seed(l, a, r, b2) ==> starts.contains(b2 as usize),
{
    assert forall|b2: int| #[trigger] seed(l, a, r, b2) implies starts.contains(b2 as usize) by {
        lemma_equal_windows_hash(l, a, r, b2, MIN_TOKENS as int);
        assert(keys[b2] as int == window_hash(r, b2, b2 + MIN_TOKENS));
    }
}

proof fn lemma_seed_search_widen(l: Seq<u64>, r: Seq<u64>, best: Option<Match>, a: int, ub: int, ub2: int)
    requires
        seed_search(l, r, best, a, ub),
        ub <= ub2,
        forall|b2: int| #[trigger] seed(l, a, r, b2) ==> !(ub <= b2 < ub2),
    ensures
        seed_search(l, r, best, a, ub2),
{
}

proof fn lemma_seed_search_step(l: Seq<u64>, r: Seq<u64>, best: Option<Match>, a: int, ub: int)
    requires
        seed_search(l, r, best, a, ub),
        forall|b2: int| #[trigger] seed(l, a, r, b2) ==> b2 < ub,
    ensures
        seed_search(l, r, best, a + 1, 0),
{
}

proof fn lemma_seed_search_extend(l: Seq<u64>, r: Seq<u64>, best: Option<Match>, a: int, b: int, next: int)
    requires
        seed_search(l, r, best, a, b),
        b < next,
        forall|b2: int| #[trigger] seed(l, a, r, b2) ==> !(b < b2 < next),
        seed(l, a, r, b) ==> best is Some && common_run(l, a, r, b) <= best->0.length,
    ensures
        seed_search(l, r, best, a, next),
{
}

proof fn lemma_seed_search_replace(
    l: Seq<u64>,
    r: Seq<u64>,
    best: Option<Match>,
    a: int,
    b: int,
    next: int,
    m: Match,
)
    requires
        seed_search(l, r, best, a, b),
        b < next,
        forall|b2: int| #[trigger] seed(l, a, r, b2) ==> !(b < b2 < next),
        seed(l, a, r, b),
        m.left_start == a,
        m.right_start == b,
        m.length == common_run(l, a, r, b),
        best is Some ==> common_run(l, a, r, b) > best->0.length,
    ensures
        seed_search(l, r, Some(m), a, next),
{
}

proof fn lemma_seed_search_done(l: Seq<u64>, r: Seq<u64>, best: Option<Match>)
    requires
        l.len() >= MIN_TOKENS,
        seed_search(l, r, best, l.len() - MIN_TOKENS + 1, 0),
    ensures
        match best {
            Some(m) => has_seed(l, r) && longest_seed(l, r, m.left_start as int, m.right_start as int)
                && m.length == common_run(l, m.left_start as int, r, m.right_start as int),
            None => !has_seed(l, r),
        },
{
    match best {
        Some(m) => {
            assert(seed(l, m.left_start as int, r, m.right_start as int));
        },
        None => {},
    }
}

/// The clone reported between two token streams, if any.
pub open spec fn clone_between(left: Seq<Token>, right: Seq<Token>) -> Option<Match> {
    if exists|m: Match| reported_clone(left, right, m) {
        Some(choose|m: Match| reported_clone(left, right, m))
    } else {
        None
    }
}

/// At most one clone is reported between two streams.
pub proof fn lemma_reported_unique(left: Seq<Token>, right: Seq<Token>, m1: Match, m2: Match)
    requires
        reported_clone(left, right, m1),
        reported_clone(left, right, m2),
    ensures
        m1 == m2,
{
    let l = ids(left);
    let r = ids(right);
    if has_seed(l, r) {
        let (a1, b1) = (m1.left_start as int, m1.right_start as int);
        let (a2, b2) = (m2.left_start as int, m2.right_start as int);
        assert(seed(l, a1, r, b1) && seed(l, a2, r, b2));
        if before(a1, b1, a2, b2) {
            assert(common_run(l, a1, r, b1) < common_run(l, a2, r, b2));
            assert(before(a2, b2, l.len() as int, 0));
        } else if before(a2, b2, a1, b1) {
            assert(common_run(l, a2, r, b2) < common_run(l, a1, r, b1));
            assert(before(a1, b1, l.len() as int, 0));
        }
    } else {
        let (i1, j1) = choose|i: int, j: int|
            #![trigger windows_match(left, right, i, j)]
            first_windows_match(left, right, i, j) && m1.left_start == line_windows_of(left)[i].0
                && m1.right_start == line_windows_of(right)[j].0 && m1.length
                == line_windows_of(left)[i].1 - line_windows_of(left)[i].0;
        let (i2, j2) = choose|i: int, j: int|
            #![trigger windows_match(left, right, i, j)]
            first_windows_match(left, right, i, j) && m2.left_start == line_windows_of(left)[i].0
                && m2.right_start == line_windows_of(right)[j].0 && m2.length
                == line_windows_of(left)[i].1 - line_windows_of(left)[i].0;
        if i1 < i2 {
            assert(!windows_match(left, right, i1, j1));
        } else if i2 < i1 {
            assert(!windows_match(left, right, i2, j2));
        } else if j1 < j2 {
            assert(!windows_match(left, right, i2, j1));
        } else if j2 < j1 {
            assert(!windows_match(left, right, i1, j2));
        }
    }
}

/// A reported clone lies inside both streams and has at least one token.
pub proof fn lemma_reported_bounds(left: Seq<Token>, right: Seq<Token>, m: Match)
    requires
        reported_clone(left, right, m),
        left.len() < usize::MAX,
        right.len() < usize::MAX,
    ensures
        1 <= m.length,
        m.left_start + m.length <= left.len(),
        m.right_start + m.length <= right.len(),
{
    let l = ids(left);
    let r = ids(right);
    if has_seed(l, r) {
        lemma_common_run(l, m.left_start as int, r, m.right_start as int, MIN_TOKENS as int);
    } else {
        let (i, j) = choose|i: int, j: int|
            #![trigger windows_match(left, right, i, j)]
            first_windows_match(left, right, i, j) && m.left_start == line_windows_of(left)[i].0
                && m.right_start == line_windows_of(right)[j].0 && m.length
                == line_windows_of(left)[i].1 - line_windows_of(left)[i].0;
        lemma_line_windows_valid(left, left.len() as int);
        lemma_line_windows_valid(right, right.len() as int);
        assert(line_windows_of(left)[i].0 < line_windows_of(left)[i].1 <= left.len());
        assert(line_windows_of(right)[j].0 < line_windows_of(right)[j].1 <= right.len());
    }
}

/// Finds the clone between two token streams: the longest clone grown from
/// a seed of `MIN_TOKENS` equal ids, or failing a seed the first pair of
/// equal windows spanning `MIN_LINES` lines.
pub fn find_match(left: &[Token], right: &[Token]) -> (r: Option<Match>)
    requires
        searchable(left@),
        searchable(right@),
    ensures
        r == clone_between(left@, right@),
{
    let seeded = find_seed(left, right);
    let r = match seeded {
        Some(m) => Some(m),
        None => find_window_match(left, right),
    };
    proof {
        match r {
            Some(m) => {
                assert(reported_clone(left@, right@, m));
                let c = choose|c: Match| reported_clone(left@, right@, c);
                lemma_reported_unique(left@, right@, m, c);
            },
            None => {
                assert forall|m: Match| !reported_clone(left@, right@, m) by {
                    if reported_clone(left@, right@, m) {
                        let (i, j) = choose|i: int, j: int|
                            #![trigger windows_match(left@, right@, i, j)]
                            first_windows_match(left@, right@, i, j) && m.left_start == line_windows_of(left@)[i].0
                                && m.right_start == line_windows_of(right@)[j].0 && m.length
                                == line_windows_of(left@)[i].1 - line_windows_of(left@)[i].0;
                        assert(windows_match(left@, right@, i, j));
                    }
                }
            },
        }
    }
    r
}

/// The longest seeded clone, if any seed exists.
fn find_seed(left: &[Token], right: &[Token]) -> (r: Option<Match>)
    requires
        searchable(left@),
        searchable(right@),
    ensures
        match r {
            Some(m) => has_seed(ids(left@), ids(right@)) && reported_clone(left@, right@, m),
            None => !has_seed(ids(left@), ids(right@)),
        },
{
    let ghost l = ids(left@);
    let ghost rr = ids(right@);
    if left.len() < MIN_TOKENS || right.len() < MIN_TOKENS {
        proof {
            assert forall|a: int, b: int| !seed(l, a, rr, b) by {}
        }
        return None;
    }
    let left_hashes = RollingHashes::new(left);
    let right_hashes = RollingHashes::new(right);
    let last_right = right.len() - MIN_TOKENS;
    let mut keys: Vec<u64> = Vec::new();
    let mut s: usize = 0;
    while s <= last_right
        invariant
            rr == ids(right@),
            right.len() == right@.len(),
            last_right + MIN_TOKENS == right@.len(),
            right_hashes.of(rr),
            0 <= s <= last_right + 1,
            keys@.len() == s,
            forall|p: int| 0 <= p < s ==> keys@[p] as int == window_hash(rr, p, p + MIN_TOKENS),
        decreases last_right + 1 - s,
    {
        let h = right_hashes.range(s, s + MIN_TOKENS, Ghost(rr));
        keys.push(h);
        s = s + 1;
    }
    let index = index_positions(&keys);
    let mut best: Option<Match> = None;
    let last_left = left.len() - MIN_TOKENS;
    let mut a: usize = 0;
    while a <= last_left
        invariant
            l == ids(left@),
            rr == ids(right@),
            left.len() == left@.len(),
            right.len() == right@.len(),
            last_left + MIN_TOKENS == left@.len(),
            last_right + MIN_TOKENS == right@.len(),
            left_hashes.of(l),
            right_hashes.of(rr),
            keys@.len() == last_right + 1,
            forall|p: int| 0 <= p <= last_right ==> keys@[p] as int == window_hash(rr, p, p + MIN_TOKENS),
            indexes(index@, keys@, keys@.len() as int),
            0 <= a <= last_left + 1,
            seed_search(l, rr, best, a as int, 0),
        decreases last_left + 1 - a,
    {
        let hash = left_hashes.range(a, a + MIN_TOKENS, Ghost(l));
        let found = index.get(&hash);
        match found {
            None => {
                proof {
                    assert forall|a2: int, b2: int|
                        seed(l, a2, rr, b2) && a2 == a implies false by {
                        lemma_equal_windows_hash(l, a2, rr, b2, MIN_TOKENS as int);
                        assert(keys@[b2] as int == window_hash(rr, b2, b2 + MIN_TOKENS));
                        assert(index@.contains_key(keys@[b2]));
                    }
                    lemma_seed_search_step(l, rr, best, a as int, 0);
                }
            },
            Some(starts) => {
                let ghost h = hash;
                proof {
                    assert(index@.contains_key(h) && index@[h] == *starts);
                    assert(lists_positions(starts@, keys@, h, keys@.len() as int));
                }
                let mut k: usize = 0;
                proof {
                    lemma_seed_listed(l, rr, keys@, starts@, a as int, h);
                    let first: int = if starts@.len() > 0 { starts@[0] as int } else { rr.len() as int };
                    assert forall|b2: int| seed(l, a as int, rr, b2) implies !(0 <= b2 < first) by {
                        if 0 <= b2 < first {
                            lemma_position_between(starts@, b2 as usize, 0);
                        }
                    }
                    lemma_seed_search_widen(l, rr, best, a as int, 0, first);
                }
                while k < starts.len()
                    invariant
                        l == ids(left@),
                        rr == ids(right@),
                        left.len() == left@.len(),
                        right.len() == right@.len(),
                        last_left + MIN_TOKENS == left@.len(),
                        last_right + MIN_TOKENS == right@.len(),
                        left_hashes.of(l),
                        right_hashes.of(rr),
                        keys@.len() == last_right + 1,
                        a <= last_left,
                        lists_positions(starts@, keys@, h, keys@.len() as int),
                        h as int == window_hash(l, a as int, a + MIN_TOKENS),
                        forall|b2: int| #[trigger] seed(l, a as int, rr, b2) ==> starts@.contains(b2 as usize),
                        0 <= k <= starts@.len(),
                        seed_search(
                            l,
                            rr,
                            best,
                            a as int,
                            if k < starts@.len() { starts@[k as int] as int } else { rr.len() as int },
                        ),
                    decreases starts@.len() - k,
                {
                    let b = starts[k];
                    let ghost next: int = if k + 1 < starts@.len() { starts@[k + 1] as int } else { rr.len() as int };
                    proof {
                        assert(b <= last_right);
                        assert forall|b2: int| seed(l, a as int, rr, b2) implies !(b < b2 < next) by {
                            if b < b2 < next {
                                lemma_position_between(starts@, b2 as usize, k + 1);
                            }
                        }
                    }
                    if tokens_equal(left, a, right, b, MIN_TOKENS) {
                        let length = longest_common_span(left, right, &left_hashes, &right_hashes, a, b);
                        let better = match &best {
                            None => true,
                            Some(current) => length > current.length,
                        };
                        if better {
                            let m = Match { left_start: a, right_start: b, length };
                            proof {
                                lemma_seed_search_replace(l, rr, best, a as int, b as int, next, m);
                            }
                            best = Some(m);
                        } else {
                            proof {
                                lemma_seed_search_extend(l, rr, best, a as int, b as int, next);
                            }
                        }
                    } else {
                        proof {
                            lemma_seed_search_extend(l, rr, best, a as int, b as int, next);
                        }
                    }
                    k = k + 1;
                }
                proof {
                    lemma_seed_search_step(l, rr, best, a as int, rr.len() as int);
                }
            },
        }
        a = a + 1;
    }
    proof {
        lemma_seed_search_done(l, rr, best);
    }
    best
}

/// The first pair of equal line windows, by left window then right window.
fn find_window_match(left: &[Token], right: &[Token]) -> (r: Option<Match>)
    requires
        searchable(left@),
        searchable(right@),
    ensures
        match r {
            Some(m) => exists|i: int, j: int|
                #![trigger windows_match(left@, right@, i, j)]
                first_windows_match(left@, right@, i, j) && m.left_start == line_windows_of(
                    left@,
                )[i].0 && m.right_start == line_windows_of(right@)[j].0 && m.length
                    == line_windows_of(left@)[i].1 - line_windows_of(left@)[i].0,
            None => !has_windows_match(left@, right@),
        },
{
    let ghost l = ids(left@);
    let ghost rr = ids(right@);
    let mut left_windows: Vec<(usize, usize)> = Vec::new();
    let mut right_windows: Vec<(usize, usize)> = Vec::new();
    line_windows(left, &mut left_windows);
    line_windows(right, &mut right_windows);
    let ghost lw = line_windows_of(left@);
    let ghost rw = line_windows_of(right@);
    proof {
        assert(left_windows@ =~= lw);
        assert(right_windows@ =~= rw);
        lemma_line_windows_valid(left@, left@.len() as int);
        lemma_line_windows_valid(right@, right@.len() as int);
    }
    let left_hashes = RollingHashes::new(left);
    let right_hashes = RollingHashes::new(right);
    let mut keys: Vec<u64> = Vec::new();
    let mut j: usize = 0;
    while j < right_windows.len()
        invariant
            rr == ids(right@),
            right.len() == right@.len(),
            right_hashes.of(rr),
            right_windows@ == rw,
            forall|k: int| #![trigger rw[k]] 0 <= k < rw.len() ==> rw[k].0 < rw[k].1 <= right@.len(),
            0 <= j <= rw.len(),
            keys@.len() == j,
            forall|p: int| 0 <= p < j ==> keys@[p] as int == window_hash(rr, rw[p].0 as int, rw[p].1 as int),
        decreases rw.len() - j,
    {
        let w = right_windows[j];
        proof {
            assert(rw[j as int].0 < rw[j as int].1 <= right@.len());
        }
        let h = right_hashes.range(w.0, w.1, Ghost(rr));
        keys.push(h);
        j = j + 1;
    }
    let index = index_positions(&keys);
    let mut i: usize = 0;
    while i < left_windows.len()
        invariant
            l == ids(left@),
            rr == ids(right@),
            left.len() == left@.len(),
            right.len() == right@.len(),
            left_hashes.of(l),
            left_windows@ == lw,
            right_windows@ == rw,
            lw == line_windows_of(left@),
            rw == line_windows_of(right@),
            forall|k: int| #![trigger lw[k]] 0 <= k < lw.len() ==> lw[k].0 < lw[k].1 <= left@.len(),
            forall|k: int| #![trigger rw[k]] 0 <= k < rw.len() ==> rw[k].0 < rw[k].1 <= right@.len(),
            keys@.len() == rw.len(),
            rw.len() <= usize::MAX,
            forall|p: int| 0 <= p < rw.len() ==> keys@[p] as int == window_hash(rr, rw[p].0 as int, rw[p].1 as int),
            indexes(index@, keys@, keys@.len() as int),
            0 <= i <= lw.len(),
            forall|i2: int, j2: int|
                #![trigger windows_match(left@, right@, i2, j2)]
                0 <= i2 < i ==> !windows_match(left@, right@, i2, j2),
        decreases lw.len() - i,
    {
        let w = left_windows[i];
        proof {
            assert(lw[i as int].0 < lw[i as int].1 <= left@.len());
        }
        let hash = left_hashes.range(w.0, w.1, Ghost(l));
        let ghost h = hash;
        proof {
            assert forall|j2: int| #[trigger] windows_match(left@, right@, i as int, j2) implies index@.contains_key(h)
                && index@[h]@.contains(j2 as usize) by {
                let len = lw[i as int].1 - lw[i as int].0;
                lemma_equal_windows_hash(l, lw[i as int].0 as int, rr, rw[j2].0 as int, len);
                assert(keys@[j2] as int == window_hash(rr, rw[j2].0 as int, rw[j2].1 as int));
                assert(index@.contains_key(keys@[j2]));
            }
        }
        let found = index.get(&hash);
        match found {
            None => {},
            Some(candidates) => {
                proof {
                    assert(index@.contains_key(h) && index@[h] == *candidates);
                    assert(lists_positions(candidates@, keys@, h, keys@.len() as int));
                }
                let mut k: usize = 0;
                while k < candidates.len()
                    invariant
                        l == ids(left@),
                        rr == ids(right@),
                        left.len() == left@.len(),
                        right.len() == right@.len(),
                        left_windows@ == lw,
                        right_windows@ == rw,
                        lw == line_windows_of(left@),
                        rw == line_windows_of(right@),
                        i < lw.len(),
                        w == lw[i as int],
                        w.0 < w.1 <= left@.len(),
                        forall|k2: int| #![trigger rw[k2]] 0 <= k2 < rw.len() ==> rw[k2].0 < rw[k2].1 <= right@.len(),
                        keys@.len() == rw.len(),
                        lists_positions(candidates@, keys@, h, keys@.len() as int),
                        rw.len() <= usize::MAX,
                        forall|j2: int| #[trigger] windows_match(left@, right@, i as int, j2) ==> candidates@.contains(j2 as usize),
                        forall|i2: int, j2: int|
                            #![trigger windows_match(left@, right@, i2, j2)]
                            0 <= i2 < i ==> !windows_match(left@, right@, i2, j2),
                        0 <= k <= candidates@.len(),
                        forall|j2: int|
                            0 <= j2 < (if k < candidates@.len() { candidates@[k as int] as int } else { rw.len() as int })
                                ==> !#[trigger] windows_match(left@, right@, i as int, j2),
                    decreases candidates@.len() - k,
                {
                    let j = candidates[k];
                    let ghost next: int = if k + 1 < candidates@.len() { candidates@[k + 1] as int } else { rw.len() as int };
                    proof {
                        assert(j < rw.len());
                        assert(rw[j as int].0 < rw[j as int].1 <= right@.len());
                    }
                    let rwin = right_windows[j];
                    if rwin.1 - rwin.0 == w.1 - w.0 && tokens_equal(left, w.0, right, rwin.0, w.1 - w.0) {
                        proof {
                            assert(windows_match(left@, right@, i as int, j as int));
                            assert(first_windows_match(left@, right@, i as int, j as int));
                        }
                        return Some(Match { left_start: w.0, right_start: rwin.0, length: w.1 - w.0 });
                    }
                    proof {
                        assert(!windows_match(left@, right@, i as int, j as int));
                        assert forall|j2: int|
                            0 <= j2 < next implies !#[trigger] windows_match(left@, right@, i as int, j2) by {
                            if j < j2 < next && windows_match(left@, right@, i as int, j2) {
                                assert(j2 as usize == j2);
                                assert(candidates@[k as int] == j);
                                lemma_position_between(candidates@, j2 as usize, k + 1);
                            }
                        }
                    }
                    k = k + 1;
                }
            },
        }
        proof {
            assert forall|j2: int| !#[trigger] windows_match(left@, right@, i as int, j2) by {
                if windows_match(left@, right@, i as int, j2) {
                    assert(index@.contains_key(h));
                }
            }
        }
        i = i + 1;
    }
    None
}

/// FNV-1a offset basis.
pub const FNV_OFFSET: u64 = 0xcbf29ce484222325;

/// FNV-1a prime.
pub const FNV_PRIME: u64 = 0x100000001b3;

/// One FNV-1a step: mix in `byte`, then multiply by the prime.
pub open spec fn fnv_step(h: u64, byte: u64) -> u64 {
    vstd::wrapping::u64_specs::wrapping_mul(h ^ byte, FNV_PRIME)
}

/// The FNV-1a hash of `bytes`.
pub open spec fn fnv_bytes(bytes: Seq<u8>) -> u64
    decreases bytes.len(),
{
    if bytes.len() == 0 {
        FNV_OFFSET
    } else {
        fnv_step(fnv_bytes(bytes.drop_last()), bytes.last() as u64)
    }
}

/// The hash a token value starts its id search from: FNV-1a of its UTF-8
/// bytes.
pub open spec fn value_hash(value: Seq<char>) -> u64 {
    fnv_bytes(encode_utf8(value))
}

/// FNV-1a of the UTF-8 bytes of `value`.
pub fn stable_value_hash(value: &str) -> (r: u64)
    ensures
        r == value_hash(value@),
{
    let bytes = value.as_bytes();
    let mut hash: u64 = FNV_OFFSET;
    let mut i: usize = 0;
    while i < bytes.len()
        invariant
            bytes@ == encode_utf8(value@),
            0 <= i <= bytes@.len(),
            hash == fnv_bytes(bytes@.subrange(0, i as int)),
        decreases bytes@.len() - i,
    {
        let b: u64 = bytes[i] as u64;
        proof {
            assert(bytes@.subrange(0, i + 1).drop_last() =~= bytes@.subrange(0, i as int));
        }
        hash = (hash ^ b).wrapping_mul(FNV_PRIME);
        i = i + 1;
    }
    assert(bytes@.subrange(0, bytes@.len() as int) =~= bytes@);
    hash
}

/// The first id from `id` on, counting up with wrap-around, that `taken`
/// does not hold, looking at most `steps` ids further.
pub open spec fn probe(taken: Set<u64>, id: u64, steps: nat) -> u64
    decreases steps,
{
    if steps == 0 || !taken.contains(id) {
        id
    } else {
        probe(taken, vstd::wrapping::u64_specs::wrapping_add(id, 1), (steps - 1) as nat)
    }
}

/// The ids of `values`, assigned in order: each value takes the first id
/// from its hash on that no earlier value took.
pub open spec fn assigned_ids(values: Seq<Seq<char>>) -> Seq<u64>
    decreases values.len(),
{
    if values.len() == 0 {
        Seq::empty()
    } else {
        let prev = assigned_ids(values.drop_last());
        prev.push(probe(prev.to_set(), value_hash(values.last()), u64::MAX as nat))
    }
}

proof fn lemma_assigned_len(values: Seq<Seq<char>>)
    ensures
        assigned_ids(values).len() == values.len(),
    decreases values.len(),
{
    if values.len() > 0 {
        lemma_assigned_len(values.drop_last());
    }
}

/// The character sequences of `v`.
pub open spec fn deep(v: Seq<Vec<char>>) -> Seq<Seq<char>> {
    v.map_values(|x: Vec<char>| x@)
}

/// Every element of `s` comes before every later one.
pub open spec fn strictly_sorted(s: Seq<Seq<char>>) -> bool {
    forall|i: int, j: int| 0 <= i < j < s.len() ==> lex_less(#[trigger] s[i], #[trigger] s[j])
}

/// The elements of `values` in increasing order, each once.
pub open spec fn value_listing(values: Set<Seq<char>>) -> Seq<Seq<char>> {
    choose|s: Seq<Seq<char>>| strictly_sorted(s) && s.to_set() == values
}

/// Two increasing listings of one set are the same.
pub proof fn lemma_listing_unique(s1: Seq<Seq<char>>, s2: Seq<Seq<char>>)
    requires
        strictly_sorted(s1),
        strictly_sorted(s2),
        s1.to_set() == s2.to_set(),
    ensures
        s1 == s2,
    decreases s1.len(),
{
    if s1.len() == 0 {
        if s2.len() > 0 {
            assert(s2.to_set().contains(s2[0]));
        }
        assert(s1 =~= s2);
    } else {
        assert(s1.to_set().contains(s1[0]));
        assert(s2.len() > 0);
        assert(s2.to_set().contains(s2[0]));
        let i = choose|i: int| 0 <= i < s1.len() && s1[i] == s2[0];
        let j = choose|j: int| 0 <= j < s2.len() && s2[j] == s1[0];
        lemma_lex_total(s1[0], s2[0]);
        if i > 0 && j > 0 {
            assert(lex_less(s1[0], s1[i]));
            assert(lex_less(s2[0], s2[j]));
        } else if i > 0 {
            assert(lex_less(s1[0], s1[i]));
        } else if j > 0 {
            assert(lex_less(s2[0], s2[j]));
        }
        assert(s1[0] == s2[0]);
        let t1 = s1.drop_first();
        let t2 = s2.drop_first();
        assert(strictly_sorted(t1)) by {
            assert forall|a: int, b: int| 0 <= a < b < t1.len() implies lex_less(#[trigger] t1[a], #[trigger] t1[b]) by {
                assert(t1[a] == s1[a + 1] && t1[b] == s1[b + 1]);
            }
        }
        assert(strictly_sorted(t2)) by {
            assert forall|a: int, b: int| 0 <= a < b < t2.len() implies lex_less(#[trigger] t2[a], #[trigger] t2[b]) by {
                assert(t2[a] == s2[a + 1] && t2[b] == s2[b + 1]);
            }
        }
        assert(t1.to_set() =~= t2.to_set()) by {
            assert forall|x: Seq<char>| t1.to_set().contains(x) implies t2.to_set().contains(x) by {
                let a = choose|a: int| 0 <= a < t1.len() && t1[a] == x;
                assert(s1[a + 1] == x);
                assert(s1.to_set().contains(x));
                let b = choose|b: int| 0 <= b < s2.len() && s2[b] == x;
                lemma_lex_total(x, x);
                if b == 0 {
                    assert(lex_less(s1[0], s1[a + 1]));
                }
                assert(t2[b - 1] == x);
            }
            assert forall|x: Seq<char>| t2.to_set().contains(x) implies t1.to_set().contains(x) by {
                let a = choose|a: int| 0 <= a < t2.len() && t2[a] == x;
                assert(s2[a + 1] == x);
                assert(s2.to_set().contains(x));
                let b = choose|b: int| 0 <= b < s1.len() && s1[b] == x;
                lemma_lex_total(x, x);
                if b == 0 {
                    assert(lex_less(s2[0], s2[a + 1]));
                }
                assert(t1[b - 1] == x);
            }
        }
        lemma_listing_unique(t1, t2);
        assert(s1 =~= seq![s1[0]] + t1);
        assert(s2 =~= seq![s2[0]] + t2);
    }
}

/// Where `v` belongs among the increasing `values`: its index and `true`
/// when it is there, else the index of the first larger value and `false`.
fn search_value(values: &Vec<Vec<char>>, v: &[char]) -> (r: (usize, bool))
    requires
        strictly_sorted(deep(values@)),
    ensures
        r.0 <= values@.len(),
        forall|k: int| 0 <= k < r.0 ==> lex_less(#[trigger] deep(values@)[k], v@),
        r.1 ==> r.0 < values@.len() && deep(values@)[r.0 as int] == v@,
        !r.1 ==> forall|k: int| r.0 <= k < values@.len() ==> lex_less(v@, #[trigger] deep(values@)[k]),
{
    let ghost d = deep(values@);
    let mut lo: usize = 0;
    let mut hi: usize = values.len();
    while lo < hi
        invariant
            d == deep(values@),
            strictly_sorted(d),
            d.len() == values@.len(),
            0 <= lo <= hi <= values@.len(),
            forall|k: int| 0 <= k < lo ==> lex_less(#[trigger] d[k], v@),
            forall|k: int| hi <= k < values@.len() ==> lex_less(v@, #[trigger] d[k]),
        decreases hi - lo,
    {
        let mid = lo + (hi - lo) / 2;
        let x = values[mid].as_slice();
        proof {
            assert(d[mid as int] == x@);
        }
        if chars_less(x, v) {
            proof {
                assert forall|k: int| 0 <= k < mid + 1 implies lex_less(#[trigger] d[k], v@) by {
                    if k < mid {
                        lemma_lex_trans(d[k], d[mid as int], v@);
                    }
                }
            }
            lo = mid + 1;
        } else if chars_less(v, x) {
            proof {
                assert forall|k: int| mid <= k < values@.len() implies lex_less(v@, #[trigger] d[k]) by {
                    if k > mid {
                        lemma_lex_trans(v@, d[mid as int], d[k]);
                    }
                }
            }
            hi = mid;
        } else {
            proof {
                lemma_lex_total(x@, v@);
            }
            return (mid, true);
        }
    }
    (lo, false)
}

/// The token texts of each raw stream.
pub open spec fn raw_models(raw: Seq<(&str, Vec<TokenText>)>) -> Seq<Seq<(Seq<char>, int, int)>> {
    raw.map_values(|x: (&str, Vec<TokenText>)| token_texts(x.1@))
}

/// Whether `x` is the value of a token before token `t` of stream `k`.
pub open spec fn seen_before(m: Seq<Seq<(Seq<char>, int, int)>>, k: int, t: int, x: Seq<char>) -> bool {
    exists|k2: int, t2: int|
        #![trigger m[k2][t2]]
        0 <= k2 < m.len() && 0 <= t2 < m[k2].len() && (k2 < k || (k2 == k && t2 < t)) && m[k2][t2].0
            == x
}

/// Every token value of the streams.
pub open spec fn values_in(m: Seq<Seq<(Seq<char>, int, int)>>) -> Set<Seq<char>> {
    Set::new(|x: Seq<char>| seen_before(m, m.len() as int, 0, x))
}

/// The distinct token values of `raw`, in increasing order.
fn distinct_values(raw: &Vec<(&str, Vec<TokenText>)>) -> (r: Vec<Vec<char>>)
    ensures
        strictly_sorted(deep(r@)),
        deep(r@).to_set() == values_in(raw_models(raw@)),
{
    let ghost m = raw_models(raw@);
    let mut values: Vec<Vec<char>> = Vec::new();
    let mut k: usize = 0;
    while k < raw.len()
        invariant
            m == raw_models(raw@),
            m.len() == raw@.len(),
            0 <= k <= raw@.len(),
            strictly_sorted(deep(values@)),
            forall|x: Seq<char>| deep(values@).contains(x) <==> seen_before(m, k as int, 0, x),
        decreases raw@.len() - k,
    {
        let stream = &raw[k].1;
        proof {
            assert(m[k as int] == token_texts(stream@));
        }
        let mut t: usize = 0;
        while t < stream.len()
            invariant
                m == raw_models(raw@),
                m.len() == raw@.len(),
                k < raw@.len(),
                m[k as int] == token_texts(stream@),
                0 <= t <= stream@.len(),
                strictly_sorted(deep(values@)),
                forall|x: Seq<char>| deep(values@).contains(x) <==> seen_before(m, k as int, t as int, x),
            decreases stream@.len() - t,
        {
            let v = stream[t].value.as_slice();
            proof {
                assert(m[k as int][t as int].0 == v@);
            }
            let (pos, found) = search_value(&values, v);
            let ghost before = deep(values@);
            if !found {
                values.insert(pos, crate::text::copy_chars(v));
                proof {
                    let d = deep(values@);
                    assert(d =~= before.insert(pos as int, v@));
                    assert forall|i: int, j: int| 0 <= i < j < d.len() implies lex_less(#[trigger] d[i], #[trigger] d[j]) by {
                        if j < pos {
                            assert(d[i] == before[i] && d[j] == before[j]);
                        } else if j == pos {
                            assert(d[i] == before[i]);
                        } else if i < pos {
                            assert(d[i] == before[i] && d[j] == before[j - 1]);
                            lemma_lex_trans(before[i], v@, before[j - 1]);
                        } else if i == pos {
                            assert(d[j] == before[j - 1]);
                        } else {
                            assert(d[i] == before[i - 1] && d[j] == before[j - 1]);
                        }
                    }
                }
            } else {
                proof {
                    assert(before[pos as int] == v@);
                }
            }
            proof {
                let d = deep(values@);
                assert forall|x: Seq<char>| d.contains(x) <==> seen_before(m, k as int, t + 1, x) by {
                    if d.contains(x) {
                        let i = choose|i: int| 0 <= i < d.len() && d[i] == x;
                        if x != v@ {
                            if !found {
                                if i < pos {
                                    assert(before[i] == x);
                                } else {
                                    assert(i != pos);
                                    assert(before[i - 1] == x);
                                }
                            }
                            assert(before.contains(x));
                            assert(seen_before(m, k as int, t as int, x));
                        } else {
                            assert(m[k as int][t as int].0 == x);
                        }
                    }
                    if seen_before(m, k as int, t + 1, x) {
                        let (k2, t2) = choose|k2: int, t2: int|
                            #![trigger m[k2][t2]]
                            0 <= k2 < m.len() && 0 <= t2 < m[k2].len() && (k2 < k || (k2 == k && t2 < t + 1)) && m[k2][t2].0 == x;
                        if k2 == k && t2 == t {
                            if found {
                                assert(d[pos as int] == x);
                            } else {
                                assert(d[pos as int] == x);
                            }
                        } else {
                            assert(seen_before(m, k as int, t as int, x));
                            assert(before.contains(x));
                            let i = choose|i: int| 0 <= i < before.len() && before[i] == x;
                            if !found {
                                if i < pos {
                                    assert(d[i] == x);
                                } else {
                                    assert(d[i + 1] == x);
                                }
                            }
                        }
                    }
                }
            }
            t = t + 1;
        }
        proof {
            assert forall|x: Seq<char>| seen_before(m, k as int, t as int, x) <==> seen_before(m, k + 1, 0, x) by {
                if seen_before(m, k + 1, 0, x) {
                    let (k2, t2) = choose|k2: int, t2: int|
                        #![trigger m[k2][t2]]
                        0 <= k2 < m.len() && 0 <= t2 < m[k2].len() && (k2 < k + 1 || (k2 == k + 1 && t2 < 0)) && m[k2][t2].0 == x;
                    assert(m[k2][t2].0 == x);
                }
            }
        }
        k = k + 1;
    }
    proof {
        assert(deep(values@).to_set() =~= values_in(m));
    }
    values
}

/// The ids of `values`, as `assigned_ids` gives them; `taken` holds the
/// ids handed out so far.
fn assign_ids(values: &Vec<Vec<char>>) -> (r: Vec<u64>)
    ensures
        r@ == assigned_ids(deep(values@)),
{
    let ghost d = deep(values@);
    let mut ids: Vec<u64> = Vec::new();
    let mut taken: HashSet<u64> = HashSet::new();
    let mut k: usize = 0;
    while k < values.len()
        invariant
            d == deep(values@),
            0 <= k <= values@.len(),
            ids@ == assigned_ids(d.subrange(0, k as int)),
            taken@ == ids@.to_set(),
        decreases values@.len() - k,
    {
        let text = string_of(values[k].as_slice());
        let first = stable_value_hash(text.as_str());
        let mut id: u64 = first;
        let mut steps: u64 = 0;
        proof {
            assert(text@ == d[k as int]);
        }
        while steps < u64::MAX && taken.contains(&id)
            invariant
                probe(taken@, first, u64::MAX as nat) == probe(taken@, id, (u64::MAX - steps) as nat),
                steps <= u64::MAX,
            decreases u64::MAX - steps,
        {
            id = id.wrapping_add(1);
            steps = steps + 1;
        }
        proof {
            assert(d.subrange(0, k + 1).drop_last() =~= d.subrange(0, k as int));
            assert(d.subrange(0, k + 1).last() == d[k as int]);
            assert(id == probe(taken@, first, u64::MAX as nat));
        }
        let ghost old_ids = ids@;
        ids.push(id);
        taken.insert(id);
        proof {
            assert(ids@.drop_last() =~= old_ids);
            assert(taken@ =~= ids@.to_set()) by {
                assert forall|x: u64| taken@.contains(x) <==> ids@.to_set().contains(x) by {
                    if ids@.to_set().contains(x) {
                        let i = choose|i: int| 0 <= i < ids@.len() && ids@[i] == x;
                        if i < ids@.len() - 1 {
                            assert(ids@.drop_last()[i] == x);
                            assert(ids@.drop_last().to_set().contains(x));
                        }
                    }
                    if taken@.contains(x) && x != id {
                        assert(ids@.drop_last().to_set().contains(x));
                        let i = choose|i: int| 0 <= i < ids@.drop_last().len() && ids@.drop_last()[i] == x;
                        assert(ids@[i] == x);
                    }
                    if x == id {
                        assert(ids@[ids@.len() - 1] == x);
                    }
                }
            }
        }
        k = k + 1;
    }
    assert(d.subrange(0, values@.len() as int) =~= d);
    ids
}

/// The id that the ids of `listing` give to `v`.
pub open spec fn id_of(listing: Seq<Seq<char>>, ids: Seq<u64>, v: Seq<char>) -> u64 {
    ids[choose|k: int| 0 <= k < listing.len() && listing[k] == v]
}

/// Token texts numbered by the ids of their values.
pub open spec fn numbered(texts: Seq<(Seq<char>, int, int)>, listing: Seq<Seq<char>>, ids: Seq<u64>) -> Seq<Token> {
    Seq::new(
        texts.len(),
        |k: int|
            Token {
                id: id_of(listing, ids, texts[k].0),
                start_line: texts[k].1 as usize,
                end_line: texts[k].2 as usize,
            },
    )
}

/// Numbers `texts` by the ids of `values`, which hold every value of them.
fn number_tokens(texts: &Vec<TokenText>, values: &Vec<Vec<char>>, ids: &Vec<u64>) -> (r: Vec<Token>)
    requires
        strictly_sorted(deep(values@)),
        ids@.len() == values@.len(),
        forall|t: int| 0 <= t < texts@.len() ==> deep(values@).contains(#[trigger] texts@[t].value@),
        lines_bounded(texts@),
        texts@.len() < usize::MAX,
    ensures
        r@ == numbered(token_texts(texts@), deep(values@), ids@),
        searchable(r@),
{
    let ghost d = deep(values@);
    let ghost tt = token_texts(texts@);
    let mut out: Vec<Token> = Vec::new();
    let mut t: usize = 0;
    while t < texts.len()
        invariant
            d == deep(values@),
            tt == token_texts(texts@),
            strictly_sorted(d),
            ids@.len() == values@.len(),
            forall|t2: int| 0 <= t2 < texts@.len() ==> d.contains(#[trigger] texts@[t2].value@),
            lines_bounded(texts@),
            0 <= t <= texts@.len(),
            out@ == numbered(tt, d, ids@).subrange(0, t as int),
            forall|k: int| 0 <= k < t ==> #[trigger] out@[k].start_line <= MAX_ROW + 1,
        decreases texts@.len() - t,
    {
        let text = &texts[t];
        let (pos, found) = search_value(values, text.value.as_slice());
        proof {
            assert(d.contains(text.value@));
            let w = choose|w: int| 0 <= w < d.len() && d[w] == text.value@;
            if !found {
                if w < pos {
                    assert(lex_less(d[w], text.value@));
                } else {
                    assert(lex_less(text.value@, d[w]));
                }
                lemma_lex_total(text.value@, text.value@);
            }
            let c = choose|k: int| 0 <= k < d.len() && d[k] == text.value@;
            if c != pos {
                lemma_lex_total(text.value@, text.value@);
                if c < pos {
                    assert(lex_less(d[c], d[pos as int]));
                } else {
                    assert(lex_less(d[pos as int], d[c]));
                }
            }
            assert(tt[t as int].0 == text.value@);
        }
        let tok = Token { id: ids[pos], start_line: text.start_line, end_line: text.end_line };
        proof {
            assert(tok == numbered(tt, d, ids@)[t as int]);
        }
        out.push(tok);
        proof {
            assert(out@ =~= numbered(tt, d, ids@).subrange(0, t + 1));
        }
        t = t + 1;
    }
    proof {
        assert(out@ =~= numbered(tt, d, ids@));
        assert forall|k: int| 0 <= k < out@.len() implies #[trigger] out@[k].start_line + MIN_LINES <= usize::MAX by {
            assert(out@[k].start_line <= MAX_ROW + 1);
        }
    }
    out
}

/// The FNV-1a hash of the eight little-endian bytes of `id`, the first `k`
/// of them, continuing from `h`.
pub open spec fn id_bytes_hash(h: u64, id: u64, k: nat) -> u64
    decreases k,
{
    if k == 0 {
        h
    } else {
        fnv_step(id_bytes_hash(h, id, (k - 1) as nat), (id >> ((8 * (k - 1)) as u64)) & 0xff)
    }
}

/// The fingerprint hash of a clone's ids: FNV-1a over each id's
/// little-endian bytes, each id closed by a `0xff` byte.
pub open spec fn ids_hash(ids: Seq<u64>) -> u64
    decreases ids.len(),
{
    if ids.len() == 0 {
        FNV_OFFSET
    } else {
        fnv_step(id_bytes_hash(ids_hash(ids.drop_last()), ids.last(), 8), 0xff)
    }
}

/// The lowercase hexadecimal digit of `d < 16`.
pub open spec fn hex_digit(d: u64) -> char {
    if d < 10 {
        (48 + d) as char
    } else {
        (87 + d) as char
    }
}

/// `h` as sixteen lowercase hexadecimal digits, most significant first.
pub open spec fn hex16(h: u64) -> Seq<char> {
    Seq::new(16, |k: int| hex_digit((h >> ((60 - 4 * k) as u64)) & 0xf))
}

/// The hash of the ids of `tokens[start..start + len]`, in sixteen
/// hexadecimal digits.
fn hash_tokens(tokens: &[Token], start: usize, len: usize) -> (r: String)
    requires
        start + len <= tokens@.len(),
    ensures
        r@ == hex16(ids_hash(ids(tokens@).subrange(start as int, start + len))),
{
    let ghost g = ids(tokens@);
    let mut hash: u64 = FNV_OFFSET;
    let mut i: usize = 0;
    while i < len
        invariant
            g == ids(tokens@),
            start + len <= tokens@.len(),
            tokens@.len() == tokens.len(),
            0 <= i <= len,
            hash == ids_hash(g.subrange(start as int, start + i)),
        decreases len - i,
    {
        let id = tokens[start + i].id;
        let ghost h0 = hash;
        let mut k: u64 = 0;
        while k < 8
            invariant
                0 <= k <= 8,
                hash == id_bytes_hash(h0, id, k as nat),
            decreases 8 - k,
        {
            let byte: u64 = (id >> (8 * k)) & 0xff;
            hash = (hash ^ byte).wrapping_mul(FNV_PRIME);
            k = k + 1;
        }
        hash = (hash ^ 0xff).wrapping_mul(FNV_PRIME);
        proof {
            let w = g.subrange(start as int, start + i + 1);
            assert(w.drop_last() =~= g.subrange(start as int, start + i));
            assert(w.last() == id);
        }
        i = i + 1;
    }
    let mut out: Vec<char> = Vec::new();
    let mut k: u64 = 0;
    while k < 16
        invariant
            0 <= k <= 16,
            out@ == hex16(hash).subrange(0, k as int),
        decreases 16 - k,
    {
        let shifted: u64 = hash >> (60 - 4 * k);
        let nibble: u64 = shifted & 0xf;
        proof {
            assert(nibble < 16) by (bit_vector)
                requires
                    nibble == shifted & 0xf,
            ;
        }
        let c: char = if nibble < 10 {
            ((48 + nibble) as u8) as char
        } else {
            ((87 + nibble) as u8) as char
        };
        proof {
            assert(c == hex_digit(nibble));
            assert(hex16(hash)[k as int] == hex_digit(nibble));
        }
        out.push(c);
        proof {
            assert(out@ =~= hex16(hash).subrange(0, k + 1));
        }
        k = k + 1;
    }
    proof {
        assert(out@ =~= hex16(hash));
    }
    string_of(out.as_slice())
}

/// A token stream: the path of its file and its numbered tokens.
pub type StreamView = (Seq<char>, Seq<Token>);

/// The token texts of each file.
pub open spec fn file_texts(files: Seq<(&str, &str, &SyntaxTree)>) -> Seq<Seq<(Seq<char>, int, int)>> {
    files.map_values(|f: (&str, &str, &SyntaxTree)| node_tokens(f.2, 0))
}

/// Each file's path with its tokens numbered by the ids that the sorted
/// distinct values of all files take, in input order.
pub open spec fn file_streams(files: Seq<(&str, &str, &SyntaxTree)>) -> Seq<StreamView> {
    let texts = file_texts(files);
    let listing = value_listing(values_in(texts));
    let ids = assigned_ids(listing);
    Seq::new(files.len(), |k: int| (files[k].0@, numbered(texts[k], listing, ids)))
}

/// Streams ordered by path.
pub open spec fn by_path() -> spec_fn(StreamView, StreamView) -> bool {
    |a: StreamView, b: StreamView| lex_less(a.0, b.0)
}

/// Findings ordered by file, then line, then fingerprint.
pub open spec fn by_finding() -> spec_fn(FindingView, FindingView) -> bool {
    |a: FindingView, b: FindingView|
        lex_less(a.0, b.0) || (a.0 == b.0 && (a.1 < b.1 || (a.1 == b.1 && lex_less(a.5, b.5))))
}

/// The message of clone `m` between streams `a` and `b`.
pub open spec fn clone_message(a: StreamView, b: StreamView, m: Match) -> Seq<char> {
    let la = m.left_start as int;
    let rb = m.right_start as int;
    let len = m.length as int;
    "Structural duplication between "@ + a.0 + " range "@ + decimal(a.1[la].start_line as nat)
        + "-"@ + decimal(a.1[la + len - 1].end_line as nat) + " and "@ + b.0 + " range "@
        + decimal(b.1[rb].start_line as nat) + "-"@ + decimal(b.1[rb + len - 1].end_line as nat)
        + " ("@ + decimal(len as nat) + " normalized tokens)"@
}

/// The fingerprint of clone `m` between streams `a` and `b`: both paths, the
/// hash of the clone's ids and its length.
pub open spec fn clone_fingerprint(a: StreamView, b: StreamView, m: Match) -> Seq<char> {
    let la = m.left_start as int;
    let len = m.length as int;
    "duplication:"@ + a.0 + ":"@ + b.0 + ":"@ + hex16(ids_hash(ids(a.1).subrange(la, la + len)))
        + ":"@ + decimal(len as nat)
}

/// The finding for clone `m` between streams `a` and `b`, reported on the
/// first line of the clone in `a`.
pub open spec fn clone_finding(a: StreamView, b: StreamView, m: Match) -> FindingView {
    (
        a.0,
        a.1[m.left_start as int].start_line,
        "duplication"@,
        clone_message(a, b, m),
        "error"@,
        clone_fingerprint(a, b, m),
    )
}

/// The finding for the pair of streams `a` and `b`, if they share a clone.
pub open spec fn pair_finding(a: StreamView, b: StreamView) -> Seq<FindingView> {
    match clone_between(a.1, b.1) {
        Some(m) => seq![clone_finding(a, b, m)],
        None => Seq::empty(),
    }
}

/// The findings of stream `i` against the streams after it and before `j`.
pub open spec fn row_findings(streams: Seq<StreamView>, i: int, j: int) -> Seq<FindingView>
    decreases j - i,
{
    if j <= i + 1 {
        Seq::empty()
    } else {
        row_findings(streams, i, j - 1) + pair_finding(streams[i], streams[j - 1])
    }
}

/// The findings of every pair of streams whose first stream is before `i`.
pub open spec fn pair_findings(streams: Seq<StreamView>, i: int) -> Seq<FindingView>
    decreases i,
{
    if i <= 0 {
        Seq::empty()
    } else {
        pair_findings(streams, i - 1) + row_findings(streams, i - 1, streams.len() as int)
    }
}

/// The duplication findings of `files`: one per pair of files (in path
/// order) that share a clone, sorted by file, line and fingerprint.
pub open spec fn duplication_findings(files: Seq<(&str, &str, &SyntaxTree)>) -> Seq<FindingView> {
    let streams = sorted_by(file_streams(files), by_path());
    sorted_by(pair_findings(streams, streams.len() as int), by_finding())
}

/// A stream as the check holds it: path, path characters and tokens.
pub type Stream<'a> = (&'a str, Vec<char>, Vec<Token>);

/// The ghost forms of `s`.
pub open spec fn stream_views(s: Seq<Stream>) -> Seq<StreamView> {
    s.map_values(|x: Stream| (x.0@, x.2@))
}

/// The finding for clone `m` between `left` and `right`.
fn clone_violation(left: &Stream, right: &Stream, m: Match) -> (r: Violation)
    requires
        1 <= m.length,
        m.left_start + m.length <= left.2@.len(),
        m.right_start + m.length <= right.2@.len(),
    ensures
        r@ == clone_finding((left.0@, left.2@), (right.0@, right.2@), m),
{
    let lt = &left.2;
    let rt = &right.2;
    let la = m.left_start;
    let rb = m.right_start;
    let len = m.length;
    assert(lt@.len() == lt.len() && rt@.len() == rt.len());
    let l_last = la + (len - 1);
    let r_last = rb + (len - 1);
    let mut msg: Vec<char> = Vec::new();
    push_str(&mut msg, "Structural duplication between ");
    push_str(&mut msg, left.0);
    push_str(&mut msg, " range ");
    push_all(&mut msg, decimal_chars(lt[la].start_line).as_slice());
    push_str(&mut msg, "-");
    push_all(&mut msg, decimal_chars(lt[l_last].end_line).as_slice());
    push_str(&mut msg, " and ");
    push_str(&mut msg, right.0);
    push_str(&mut msg, " range ");
    push_all(&mut msg, decimal_chars(rt[rb].start_line).as_slice());
    push_str(&mut msg, "-");
    push_all(&mut msg, decimal_chars(rt[r_last].end_line).as_slice());
    push_str(&mut msg, " (");
    push_all(&mut msg, decimal_chars(len).as_slice());
    push_str(&mut msg, " normalized tokens)");
    let hash = hash_tokens(lt.as_slice(), la, len);
    let mut fp: Vec<char> = Vec::new();
    push_str(&mut fp, "duplication:");
    push_str(&mut fp, left.0);
    push_str(&mut fp, ":");
    push_str(&mut fp, right.0);
    push_str(&mut fp, ":");
    push_str(&mut fp, hash.as_str());
    push_str(&mut fp, ":");
    push_all(&mut fp, decimal_chars(len).as_slice());
    Violation {
        file: left.0.to_owned(),
        line: lt[la].start_line,
        rule: "duplication".to_owned(),
        message: string_of(msg.as_slice()),
        severity: "error".to_owned(),
        fingerprint: string_of(fp.as_slice()),
    }
}

/// Whether finding `a` comes before finding `b` in report order.
fn finding_less(a: &Violation, b: &Violation) -> (r: bool)
    ensures
        r == (by_finding())(a@, b@),
{
    let fa = chars_of(a.file.as_str());
    let fb = chars_of(b.file.as_str());
    if chars_less(fa.as_slice(), fb.as_slice()) {
        return true;
    }
    if !crate::text::chars_equal(fa.as_slice(), fb.as_slice()) {
        return false;
    }
    if a.line != b.line {
        return a.line < b.line;
    }
    let pa = chars_of(a.fingerprint.as_str());
    let pb = chars_of(b.fingerprint.as_str());
    chars_less(pa.as_slice(), pb.as_slice())
}

/// `v` stably sorted by file, line and fingerprint.
fn sort_findings(v: Vec<Violation>) -> (r: Vec<Violation>)
    ensures
        findings(r@) == sorted_by(findings(v@), by_finding()),
{
    let ghost all = findings(v@);
    let mut rest = v;
    let mut out: Vec<Violation> = Vec::new();
    let ghost mut done: int = 0;
    while rest.len() > 0
        invariant
            0 <= done <= all.len(),
            findings(rest@) == all.skip(done),
            findings(out@) == sorted_by(all.take(done), by_finding()),
        decreases rest@.len(),
    {
        let ghost old_rest = rest@;
        let x = rest.remove(0);
        proof {
            assert(findings(old_rest).len() == old_rest.len());
            assert(all.skip(done).len() > 0);
            assert(findings(old_rest)[0] == x@);
            assert(all.skip(done)[0] == all[done]);
            assert(x@ == all[done]);
            assert(rest@ =~= old_rest.subrange(1, old_rest.len() as int));
            assert forall|q: int| 0 <= q < rest@.len() implies findings(rest@)[q] == all.skip(done + 1)[q] by {
                assert(rest@[q] == old_rest[q + 1]);
                assert(findings(old_rest)[q + 1] == all.skip(done)[q + 1]);
            }
            assert(findings(rest@) =~= all.skip(done + 1));
        }
        let mut p: usize = 0;
        while p < out.len() && !finding_less(&x, &out[p])
            invariant
                0 <= p <= out@.len(),
                forall|q: int| 0 <= q < p ==> !(by_finding())(x@, #[trigger] findings(out@)[q]),
            decreases out@.len() - p,
        {
            p = p + 1;
        }
        proof {
            lemma_insert_at_first_greater(findings(out@), x@, by_finding(), p as int);
            assert(all.take(done + 1).drop_last() =~= all.take(done));
        }
        let ghost before = findings(out@);
        out.insert(p, x);
        proof {
            assert(findings(out@) =~= before.subrange(0, p as int) + seq![x@] + before.subrange(p as int, before.len() as int));
            done = done + 1;
        }
    }
    proof {
        assert(all.skip(done).len() == 0);
        assert(all.take(done) =~= all);
    }
    out
}

/// The native structural duplication rule.
pub struct DuplicationRule;

impl DuplicationRule {
    /// The rule.
    pub fn new() -> (r: Self) {
        DuplicationRule
    }

    /// Finds one clone per pair of files: the files are ordered by path, and
    /// each pair that shares a clone yields one finding; findings are sorted
    /// by file, line and fingerprint.
    pub fn check_files(&self, files: &[(&str, &str, &SyntaxTree)]) -> (r: Vec<Violation>)
        requires
            forall|k: int|
                0 <= k < files@.len() ==> (#[trigger] files@[k]).2.wf() && files@[k].2.source@
                    == files@[k].1@ && node_tokens(files@[k].2, 0).len() < usize::MAX,
        ensures
            findings(r@) == duplication_findings(files@),
    {
        let ghost texts = file_texts(files@);
        let mut raw: Vec<(&str, Vec<TokenText>)> = Vec::new();
        let mut k: usize = 0;
        while k < files.len()
            invariant
                texts == file_texts(files@),
                forall|q: int|
                    0 <= q < files@.len() ==> (#[trigger] files@[q]).2.wf() && node_tokens(files@[q].2, 0).len() < usize::MAX,
                0 <= k <= files@.len(),
                raw@.len() == k,
                forall|q: int|
                    0 <= q < k ==> (#[trigger] raw@[q]).0 == files@[q].0 && token_texts(raw@[q].1@)
                        == texts[q] && lines_bounded(raw@[q].1@) && raw@[q].1@.len() < usize::MAX,
            decreases files@.len() - k,
        {
            let f = files[k];
            let toks = tokens(f.2);
            proof {
                assert(token_texts(toks@).len() == toks@.len());
            }
            raw.push((f.0, toks));
            k = k + 1;
        }
        proof {
            assert(raw_models(raw@) =~= texts);
        }
        let values = distinct_values(&raw);
        let ids = assign_ids(&values);
        let ghost listing = value_listing(values_in(texts));
        proof {
            assert(strictly_sorted(deep(values@)) && deep(values@).to_set() == values_in(texts));
            assert(strictly_sorted(listing) && listing.to_set() == values_in(texts));
            lemma_listing_unique(deep(values@), listing);
            lemma_assigned_len(deep(values@));
        }
        let ghost fs = file_streams(files@);
        let mut streams: Vec<Stream> = Vec::new();
        let mut k: usize = 0;
        while k < raw.len()
            invariant
                texts == file_texts(files@),
                fs == file_streams(files@),
                listing == value_listing(values_in(texts)),
                deep(values@) == listing,
                ids@ == assigned_ids(listing),
                ids@.len() == values@.len(),
                strictly_sorted(listing),
                listing.to_set() == values_in(texts),
                raw_models(raw@) == texts,
                raw@.len() == files@.len(),
                forall|q: int|
                    0 <= q < raw@.len() ==> (#[trigger] raw@[q]).0 == files@[q].0 && token_texts(raw@[q].1@)
                        == texts[q] && lines_bounded(raw@[q].1@) && raw@[q].1@.len() < usize::MAX,
                0 <= k <= raw@.len(),
                stream_views(streams@) == sorted_by(fs.take(k as int), by_path()),
                forall|q: int|
                    0 <= q < streams@.len() ==> (#[trigger] streams@[q]).1@ == streams@[q].0@ && searchable(streams@[q].2@),
            decreases raw@.len() - k,
        {
            let texts_k = &raw[k].1;
            proof {
                assert forall|t: int| 0 <= t < texts_k@.len() implies deep(values@).contains(#[trigger] texts_k@[t].value@) by {
                    let m = raw_models(raw@);
                    assert(m[k as int][t].0 == texts_k@[t].value@);
                    assert(seen_before(m, m.len() as int, 0, texts_k@[t].value@));
                    assert(values_in(texts).contains(texts_k@[t].value@));
                    assert(listing.to_set().contains(texts_k@[t].value@));
                }
            }
            let toks = number_tokens(texts_k, &values, &ids);
            let path = raw[k].0;
            let path_chars = chars_of(path);
            let ghost x: StreamView = (path@, toks@);
            proof {
                assert(fs[k as int] == x);
            }
            let mut p: usize = 0;
            while p < streams.len() && !chars_less(path_chars.as_slice(), streams[p].1.as_slice())
                invariant
                    0 <= p <= streams@.len(),
                    path_chars@ == path@,
                    x == (path@, toks@),
                    forall|q: int| 0 <= q < streams@.len() ==> (#[trigger] streams@[q]).1@ == streams@[q].0@,
                    forall|q: int| 0 <= q < p ==> !(by_path())(x, #[trigger] stream_views(streams@)[q]),
                decreases streams@.len() - p,
            {
                p = p + 1;
            }
            proof {
                lemma_insert_at_first_greater(stream_views(streams@), x, by_path(), p as int);
                assert(fs.take(k + 1).drop_last() =~= fs.take(k as int));
                assert(fs.take(k + 1).last() == x);
            }
            let ghost before = streams@;
            streams.insert(p, (path, path_chars, toks));
            proof {
                let sv = stream_views(before);
                assert(stream_views(streams@) =~= sv.subrange(0, p as int) + seq![x] + sv.subrange(p as int, sv.len() as int));
                assert forall|q: int| 0 <= q < streams@.len() implies (#[trigger] streams@[q]).1@ == streams@[q].0@ && searchable(streams@[q].2@) by {
                    if q < p {
                        assert(streams@[q] == before[q]);
                    } else if q > p {
                        assert(streams@[q] == before[q - 1]);
                    }
                }
            }
            k = k + 1;
        }
        proof {
            assert(fs.take(raw@.len() as int) =~= fs);
        }
        let ghost sv = stream_views(streams@);
        let n = streams.len();
        let mut found: Vec<Violation> = Vec::new();
        let mut i: usize = 0;
        while i < n
            invariant
                sv == stream_views(streams@),
                n == streams@.len(),
                forall|q: int| 0 <= q < streams@.len() ==> searchable((#[trigger] streams@[q]).2@),
                0 <= i <= n,
                findings(found@) == pair_findings(sv, i as int),
            decreases n - i,
        {
            let mut j: usize = i + 1;
            while j < n
                invariant
                    sv == stream_views(streams@),
                    n == streams@.len(),
                    forall|q: int| 0 <= q < streams@.len() ==> searchable((#[trigger] streams@[q]).2@),
                    0 <= i < n,
                    i + 1 <= j <= n,
                    findings(found@) == pair_findings(sv, i as int) + row_findings(sv, i as int, j as int),
                decreases n - j,
            {
                let left = &streams[i];
                let right = &streams[j];
                let m = find_match(left.2.as_slice(), right.2.as_slice());
                let ghost before = findings(found@);
                match m {
                    Some(m) => {
                        proof {
                            assert(clone_between(left.2@, right.2@) == Some(m));
                            assert(reported_clone(left.2@, right.2@, m));
                            lemma_reported_bounds(left.2@, right.2@, m);
                        }
                        let v = clone_violation(left, right, m);
                        found.push(v);
                        proof {
                            assert(findings(found@) =~= before.push(v@));
                        }
                    },
                    None => {},
                }
                proof {
                    assert(sv[i as int] == (left.0@, left.2@));
                    assert(sv[j as int] == (right.0@, right.2@));
                    assert(findings(found@) =~= pair_findings(sv, i as int) + row_findings(sv, i as int, j + 1));
                }
                j = j + 1;
            }
            proof {
                assert(findings(found@) =~= pair_findings(sv, i + 1));
            }
            i = i + 1;
        }
        sort_findings(found)
    }
}

/// Mapping two sequences with the same elements gives sequences with the
/// same elements.
proof fn lemma_map_multiset<A, B>(s: Seq<A>, t: Seq<A>, g: spec_fn(A) -> B)
    requires
        s.to_multiset() == t.to_multiset(),
    ensures
        s.map_values(g).to_multiset() == t.map_values(g).to_multiset(),
    decreases s.len(),
{
    broadcast use vstd::seq_lib::group_to_multiset_ensures;
    broadcast use vstd::multiset::group_multiset_axioms;

    assert(s.to_multiset().len() == s.len() && t.to_multiset().len() == t.len());
    if s.len() == 0 {
        assert(s.map_values(g) =~= t.map_values(g));
    } else {
        let x = s[0];
        assert(s.contains(x));
        assert(t.to_multiset().count(x) > 0);
        assert(t.contains(x));
        let j = choose|j: int| 0 <= j < t.len() && t[j] == x;
        let s1 = s.remove(0);
        let t1 = t.remove(j);
        assert(s1.to_multiset() =~= t1.to_multiset());
        lemma_map_multiset(s1, t1, g);
        assert(s.map_values(g) =~= s1.map_values(g).insert(0, g(x)));
        assert(t.map_values(g) =~= t1.map_values(g).insert(j, g(x)));
    }
}

/// Files with the same entries have the same token values.
proof fn lemma_values_ignore_order(files: Seq<(&str, &str, &SyntaxTree)>, other: Seq<(&str, &str, &SyntaxTree)>)
    requires
        files.to_multiset() == other.to_multiset(),
    ensures
        values_in(file_texts(files)) == values_in(file_texts(other)),
{
    broadcast use vstd::seq_lib::group_to_multiset_ensures;

    let a = file_texts(files);
    let b = file_texts(other);
    assert forall|x: Seq<char>| values_in(a).contains(x) implies values_in(b).contains(x) by {
        let (k, t) = choose|k: int, t: int| #![trigger a[k][t]] 0 <= k < a.len() && 0 <= t < a[k].len() && a[k][t].0 == x;
        let f = files[k];
        assert(files.contains(f));
        assert(other.to_multiset().count(f) > 0);
        let k2 = choose|k2: int| 0 <= k2 < other.len() && other[k2] == f;
        assert(b[k2] == a[k]);
        assert(b[k2][t].0 == x);
    }
    assert forall|x: Seq<char>| values_in(b).contains(x) implies values_in(a).contains(x) by {
        let (k, t) = choose|k: int, t: int| #![trigger b[k][t]] 0 <= k < b.len() && 0 <= t < b[k].len() && b[k][t].0 == x;
        let f = other[k];
        assert(other.contains(f));
        assert(files.to_multiset().count(f) > 0);
        let k2 = choose|k2: int| 0 <= k2 < files.len() && files[k2] == f;
        assert(a[k2] == b[k]);
        assert(a[k2][t].0 == x);
    }
    assert(values_in(a) =~= values_in(b));
}

/// Reordering the files reorders their streams.
proof fn lemma_streams_ignore_order(files: Seq<(&str, &str, &SyntaxTree)>, other: Seq<(&str, &str, &SyntaxTree)>)
    requires
        files.to_multiset() == other.to_multiset(),
    ensures
        file_streams(files).to_multiset() == file_streams(other).to_multiset(),
{
    lemma_values_ignore_order(files, other);
    let listing = value_listing(values_in(file_texts(files)));
    let ids = assigned_ids(listing);
    let g = |f: (&str, &str, &SyntaxTree)| (f.0@, numbered(node_tokens(f.2, 0), listing, ids));
    assert(file_streams(files) =~= files.map_values(g));
    assert(file_streams(other) =~= other.map_values(g));
    lemma_map_multiset(files, other, g);
}

/// Order independence: the duplication findings of files with distinct
/// paths do not depend on the order in which the files are given; in
/// particular the reversed list gives the same findings.
pub proof fn lemma_findings_ignore_input_order(
    files: Seq<(&str, &str, &SyntaxTree)>,
    other: Seq<(&str, &str, &SyntaxTree)>,
)
    requires
        files.to_multiset() == other.to_multiset(),
        forall|i: int, j: int| 0 <= i < j < files.len() ==> (#[trigger] files[i]).0@ != (#[trigger] files[j]).0@,
    ensures
        duplication_findings(other) == duplication_findings(files),
{
    broadcast use vstd::seq_lib::group_to_multiset_ensures;

    lemma_streams_ignore_order(files, other);
    let s = file_streams(files);
    let t = file_streams(other);
    let less = by_path();
    assert(strict_order(less)) by {
        assert forall|a: StreamView| !#[trigger] less(a, a) by {
            lemma_lex_total(a.0, a.0);
        }
        assert forall|a: StreamView, b: StreamView, c: StreamView| #[trigger] less(a, b) && #[trigger] less(b, c) implies less(a, c) by {
            lemma_lex_trans(a.0, b.0, c.0);
        }
    }
    assert(total_on(s, less)) by {
        assert forall|a: StreamView, b: StreamView| s.contains(a) && s.contains(b) && a != b implies #[trigger] less(a, b) || #[trigger] less(b, a) by {
            let i = choose|i: int| 0 <= i < s.len() && s[i] == a;
            let j = choose|j: int| 0 <= j < s.len() && s[j] == b;
            assert(i != j);
            if i < j {
                assert(files[i].0@ != files[j].0@);
            } else {
                assert(files[j].0@ != files[i].0@);
            }
            lemma_lex_total(a.0, b.0);
        }
    }
    lemma_sorted_by_permutation(s, t, less);
}

/// Clones are found between files: fewer than two files never give a
/// duplication finding, however long the file.
pub proof fn lemma_single_file_has_no_clones(files: Seq<(&str, &str, &SyntaxTree)>)
    requires
        files.len() <= 1,
    ensures
        duplication_findings(files).len() == 0,
{
    let streams = sorted_by(file_streams(files), by_path());
    lemma_sorted_by_multiset(file_streams(files), by_path());
    assert(streams.len() <= 1);
    let found = pair_findings(streams, streams.len() as int);
    if streams.len() == 1 {
        assert(row_findings(streams, 0, 1).len() == 0);
        assert(pair_findings(streams, 0).len() == 0);
    }
    assert(found.len() == 0);
    lemma_sorted_by_multiset(found, by_finding());
}

} // verus!
