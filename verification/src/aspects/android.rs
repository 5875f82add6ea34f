//! Detection of Gradle tasks for repositories with a Gradle wrapper: a small
//! lexer for Gradle build scripts (Groovy and Kotlin DSL), recognition of
//! plugin declarations, and the aspects that the declared plugins imply.
use crate::config::{empty_aspect_config, AspectConfig, AspectMap, QualityAspect};
use crate::text::{chars_are, chars_equal, chars_of, push_all, push_str, string_of};
use vstd::prelude::*;

verus! {

/// A token of a Gradle build script.
#[derive(Debug)]
pub enum GradleToken {
    Word(Vec<char>),
    String(Vec<char>),
    LBrace,
    RBrace,
    LParen,
    RParen,
    Colon,
}

/// The ghost form of a token.
pub enum Tok {
    Word(Seq<char>),
    Str(Seq<char>),
    LBrace,
    RBrace,
    LParen,
    RParen,
    Colon,
}

impl GradleToken {
    pub open spec fn model(&self) -> Tok {
        match self {
            GradleToken::Word(w) => Tok::Word(w@),
            GradleToken::String(s) => Tok::Str(s@),
            GradleToken::LBrace => Tok::LBrace,
            GradleToken::RBrace => Tok::RBrace,
            GradleToken::LParen => Tok::LParen,
            GradleToken::RParen => Tok::RParen,
            GradleToken::Colon => Tok::Colon,
        }
    }
}

/// The ghost forms of `tokens`.
pub open spec fn tok_models(tokens: Seq<GradleToken>) -> Seq<Tok> {
    tokens.map_values(|t: GradleToken| t.model())
}

/// The position just past the line that contains position `j` (just past its
/// `\n`), or the end of `s`.
pub open spec fn line_end(s: Seq<char>, j: int) -> int
    decreases s.len() - j,
{
    if j >= s.len() {
        s.len() as int
    } else if s[j] == '\n' {
        j + 1
    } else {
        line_end(s, j + 1)
    }
}

/// The position just past the first `*/` at or after `j`, or the end of `s`.
pub open spec fn block_end(s: Seq<char>, j: int) -> int
    decreases s.len() - j,
{
    if j >= s.len() {
        s.len() as int
    } else if s[j] == '*' && j + 1 < s.len() && s[j + 1] == '/' {
        j + 2
    } else {
        block_end(s, j + 1)
    }
}

/// Whether `s` holds `q` three times from position `j`.
pub open spec fn triple_at(s: Seq<char>, j: int, q: char) -> bool {
    0 <= j && j + 2 < s.len() && s[j] == q && s[j + 1] == q && s[j + 2] == q
}

/// The contents of a string literal whose body starts at `j`, closed by `q`
/// (by `q` three times for a triple-quoted literal), and the position just
/// past it.  A backslash escapes the next character of a single-quoted
/// literal; the contents keep escapes as written.
pub open spec fn scan_string(s: Seq<char>, j: int, q: char, triple: bool, escaped: bool) -> (
    Seq<char>,
    int,
)
    decreases s.len() - j,
{
    if j >= s.len() || j < 0 {
        (Seq::empty(), s.len() as int)
    } else if triple && triple_at(s, j, q) {
        (Seq::empty(), j + 3)
    } else if !triple && s[j] == q && !escaped {
        (Seq::empty(), j + 1)
    } else {
        let next = s[j];
        let rest = scan_string(s, j + 1, q, triple, next == '\\' && !escaped);
        (seq![next] + rest.0, rest.1)
    }
}

/// Characters that make up words: ASCII letters and digits, `_` and `.`.
pub open spec fn is_word_char(c: char) -> bool {
    ('a' <= c && c <= 'z') || ('A' <= c && c <= 'Z') || ('0' <= c && c <= '9') || c == '_' || c
        == '.'
}

/// The end of the run of word characters starting at `j`.
pub open spec fn word_end(s: Seq<char>, j: int) -> int
    decreases s.len() - j,
{
    if j >= s.len() || j < 0 {
        s.len() as int
    } else if is_word_char(s[j]) {
        word_end(s, j + 1)
    } else {
        j
    }
}

/// The tokens of `s` from position `i`: comments are skipped, quoted
/// literals become strings, runs of word characters become words, braces,
/// parentheses and colons become punctuation, and everything else is skipped.
pub open spec fn lex_from(s: Seq<char>, i: int) -> Seq<Tok>
    decreases s.len() - i, 1int,
{
    if i >= s.len() || i < 0 {
        Seq::empty()
    } else {
        let c = s[i];
        if c == '/' && i + 1 < s.len() && s[i + 1] == '/' {
            if i < line_end(s, i + 2) <= s.len() {
                lex_from(s, line_end(s, i + 2))
            } else {
                Seq::empty()
            }
        } else if c == '/' && i + 1 < s.len() && s[i + 1] == '*' {
            if i < block_end(s, i + 2) <= s.len() {
                lex_from(s, block_end(s, i + 2))
            } else {
                Seq::empty()
            }
        } else if c == '\'' || c == '"' {
            let triple = s.len() - i > 2 && s[i + 1] == c && s[i + 2] == c;
            let body = if triple {
                i + 3
            } else {
                i + 1
            };
            let scanned = scan_string(s, body, c, triple, false);
            if i < scanned.1 <= s.len() {
                seq![Tok::Str(scanned.0)] + lex_from(s, scanned.1)
            } else {
                Seq::empty()
            }
        } else if c == '{' {
            seq![Tok::LBrace] + lex_from(s, i + 1)
        } else if c == '}' {
            seq![Tok::RBrace] + lex_from(s, i + 1)
        } else if c == '(' {
            seq![Tok::LParen] + lex_from(s, i + 1)
        } else if c == ')' {
            seq![Tok::RParen] + lex_from(s, i + 1)
        } else if c == ':' {
            seq![Tok::Colon] + lex_from(s, i + 1)
        } else if is_word_char(c) {
            if i < word_end(s, i + 1) <= s.len() {
                seq![Tok::Word(s.subrange(i, word_end(s, i + 1)))] + lex_from(s, word_end(s, i + 1))
            } else {
                Seq::empty()
            }
        } else {
            lex_from(s, i + 1)
        }
    }
}

/// The tokens of a whole build script.
pub open spec fn lex(s: Seq<char>) -> Seq<Tok> {
    lex_from(s, 0)
}

proof fn lemma_line_end(s: Seq<char>, j: int)
    requires
        0 <= j,
    ensures
        j < line_end(s, j) <= s.len() || (j >= s.len() && line_end(s, j) == s.len()),
    decreases s.len() - j,
{
    if j < s.len() && s[j] != '\n' {
        lemma_line_end(s, j + 1);
    }
}

proof fn lemma_block_end(s: Seq<char>, j: int)
    requires
        0 <= j,
    ensures
        j < block_end(s, j) <= s.len() || (j >= s.len() && block_end(s, j) == s.len()),
    decreases s.len() - j,
{
    if j < s.len() && !(s[j] == '*' && j + 1 < s.len() && s[j + 1] == '/') {
        lemma_block_end(s, j + 1);
    }
}

proof fn lemma_scan_string(s: Seq<char>, j: int, q: char, triple: bool, escaped: bool)
    requires
        0 <= j,
    ensures
        j < scan_string(s, j, q, triple, escaped).1 <= s.len() || (j >= s.len() && scan_string(
            s,
            j,
            q,
            triple,
            escaped,
        ).1 == s.len()),
    decreases s.len() - j,
{
    if j < s.len() {
        lemma_scan_string(s, j + 1, q, triple, s[j] == '\\' && !escaped);
    }
}

proof fn lemma_word_end(s: Seq<char>, j: int)
    requires
        0 <= j,
    ensures
        j <= word_end(s, j) <= s.len() || (j >= s.len() && word_end(s, j) == s.len()),
    decreases s.len() - j,
{
    if j < s.len() && is_word_char(s[j]) {
        lemma_word_end(s, j + 1);
    }
}

fn skip_line(s: &[char], j: usize) -> (r: usize)
    ensures
        r == line_end(s@, j as int),
{
    let mut k = j;
    while k < s.len() && s[k] != '\n'
        invariant
            j <= k,
            line_end(s@, k as int) == line_end(s@, j as int),
        decreases s@.len() - k,
    {
        k = k + 1;
    }
    if k < s.len() {
        k + 1
    } else {
        s.len()
    }
}

fn skip_block(s: &[char], j: usize) -> (r: usize)
    ensures
        r == block_end(s@, j as int),
{
    let mut k = j;
    while k < s.len() && !(s[k] == '*' && k + 1 < s.len() && s[k + 1] == '/')
        invariant
            j <= k,
            block_end(s@, k as int) == block_end(s@, j as int),
        decreases s@.len() - k,
    {
        k = k + 1;
    }
    if k < s.len() {
        k + 2
    } else {
        s.len()
    }
}

fn is_word_character(c: char) -> (r: bool)
    ensures
        r == is_word_char(c),
{
    ('a' <= c && c <= 'z') || ('A' <= c && c <= 'Z') || ('0' <= c && c <= '9') || c == '_' || c
        == '.'
}

fn skip_word(s: &[char], j: usize) -> (r: usize)
    ensures
        r == word_end(s@, j as int),
{
    let mut k = j;
    while k < s.len() && is_word_character(s[k])
        invariant
            j <= k,
            word_end(s@, k as int) == word_end(s@, j as int),
        decreases s@.len() - k,
    {
        k = k + 1;
    }
    if k < s.len() {
        k
    } else {
        s.len()
    }
}

fn read_string(s: &[char], j: usize, q: char, triple: bool) -> (r: (Vec<char>, usize))
    ensures
        (r.0@, r.1 as int) == scan_string(s@, j as int, q, triple, false),
{
    let mut value: Vec<char> = Vec::new();
    let mut k = j;
    let mut escaped = false;
    let ghost whole = scan_string(s@, j as int, q, triple, false);
    assert(value@ + scan_string(s@, k as int, q, triple, escaped).0 =~= whole.0);
    while k < s.len()
        invariant
            whole == scan_string(s@, j as int, q, triple, false),
            j <= k,
            value@ + scan_string(s@, k as int, q, triple, escaped).0 == whole.0,
            scan_string(s@, k as int, q, triple, escaped).1 == whole.1,
        decreases s@.len() - k,
    {
        let next = s[k];
        if triple && next == q && s.len() - k > 2 && s[k + 1] == q && s[k + 2] == q {
            assert(triple_at(s@, k as int, q));
            assert(scan_string(s@, k as int, q, triple, escaped) == (Seq::<char>::empty(), k + 3));
            assert(value@ =~= value@ + Seq::<char>::empty());
            assert(value@ == whole.0);
            return (value, k + 3);
        }
        if !triple && next == q && !escaped {
            assert(scan_string(s@, k as int, q, triple, escaped) == (Seq::<char>::empty(), k + 1));
            assert(value@ =~= value@ + Seq::<char>::empty());
            assert(value@ == whole.0);
            return (value, k + 1);
        }
        let ghost before = value@;
        value.push(next);
        assert(before + (seq![next] + scan_string(s@, k + 1, q, triple, next == '\\' && !escaped).0)
            =~= value@ + scan_string(s@, k + 1, q, triple, next == '\\' && !escaped).0);
        escaped = next == '\\' && !escaped;
        k = k + 1;
    }
    assert(value@ =~= value@ + Seq::<char>::empty());
    (value, s.len())
}

/// The tokens of the build script `content`.
pub fn lex_gradle(content: &str) -> (r: Vec<GradleToken>)
    ensures
        tok_models(r@) == lex(content@),
{
    let s = chars_of(content);
    let s = s.as_slice();
    let mut tokens: Vec<GradleToken> = Vec::new();
    let mut i: usize = 0;
    while i < s.len()
        invariant
            s@ == content@,
            0 <= i <= s@.len(),
            tok_models(tokens@) + lex_from(s@, i as int) == lex(s@),
        decreases s@.len() - i,
    {
        let c = s[i];
        let ghost before = tokens@;
        if c == '/' && i + 1 < s.len() && s[i + 1] == '/' {
            proof {
                lemma_line_end(s@, i + 2);
            }
            i = skip_line(s, i + 2);
        } else if c == '/' && i + 1 < s.len() && s[i + 1] == '*' {
            proof {
                lemma_block_end(s@, i + 2);
            }
            i = skip_block(s, i + 2);
        } else if c == '\'' || c == '"' {
            let triple = s.len() - i > 2 && s[i + 1] == c && s[i + 2] == c;
            let body = if triple {
                i + 3
            } else {
                i + 1
            };
            proof {
                lemma_scan_string(s@, body as int, c, triple, false);
            }
            let (value, end) = read_string(s, body, c, triple);
            let t = GradleToken::String(value);
            tokens.push(t);
            assert(tok_models(tokens@) =~= tok_models(before).push(t.model()));
            i = end;
        } else if c == '{' || c == '}' || c == '(' || c == ')' || c == ':' {
            let t = if c == '{' {
                GradleToken::LBrace
            } else if c == '}' {
                GradleToken::RBrace
            } else if c == '(' {
                GradleToken::LParen
            } else if c == ')' {
                GradleToken::RParen
            } else {
                GradleToken::Colon
            };
            tokens.push(t);
            assert(tok_models(tokens@) =~= tok_models(before).push(t.model()));
            i = i + 1;
        } else if is_word_character(c) {
            proof {
                lemma_word_end(s@, i + 1);
            }
            let end = skip_word(s, i + 1);
            let mut word: Vec<char> = Vec::new();
            push_all(&mut word, crate::syntax::slice_of_slice(s, i, end));
            let t = GradleToken::Word(word);
            tokens.push(t);
            assert(tok_models(tokens@) =~= tok_models(before).push(t.model()));
            i = end;
        } else {
            i = i + 1;
        }
    }
    tokens
}

/// The token at `index`, if any.
pub open spec fn tok_at(tokens: Seq<Tok>, index: int) -> Option<Tok> {
    if 0 <= index < tokens.len() {
        Some(tokens[index])
    } else {
        None
    }
}

/// The name that a `kotlin("…")` marker expects inside the parentheses.
pub open spec fn kotlin_marker_name(marker: Seq<char>) -> Option<Seq<char>> {
    let p = "kotlin(\""@;
    let q = "\")"@;
    if p.len() <= marker.len() && marker.subrange(0, p.len() as int) == p {
        let rest = marker.subrange(p.len() as int, marker.len() as int);
        if q.len() <= rest.len() && rest.subrange(rest.len() - q.len(), rest.len() as int) == q {
            Some(rest.subrange(0, rest.len() - q.len()))
        } else {
            None
        }
    } else {
        None
    }
}

/// Inside a `plugins` block, the tokens from `index` declare `marker`:
/// `id 'marker'`, `id("marker")`, or `kotlin("name")` for a marker
/// `kotlin("name")`.
pub open spec fn declares_plugin(tokens: Seq<Tok>, index: int, marker: Seq<char>) -> bool {
    match tok_at(tokens, index) {
        Some(Tok::Word(name)) => if name == "id"@ {
            (tok_at(tokens, index + 1) == Some(Tok::Str(marker))) || (tok_at(tokens, index + 1)
                == Some(Tok::LParen) && tok_at(tokens, index + 2) == Some(Tok::Str(marker))
                && tok_at(tokens, index + 3) == Some(Tok::RParen))
        } else if name == "kotlin"@ {
            match kotlin_marker_name(marker) {
                Some(expected) => tok_at(tokens, index + 1) == Some(Tok::LParen) && tok_at(
                    tokens,
                    index + 2,
                ) == Some(Tok::Str(expected)) && tok_at(tokens, index + 3) == Some(Tok::RParen),
                None => false,
            }
        } else {
            false
        },
        _ => false,
    }
}

/// Outside any `plugins` block, the tokens from `index` read
/// `apply plugin: 'marker'`.
pub open spec fn applies_plugin(tokens: Seq<Tok>, index: int, marker: Seq<char>) -> bool {
    tok_at(tokens, index) == Some(Tok::Word("apply"@)) && tok_at(tokens, index + 1) == Some(
        Tok::Word("plugin"@),
    ) && tok_at(tokens, index + 2) == Some(Tok::Colon) && tok_at(tokens, index + 3) == Some(
        Tok::Str(marker),
    )
}

/// The nesting depth of `plugins` blocks after the token at `index`, given
/// the depth `depth` before it: `plugins {` opens a block, any other `{`
/// inside a block nests one level, `}` closes one level.
pub open spec fn depth_after(tokens: Seq<Tok>, index: int, depth: nat) -> nat {
    let t = tokens[index];
    if t == Tok::Word("plugins"@) && tok_at(tokens, index + 1) == Some(Tok::LBrace) {
        depth + 1
    } else if t == Tok::LBrace {
        if depth > 0 && !(tok_at(tokens, index - 1) == Some(Tok::Word("plugins"@))) {
            depth + 1
        } else {
            depth
        }
    } else if t == Tok::RBrace {
        if depth > 0 {
            (depth - 1) as nat
        } else {
            0
        }
    } else {
        depth
    }
}

/// The token at `index` is a plugin-block delimiter (it only changes depth).
pub open spec fn is_delimiter(tokens: Seq<Tok>, index: int) -> bool {
    let t = tokens[index];
    (t == Tok::Word("plugins"@) && tok_at(tokens, index + 1) == Some(Tok::LBrace)) || t
        == Tok::LBrace || t == Tok::RBrace
}

/// Scanning the tokens from `index` with plugin-block depth `depth` finds a
/// declaration of `marker`.
pub open spec fn declared_from(tokens: Seq<Tok>, index: int, depth: nat, marker: Seq<char>) -> bool
    decreases tokens.len() - index,
{
    if index >= tokens.len() || index < 0 {
        false
    } else if is_delimiter(tokens, index) {
        declared_from(tokens, index + 1, depth_after(tokens, index, depth), marker)
    } else if depth > 0 && declares_plugin(tokens, index, marker) {
        true
    } else if depth == 0 && applies_plugin(tokens, index, marker) {
        true
    } else {
        declared_from(tokens, index + 1, depth, marker)
    }
}

/// The build script `content` declares the plugin `marker`.
pub open spec fn declares(content: Seq<char>, marker: Seq<char>) -> bool {
    declared_from(lex(content), 0, 0, marker)
}

fn tok_is_word(tokens: &Vec<GradleToken>, index: usize, offset: usize, word: &str) -> (r: bool)
    ensures
        r == (tok_at(tok_models(tokens@), index + offset) == Some(Tok::Word(word@))),
{
    if index >= tokens.len() || offset >= tokens.len() - index {
        return false;
    }
    match &tokens[index + offset] {
        GradleToken::Word(w) => chars_are(w.as_slice(), word),
        _ => false,
    }
}

fn tok_is_string(tokens: &Vec<GradleToken>, index: usize, offset: usize, value: &[char]) -> (r:
    bool)
    ensures
        r == (tok_at(tok_models(tokens@), index + offset) == Some(Tok::Str(value@))),
{
    if index >= tokens.len() || offset >= tokens.len() - index {
        return false;
    }
    match &tokens[index + offset] {
        GradleToken::String(w) => chars_equal(w.as_slice(), value),
        _ => false,
    }
}

fn tok_is_punct(tokens: &Vec<GradleToken>, index: usize, offset: usize, which: u8) -> (r: bool)
    ensures
        r == (tok_at(tok_models(tokens@), index + offset) == Some(
            if which == 0 {
                Tok::LBrace
            } else if which == 1 {
                Tok::RBrace
            } else if which == 2 {
                Tok::LParen
            } else if which == 3 {
                Tok::RParen
            } else {
                Tok::Colon
            },
        )),
{
    if index >= tokens.len() || offset >= tokens.len() - index {
        return false;
    }
    match &tokens[index + offset] {
        GradleToken::LBrace => which == 0,
        GradleToken::RBrace => which == 1,
        GradleToken::LParen => which == 2,
        GradleToken::RParen => which == 3,
        GradleToken::Colon => which > 3,
        _ => false,
    }
}

/// The name inside a `kotlin("…")` marker.
fn kotlin_name(marker: &[char]) -> (r: Option<Vec<char>>)
    ensures
        r matches Some(v) ==> kotlin_marker_name(marker@) == Some(v@),
        r is None ==> kotlin_marker_name(marker@) is None,
{
    let p = chars_of("kotlin(\"");
    let q = chars_of("\")");
    if p.len() > marker.len() || !crate::text::matches_at(marker, p.as_slice(), 0) {
        return None;
    }
    let rest = crate::syntax::slice_of_slice(marker, p.len(), marker.len());
    if q.len() > rest.len() || !crate::text::matches_at(rest, q.as_slice(), rest.len() - q.len()) {
        return None;
    }
    let mut v: Vec<char> = Vec::new();
    push_all(&mut v, crate::syntax::slice_of_slice(rest, 0, rest.len() - q.len()));
    Some(v)
}

/// Whether the tokens from `index`, inside a `plugins` block, declare `marker`.
pub fn plugin_declaration_matches(tokens: &Vec<GradleToken>, index: usize, marker: &[char]) -> (r:
    bool)
    ensures
        r == declares_plugin(tok_models(tokens@), index as int, marker@),
{
    if index >= tokens.len() {
        return false;
    }
    match &tokens[index] {
        GradleToken::Word(name) => {
            if chars_are(name.as_slice(), "id") {
                tok_is_string(tokens, index, 1, marker) || (tok_is_punct(tokens, index, 1, 2)
                    && tok_is_string(tokens, index, 2, marker) && tok_is_punct(tokens, index, 3, 3))
            } else if chars_are(name.as_slice(), "kotlin") {
                match kotlin_name(marker) {
                    Some(expected) => tok_is_punct(tokens, index, 1, 2) && tok_is_string(
                        tokens,
                        index,
                        2,
                        expected.as_slice(),
                    ) && tok_is_punct(tokens, index, 3, 3),
                    None => false,
                }
            } else {
                false
            }
        },
        _ => false,
    }
}

/// Whether the tokens from `index` read `apply plugin: 'marker'`.
pub fn apply_plugin_matches(tokens: &Vec<GradleToken>, index: usize, marker: &[char]) -> (r: bool)
    ensures
        r == applies_plugin(tok_models(tokens@), index as int, marker@),
{
    tok_is_word(tokens, index, 0, "apply") && tok_is_word(tokens, index, 1, "plugin") && tok_is_punct(
        tokens,
        index,
        2,
        4,
    ) && tok_is_string(tokens, index, 3, marker)
}

/// Whether the build script `content` declares the plugin `marker`, either
/// inside a `plugins { … }` block or by `apply plugin: '…'` outside one;
/// comments and string contents never count.
pub fn has_plugin_declaration(content: &str, marker: &str) -> (r: bool)
    ensures
        r == declares(content@, marker@),
{
    let tokens = lex_gradle(content);
    let m = chars_of(marker);
    let ghost toks = tok_models(tokens@);
    let mut depth: usize = 0;
    let mut index: usize = 0;
    while index < tokens.len()
        invariant
            toks == tok_models(tokens@),
            toks == lex(content@),
            m@ == marker@,
            0 <= index <= tokens@.len(),
            depth <= index,
            declared_from(toks, 0, 0, marker@) == declared_from(toks, index as int, depth as nat, marker@),
        decreases tokens@.len() - index,
    {
        assert(toks[index as int] == tokens@[index as int].model());
        let plugins_open = tok_is_word(&tokens, index, 0, "plugins") && tok_is_punct(&tokens, index, 1, 0);
        let is_lbrace = tok_is_punct(&tokens, index, 0, 0);
        let is_rbrace = tok_is_punct(&tokens, index, 0, 1);
        if plugins_open {
            depth = depth + 1;
        } else if is_lbrace {
            let after_plugins = index > 0 && tok_is_word(&tokens, index - 1, 0, "plugins");
            if depth > 0 && !after_plugins {
                depth = depth + 1;
            }
        } else if is_rbrace {
            if depth > 0 {
                depth = depth - 1;
            }
        } else if depth > 0 && plugin_declaration_matches(&tokens, index, m.as_slice()) {
            return true;
        } else if depth == 0 && apply_plugin_matches(&tokens, index, m.as_slice()) {
            return true;
        }
        index = index + 1;
    }
    false
}

/// `config` runs the Gradle wrapper task `task` and sets nothing else.
pub open spec fn is_gradle_config(config: AspectConfig, task: Seq<char>) -> bool {
    &&& config.command matches Some(c) && c@ == "./gradlew "@ + task
    &&& config.stage is None
    &&& config.timeout_secs is None
    &&& config.severity is None
    &&& config.enabled is None
}

/// Settings that run the Gradle wrapper task `task`.
pub fn gradle_config(task: &str) -> (r: AspectConfig)
    ensures
        is_gradle_config(r, task@),
{
    let mut v: Vec<char> = Vec::new();
    push_str(&mut v, "./gradlew ");
    push_str(&mut v, task);
    AspectConfig {
        command: Some(string_of(v.as_slice())),
        stage: None,
        timeout_secs: None,
        severity: None,
        enabled: None,
    }
}

/// The build scripts declare one of the Android Gradle plugins.
pub open spec fn android_declared(content: Seq<char>) -> bool {
    declares(content, "com.android.application"@) || declares(content, "com.android.library"@)
        || declares(content, "com.android.test"@) || declares(content, "com.android.dynamic-feature"@)
        || declares(content, "com.android.base"@)
}

/// Whether the build scripts declare an Android Gradle plugin.
pub fn has_android_plugin(build_content: &str) -> (r: bool)
    ensures
        r == android_declared(build_content@),
{
    has_plugin_declaration(build_content, "com.android.application") || has_plugin_declaration(
        build_content,
        "com.android.library",
    ) || has_plugin_declaration(build_content, "com.android.test") || has_plugin_declaration(
        build_content,
        "com.android.dynamic-feature",
    ) || has_plugin_declaration(build_content, "com.android.base")
}

/// The project uses Kotlin: the build scripts declare a Kotlin plugin, or the
/// tree holds a `.kt` source (`kotlin_source`).
pub open spec fn kotlin_used(content: Seq<char>, kotlin_source: bool) -> bool {
    declares(content, "org.jetbrains.kotlin"@) || declares(content, "org.jetbrains.kotlin.android"@)
        || declares(content, "org.jetbrains.kotlin.jvm"@) || declares(content, "kotlin-android"@)
        || declares(content, "org.jetbrains.kotlin.multiplatform"@) || declares(
        content,
        "kotlin(\"android\")"@,
    ) || declares(content, "kotlin(\"jvm\")"@) || kotlin_source
}

/// Whether the project uses Kotlin; `kotlin_source` tells whether the
/// repository holds a `.kt` file outside skipped directories.
pub fn has_kotlin(build_content: &str, kotlin_source: bool) -> (r: bool)
    ensures
        r == kotlin_used(build_content@, kotlin_source),
{
    has_plugin_declaration(build_content, "org.jetbrains.kotlin") || has_plugin_declaration(
        build_content,
        "org.jetbrains.kotlin.android",
    ) || has_plugin_declaration(build_content, "org.jetbrains.kotlin.jvm") || has_plugin_declaration(
        build_content,
        "kotlin-android",
    ) || has_plugin_declaration(build_content, "org.jetbrains.kotlin.multiplatform")
        || has_plugin_declaration(build_content, "kotlin(\"android\")") || has_plugin_declaration(
        build_content,
        "kotlin(\"jvm\")",
    ) || kotlin_source
}

/// The style task that the declared plugins provide, if any: Spotless first,
/// then ktlint.
pub open spec fn style_task(content: Seq<char>) -> Option<Seq<char>> {
    if declares(content, "com.diffplug.spotless"@) {
        Some("spotlessCheck"@)
    } else if declares(content, "org.jlleitschuh.gradle.ktlint"@) {
        Some("ktlintCheck"@)
    } else {
        None
    }
}

/// The task that detection assigns to `aspect`, given the wrapper, the build
/// scripts and whether Kotlin sources exist.
pub open spec fn detected_task(
    aspect: QualityAspect,
    wrapper: bool,
    content: Seq<char>,
    kotlin_source: bool,
) -> Option<Seq<char>> {
    if !wrapper || content.len() == 0 {
        None
    } else {
        match aspect {
            QualityAspect::Build => if android_declared(content) {
                Some("assembleDebug"@)
            } else {
                None
            },
            QualityAspect::UnitTest => if android_declared(content) {
                Some("testDebugUnitTest"@)
            } else {
                None
            },
            QualityAspect::Lint => if android_declared(content) {
                Some("lintDebug"@)
            } else {
                None
            },
            QualityAspect::TypeCheck => if android_declared(content) && kotlin_used(
                content,
                kotlin_source,
            ) {
                Some("compileDebugKotlin"@)
            } else {
                None
            },
            QualityAspect::Style => style_task(content),
            _ => None,
        }
    }
}

/// Whether a file of this name is a Gradle build script that plugin
/// detection reads: `build.gradle` or `build.gradle.kts`.
pub fn is_gradle_build_file(name: &str) -> (r: bool)
    ensures
        r == (name@ == "build.gradle"@ || name@ == "build.gradle.kts"@),
{
    let n = chars_of(name);
    chars_are(n.as_slice(), "build.gradle") || chars_are(n.as_slice(), "build.gradle.kts")
}

/// Gradle tasks for a repository: `has_wrapper` tells whether the root holds
/// a regular-file Gradle wrapper, `build_content` is the concatenation of its
/// build scripts, `kotlin_source` whether it holds Kotlin sources.  Android
/// plugins give build, unit-test and lint tasks (and a Kotlin type check when
/// Kotlin is used); Spotless or ktlint give the style task.
pub fn detect_android_aspects(has_wrapper: bool, build_content: &str, kotlin_source: bool) -> (r:
    AspectMap)
    ensures
        r.wf(),
        forall|a: QualityAspect|
            match #[trigger] detected_task(a, has_wrapper, build_content@, kotlin_source) {
                Some(task) => r.lookup(a) matches Some(c) && is_gradle_config(c, task),
                None => r.lookup(a) is None,
            },
{
    let mut aspects = AspectMap::new();
    if !has_wrapper || build_content.is_empty() {
        return aspects;
    }
    let android = has_android_plugin(build_content);
    if android {
        aspects.insert(QualityAspect::Build, gradle_config("assembleDebug"));
        aspects.insert(QualityAspect::UnitTest, gradle_config("testDebugUnitTest"));
        aspects.insert(QualityAspect::Lint, gradle_config("lintDebug"));
        if has_kotlin(build_content, kotlin_source) {
            aspects.insert(QualityAspect::TypeCheck, gradle_config("compileDebugKotlin"));
        }
    }
    if has_plugin_declaration(build_content, "com.diffplug.spotless") {
        aspects.insert(QualityAspect::Style, gradle_config("spotlessCheck"));
    } else if has_plugin_declaration(build_content, "org.jlleitschuh.gradle.ktlint") {
        aspects.insert(QualityAspect::Style, gradle_config("ktlintCheck"));
    }
    aspects
}

proof fn lemma_line_end_shift(p: Seq<char>, c: Seq<char>, j: int)
    requires
        0 <= j,
    ensures
        line_end(p + c, p.len() + j) == p.len() + line_end(c, j),
    decreases c.len() - j,
{
    if j < c.len() {
        assert((p + c)[p.len() + j] == c[j]);
        if c[j] != '\n' {
            lemma_line_end_shift(p, c, j + 1);
        }
    }
}

proof fn lemma_block_end_shift(p: Seq<char>, c: Seq<char>, j: int)
    requires
        0 <= j,
    ensures
        block_end(p + c, p.len() + j) == p.len() + block_end(c, j),
    decreases c.len() - j,
{
    if j < c.len() {
        assert((p + c)[p.len() + j] == c[j]);
        if j + 1 < c.len() {
            assert((p + c)[p.len() + j + 1] == c[j + 1]);
        }
        if !(c[j] == '*' && j + 1 < c.len() && c[j + 1] == '/') {
            lemma_block_end_shift(p, c, j + 1);
        }
    }
}

proof fn lemma_scan_string_shift(p: Seq<char>, c: Seq<char>, j: int, q: char, triple: bool, escaped: bool)
    requires
        0 <= j,
    ensures
        scan_string(p + c, p.len() + j, q, triple, escaped) == (
            scan_string(c, j, q, triple, escaped).0,
            p.len() + scan_string(c, j, q, triple, escaped).1,
        ),
    decreases c.len() - j,
{
    let s = p + c;
    let n = p.len() as int;
    if j < c.len() {
        assert(s[n + j] == c[j]);
        if j + 2 < c.len() {
            assert(s[n + j + 1] == c[j + 1] && s[n + j + 2] == c[j + 2]);
        }
        assert(triple_at(s, n + j, q) == triple_at(c, j, q));
        lemma_scan_string_shift(p, c, j + 1, q, triple, c[j] == '\\' && !escaped);
    }
}

proof fn lemma_word_end_shift(p: Seq<char>, c: Seq<char>, j: int)
    requires
        0 <= j,
    ensures
        word_end(p + c, p.len() + j) == p.len() + word_end(c, j),
    decreases c.len() - j,
{
    if j < c.len() {
        assert((p + c)[p.len() + j] == c[j]);
        if is_word_char(c[j]) {
            lemma_word_end_shift(p, c, j + 1);
        }
    }
}

proof fn lemma_lex_from_shift(p: Seq<char>, c: Seq<char>, i: int)
    requires
        0 <= i,
    ensures
        lex_from(p + c, p.len() + i) == lex_from(c, i),
    decreases c.len() - i,
{
    let s = p + c;
    let n = p.len() as int;
    if i < c.len() {
        let ch = c[i];
        assert(s[n + i] == ch);
        if i + 1 < c.len() {
            assert(s[n + i + 1] == c[i + 1]);
        }
        if i + 2 < c.len() {
            assert(s[n + i + 2] == c[i + 2]);
        }
        if ch == '/' && i + 1 < c.len() && c[i + 1] == '/' {
            lemma_line_end_shift(p, c, i + 2);
            lemma_line_end(c, i + 2);
            if i < line_end(c, i + 2) <= c.len() {
                lemma_lex_from_shift(p, c, line_end(c, i + 2));
            }
        } else if ch == '/' && i + 1 < c.len() && c[i + 1] == '*' {
            lemma_block_end_shift(p, c, i + 2);
            if i < block_end(c, i + 2) <= c.len() {
                lemma_lex_from_shift(p, c, block_end(c, i + 2));
            }
        } else if ch == '\'' || ch == '"' {
            let triple = c.len() - i > 2 && c[i + 1] == ch && c[i + 2] == ch;
            let body = if triple {
                i + 3
            } else {
                i + 1
            };
            lemma_scan_string_shift(p, c, body, ch, triple, false);
            let scanned = scan_string(c, body, ch, triple, false);
            if i < scanned.1 <= c.len() {
                lemma_lex_from_shift(p, c, scanned.1);
            }
        } else if ch == '{' || ch == '}' || ch == '(' || ch == ')' || ch == ':' {
            lemma_lex_from_shift(p, c, i + 1);
        } else if is_word_char(ch) {
            lemma_word_end_shift(p, c, i + 1);
            let e = word_end(c, i + 1);
            if i < e <= c.len() {
                lemma_lex_from_shift(p, c, e);
                assert(s.subrange(n + i, n + e) =~= c.subrange(i, e));
            }
        } else {
            lemma_lex_from_shift(p, c, i + 1);
        }
    }
}

/// No character of `x` is a line break.
pub open spec fn single_line(x: Seq<char>) -> bool {
    forall|k: int| 0 <= k < x.len() ==> x[k] != '\n'
}

/// `x` holds no `*/`.
pub open spec fn no_comment_close(x: Seq<char>) -> bool {
    forall|k: int| 0 <= k < x.len() - 1 ==> !(#[trigger] x[k] == '*' && x[k + 1] == '/')
}

proof fn lemma_line_comment_end(p: Seq<char>, c: Seq<char>, j: int)
    requires
        0 <= j < p.len(),
        p[p.len() - 1] == '\n',
        forall|k: int| j <= k < p.len() - 1 ==> p[k] != '\n',
    ensures
        line_end(p + c, j) == p.len(),
    decreases p.len() - j,
{
    assert((p + c)[j] == p[j]);
    if j < p.len() - 1 {
        lemma_line_comment_end(p, c, j + 1);
    }
}

proof fn lemma_block_comment_end(p: Seq<char>, c: Seq<char>, j: int)
    requires
        0 <= j <= p.len() - 2,
        p[p.len() - 2] == '*',
        p[p.len() - 1] == '/',
        forall|k: int| j <= k < p.len() - 2 ==> !(#[trigger] p[k] == '*' && p[k + 1] == '/'),
    ensures
        block_end(p + c, j) == p.len(),
    decreases p.len() - j,
{
    assert((p + c)[j] == p[j]);
    assert((p + c)[j + 1] == p[j + 1]);
    if j < p.len() - 2 {
        lemma_block_comment_end(p, c, j + 1);
    }
}

/// Comments cannot declare plugins: a build script that starts with a line
/// comment (`//` and a single line) or a block comment (`/*` and text
/// without `*/`, closed by `*/`) has the tokens of the rest of the script,
/// and so declares exactly the plugins that the rest declares.
pub proof fn lemma_comments_declare_nothing(x: Seq<char>, content: Seq<char>, marker: Seq<char>)
    ensures
        single_line(x) ==> lex("//"@ + x + "\n"@ + content) == lex(content) && declares(
            "//"@ + x + "\n"@ + content,
            marker,
        ) == declares(content, marker),
        no_comment_close(x) ==> lex("/*"@ + x + "*/"@ + content) == lex(content) && declares(
            "/*"@ + x + "*/"@ + content,
            marker,
        ) == declares(content, marker),
{
    reveal_strlit("//");
    reveal_strlit("\n");
    reveal_strlit("/*");
    reveal_strlit("*/");
    if single_line(x) {
        let p = "//"@ + x + "\n"@;
        assert(p.len() == x.len() + 3);
        assert forall|k: int| 2 <= k < p.len() - 1 implies p[k] != '\n' by {
            assert(p[k] == x[k - 2]);
        }
        lemma_line_comment_end(p, content, 2);
        lemma_lex_from_shift(p, content, 0);
        let s = p + content;
        assert(s[0] == '/' && s[1] == '/');
        assert(s =~= "//"@ + x + "\n"@ + content);
    }
    if no_comment_close(x) {
        let p = "/*"@ + x + "*/"@;
        assert(p.len() == x.len() + 4);
        assert forall|k: int| 2 <= k < p.len() - 2 implies !(#[trigger] p[k] == '*' && p[k + 1] == '/') by {
            assert(p[k] == x[k - 2]);
            if k < p.len() - 3 {
                assert(p[k + 1] == x[k - 1]);
            } else {
                assert(p[k + 1] == '*');
            }
        }
        lemma_block_comment_end(p, content, 2);
        lemma_lex_from_shift(p, content, 0);
        let s = p + content;
        assert(s[0] == '/' && s[1] == '*');
        assert(s =~= "/*"@ + x + "*/"@ + content);
    }
}

/// Detection needs a Gradle wrapper and build scripts: without a wrapper, or
/// with no build script content, no aspect gets a detected task.
pub proof fn lemma_detection_needs_wrapper(aspect: QualityAspect, wrapper: bool, content: Seq<char>, kotlin_source: bool)
    ensures
        !wrapper ==> detected_task(aspect, wrapper, content, kotlin_source) is None,
        content.len() == 0 ==> detected_task(aspect, wrapper, content, kotlin_source) is None,
{
}

/// Android tasks need an Android plugin: when the build scripts declare none
/// of the Android Gradle plugins (`com.android.application`,
/// `com.android.library`, `com.android.test`,
/// `com.android.dynamic-feature`, `com.android.base`), no aspect but
/// `Style` gets a detected task, whatever else the scripts declare and
/// whether Kotlin sources exist.
pub proof fn lemma_android_tasks_need_android_plugin(
    aspect: QualityAspect,
    wrapper: bool,
    content: Seq<char>,
    kotlin_source: bool,
)
    requires
        aspect != QualityAspect::Style,
        !declares(content, "com.android.application"@),
        !declares(content, "com.android.library"@),
        !declares(content, "com.android.test"@),
        !declares(content, "com.android.dynamic-feature"@),
        !declares(content, "com.android.base"@),
    ensures
        detected_task(aspect, wrapper, content, kotlin_source) is None,
{
}

} // verus!
