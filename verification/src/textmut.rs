//! Textual mutation: byte-level splices on source text.
//!
//! A splice can propose an edit the language rejects; the build step prices
//! those out. What this engine keeps out is the obvious non-code: string
//! literals, comments and char literals, found by the lexicon of
//! [`LanguageSyntax`] without parsing. The mutation logic itself (which
//! operators swap for which, how integer literals perturb) is the same for
//! every language.
//!
//! A splice never adds or removes a newline, so every other line keeps its
//! number and a kill is keyed to exactly the line that was scored.

use vstd::prelude::*;
use vstd::string::StringExecFns;
use vstd::utf8::*;

use crate::mutant::{Mutant, MutantSet, MutantView};
use crate::text::{byte_slice, bytes_of, decimal, decimal_text, newlines, slice};

verus! {

/// How a language spells comments, strings and char literals.
#[derive(Debug, Clone, Copy)]
pub struct LanguageSyntax {
    /// Line-comment marker, e.g. `//`. `None` for a language with none.
    pub line_comment: Option<&'static str>,
    /// Block-comment open/close markers, e.g. `("/*", "*/")`.
    pub block_comment: Option<(&'static str, &'static str)>,
    /// Whether a nested opener inside a block comment starts a fresh level
    /// (Rust, Kotlin) or is inert text (Java, Go).
    pub block_comment_nests: bool,
    /// Non-escaping, delimiter-matched string kinds, tried before the
    /// standard quote, most specific first.
    pub raw_quote_strings: &'static [&'static str],
    /// The standard escaping string's quote character.
    pub quote: char,
    /// Rust's `r"..."`, `r#"..."#`, `b"..."` and `br"..."` strings.
    pub rust_raw_strings: bool,
    /// How `'` is read.
    pub char_literal: CharLiteralRule,
}

/// How a language's `'` token disambiguates from other uses of the same
/// byte.
#[derive(Debug, Clone, Copy, PartialEq, Eq)]
pub enum CharLiteralRule {
    /// No char-literal syntax at all.
    Absent,
    /// `'` always opens a char literal, closed by the next unescaped `'`.
    Always,
    /// `'` opens a char literal only when an escape follows (`'\n'`) or
    /// exactly one byte and a closing `'` (`'x'`); otherwise it is code.
    LifetimeAmbiguous,
}

/// Rust: nesting block comments, prefix-triggered raw strings, lifetimes.
pub fn rust() -> (r: LanguageSyntax)
    ensures
        r.wf(),
        r.spares_edits(),
        r.line_comment matches Some(m) && m@ == "//"@,
        r.block_comment matches Some(m) && m.0@ == "/*"@ && m.1@ == "*/"@,
        r.block_comment_nests,
        r.raw_quote_strings@.len() == 0,
        r.quote == '"',
        r.rust_raw_strings,
        r.char_literal is LifetimeAmbiguous,
{
    proof {
        lemma_marker("//");
        lemma_marker("/*");
        reveal_strlit("//");
        reveal_strlit("/*");
    }
    LanguageSyntax {
        line_comment: Some("//"),
        block_comment: Some(("/*", "*/")),
        block_comment_nests: true,
        raw_quote_strings: &[],
        quote: '"',
        rust_raw_strings: true,
        char_literal: CharLiteralRule::LifetimeAmbiguous,
    }
}

/// Java: block comments do not nest (`/* /* */ */` ends at the first `*/`), no
/// raw strings, `'` unconditionally opens a char literal.
pub fn java() -> (r: LanguageSyntax)
    ensures
        r.wf(),
        r.spares_edits(),
        r.line_comment matches Some(m) && m@ == "//"@,
        r.block_comment matches Some(m) && m.0@ == "/*"@ && m.1@ == "*/"@,
        !r.block_comment_nests,
        r.raw_quote_strings@.len() == 0,
        r.quote == '"',
        !r.rust_raw_strings,
        r.char_literal is Always,
{
    proof {
        lemma_marker("//");
        lemma_marker("/*");
        reveal_strlit("//");
        reveal_strlit("/*");
    }
    LanguageSyntax {
        line_comment: Some("//"),
        block_comment: Some(("/*", "*/")),
        block_comment_nests: false,
        raw_quote_strings: &[],
        quote: '"',
        rust_raw_strings: false,
        char_literal: CharLiteralRule::Always,
    }
}

/// Kotlin: block comments nest, triple-quoted raw strings.
pub fn kotlin() -> (r: LanguageSyntax)
    ensures
        r.wf(),
        r.spares_edits(),
        r.line_comment matches Some(m) && m@ == "//"@,
        r.block_comment matches Some(m) && m.0@ == "/*"@ && m.1@ == "*/"@,
        r.block_comment_nests,
        r.raw_quote_strings@.len() == 1,
        r.raw_quote_strings@[0]@ == "\"\"\""@,
        r.quote == '"',
        !r.rust_raw_strings,
        r.char_literal is Always,
{
    proof {
        lemma_marker("//");
        lemma_marker("/*");
        lemma_marker("\"\"\"");
        reveal_strlit("//");
        reveal_strlit("/*");
        reveal_strlit("\"\"\"");
    }
    LanguageSyntax {
        line_comment: Some("//"),
        block_comment: Some(("/*", "*/")),
        block_comment_nests: true,
        raw_quote_strings: &["\"\"\""],
        quote: '"',
        rust_raw_strings: false,
        char_literal: CharLiteralRule::Always,
    }
}

/// Go: block comments do not nest, backtick raw strings.
pub fn go() -> (r: LanguageSyntax)
    ensures
        r.wf(),
        r.spares_edits(),
        r.line_comment matches Some(m) && m@ == "//"@,
        r.block_comment matches Some(m) && m.0@ == "/*"@ && m.1@ == "*/"@,
        !r.block_comment_nests,
        r.raw_quote_strings@.len() == 1,
        r.raw_quote_strings@[0]@ == "`"@,
        r.quote == '"',
        !r.rust_raw_strings,
        r.char_literal is Always,
{
    proof {
        lemma_marker("//");
        lemma_marker("/*");
        lemma_marker("`");
        reveal_strlit("//");
        reveal_strlit("/*");
        reveal_strlit("`");
    }
    LanguageSyntax {
        line_comment: Some("//"),
        block_comment: Some(("/*", "*/")),
        block_comment_nests: false,
        raw_quote_strings: &["`"],
        quote: '"',
        rust_raw_strings: false,
        char_literal: CharLiteralRule::Always,
    }
}

impl LanguageSyntax {
    /// The markers that a scan can move past: none is empty, and a line
    /// comment does not open at the newline that ends it.
    pub open spec fn wf(&self) -> bool {
        &&& self.line_comment matches Some(m) ==> bytes_of(m@).len() > 0 && bytes_of(m@)[0] != 10
        &&& self.block_comment matches Some(m) ==> bytes_of(m.0@).len() > 0
        &&& forall|k: int|
            0 <= k < self.raw_quote_strings@.len() ==> bytes_of(
                (#[trigger] self.raw_quote_strings@[k])@,
            ).len() > 0
    }

    /// Whether no comment, string or char literal opens at a byte that an edit
    /// can hold behind its first one.
    pub open spec fn spares_edits(&self) -> bool {
        &&& self.line_comment matches Some(m) ==> !is_inner_byte(bytes_of(m@)[0])
        &&& self.block_comment matches Some(m) ==> !is_inner_byte(bytes_of(m.0@)[0])
        &&& forall|k: int|
            0 <= k < self.raw_quote_strings@.len() ==> !is_inner_byte(
                bytes_of((#[trigger] self.raw_quote_strings@[k])@)[0],
            )
        &&& self.quote <= '\u{7f}' ==> !is_inner_byte(self.quote as u8)
    }
}

/// The bytes that an edit can hold behind its first one: the second byte of an
/// operator, and those of a number.
pub open spec fn is_inner_byte(c: u8) -> bool {
    c == 38 || c == 124 || c == 61 || c == 95 || 48 <= c <= 57
}

/// An ASCII marker has one byte per character.
proof fn lemma_marker(m: &str)
    ensures
        is_ascii_chars(m@) ==> bytes_of(m@).len() == m@.len() && forall|k: int|
            0 <= k < m@.len() ==> #[trigger] bytes_of(m@)[k] == m@[k] as u8,
{
    if is_ascii_chars(m@) {
        is_ascii_chars_encode_utf8(m@);
    }
}


const NEWLINE: u8 = 10;

const BACKSLASH: u8 = 92;

const DOUBLE_QUOTE: u8 = 34;

const SINGLE_QUOTE: u8 = 39;

const HASH: u8 = 35;

const LOWER_B: u8 = 98;

const LOWER_R: u8 = 114;

const UNDERSCORE: u8 = 95;

/// Whether `pat` stands in `b` at `i`.
pub open spec fn has_at(b: Seq<u8>, i: int, pat: Seq<u8>) -> bool {
    0 <= i && i + pat.len() <= b.len() && b.subrange(i, i + pat.len()) == pat
}

/// The first newline at or after `i`, or the end.
pub open spec fn line_end(b: Seq<u8>, i: int) -> int
    decreases b.len() - i,
{
    if i >= b.len() {
        b.len() as int
    } else if b[i] == 10 {
        i
    } else {
        line_end(b, i + 1)
    }
}

/// Where a delimited region ends whose text starts at `i`: behind the next
/// `delim` that no backslash escapes, or at the end of the input.
pub open spec fn delimited_end(b: Seq<u8>, i: int, delim: Seq<u8>, escapes: bool) -> int
    decreases b.len() + 1 - i,
{
    if i >= b.len() {
        b.len() as int
    } else if escapes && b[i] == 92 {
        delimited_end(b, i + 2, delim, escapes)
    } else if has_at(b, i, delim) {
        i + delim.len()
    } else {
        delimited_end(b, i + 1, delim, escapes)
    }
}

/// Where a block comment ends whose text starts at `i` with `depth` levels
/// open: behind the closer of the outermost level, or at the end.
pub open spec fn block_end(
    b: Seq<u8>,
    i: int,
    open: Seq<u8>,
    close: Seq<u8>,
    nests: bool,
    depth: nat,
) -> int
    decreases b.len() - i, depth,
{
    if i >= b.len() {
        b.len() as int
    } else if nests && has_at(b, i, open) && open.len() > 0 {
        block_end(b, i + open.len(), open, close, nests, depth + 1)
    } else if has_at(b, i, close) {
        if depth <= 1 {
            i + close.len()
        } else {
            block_end(b, i + close.len(), open, close, nests, (depth - 1) as nat)
        }
    } else {
        block_end(b, i + 1, open, close, nests, depth)
    }
}

/// Whether `n` hashes stand in `b` from `i` on.
pub open spec fn hashes_at(b: Seq<u8>, i: int, n: nat) -> bool {
    i + n <= b.len() && forall|k: int| i <= k < i + n ==> #[trigger] b[k] == 35
}

/// Where a raw string ends whose text starts at `i`: behind the first quote
/// that `hashes` hashes follow, or at the end.
pub open spec fn raw_end(b: Seq<u8>, i: int, hashes: nat) -> int
    decreases b.len() - i,
{
    if i >= b.len() {
        b.len() as int
    } else if b[i] == 34 && hashes_at(b, i + 1, hashes) {
        i + 1 + hashes
    } else {
        raw_end(b, i + 1, hashes)
    }
}

/// The first index at or after `j` that holds no hash.
pub open spec fn hash_run_end(b: Seq<u8>, j: int) -> int
    decreases b.len() - j,
{
    if 0 <= j < b.len() && b[j] == 35 {
        hash_run_end(b, j + 1)
    } else {
        j
    }
}

/// Whether `b` holds the byte `c` at `i`.
pub open spec fn byte_is(b: Seq<u8>, i: int, c: u8) -> bool {
    0 <= i < b.len() && b[i] == c
}

/// The byte before `i`, or zero at the start.
pub open spec fn prev_byte(b: Seq<u8>, i: int) -> u8 {
    if 0 < i <= b.len() {
        b[i - 1]
    } else {
        0
    }
}

/// The byte after `i`, or zero at the end.
pub open spec fn next_byte(b: Seq<u8>, i: int) -> u8 {
    if 0 <= i + 1 < b.len() {
        b[i + 1]
    } else {
        0
    }
}

/// An ASCII letter, digit or underscore.
pub open spec fn is_word_byte(c: u8) -> bool {
    48 <= c <= 57 || 65 <= c <= 90 || 97 <= c <= 122 || c == 95
}

/// Whether the `r` or `b` at `i` opens a raw or byte string: no identifier
/// byte stands before it, and the prefix runs up to a quote.
pub open spec fn opens_prefixed(b: Seq<u8>, i: int) -> bool {
    let j = if b[i] == 98 && byte_is(b, i + 1, 114) {
        i + 2
    } else {
        i + 1
    };
    &&& !is_word_byte(prev_byte(b, i))
    &&& byte_is(b, hash_run_end(b, j), 34)
    &&& b[i] == 114 || b[i] == 98
}

/// Where the hashes of a raw or byte string prefix at `i` start.
pub open spec fn prefix_hashes(b: Seq<u8>, i: int) -> int {
    if byte_is(b, i + 1, 114) {
        i + 2
    } else {
        i + 1
    }
}

/// Where the raw or byte string ends whose prefix starts at `i`, when the
/// prefix runs up to a quote.
pub open spec fn prefixed_end(b: Seq<u8>, i: int) -> Option<int> {
    let start = prefix_hashes(b, i);
    let quote = hash_run_end(b, start);
    if !byte_is(b, quote, 34) {
        None
    } else if b[i] == 114 || byte_is(b, i + 1, 114) {
        Some(raw_end(b, quote + 1, (quote - start) as nat))
    } else {
        Some(delimited_end(b, quote + 1, seq![34u8], true))
    }
}

/// The first delimiter of the list that stands in `b` at `i`, from the
/// `k`-th on.
pub open spec fn raw_delim(b: Seq<u8>, i: int, delims: Seq<&str>, k: int) -> Option<Seq<u8>>
    decreases delims.len() - k,
{
    if k < 0 || k >= delims.len() {
        None
    } else if has_at(b, i, bytes_of(delims[k]@)) {
        Some(bytes_of(delims[k]@))
    } else {
        raw_delim(b, i, delims, k + 1)
    }
}

/// Whether the `'` at `i` opens a char literal.
pub open spec fn opens_char(b: Seq<u8>, i: int, rule: CharLiteralRule) -> bool {
    match rule {
        CharLiteralRule::Absent => false,
        CharLiteralRule::Always => true,
        CharLiteralRule::LifetimeAmbiguous => byte_is(b, i + 1, 92) || byte_is(b, i + 2, 39),
    }
}

/// Where the comment, string or char literal that starts at `i` ends; `None`
/// when the byte at `i` is code.
pub open spec fn region_end(b: Seq<u8>, i: int, syntax: LanguageSyntax) -> Option<int> {
    if syntax.line_comment matches Some(m) && has_at(b, i, bytes_of(m@)) {
        Some(line_end(b, i))
    } else if syntax.block_comment matches Some(m) && has_at(b, i, bytes_of(m.0@)) {
        let markers = syntax.block_comment->0;
        let open = bytes_of(markers.0@);
        let close = bytes_of(markers.1@);
        Some(block_end(b, i + open.len(), open, close, syntax.block_comment_nests, 1))
    } else if let Some(delim) = raw_delim(b, i, syntax.raw_quote_strings@, 0) {
        Some(delimited_end(b, i + delim.len(), delim, false))
    } else if syntax.quote <= '\u{7f}' && b[i] == syntax.quote as u8 {
        Some(delimited_end(b, i + 1, seq![b[i]], true))
    } else if syntax.rust_raw_strings && (b[i] == 114 || b[i] == 98) && opens_prefixed(b, i) {
        prefixed_end(b, i)
    } else if b[i] == 39 && opens_char(b, i, syntax.char_literal) {
        Some(delimited_end(b, i + 1, seq![39u8], true))
    } else {
        None
    }
}

/// For each byte from `i` on, whether it is code.
pub open spec fn mask_from(b: Seq<u8>, i: int, syntax: LanguageSyntax) -> Seq<bool>
    decreases b.len() - i,
{
    if i < 0 || i >= b.len() {
        Seq::empty()
    } else {
        match region_end(b, i, syntax) {
            Some(e) => if i < e <= b.len() {
                Seq::new((e - i) as nat, |k: int| false) + mask_from(b, e, syntax)
            } else {
                Seq::empty()
            },
            None => seq![true] + mask_from(b, i + 1, syntax),
        }
    }
}

/// `mask` with the positions from `a` up to `e` cleared.
pub open spec fn blanked(mask: Seq<bool>, a: int, e: int) -> Seq<bool> {
    Seq::new(mask.len(), |k: int| if a <= k < e { false } else { mask[k] })
}

proof fn lemma_line_end(b: Seq<u8>, i: int)
    requires
        0 <= i <= b.len(),
    ensures
        i <= line_end(b, i) <= b.len(),
        i < b.len() && b[i] != 10 ==> i < line_end(b, i),
    decreases b.len() - i,
{
    if i < b.len() && b[i] != 10 {
        lemma_line_end(b, i + 1);
    }
}

proof fn lemma_delimited_end(b: Seq<u8>, i: int, delim: Seq<u8>, escapes: bool)
    requires
        0 <= i,
    ensures
        delimited_end(b, i, delim, escapes) <= b.len(),
        i <= b.len() ==> i <= delimited_end(b, i, delim, escapes),
    decreases b.len() + 1 - i,
{
    if i >= b.len() {
    } else if escapes && b[i] == 92 {
        lemma_delimited_end(b, i + 2, delim, escapes);
    } else if !has_at(b, i, delim) {
        lemma_delimited_end(b, i + 1, delim, escapes);
    }
}

proof fn lemma_block_end(
    b: Seq<u8>,
    i: int,
    open: Seq<u8>,
    close: Seq<u8>,
    nests: bool,
    depth: nat,
)
    requires
        0 <= i <= b.len(),
    ensures
        i <= block_end(b, i, open, close, nests, depth) <= b.len(),
    decreases b.len() - i, depth,
{
    if i >= b.len() {
    } else if nests && has_at(b, i, open) && open.len() > 0 {
        lemma_block_end(b, i + open.len(), open, close, nests, depth + 1);
    } else if has_at(b, i, close) {
        if depth > 1 {
            lemma_block_end(b, i + close.len(), open, close, nests, (depth - 1) as nat);
        }
    } else {
        lemma_block_end(b, i + 1, open, close, nests, depth);
    }
}

proof fn lemma_raw_end(b: Seq<u8>, i: int, hashes: nat)
    requires
        0 <= i <= b.len(),
    ensures
        i <= raw_end(b, i, hashes) <= b.len(),
    decreases b.len() - i,
{
    if i < b.len() && !(b[i] == 34 && hashes_at(b, i + 1, hashes)) {
        lemma_raw_end(b, i + 1, hashes);
    }
}

proof fn lemma_hash_run_end(b: Seq<u8>, j: int)
    requires
        0 <= j,
    ensures
        j <= hash_run_end(b, j),
        j <= b.len() ==> hash_run_end(b, j) <= b.len(),
    decreases b.len() - j,
{
    if 0 <= j < b.len() && b[j] == 35 {
        lemma_hash_run_end(b, j + 1);
    }
}

proof fn lemma_raw_delim(b: Seq<u8>, i: int, delims: Seq<&str>, k: int)
    requires
        0 <= k,
        forall|j: int| 0 <= j < delims.len() ==> bytes_of((#[trigger] delims[j])@).len() > 0,
    ensures
        raw_delim(b, i, delims, k) matches Some(d) ==> d.len() > 0 && has_at(b, i, d),
    decreases delims.len() - k,
{
    if k < delims.len() && !has_at(b, i, bytes_of(delims[k]@)) {
        lemma_raw_delim(b, i, delims, k + 1);
    }
}

/// A region never ends where it starts, nor behind the input.
pub proof fn lemma_region_end(b: Seq<u8>, i: int, syntax: LanguageSyntax)
    requires
        syntax.wf(),
        0 <= i < b.len(),
    ensures
        region_end(b, i, syntax) matches Some(e) ==> i < e <= b.len(),
{
    lemma_line_end(b, i);
    if syntax.line_comment matches Some(m) && has_at(b, i, bytes_of(m@)) {
        let pat = bytes_of(syntax.line_comment->0@);
        assert(b.subrange(i, i + pat.len())[0] == b[i]);
    } else if syntax.block_comment matches Some(m) && has_at(b, i, bytes_of(m.0@)) {
        let markers = syntax.block_comment->0;
        let open = bytes_of(markers.0@);
        let close = bytes_of(markers.1@);
        lemma_block_end(b, i + open.len(), open, close, syntax.block_comment_nests, 1);
    } else {
        lemma_raw_delim(b, i, syntax.raw_quote_strings@, 0);
        if let Some(delim) = raw_delim(b, i, syntax.raw_quote_strings@, 0) {
            lemma_delimited_end(b, i + delim.len(), delim, false);
        } else {
            lemma_delimited_end(b, i + 1, seq![b[i]], true);
            lemma_delimited_end(b, i + 1, seq![39u8], true);
            lemma_hash_run_end(b, prefix_hashes(b, i));
            let quote = hash_run_end(b, prefix_hashes(b, i));
            if byte_is(b, quote, 34) {
                lemma_raw_end(b, quote + 1, (quote - prefix_hashes(b, i)) as nat);
                lemma_delimited_end(b, quote + 1, seq![34u8], true);
            }
        }
    }
}

/// The mask covers every byte.
pub proof fn lemma_mask_len(b: Seq<u8>, i: int, syntax: LanguageSyntax)
    requires
        syntax.wf(),
        0 <= i <= b.len(),
    ensures
        mask_from(b, i, syntax).len() == b.len() - i,
    decreases b.len() - i,
{
    if i < b.len() {
        lemma_region_end(b, i, syntax);
        match region_end(b, i, syntax) {
            Some(e) => lemma_mask_len(b, e, syntax),
            None => lemma_mask_len(b, i + 1, syntax),
        }
    }
}

fn starts_at(b: &[u8], i: usize, pat: &[u8]) -> (r: bool)
    requires
        i <= b.len(),
    ensures
        r == has_at(b@, i as int, pat@),
{
    if pat.len() > b.len() - i {
        return false;
    }
    let mut k: usize = 0;
    while k < pat.len()
        invariant
            k <= pat.len(),
            i + pat.len() <= b.len(),
            forall|j: int| 0 <= j < k ==> b@[i + j] == pat@[j],
        decreases pat.len() - k,
    {
        if b[i + k] != pat[k] {
            assert(b@.subrange(i as int, i + pat@.len())[k as int] != pat@[k as int]);
            return false;
        }
        k += 1;
    }
    assert(b@.subrange(i as int, i + pat@.len()) =~= pat@);
    true
}

fn byte_at(b: &[u8], i: usize) -> (r: u8)
    ensures
        r == if i < b.len() { b@[i as int] } else { 0u8 },
{
    if i < b.len() {
        b[i]
    } else {
        0
    }
}

fn blank(mask: &mut Vec<bool>, a: usize, e: usize)
    requires
        a <= e <= old(mask).len(),
    ensures
        final(mask)@ == blanked(old(mask)@, a as int, e as int),
{
    let ghost before = mask@;
    let mut k: usize = a;
    while k < e
        invariant
            a <= k <= e <= mask.len(),
            mask@ =~= blanked(before, a as int, k as int),
        decreases e - k,
    {
        mask.set(k, false);
        k += 1;
    }
}

/// Clears the mask over a delimited region that opens at `open`: through to
/// the next `delim`, honouring backslash escapes when `escapes` is set.
/// Returns the index after the closing delimiter, or the end of the file for
/// an unterminated region.
fn mask_delimited(
    b: &[u8],
    mask: &mut Vec<bool>,
    open: usize,
    delim: &[u8],
    escapes: bool,
) -> (r: usize)
    requires
        old(mask).len() == b.len(),
        has_at(b@, open as int, delim@),
    ensures
        r == delimited_end(b@, open + delim@.len(), delim@, escapes),
        open + delim@.len() <= r <= b.len(),
        final(mask)@ == blanked(old(mask)@, open as int, r as int),
{
    let mut i: usize = open + delim.len();
    while i < b.len()
        invariant
            open + delim.len() <= i <= b.len(),
            mask@ == old(mask)@,
            mask.len() == b.len(),
            delimited_end(b@, i as int, delim@, escapes) == delimited_end(
                b@,
                open + delim@.len(),
                delim@,
                escapes,
            ),
        decreases b.len() - i,
    {
        if escapes && b[i] == BACKSLASH {
            if i + 1 < b.len() {
                i += 2;
            } else {
                i += 1;
                assert(delimited_end(b@, i as int, delim@, escapes) == delimited_end(
                    b@,
                    i + 1,
                    delim@,
                    escapes,
                ));
            }
            continue;
        }
        if starts_at(b, i, delim) {
            let end: usize = i + delim.len();
            blank(mask, open, end);
            return end;
        }
        i += 1;
    }
    blank(mask, open, i);
    i
}

/// Clears the mask over a block comment that opens at `open_at`, tracking
/// nesting depth when `nests` is set. Returns the index after the closing
/// delimiter, or the end of the file for an unterminated comment.
fn mask_block_comment(
    b: &[u8],
    mask: &mut Vec<bool>,
    open_at: usize,
    open: &str,
    close: &str,
    nests: bool,
) -> (r: usize)
    requires
        old(mask).len() == b.len(),
        bytes_of(open@).len() > 0,
        has_at(b@, open_at as int, bytes_of(open@)),
    ensures
        r == block_end(
            b@,
            open_at + bytes_of(open@).len(),
            bytes_of(open@),
            bytes_of(close@),
            nests,
            1,
        ),
        open_at + bytes_of(open@).len() <= r <= b.len(),
        final(mask)@ == blanked(old(mask)@, open_at as int, r as int),
{
    let ob = open.as_bytes();
    let cb = close.as_bytes();
    let mut i: usize = open_at + ob.len();
    let mut depth: usize = 1;
    while i < b.len()
        invariant
            open_at + ob.len() <= i <= b.len(),
            ob@ == bytes_of(open@),
            cb@ == bytes_of(close@),
            ob.len() > 0,
            1 <= depth <= i - open_at,
            mask@ == old(mask)@,
            mask.len() == b.len(),
            block_end(b@, i as int, ob@, cb@, nests, depth as nat) == block_end(
                b@,
                open_at + ob@.len(),
                ob@,
                cb@,
                nests,
                1,
            ),
        decreases b.len() - i, depth,
    {
        if nests && starts_at(b, i, ob) {
            depth += 1;
            i += ob.len();
            continue;
        }
        if starts_at(b, i, cb) {
            i += cb.len();
            depth -= 1;
            if depth == 0 {
                blank(mask, open_at, i);
                return i;
            }
            continue;
        }
        i += 1;
    }
    blank(mask, open_at, i);
    i
}

fn hash_run(b: &[u8], j: usize) -> (r: usize)
    requires
        j <= b.len(),
    ensures
        r == hash_run_end(b@, j as int),
        j <= r <= b.len(),
{
    let mut k: usize = j;
    while k < b.len() && b[k] == HASH
        invariant
            j <= k <= b.len(),
            hash_run_end(b@, k as int) == hash_run_end(b@, j as int),
        decreases b.len() - k,
    {
        k += 1;
    }
    k
}

/// Clears the mask over a raw or byte string whose prefix starts at `i`, and
/// returns the index after it. When no quote closes the prefix nothing is
/// cleared.
fn mask_rust_prefixed_string(b: &[u8], mask: &mut Vec<bool>, i: usize) -> (r: usize)
    requires
        old(mask).len() == b.len(),
        i < b.len(),
    ensures
        match prefixed_end(b@, i as int) {
            Some(e) => r == e && i < r <= b.len() && final(mask)@ == blanked(
                old(mask)@,
                i as int,
                r as int,
            ),
            None => r == i + 1 && final(mask)@ == old(mask)@,
        },
{
    let mut start: usize = i + 1;
    if byte_at(b, start) == LOWER_R {
        start += 1;
    }
    let j: usize = hash_run(b, start);
    if byte_at(b, j) != DOUBLE_QUOTE {
        return i + 1;
    }
    let end: usize = if b[i] == LOWER_R || byte_at(b, i + 1) == LOWER_R {
        mask_raw_string(b, mask, j, j - start)
    } else {
        assert(b@.subrange(j as int, j + 1) =~= seq![34u8]);
        let delim: [u8; 1] = [DOUBLE_QUOTE];
        assert(delim@ =~= seq![34u8]);
        mask_delimited(b, mask, j, delim.as_slice(), true)
    };
    blank(mask, i, j);
    assert(mask@ =~= blanked(old(mask)@, i as int, end as int));
    end
}

/// Clears the mask over a raw string whose opening quote sits at `open`,
/// closed by a quote plus `hashes` hashes; no escapes exist inside.
fn mask_raw_string(b: &[u8], mask: &mut Vec<bool>, open: usize, hashes: usize) -> (r: usize)
    requires
        old(mask).len() == b.len(),
        open < b.len(),
    ensures
        r == raw_end(b@, open + 1, hashes as nat),
        open < r <= b.len(),
        final(mask)@ == blanked(old(mask)@, open as int, r as int),
{
    let mut i: usize = open + 1;
    while i < b.len()
        invariant
            open < i <= b.len(),
            mask@ == old(mask)@,
            mask.len() == b.len(),
            raw_end(b@, i as int, hashes as nat) == raw_end(b@, open + 1, hashes as nat),
        decreases b.len() - i,
    {
        if b[i] == DOUBLE_QUOTE && all_hashes(b, i + 1, hashes) {
            let end: usize = i + hashes + 1;
            blank(mask, open, end);
            return end;
        }
        i += 1;
    }
    blank(mask, open, i);
    i
}

fn all_hashes(b: &[u8], i: usize, n: usize) -> (r: bool)
    requires
        i <= b.len(),
    ensures
        r == hashes_at(b@, i as int, n as nat),
{
    if n > b.len() - i {
        return false;
    }
    let mut k: usize = 0;
    while k < n
        invariant
            k <= n,
            i + n <= b.len(),
            forall|j: int| i <= j < i + k ==> #[trigger] b@[j] == 35,
        decreases n - k,
    {
        if b[i + k] != HASH {
            return false;
        }
        k += 1;
    }
    true
}

fn word_byte(c: u8) -> (r: bool)
    ensures
        r == is_word_byte(c),
{
    (48 <= c && c <= 57) || (65 <= c && c <= 90) || (97 <= c && c <= 122) || c == UNDERSCORE
}

/// True when the `r` or `b` at `i` opens a raw or byte string rather than
/// being an identifier character.
fn is_raw_or_byte_string(b: &[u8], i: usize) -> (r: bool)
    requires
        i < b.len(),
    ensures
        r == opens_prefixed(b@, i as int),
{
    let prev: u8 = if i > 0 {
        b[i - 1]
    } else {
        0
    };
    if word_byte(prev) {
        return false;
    }
    let mut j: usize = i + 1;
    if b[i] == LOWER_B && byte_at(b, j) == LOWER_R {
        j += 1;
    }
    let k: usize = hash_run(b, j);
    byte_at(b, k) == DOUBLE_QUOTE && (b[i] == LOWER_R || b[i] == LOWER_B)
}

fn find_raw_delim(b: &[u8], i: usize, delims: &[&'static str]) -> (r: Option<&'static str>)
    requires
        i <= b.len(),
    ensures
        match r {
            Some(d) => raw_delim(b@, i as int, delims@, 0) == Some(bytes_of(d@)),
            None => raw_delim(b@, i as int, delims@, 0) is None,
        },
{
    let mut k: usize = 0;
    while k < delims.len()
        invariant
            k <= delims.len(),
            i <= b.len(),
            raw_delim(b@, i as int, delims@, 0) == raw_delim(b@, i as int, delims@, k as int),
        decreases delims.len() - k,
    {
        if starts_at(b, i, delims[k].as_bytes()) {
            return Some(delims[k]);
        }
        k += 1;
    }
    None
}

/// Clears the mask over the comment, string or char literal that starts at
/// `i` and returns the index after it; `None` when the byte at `i` is code.
fn mask_region(
    b: &[u8],
    mask: &mut Vec<bool>,
    i: usize,
    syntax: &LanguageSyntax,
) -> (r: Option<usize>)
    requires
        syntax.wf(),
        old(mask).len() == b.len(),
        i < b.len(),
    ensures
        match r {
            Some(e) => region_end(b@, i as int, *syntax) == Some(e as int) && i < e <= b.len()
                && final(mask)@ == blanked(old(mask)@, i as int, e as int),
            None => region_end(b@, i as int, *syntax) is None && final(mask)@ == old(mask)@,
        },
{
    proof {
        lemma_region_end(b@, i as int, *syntax);
    }
    if let Some(lc) = syntax.line_comment {
        if starts_at(b, i, lc.as_bytes()) {
            let mut e: usize = i;
            while e < b.len() && b[e] != NEWLINE
                invariant
                    i <= e <= b.len(),
                    line_end(b@, i as int) == line_end(b@, e as int),
                decreases b.len() - e,
            {
                e += 1;
            }
            blank(mask, i, e);
            return Some(e);
        }
    }
    if let Some((open, close)) = syntax.block_comment {
        if starts_at(b, i, open.as_bytes()) {
            let e: usize = mask_block_comment(
                b,
                mask,
                i,
                open,
                close,
                syntax.block_comment_nests,
            );
            return Some(e);
        }
    }
    proof {
        lemma_raw_delim(b@, i as int, syntax.raw_quote_strings@, 0);
    }
    if let Some(delim) = find_raw_delim(b, i, syntax.raw_quote_strings) {
        let e: usize = mask_delimited(b, mask, i, delim.as_bytes(), false);
        return Some(e);
    }
    let one: [u8; 1] = [b[i]];
    assert(one@ =~= seq![b@[i as int]]);
    assert(b@.subrange(i as int, i + 1) =~= one@);
    if syntax.quote <= '\u{7f}' && b[i] == syntax.quote as u8 {
        let e: usize = mask_delimited(b, mask, i, one.as_slice(), true);
        return Some(e);
    }
    if syntax.rust_raw_strings && (b[i] == LOWER_R || b[i] == LOWER_B) && is_raw_or_byte_string(
        b,
        i,
    ) {
        let e: usize = mask_rust_prefixed_string(b, mask, i);
        return Some(e);
    }
    if b[i] == SINGLE_QUOTE {
        let literal: bool = match syntax.char_literal {
            CharLiteralRule::Absent => false,
            CharLiteralRule::Always => true,
            CharLiteralRule::LifetimeAmbiguous => byte_at(b, i + 1) == BACKSLASH || (i + 1
                < b.len() && byte_at(b, i + 2) == SINGLE_QUOTE),
        };
        if literal {
            let e: usize = mask_delimited(b, mask, i, one.as_slice(), true);
            return Some(e);
        }
    }
    None
}

/// True at each byte that is code rather than a comment, string, char or
/// byte-string literal, by the lexicon of `syntax`.
pub fn code_mask(src: &str, syntax: &LanguageSyntax) -> (r: Vec<bool>)
    requires
        syntax.wf(),
    ensures
        r@ == mask_from(bytes_of(src@), 0, *syntax),
        r@.len() == bytes_of(src@).len(),
{
    let b = src.as_bytes();
    let ghost whole = mask_from(b@, 0, *syntax);
    let mut mask: Vec<bool> = Vec::new();
    let mut n: usize = 0;
    while n < b.len()
        invariant
            n <= b.len(),
            mask.len() == n,
            forall|k: int| 0 <= k < n ==> #[trigger] mask@[k],
        decreases b.len() - n,
    {
        mask.push(true);
        n += 1;
    }
    let mut i: usize = 0;
    proof {
        lemma_mask_len(b@, 0, *syntax);
        assert(mask@.take(0) + whole =~= whole);
    }
    while i < b.len()
        invariant
            syntax.wf(),
            i <= b.len(),
            mask.len() == b.len(),
            whole.len() == b.len(),
            whole == mask@.take(i as int) + mask_from(b@, i as int, *syntax),
            forall|k: int| i <= k < mask.len() ==> #[trigger] mask@[k],
        decreases b.len() - i,
    {
        proof {
            lemma_region_end(b@, i as int, *syntax);
        }
        let ghost before = mask@;
        match mask_region(b, &mut mask, i, syntax) {
            Some(e) => {
                proof {
                    let blank = Seq::new((e - i) as nat, |k: int| false);
                    assert(mask@.take(e as int) =~= before.take(i as int) + blank);
                    assert(mask@.take(e as int) + mask_from(b@, e as int, *syntax)
                        =~= before.take(i as int) + (blank + mask_from(b@, e as int, *syntax)));
                    assert forall|k: int| e <= k < mask.len() implies #[trigger] mask@[k] by {
                        assert(before[k]);
                    }
                }
                i = e;
            },
            None => {
                proof {
                    assert(mask@.take(i + 1) =~= mask@.take(i as int) + seq![true]);
                    assert(mask@.take(i + 1) + mask_from(b@, i + 1, *syntax) =~= mask@.take(
                        i as int,
                    ) + (seq![true] + mask_from(b@, i + 1, *syntax)));
                }
                i += 1;
            },
        }
    }
    proof {
        assert(mask@.take(i as int) =~= mask@);
        assert(whole =~= mask@);
    }
    mask
}

/// One candidate edit: the bytes from `start` up to `end`, on `line`, give
/// way to `replacement`.
struct Site {
    line: u32,
    start: usize,
    end: usize,
    replacement: String,
    kind: &'static str,
    detail: String,
}

/// A candidate edit as plain text.
#[verifier::ext_equal]
pub struct SiteView {
    pub line: nat,
    pub start: int,
    pub end: int,
    pub replacement: Seq<char>,
    pub kind: Seq<char>,
    pub detail: Seq<char>,
}

impl View for Site {
    type V = SiteView;

    closed spec fn view(&self) -> SiteView {
        SiteView {
            line: self.line as nat,
            start: self.start as int,
            end: self.end as int,
            replacement: self.replacement@,
            kind: self.kind@,
            detail: self.detail@,
        }
    }
}

/// An operator swap: what stands there, what takes its place, and the
/// family the edit belongs to.
#[verifier::ext_equal]
pub struct SwapView {
    pub from: Seq<char>,
    pub to: Seq<char>,
    pub kind: Seq<char>,
}

pub open spec fn swap(from: &str, to: &str, kind: &str) -> Option<SwapView> {
    Some(SwapView { from: from@, to: to@, kind: kind@ })
}

/// The swap for the two-byte operator at `i`, if one stands there.
pub open spec fn two_byte_swap(b: Seq<u8>, i: int) -> Option<SwapView> {
    let prev = prev_byte(b, i);
    let next = next_byte(b, i);
    if b[i] == '&' as u8 && next == '&' as u8 {
        swap("&&", "||", "bool")
    } else if b[i] == '|' as u8 && next == '|' as u8 {
        swap("||", "&&", "bool")
    } else if b[i] == '<' as u8 && next == '=' as u8 {
        swap("<=", ">", "cmp")
    } else if b[i] == '>' as u8 && next == '=' as u8 && prev != '<' as u8 && prev != '>' as u8
        && prev != '=' as u8 && prev != '!' as u8 {
        swap(">=", "<", "cmp")
    } else if b[i] == '=' as u8 && next == '=' as u8 && prev != '=' as u8 && prev != '!' as u8
        && prev != '<' as u8 && prev != '>' as u8 {
        swap("==", "!=", "cmp")
    } else if b[i] == '!' as u8 && next == '=' as u8 {
        swap("!=", "==", "cmp")
    } else {
        None
    }
}

/// The swap for the one-byte operator at `i`, if one stands there.
pub open spec fn one_byte_swap(b: Seq<u8>, i: int) -> Option<SwapView> {
    let prev = prev_byte(b, i);
    let next = next_byte(b, i);
    if b[i] == '<' as u8 && next != '<' as u8 && next != '=' as u8 && prev != '<' as u8 && prev
        != ':' as u8 {
        swap("<", ">=", "cmp")
    } else if b[i] == '>' as u8 && next != '>' as u8 && next != '=' as u8 && prev != '>' as u8
        && prev != '-' as u8 && prev != '=' as u8 {
        swap(">", "<=", "cmp")
    } else if b[i] == '+' as u8 {
        swap("+", "-", "bin")
    } else if b[i] == '-' as u8 && next != '>' as u8 {
        swap("-", "+", "bin")
    } else if b[i] == '*' as u8 && prev != '/' as u8 && next != '/' as u8 {
        swap("*", "/", "bin")
    } else if b[i] == '/' as u8 && prev != '*' as u8 && next != '*' as u8 && prev != '/' as u8
        && next != '/' as u8 {
        swap("/", "*", "bin")
    } else {
        None
    }
}

pub open spec fn is_digit_byte(c: u8) -> bool {
    48 <= c <= 57
}

/// Whether an integer literal starts at `i`: a digit that neither an
/// identifier nor a float point runs into. A byte of a non-ASCII character
/// counts as part of an identifier.
pub open spec fn opens_literal(b: Seq<u8>, i: int) -> bool {
    let prev = prev_byte(b, i);
    is_digit_byte(b[i]) && !is_word_byte(prev) && prev < 0x80 && prev != 46
}

/// The end of the run of digits and underscores that starts at `i`.
pub open spec fn digits_end(b: Seq<u8>, i: int) -> int
    decreases b.len() - i,
{
    if 0 <= i < b.len() && (is_digit_byte(b[i]) || b[i] == 95) {
        digits_end(b, i + 1)
    } else {
        i
    }
}

/// The number that the digits from `i` up to `e` write, underscores skipped.
pub open spec fn digits_value(b: Seq<u8>, i: int, e: int) -> nat
    decreases e - i,
{
    if e <= i {
        0
    } else if b[e - 1] == 95 {
        digits_value(b, i, e - 1)
    } else {
        digits_value(b, i, e - 1) * 10 + (b[e - 1] - 48) as nat
    }
}

/// What an integer literal becomes: `0 -> 1`, `1 -> 0`, otherwise `n + 1`.
pub open spec fn perturbed(n: nat) -> nat {
    if n == 0 {
        1
    } else if n == 1 {
        0
    } else {
        n + 1
    }
}

/// Whether `line` lies in one of the inclusive ranges.
pub open spec fn in_spans(spans: Seq<(u32, u32)>, line: nat) -> bool {
    exists|k: int| 0 <= k < spans.len() && (#[trigger] spans[k]).0 <= line <= spans[k].1
}

pub open spec fn swap_site(s: SwapView, line: nat, i: int) -> SiteView {
    SiteView {
        line,
        start: i,
        end: i + s.from.len(),
        replacement: s.to,
        kind: s.kind,
        detail: s.from + " -> "@ + s.to,
    }
}

/// The edit of the literal from `i` up to `e`, unless it is part of a float
/// or does not fit in 64 bits.
pub open spec fn literal_site(b: Seq<u8>, line: nat, i: int, e: int) -> Option<SiteView> {
    let n = digits_value(b, i, e);
    if byte_is(b, e, 46) || n > u64::MAX {
        None
    } else {
        Some(
            SiteView {
                line,
                start: i,
                end: e,
                replacement: decimal(perturbed(n)),
                kind: "const"@,
                detail: decimal(n) + " -> "@ + decimal(perturbed(n)),
            },
        )
    }
}

/// The edit that starts at `i` on `line`, if any, and where the scan goes
/// on behind it.
pub open spec fn site_at(b: Seq<u8>, i: int, line: nat) -> (Option<SiteView>, int) {
    if let Some(s) = two_byte_swap(b, i) {
        (Some(swap_site(s, line, i)), i + 2)
    } else if let Some(s) = one_byte_swap(b, i) {
        (Some(swap_site(s, line, i)), i + 1)
    } else if opens_literal(b, i) {
        (literal_site(b, line, i, digits_end(b, i)), digits_end(b, i))
    } else {
        (None, i + 1)
    }
}

/// Every candidate edit from `i` on, in order, where `line` is the line of
/// the byte at `i`: the edits that start at code bytes inside the spans.
pub open spec fn sites_from(
    b: Seq<u8>,
    mask: Seq<bool>,
    spans: Seq<(u32, u32)>,
    i: int,
    line: nat,
) -> Seq<SiteView>
    decreases b.len() - i,
{
    if i < 0 || i >= b.len() {
        Seq::empty()
    } else if b[i] == 10 {
        sites_from(b, mask, spans, i + 1, line + 1)
    } else if !mask[i] || !in_spans(spans, line) {
        sites_from(b, mask, spans, i + 1, line)
    } else {
        let (site, next) = site_at(b, i, line);
        if next <= i || next > b.len() {
            Seq::empty()
        } else {
            (match site {
                Some(s) => seq![s],
                None => Seq::empty(),
            }) + sites_from(b, mask, spans, next, line)
        }
    }
}

/// Every candidate edit of a source text.
pub open spec fn sites(
    src: Seq<char>,
    spans: Seq<(u32, u32)>,
    syntax: LanguageSyntax,
) -> Seq<SiteView> {
    let b = bytes_of(src);
    sites_from(b, mask_from(b, 0, syntax), spans, 0, 1)
}

/// Whether two lexicons spell everything alike.
pub open spec fn same_lexicon(a: LanguageSyntax, b: LanguageSyntax) -> bool {
    &&& match (a.line_comment, b.line_comment) {
        (Some(m), Some(o)) => m@ == o@,
        (None, None) => true,
        _ => false,
    }
    &&& match (a.block_comment, b.block_comment) {
        (Some(m), Some(o)) => m.0@ == o.0@ && m.1@ == o.1@,
        (None, None) => true,
        _ => false,
    }
    &&& a.block_comment_nests == b.block_comment_nests
    &&& a.raw_quote_strings@.len() == b.raw_quote_strings@.len()
    &&& forall|k: int|
        0 <= k < a.raw_quote_strings@.len() ==> (#[trigger] a.raw_quote_strings@[k])@
            == b.raw_quote_strings@[k]@
    &&& a.quote == b.quote
    &&& a.rust_raw_strings == b.rust_raw_strings
    &&& a.char_literal == b.char_literal
}

proof fn lemma_same_delim(t: Seq<u8>, i: int, a: LanguageSyntax, b: LanguageSyntax, k: int)
    requires
        same_lexicon(a, b),
    ensures
        raw_delim(t, i, a.raw_quote_strings@, k) == raw_delim(t, i, b.raw_quote_strings@, k),
    decreases a.raw_quote_strings@.len() - k,
{
    if 0 <= k < a.raw_quote_strings@.len() {
        assert(a.raw_quote_strings@[k]@ == b.raw_quote_strings@[k]@);
        lemma_same_delim(t, i, a, b, k + 1);
    }
}

proof fn lemma_same_mask(t: Seq<u8>, i: int, a: LanguageSyntax, b: LanguageSyntax)
    requires
        same_lexicon(a, b),
    ensures
        mask_from(t, i, a) == mask_from(t, i, b),
    decreases t.len() - i,
{
    if 0 <= i < t.len() {
        lemma_same_delim(t, i, a, b, 0);
        match region_end(t, i, a) {
            Some(e) => {
                if i < e <= t.len() {
                    lemma_same_mask(t, e, a, b);
                }
            },
            None => lemma_same_mask(t, i + 1, a, b),
        }
    }
}

/// The candidate edits of a text rest on how its lexicon spells things, and on
/// nothing else.
pub proof fn sites_follow_the_spelling(
    src: Seq<char>,
    spans: Seq<(u32, u32)>,
    a: LanguageSyntax,
    b: LanguageSyntax,
)
    requires
        same_lexicon(a, b),
    ensures
        sites(src, spans, a) == sites(src, spans, b),
{
    lemma_same_mask(bytes_of(src), 0, a, b);
}

/// The mutant that an edit makes of a source text.
pub open spec fn mutant_of(src: Seq<char>, s: SiteView) -> MutantView {
    MutantView {
        line: s.line as u32,
        kind: s.kind,
        detail: s.detail,
        source: byte_slice(src, 0, s.start)->0 + s.replacement + byte_slice(
            src,
            s.end,
            bytes_of(src).len() as int,
        )->0,
    }
}

proof fn lemma_digits_end(b: Seq<u8>, i: int)
    requires
        0 <= i <= b.len(),
    ensures
        i <= digits_end(b, i) <= b.len(),
        i < b.len() && is_digit_byte(b[i]) ==> i < digits_end(b, i),
        forall|k: int|
            i <= k < digits_end(b, i) ==> is_digit_byte(#[trigger] b[k]) || b[k] == 95,
    decreases b.len() - i,
{
    if i < b.len() && (is_digit_byte(b[i]) || b[i] == 95) {
        lemma_digits_end(b, i + 1);
    }
}

proof fn lemma_digits_value_grows(b: Seq<u8>, i: int, e: int, f: int)
    requires
        i <= e <= f,
    ensures
        digits_value(b, i, e) <= digits_value(b, i, f),
    decreases f - e,
{
    if e < f {
        lemma_digits_value_grows(b, i, e, f - 1);
    }
}

/// The swaps replace exactly the bytes they name.
proof fn lemma_swaps(b: Seq<u8>, i: int)
    requires
        0 <= i < b.len(),
    ensures
        two_byte_swap(b, i) matches Some(s) ==> s.from.len() == 2 && i + 2 <= b.len() && b[i + 1]
            < 0x80 && b[i] < 0x80 && b[i] != 10 && is_inner_byte(b[i + 1]) && is_ascii_chars(s.to)
            && is_ascii_chars(s.from) && !s.to.contains('\n'),
        one_byte_swap(b, i) matches Some(s) ==> s.from.len() == 1 && b[i] < 0x80 && b[i] != 10
            && is_ascii_chars(s.to) && is_ascii_chars(s.from) && !s.to.contains('\n'),
{
    reveal_strlit("&&");
    reveal_strlit("||");
    reveal_strlit("<=");
    reveal_strlit(">=");
    reveal_strlit("==");
    reveal_strlit("!=");
    reveal_strlit("<");
    reveal_strlit(">");
    reveal_strlit("+");
    reveal_strlit("-");
    reveal_strlit("*");
    reveal_strlit("/");
}

proof fn lemma_decimal_chars(n: nat)
    ensures
        decimal(n).len() > 0,
        forall|k: int| 0 <= k < decimal(n).len() ==> '0' <= #[trigger] decimal(n)[k] <= '9',
    decreases n,
{
    if n >= 10 {
        lemma_decimal_chars(n / 10);
    }
}

fn in_span(spans: &[(u32, u32)], line: u32) -> (r: bool)
    ensures
        r == in_spans(spans@, line as nat),
{
    let mut k: usize = 0;
    while k < spans.len()
        invariant
            k <= spans.len(),
            forall|j: int| 0 <= j < k ==> !((#[trigger] spans@[j]).0 <= line <= spans@[j].1),
        decreases spans.len() - k,
    {
        if spans[k].0 <= line && line <= spans[k].1 {
            assert(spans@[k as int].0 <= line <= spans@[k as int].1);
            return true;
        }
        k += 1;
    }
    false
}

fn find_swap(b: &[u8], i: usize) -> (r: Option<(&'static str, &'static str, &'static str)>)
    requires
        i < b.len(),
    ensures
        match r {
            Some((from, to, kind)) => swap(from, to, kind) == (if two_byte_swap(
                b@,
                i as int,
            ) is Some {
                two_byte_swap(b@, i as int)
            } else {
                one_byte_swap(b@, i as int)
            }),
            None => two_byte_swap(b@, i as int) is None && one_byte_swap(b@, i as int) is None,
        },
{
    let c: char = b[i] as char;
    let prev: char = (if i > 0 {
        b[i - 1]
    } else {
        0
    }) as char;
    let next: char = byte_at(b, i + 1) as char;
    if c == '&' && next == '&' {
        Some(("&&", "||", "bool"))
    } else if c == '|' && next == '|' {
        Some(("||", "&&", "bool"))
    } else if c == '<' && next == '=' {
        Some(("<=", ">", "cmp"))
    } else if c == '>' && next == '=' && prev != '<' && prev != '>' && prev != '=' && prev != '!' {
        Some((">=", "<", "cmp"))
    } else if c == '=' && next == '=' && prev != '=' && prev != '!' && prev != '<' && prev != '>' {
        Some(("==", "!=", "cmp"))
    } else if c == '!' && next == '=' {
        Some(("!=", "==", "cmp"))
    } else if c == '<' && next != '<' && next != '=' && prev != '<' && prev != ':' {
        Some(("<", ">=", "cmp"))
    } else if c == '>' && next != '>' && next != '=' && prev != '>' && prev != '-' && prev != '=' {
        Some((">", "<=", "cmp"))
    } else if c == '+' {
        Some(("+", "-", "bin"))
    } else if c == '-' && next != '>' {
        Some(("-", "+", "bin"))
    } else if c == '*' && prev != '/' && next != '/' {
        Some(("*", "/", "bin"))
    } else if c == '/' && prev != '*' && next != '*' && prev != '/' && next != '/' {
        Some(("/", "*", "bin"))
    } else {
        None
    }
}

fn digit_byte(c: u8) -> (r: bool)
    ensures
        r == is_digit_byte(c),
{
    48 <= c && c <= 57
}

fn digit_run(b: &[u8], i: usize) -> (r: usize)
    requires
        i <= b.len(),
    ensures
        r == digits_end(b@, i as int),
        i <= r <= b.len(),
{
    let mut e: usize = i;
    while e < b.len() && (digit_byte(b[e]) || b[e] == UNDERSCORE)
        invariant
            i <= e <= b.len(),
            digits_end(b@, e as int) == digits_end(b@, i as int),
        decreases b.len() - e,
    {
        e += 1;
    }
    e
}

/// The value of a run of digits, when it fits in 64 bits.
fn parse_digits(b: &[u8], i: usize, e: usize) -> (r: Option<u64>)
    requires
        i <= e <= b.len(),
        forall|k: int| i <= k < e ==> is_digit_byte(#[trigger] b@[k]) || b@[k] == 95,
    ensures
        match r {
            Some(n) => n == digits_value(b@, i as int, e as int),
            None => digits_value(b@, i as int, e as int) > u64::MAX,
        },
{
    let mut value: u128 = 0;
    let mut k: usize = i;
    while k < e
        invariant
            i <= k <= e <= b.len(),
            value == digits_value(b@, i as int, k as int),
            value <= u64::MAX,
            forall|k: int| i <= k < e ==> is_digit_byte(#[trigger] b@[k]) || b@[k] == 95,
        decreases e - k,
    {
        if b[k] != UNDERSCORE {
            value = value * 10 + (b[k] - 48) as u128;
        }
        k += 1;
        if value > 0xffff_ffff_ffff_ffff {
            proof {
                lemma_digits_value_grows(b@, i as int, k as int, e as int);
            }
            return None;
        }
    }
    Some(value as u64)
}

fn arrow(from: &str, to: &str) -> (r: String)
    ensures
        r@ == from@ + " -> "@ + to@,
{
    let mut detail = from.to_owned();
    detail.append(" -> ");
    detail.append(to);
    detail
}

/// The candidate edit at `i`, and where the scan goes on behind it.
fn find_site(b: &[u8], i: usize, line: u32) -> (r: (Option<Site>, usize))
    requires
        i < b.len(),
    ensures
        r.1 == site_at(b@, i as int, line as nat).1,
        i < r.1 <= b.len(),
        match r.0 {
            Some(s) => site_at(b@, i as int, line as nat).0 == Some(s@),
            None => site_at(b@, i as int, line as nat).0 is None,
        },
{
    proof {
        lemma_swaps(b@, i as int);
    }
    if let Some((from, to, kind)) = find_swap(b, i) {
        proof {
            lemma_marker(from);
        }
        let end: usize = i + from.len();
        let site = Site {
            line,
            start: i,
            end,
            replacement: to.to_owned(),
            kind,
            detail: arrow(from, to),
        };
        return (Some(site), end);
    }
    let prev: u8 = if i > 0 {
        b[i - 1]
    } else {
        0
    };
    if digit_byte(b[i]) && !word_byte(prev) && prev < 0x80 && prev != 46 {
        proof {
            lemma_digits_end(b@, i as int);
        }
        let e: usize = digit_run(b, i);
        if e >= b.len() || b[e] != 46 {
            if let Some(n) = parse_digits(b, i, e) {
                let to: u128 = if n == 0 {
                    1
                } else if n == 1 {
                    0
                } else {
                    n as u128 + 1
                };
                let replacement = decimal_text(to);
                let from = decimal_text(n as u128);
                let detail = arrow(from.as_str(), replacement.as_str());
                return (
                    Some(Site { line, start: i, end: e, replacement, kind: "const", detail }),
                    e,
                );
            }
        }
        return (None, e);
    }
    (None, i + 1)
}

/// What holds of a candidate edit: it stands on code inside the spans, on
/// the line it names, between character boundaries, and neither what it
/// replaces nor what it puts there holds a newline.
pub open spec fn site_ok(
    b: Seq<u8>,
    mask: Seq<bool>,
    spans: Seq<(u32, u32)>,
    s: SiteView,
) -> bool {
    &&& 0 <= s.start < s.end <= b.len()
    &&& mask[s.start]
    &&& in_spans(spans, s.line)
    &&& s.line == 1 + newlines(b.take(s.start))
    &&& is_char_boundary(b, s.start)
    &&& is_char_boundary(b, s.end)
    &&& forall|k: int| s.start <= k < s.end ==> #[trigger] b[k] != 10
    &&& forall|k: int| s.start < k < s.end ==> is_inner_byte(#[trigger] b[k])
    &&& is_ascii_chars(s.replacement)
    &&& !s.replacement.contains('\n')
}

/// The candidate edits are in order and do not overlap.
pub open spec fn sites_ordered(sites: Seq<SiteView>) -> bool {
    forall|j: int, k: int|
        0 <= j < k < sites.len() ==> (#[trigger] sites[j]).end <= (#[trigger] sites[k]).start
}

proof fn lemma_newlines_step(b: Seq<u8>, i: int)
    requires
        0 <= i < b.len(),
    ensures
        newlines(b.take(i + 1)) == newlines(b.take(i)) + if b[i] == 10 {
            1nat
        } else {
            0nat
        },
{
    assert(b.take(i + 1).drop_last() =~= b.take(i));
}

proof fn lemma_newlines_run(b: Seq<u8>, i: int, e: int)
    requires
        0 <= i <= e <= b.len(),
        forall|k: int| i <= k < e ==> #[trigger] b[k] != 10,
    ensures
        newlines(b.take(e)) == newlines(b.take(i)),
    decreases e - i,
{
    if i < e {
        lemma_newlines_run(b, i, e - 1);
        lemma_newlines_step(b, e - 1);
    }
}

proof fn lemma_newlines_prefix(b: Seq<u8>, i: int)
    requires
        0 <= i <= b.len(),
    ensures
        newlines(b.take(i)) <= newlines(b),
    decreases b.len() - i,
{
    if i < b.len() {
        lemma_newlines_prefix(b, i + 1);
        lemma_newlines_step(b, i);
    } else {
        assert(b.take(i) =~= b);
    }
}

proof fn lemma_site_at(
    b: Seq<u8>,
    mask: Seq<bool>,
    spans: Seq<(u32, u32)>,
    i: int,
    line: nat,
)
    requires
        valid_utf8(b),
        0 <= i < b.len(),
        b[i] != 10,
        mask[i],
        in_spans(spans, line),
        line == 1 + newlines(b.take(i)),
    ensures
        i < site_at(b, i, line).1 <= b.len(),
        site_at(b, i, line).0 matches Some(s) ==> site_ok(b, mask, spans, s) && s.start == i
            && s.end == site_at(b, i, line).1,
        forall|k: int| i <= k < site_at(b, i, line).1 ==> #[trigger] b[k] != 10,
{
    lemma_swaps(b, i);
    lemma_digits_end(b, i);
    if two_byte_swap(b, i) is Some {
        lemma_ascii_boundaries_at(b, i);
        lemma_ascii_boundaries_at(b, i + 1);
    } else if one_byte_swap(b, i) is Some {
        lemma_ascii_boundaries_at(b, i);
    } else if opens_literal(b, i) {
        let e = digits_end(b, i);
        lemma_ascii_boundaries_at(b, i);
        assert(is_digit_byte(b[e - 1]) || b[e - 1] == 95);
        lemma_ascii_boundaries_at(b, e - 1);
        lemma_decimal_chars(perturbed(digits_value(b, i, e)));
        assert(!decimal(perturbed(digits_value(b, i, e))).contains('\n'));
    }
}

proof fn lemma_ascii_boundaries_at(b: Seq<u8>, i: int)
    requires
        valid_utf8(b),
        0 <= i < b.len(),
        b[i] < 0x80,
    ensures
        is_char_boundary(b, i),
        is_char_boundary(b, i + 1),
{
    crate::text::lemma_ascii_boundaries(b, i);
}

proof fn lemma_sites_from(
    b: Seq<u8>,
    mask: Seq<bool>,
    spans: Seq<(u32, u32)>,
    i: int,
    line: nat,
)
    requires
        valid_utf8(b),
        0 <= i <= b.len(),
        line == 1 + newlines(b.take(i)),
    ensures
        ({
            let s = sites_from(b, mask, spans, i, line);
            &&& forall|k: int|
                0 <= k < s.len() ==> site_ok(b, mask, spans, #[trigger] s[k]) && s[k].start >= i
            &&& sites_ordered(s)
            &&& s.len() <= b.len() - i
        }),
    decreases b.len() - i,
{
    if i < b.len() {
        lemma_newlines_step(b, i);
        if b[i] == 10 {
            lemma_sites_from(b, mask, spans, i + 1, line + 1);
        } else if !mask[i] || !in_spans(spans, line) {
            lemma_sites_from(b, mask, spans, i + 1, line);
        } else {
            lemma_site_at(b, mask, spans, i, line);
            let (site, next) = site_at(b, i, line);
            lemma_newlines_run(b, i, next);
            lemma_sites_from(b, mask, spans, next, line);
            let rest = sites_from(b, mask, spans, next, line);
            let s = sites_from(b, mask, spans, i, line);
            match site {
                Some(x) => {
                    assert(s =~= seq![x] + rest);
                    assert forall|k: int| 0 <= k < s.len() implies site_ok(
                        b,
                        mask,
                        spans,
                        #[trigger] s[k],
                    ) && s[k].start >= i by {
                        if k > 0 {
                            assert(s[k] == rest[k - 1]);
                        }
                    }
                    assert forall|j: int, k: int| 0 <= j < k < s.len() implies (
                    #[trigger] s[j]).end <= (#[trigger] s[k]).start by {
                        assert(s[k] == rest[k - 1]);
                        if j > 0 {
                            assert(s[j] == rest[j - 1]);
                        }
                    }
                },
                None => {
                    assert(s =~= rest);
                },
            }
        }
    }
}

/// Every candidate edit stands on code inside the spans, on the line it
/// names, and the edits come in order without overlap.
pub proof fn sites_stand_on_code_in_spans(
    src: Seq<char>,
    spans: Seq<(u32, u32)>,
    syntax: LanguageSyntax,
)
    ensures
        ({
            let b = bytes_of(src);
            let s = sites(src, spans, syntax);
            &&& forall|k: int|
                0 <= k < s.len() ==> site_ok(
                    b,
                    mask_from(b, 0, syntax),
                    spans,
                    #[trigger] s[k],
                )
            &&& sites_ordered(s)
            &&& s.len() <= b.len()
        }),
{
    let b = bytes_of(src);
    encode_utf8_valid_utf8(src);
    assert(b.take(0) =~= Seq::empty());
    lemma_sites_from(b, mask_from(b, 0, syntax), spans, 0, 1);
}

proof fn lemma_code_goes_on(b: Seq<u8>, i: int, syntax: LanguageSyntax, p: int)
    requires
        syntax.wf(),
        0 <= i <= p,
        p + 1 < b.len(),
        mask_from(b, i, syntax)[p - i],
        region_end(b, p + 1, syntax) is None,
    ensures
        mask_from(b, i, syntax)[p + 1 - i],
    decreases b.len() - i,
{
    lemma_region_end(b, i, syntax);
    lemma_mask_len(b, i, syntax);
    match region_end(b, i, syntax) {
        Some(e) => {
            lemma_mask_len(b, e, syntax);
            lemma_code_goes_on(b, e, syntax, p);
        },
        None => {
            lemma_mask_len(b, i + 1, syntax);
            if i < p {
                lemma_code_goes_on(b, i + 1, syntax, p);
            } else {
                lemma_mask_len(b, i + 2, syntax);
            }
        },
    }
}

proof fn lemma_inner_byte_opens_nothing(b: Seq<u8>, i: int, syntax: LanguageSyntax)
    requires
        syntax.wf(),
        syntax.spares_edits(),
        0 <= i < b.len(),
        is_inner_byte(b[i]),
    ensures
        region_end(b, i, syntax) is None,
{
    if let Some(m) = syntax.line_comment {
        let pat = bytes_of(m@);
        if has_at(b, i, pat) {
            assert(b.subrange(i, i + pat.len())[0] == b[i]);
        }
    }
    if let Some(m) = syntax.block_comment {
        let pat = bytes_of(m.0@);
        if has_at(b, i, pat) {
            assert(b.subrange(i, i + pat.len())[0] == b[i]);
        }
    }
    lemma_inner_byte_opens_no_raw(b, i, syntax, 0);
}

proof fn lemma_inner_byte_opens_no_raw(b: Seq<u8>, i: int, syntax: LanguageSyntax, k: int)
    requires
        syntax.wf(),
        syntax.spares_edits(),
        0 <= i < b.len(),
        is_inner_byte(b[i]),
        0 <= k,
    ensures
        raw_delim(b, i, syntax.raw_quote_strings@, k) is None,
    decreases syntax.raw_quote_strings@.len() - k,
{
    if k < syntax.raw_quote_strings@.len() {
        let pat = bytes_of(syntax.raw_quote_strings@[k]@);
        if has_at(b, i, pat) {
            assert(b.subrange(i, i + pat.len())[0] == b[i]);
        }
        lemma_inner_byte_opens_no_raw(b, i, syntax, k + 1);
    }
}

/// Where no comment or literal can open inside an operator or a number, every
/// byte that an edit replaces is code.
pub proof fn edits_are_code_throughout(
    src: Seq<char>,
    spans: Seq<(u32, u32)>,
    syntax: LanguageSyntax,
    k: int,
    p: int,
)
    requires
        syntax.wf(),
        syntax.spares_edits(),
        0 <= k < sites(src, spans, syntax).len(),
        sites(src, spans, syntax)[k].start <= p < sites(src, spans, syntax)[k].end,
    ensures
        mask_from(bytes_of(src), 0, syntax)[p],
    decreases p,
{
    sites_stand_on_code_in_spans(src, spans, syntax);
    let b = bytes_of(src);
    let s = sites(src, spans, syntax)[k];
    assert(site_ok(b, mask_from(b, 0, syntax), spans, s));
    if s.start < p {
        edits_are_code_throughout(src, spans, syntax, k, p - 1);
        assert(is_inner_byte(b[p]));
        lemma_inner_byte_opens_nothing(b, p, syntax);
        lemma_code_goes_on(b, 0, syntax, p - 1);
    }
}

/// The candidate edits come sorted by line.
pub proof fn sites_are_sorted_by_line(
    src: Seq<char>,
    spans: Seq<(u32, u32)>,
    syntax: LanguageSyntax,
    j: int,
    k: int,
)
    requires
        0 <= j <= k < sites(src, spans, syntax).len(),
    ensures
        sites(src, spans, syntax)[j].line <= sites(src, spans, syntax)[k].line,
{
    sites_stand_on_code_in_spans(src, spans, syntax);
    let b = bytes_of(src);
    let s = sites(src, spans, syntax);
    if j < k {
        let p = b.take(s[k].start);
        assert(p.take(s[j].start) =~= b.take(s[j].start));
        lemma_newlines_prefix(p, s[j].start);
    }
}

/// The bytes of a mutant: the original with one stretch replaced.
pub open spec fn spliced(b: Seq<u8>, s: SiteView) -> Seq<u8> {
    b.take(s.start) + bytes_of(s.replacement) + b.skip(s.end)
}

/// A mutant's bytes are the original's, with the edit spliced in.
pub proof fn mutant_is_one_splice(
    src: Seq<char>,
    spans: Seq<(u32, u32)>,
    syntax: LanguageSyntax,
    k: int,
)
    requires
        0 <= k < sites(src, spans, syntax).len(),
    ensures
        bytes_of(mutant_of(src, sites(src, spans, syntax)[k]).source) == spliced(
            bytes_of(src),
            sites(src, spans, syntax)[k],
        ),
{
    sites_stand_on_code_in_spans(src, spans, syntax);
    let b = bytes_of(src);
    let s = sites(src, spans, syntax)[k];
    assert(site_ok(b, mask_from(b, 0, syntax), spans, s));
    encode_utf8_valid_utf8(src);
    is_char_boundary_start_end_of_seq(b);
    valid_utf8_split(b, s.start);
    valid_utf8_split(b, s.end);
    let head = byte_slice(src, 0, s.start)->0;
    let tail = byte_slice(src, s.end, b.len() as int)->0;
    decode_utf8_encode_utf8(b.subrange(0, s.start));
    decode_utf8_encode_utf8(b.subrange(s.end, b.len() as int));
    crate::text::lemma_bytes_concat(head, s.replacement);
    crate::text::lemma_bytes_concat(head + s.replacement, tail);
    assert(b.subrange(0, s.start) =~= b.take(s.start));
    assert(b.subrange(s.end, b.len() as int) =~= b.skip(s.end));
}

proof fn lemma_newlines_concat(a: Seq<u8>, b: Seq<u8>)
    ensures
        newlines(a + b) == newlines(a) + newlines(b),
    decreases b.len(),
{
    if b.len() == 0 {
        assert(a + b =~= a);
    } else {
        assert((a + b).drop_last() =~= a + b.drop_last());
        lemma_newlines_concat(a, b.drop_last());
    }
}

proof fn lemma_no_newlines(a: Seq<u8>)
    requires
        forall|k: int| 0 <= k < a.len() ==> #[trigger] a[k] != 10,
    ensures
        newlines(a) == 0,
    decreases a.len(),
{
    if a.len() > 0 {
        lemma_no_newlines(a.drop_last());
    }
}

/// A splice keeps every other byte on its line: what stands before the edit
/// keeps its place and its line, and what stands behind it moves by the
/// difference in length and keeps its line.
pub proof fn splice_keeps_line_numbers(
    src: Seq<char>,
    spans: Seq<(u32, u32)>,
    syntax: LanguageSyntax,
    k: int,
    p: int,
)
    requires
        0 <= k < sites(src, spans, syntax).len(),
        0 <= p < bytes_of(src).len(),
        ({
            let s = sites(src, spans, syntax)[k];
            p < s.start || s.end <= p
        }),
    ensures
        ({
            let b = bytes_of(src);
            let s = sites(src, spans, syntax)[k];
            let m = bytes_of(mutant_of(src, s).source);
            let q = if p < s.start {
                p
            } else {
                p - s.end + s.start + bytes_of(s.replacement).len()
            };
            &&& 0 <= q < m.len()
            &&& m[q] == b[p]
            &&& newlines(m.take(q)) == newlines(b.take(p))
        }),
{
    mutant_is_one_splice(src, spans, syntax, k);
    sites_stand_on_code_in_spans(src, spans, syntax);
    let b = bytes_of(src);
    let s = sites(src, spans, syntax)[k];
    assert(site_ok(b, mask_from(b, 0, syntax), spans, s));
    let r = bytes_of(s.replacement);
    let m = spliced(b, s);
    is_ascii_chars_encode_utf8(s.replacement);
    if p < s.start {
        assert(m.take(p) =~= b.take(p));
    } else {
        let q = p - s.end + s.start + r.len();
        assert(m[q] == b.skip(s.end)[p - s.end]);
        assert forall|j: int| 0 <= j < r.len() implies #[trigger] r[j] != 10 by {
            assert(s.replacement[j] != '\n');
        }
        lemma_no_newlines(r);
        let cut = b.subrange(s.start, s.end);
        assert forall|j: int| 0 <= j < cut.len() implies #[trigger] cut[j] != 10 by {
            assert(b[s.start + j] != 10);
        }
        lemma_no_newlines(cut);
        let tail = b.subrange(s.end, p);
        assert(m.take(q) =~= b.take(s.start) + r + tail);
        assert(b.take(p) =~= b.take(s.start) + cut + tail);
        lemma_newlines_concat(b.take(s.start), r);
        lemma_newlines_concat(b.take(s.start) + r, tail);
        lemma_newlines_concat(b.take(s.start), cut);
        lemma_newlines_concat(b.take(s.start) + cut, tail);
    }
}

/// Whether the set holds the mutants of the first `limit` candidate edits, and
/// the number of all of them.
pub open spec fn is_mutant_set(
    r: MutantSet,
    src: Seq<char>,
    spans: Seq<(u32, u32)>,
    syntax: LanguageSyntax,
    limit: usize,
) -> bool {
    let all = sites(src, spans, syntax);
    let kept = all.take(if limit <= all.len() { limit as int } else { all.len() as int });
    &&& r.total_sites == all.len()
    &&& r.mutants@.map_values(|m: Mutant| m@) == kept.map_values(
        |s: SiteView| mutant_of(src, s),
    )
    &&& r.invalid_discarded == 0
}

/// A lower limit keeps the first mutants of a higher one, and both count the
/// same candidate edits.
pub proof fn a_lower_limit_keeps_the_first_mutants(
    a: MutantSet,
    b: MutantSet,
    src: Seq<char>,
    spans: Seq<(u32, u32)>,
    syntax: LanguageSyntax,
    j: usize,
    k: usize,
)
    requires
        j <= k,
        is_mutant_set(a, src, spans, syntax, j),
        is_mutant_set(b, src, spans, syntax, k),
    ensures
        a.total_sites == b.total_sites,
        a.mutants@.len() == if j <= b.mutants@.len() {
            j as int
        } else {
            b.mutants@.len() as int
        },
        forall|i: int|
            0 <= i < a.mutants@.len() ==> (#[trigger] a.mutants@[i])@ == b.mutants@[i]@,
{
    let all = sites(src, spans, syntax);
    let n = a.mutants@.len();
    let va = a.mutants@.map_values(|m: Mutant| m@);
    let vb = b.mutants@.map_values(|m: Mutant| m@);
    assert(va.len() == n);
    assert(vb.len() == b.mutants@.len());
    assert forall|i: int| 0 <= i < n implies (#[trigger] a.mutants@[i])@ == b.mutants@[i]@ by {
        assert(va[i] == mutant_of(src, all[i]));
        assert(vb[i] == mutant_of(src, all[i]));
    }
}

/// Every candidate edit of a source text, in order.
fn find_sites(src: &str, spans: &[(u32, u32)], syntax: &LanguageSyntax) -> (r: Vec<Site>)
    requires
        syntax.wf(),
        newlines(bytes_of(src@)) < u32::MAX,
    ensures
        r@.map_values(|s: Site| s@) == sites(src@, spans@, *syntax),
{
    let mask = code_mask(src, syntax);
    let b = src.as_bytes();
    let mut found: Vec<Site> = Vec::new();
    let mut line: u32 = 1;
    let mut i: usize = 0;
    let ghost whole = sites(src@, spans@, *syntax);
    proof {
        encode_utf8_valid_utf8(src@);
        assert(b@.take(0) =~= Seq::empty());
        assert(found@.map_values(|s: Site| s@) + whole =~= whole);
    }
    while i < b.len()
        invariant
            b@ == bytes_of(src@),
            valid_utf8(b@),
            newlines(b@) < u32::MAX,
            i <= b.len(),
            mask@ == mask_from(b@, 0, *syntax),
            mask.len() == b.len(),
            line == 1 + newlines(b@.take(i as int)),
            whole == found@.map_values(|s: Site| s@) + sites_from(
                b@,
                mask@,
                spans@,
                i as int,
                line as nat,
            ),
        decreases b.len() - i,
    {
        proof {
            lemma_newlines_step(b@, i as int);
            lemma_newlines_prefix(b@, i + 1);
        }
        if b[i] == NEWLINE {
            line += 1;
            i += 1;
            continue;
        }
        if !mask[i] || !in_span(spans, line) {
            i += 1;
            continue;
        }
        let ghost before = found@;
        let (site, next) = find_site(b, i, line);
        proof {
            lemma_site_at(b@, mask@, spans@, i as int, line as nat);
            lemma_newlines_run(b@, i as int, next as int);
        }
        let ghost rest = sites_from(b@, mask@, spans@, next as int, line as nat);
        match site {
            Some(s) => {
                found.push(s);
                proof {
                    assert(found@.map_values(|s: Site| s@) =~= before.map_values(|s: Site| s@).push(
                        s@,
                    ));
                    assert(before.map_values(|s: Site| s@) + (seq![s@] + rest)
                        =~= found@.map_values(|s: Site| s@) + rest);
                }
            },
            None => {
                assert(Seq::<SiteView>::empty() + rest =~= rest);
            },
        }
        i = next;
    }
    assert(found@.map_values(|s: Site| s@) + Seq::<SiteView>::empty() =~= found@.map_values(
        |s: Site| s@,
    ));
    found
}

/// Line-targeted mutants for one source text, restricted to the scored
/// `spans` (inclusive line ranges), at most `limit` of them, sorted by line.
/// `total_sites` counts every candidate found so the caller can announce
/// budget truncation; `invalid_discarded` is always zero here, since
/// validity is decided later by the build step.
pub fn mutants_for(
    source: &str,
    spans: &[(u32, u32)],
    limit: usize,
    syntax: &LanguageSyntax,
) -> (r: MutantSet)
    requires
        syntax.wf(),
        newlines(bytes_of(source@)) < u32::MAX,
    ensures
        is_mutant_set(r, source@, spans@, *syntax, limit),
{
    let found = find_sites(source, spans, syntax);
    let ghost all = sites(source@, spans@, *syntax);
    let b = source.as_bytes();
    proof {
        sites_stand_on_code_in_spans(source@, spans@, *syntax);
        assert(found@.len() == all.len());
        encode_utf8_valid_utf8(source@);
        is_char_boundary_start_end_of_seq(b@);
    }
    let keep: usize = if limit <= found.len() {
        limit
    } else {
        found.len()
    };
    let mut mutants: Vec<Mutant> = Vec::new();
    let mut k: usize = 0;
    while k < keep
        invariant
            k <= keep <= found.len(),
            found@.map_values(|s: Site| s@) == all,
            found@.len() == all.len(),
            mutants@.len() == k,
            b@ == bytes_of(source@),
            is_char_boundary(b@, 0),
            is_char_boundary(b@, b@.len() as int),
            all == sites(source@, spans@, *syntax),
            forall|j: int|
                0 <= j < all.len() ==> site_ok(
                    b@,
                    mask_from(b@, 0, *syntax),
                    spans@,
                    #[trigger] all[j],
                ),
            forall|j: int| 0 <= j < k ==> (#[trigger] mutants@[j])@ == mutant_of(source@, all[j]),
        decreases keep - k,
    {
        let s = &found[k];
        assert(all[k as int] == s@);
        assert(site_ok(b@, mask_from(b@, 0, *syntax), spans@, all[k as int]));
        let head = slice(source, 0, s.start);
        let tail = slice(source, s.end, b.len());
        match (head, tail) {
            (Some(h), Some(t)) => {
                let mut text = h.to_owned();
                text.append(s.replacement.as_str());
                text.append(t);
                let m = Mutant {
                    line: s.line,
                    kind: s.kind.to_owned(),
                    detail: s.detail.clone(),
                    source: text,
                };
                assert(m@ =~= mutant_of(source@, all[k as int]));
                mutants.push(m);
            },
            _ => {
                assert(false);
            },
        }
        k += 1;
    }
    let ghost kept = all.take(keep as int);
    assert(mutants@.map_values(|m: Mutant| m@) =~= kept.map_values(
        |s: SiteView| mutant_of(source@, s),
    ));
    MutantSet { total_sites: found.len(), mutants, invalid_discarded: 0 }
}

/// What a comparison says of two numbers; `None` for what is no comparison.
pub open spec fn compared(op: Seq<char>, x: int, y: int) -> Option<bool> {
    if op == "=="@ {
        Some(x == y)
    } else if op == "!="@ {
        Some(x != y)
    } else if op == "<"@ {
        Some(x < y)
    } else if op == "<="@ {
        Some(x <= y)
    } else if op == ">"@ {
        Some(x > y)
    } else if op == ">="@ {
        Some(x >= y)
    } else {
        None
    }
}

/// What a boolean operator makes of two truths; `None` for what is none.
pub open spec fn connected(op: Seq<char>, p: bool, q: bool) -> Option<bool> {
    if op == "&&"@ {
        Some(p && q)
    } else if op == "||"@ {
        Some(p || q)
    } else {
        None
    }
}

/// What an arithmetic operator makes of two numbers; `None` for what is none.
pub open spec fn computed(op: Seq<char>, x: int, y: int) -> Option<int> {
    if op == "+"@ {
        Some(x + y)
    } else if op == "-"@ {
        Some(x - y)
    } else if op == "*"@ {
        Some(x * y)
    } else if op == "/"@ {
        Some(x / y)
    } else {
        None
    }
}

/// Whether one arithmetic operator takes back what another did.
pub open spec fn takes_back(did: Seq<char>, back: Seq<char>) -> bool {
    forall|x: int, y: int|
        y > 0 ==> (#[trigger] computed(did, x, y) matches Some(z) && computed(back, z, y) == Some(x))
}

/// Whether an edit puts the opposite operator in place of another: a comparison
/// gives way to its negation, a boolean operator to the other one, and an
/// arithmetic operator to the one that takes it back.
pub open spec fn is_opposite(was: Seq<char>, now: Seq<char>, kind: Seq<char>) -> bool {
    &&& kind == "cmp"@ ==> forall|x: int, y: int|
        (#[trigger] compared(was, x, y)) matches Some(r) && compared(now, x, y) == Some(!r)
    &&& kind == "bool"@ ==> was != now && forall|p: bool, q: bool|
        (#[trigger] connected(was, p, q)) is Some && connected(now, p, q) is Some
    &&& kind == "bin"@ ==> takes_back(was, now) || takes_back(now, was)
    &&& kind == "cmp"@ || kind == "bool"@ || kind == "bin"@
}

proof fn lemma_operator_texts()
    ensures
        "=="@ != "!="@,
        "=="@ != "<="@,
        "=="@ != ">="@,
        "=="@ != "<"@,
        "=="@ != ">"@,
        "!="@ != "<="@,
        "!="@ != ">="@,
        "!="@ != "<"@,
        "!="@ != ">"@,
        "<="@ != ">="@,
        "<="@ != "<"@,
        "<="@ != ">"@,
        ">="@ != "<"@,
        ">="@ != ">"@,
        "<"@ != ">"@,
        "&&"@ != "||"@,
        "&&"@ != "<="@ && "&&"@ != ">="@ && "&&"@ != "=="@ && "&&"@ != "!="@,
        "||"@ != "<="@ && "||"@ != ">="@ && "||"@ != "=="@ && "||"@ != "!="@,
        "+"@ != "-"@,
        "+"@ != "*"@,
        "+"@ != "/"@,
        "-"@ != "*"@,
        "-"@ != "/"@,
        "*"@ != "/"@,
        "cmp"@ != "bool"@,
        "cmp"@ != "bin"@,
        "cmp"@ != "const"@,
        "bool"@ != "bin"@,
        "bool"@ != "const"@,
        "bin"@ != "const"@,
{
    reveal_strlit("==");
    reveal_strlit("!=");
    reveal_strlit("<=");
    reveal_strlit(">=");
    reveal_strlit("<");
    reveal_strlit(">");
    reveal_strlit("&&");
    reveal_strlit("||");
    reveal_strlit("+");
    reveal_strlit("-");
    reveal_strlit("*");
    reveal_strlit("/");
    reveal_strlit("cmp");
    reveal_strlit("bool");
    reveal_strlit("bin");
    reveal_strlit("const");
    assert("=="@[0] == '=');
    assert("!="@[0] == '!');
    assert("<="@[0] == '<');
    assert(">="@[0] == '>');
    assert("<"@[0] == '<');
    assert(">"@[0] == '>');
    assert("&&"@[0] == '&');
    assert("||"@[0] == '|');
    assert("+"@[0] == '+');
    assert("-"@[0] == '-');
    assert("*"@[0] == '*');
    assert("/"@[0] == '/');
    assert("<"@.len() == 1 && "<="@.len() == 2);
    assert(">"@.len() == 1 && ">="@.len() == 2);
    assert("cmp"@.len() == 3 && "bin"@.len() == 3);
    assert("bool"@.len() == 4 && "const"@.len() == 5);
    assert("cmp"@[0] == 'c');
    assert("bin"@[0] == 'b');
}

proof fn lemma_taken_back()
    ensures
        takes_back("+"@, "-"@),
        takes_back("-"@, "+"@),
        takes_back("*"@, "/"@),
{
    lemma_operator_texts();
    assert forall|x: int, y: int| y > 0 implies (#[trigger] computed("*"@, x, y) matches Some(z)
        && computed("/"@, z, y) == Some(x)) by {
        vstd::arithmetic::div_mod::lemma_div_multiples_vanish(x, y);
        assert(y * x == x * y) by (nonlinear_arith);
    }
}

/// A swap is of the bytes that its operator is spelled with, and to the
/// opposite operator.
proof fn lemma_swap_turns(b: Seq<u8>, i: int)
    requires
        0 <= i < b.len(),
    ensures
        two_byte_swap(b, i) matches Some(s) ==> is_opposite(s.from, s.to, s.kind) && i + 2 <= b.len()
            && bytes_of(s.from) == b.subrange(i, i + 2),
        one_byte_swap(b, i) matches Some(s) ==> is_opposite(s.from, s.to, s.kind) && bytes_of(s.from)
            == b.subrange(i, i + 1),
{
    lemma_swaps(b, i);
    lemma_operator_texts();
    lemma_taken_back();
    reveal_strlit("==");
    reveal_strlit("!=");
    reveal_strlit("<=");
    reveal_strlit(">=");
    reveal_strlit("<");
    reveal_strlit(">");
    reveal_strlit("&&");
    reveal_strlit("||");
    reveal_strlit("+");
    reveal_strlit("-");
    reveal_strlit("*");
    reveal_strlit("/");
    if let Some(s) = two_byte_swap(b, i) {
        is_ascii_chars_encode_utf8(s.from);
        assert(bytes_of(s.from)[0] == s.from[0] as u8);
        assert(bytes_of(s.from)[1] == s.from[1] as u8);
        assert(bytes_of(s.from) =~= b.subrange(i, i + 2));
    }
    if let Some(s) = one_byte_swap(b, i) {
        is_ascii_chars_encode_utf8(s.from);
        assert(bytes_of(s.from)[0] == s.from[0] as u8);
        assert(bytes_of(s.from) =~= b.subrange(i, i + 1));
    }
}

/// Every candidate edit is the one that the scan finds where it starts.
proof fn lemma_site_origin(
    b: Seq<u8>,
    mask: Seq<bool>,
    spans: Seq<(u32, u32)>,
    i: int,
    line: nat,
    k: int,
)
    requires
        valid_utf8(b),
        0 <= i <= b.len(),
        line == 1 + newlines(b.take(i)),
        0 <= k < sites_from(b, mask, spans, i, line).len(),
    ensures
        ({
            let s = sites_from(b, mask, spans, i, line)[k];
            0 <= s.start < b.len() && site_at(b, s.start, s.line).0 == Some(s)
        }),
    decreases b.len() - i,
{
    lemma_newlines_step(b, i);
    if b[i] == 10 {
        lemma_site_origin(b, mask, spans, i + 1, line + 1, k);
    } else if !mask[i] || !in_spans(spans, line) {
        lemma_site_origin(b, mask, spans, i + 1, line, k);
    } else {
        lemma_site_at(b, mask, spans, i, line);
        let (site, next) = site_at(b, i, line);
        lemma_newlines_run(b, i, next);
        let rest = sites_from(b, mask, spans, next, line);
        let all = sites_from(b, mask, spans, i, line);
        match site {
            Some(x) => {
                assert(all =~= seq![x] + rest);
                if k > 0 {
                    assert(all[k] == rest[k - 1]);
                    lemma_site_origin(b, mask, spans, next, line, k - 1);
                }
            },
            None => {
                assert(all =~= rest);
                lemma_site_origin(b, mask, spans, next, line, k);
            },
        }
    }
}

proof fn lemma_found_where_it_starts(
    src: Seq<char>,
    spans: Seq<(u32, u32)>,
    syntax: LanguageSyntax,
    k: int,
)
    requires
        0 <= k < sites(src, spans, syntax).len(),
    ensures
        ({
            let s = sites(src, spans, syntax)[k];
            &&& 0 <= s.start < bytes_of(src).len()
            &&& site_at(bytes_of(src), s.start, s.line).0 == Some(s)
        }),
{
    let b = bytes_of(src);
    encode_utf8_valid_utf8(src);
    assert(b.take(0) =~= Seq::empty());
    lemma_site_origin(b, mask_from(b, 0, syntax), spans, 0, 1, k);
}

proof fn lemma_same_bytes(a: Seq<char>, b: Seq<char>)
    requires
        bytes_of(a) == bytes_of(b),
    ensures
        a == b,
{
    encode_utf8_decode_utf8(a);
    encode_utf8_decode_utf8(b);
}

/// An edit of an operator puts its opposite there: a comparison is replaced by
/// its negation, `&&` by `||` and `||` by `&&`, and an arithmetic operator by
/// the one that takes it back. `was` is the text that gives way.
pub proof fn operators_give_way_to_their_opposites(
    src: Seq<char>,
    spans: Seq<(u32, u32)>,
    syntax: LanguageSyntax,
    k: int,
    was: Seq<char>,
)
    requires
        0 <= k < sites(src, spans, syntax).len(),
        sites(src, spans, syntax)[k].kind != "const"@,
        ({
            let s = sites(src, spans, syntax)[k];
            bytes_of(was) == bytes_of(src).subrange(s.start, s.end)
        }),
    ensures
        ({
            let s = sites(src, spans, syntax)[k];
            &&& is_opposite(was, s.replacement, s.kind)
            &&& was == "&&"@ ==> s.replacement == "||"@
            &&& was == "||"@ ==> s.replacement == "&&"@
            &&& s.detail == was + " -> "@ + s.replacement
        }),
{
    let b = bytes_of(src);
    let s = sites(src, spans, syntax)[k];
    lemma_found_where_it_starts(src, spans, syntax, k);
    lemma_swap_turns(b, s.start);
    lemma_swaps(b, s.start);
    lemma_operator_texts();
    let x = if two_byte_swap(b, s.start) is Some {
        two_byte_swap(b, s.start)->0
    } else {
        one_byte_swap(b, s.start)->0
    };
    assert(s == swap_site(x, s.line, s.start));
    lemma_same_bytes(was, x.from);
    if was == "&&"@ || was == "||"@ {
        assert(was.len() == 2) by {
            reveal_strlit("&&");
            reveal_strlit("||");
        }
        assert(x.from.len() == 2);
        assert(two_byte_swap(b, s.start) is Some);
    }
}

proof fn lemma_decimal_bytes(n: nat)
    ensures
        ({
            let d = bytes_of(decimal(n));
            &&& d.len() == decimal(n).len()
            &&& forall|k: int| 0 <= k < d.len() ==> is_digit_byte(#[trigger] d[k])
            &&& digits_value(d, 0, d.len() as int) == n
        }),
    decreases n,
{
    let t = decimal(n);
    let d = bytes_of(t);
    lemma_decimal_chars(n);
    is_ascii_chars_encode_utf8(t);
    assert forall|k: int| 0 <= k < d.len() implies is_digit_byte(#[trigger] d[k]) by {
        assert('0' <= t[k] <= '9');
        assert(d[k] == t[k] as u8);
    }
    if n < 10 {
        assert(d[0] == t[0] as u8);
        assert(d[0] == 48 + n);
        assert(digits_value(d, 0, 0) == 0);
    } else {
        lemma_decimal_bytes(n / 10);
        lemma_decimal_chars(n / 10);
        let u = decimal(n / 10);
        let h = bytes_of(u);
        is_ascii_chars_encode_utf8(u);
        assert(d.len() == h.len() + 1);
        assert forall|k: int| 0 <= k < h.len() implies #[trigger] h[k] == d[k] by {
            assert(h[k] == u[k] as u8);
            assert(d[k] == t[k] as u8);
            assert(t[k] == u[k]);
        }
        lemma_same_value(h, d, h.len() as int);
        let z = d.len() - 1;
        assert(d[z] == t[z] as u8);
        assert(t[z] == crate::text::digit(n % 10));
        assert(d[z] == 48 + n % 10);
    }
}

proof fn lemma_same_value(a: Seq<u8>, b: Seq<u8>, e: int)
    requires
        0 <= e <= a.len(),
        e <= b.len(),
        forall|k: int| 0 <= k < e ==> #[trigger] a[k] == b[k],
    ensures
        digits_value(a, 0, e) == digits_value(b, 0, e),
    decreases e,
{
    if e > 0 {
        assert(a[e - 1] == b[e - 1]);
        lemma_same_value(a, b, e - 1);
    }
}

proof fn lemma_moved_value(b: Seq<u8>, i: int, e: int)
    requires
        0 <= i <= e <= b.len(),
    ensures
        digits_value(b.subrange(i, e), 0, e - i) == digits_value(b, i, e),
    decreases e - i,
{
    if i < e {
        let c = b.subrange(i, e);
        let d = b.subrange(i, e - 1);
        lemma_moved_value(b, i, e - 1);
        assert forall|k: int| 0 <= k < e - 1 - i implies #[trigger] c[k] == d[k] by {}
        lemma_same_value(c, d, e - 1 - i);
        assert(c[e - i - 1] == b[e - 1]);
    }
}

/// An edit of a literal puts another number there: one more than it was, but
/// zero for one.
pub proof fn literals_give_way_to_other_numbers(
    src: Seq<char>,
    spans: Seq<(u32, u32)>,
    syntax: LanguageSyntax,
    k: int,
)
    requires
        0 <= k < sites(src, spans, syntax).len(),
        sites(src, spans, syntax)[k].kind == "const"@,
    ensures
        ({
            let s = sites(src, spans, syntax)[k];
            let was = digits_value(bytes_of(src), s.start, s.end);
            let text = bytes_of(s.replacement);
            let now = digits_value(text, 0, text.len() as int);
            &&& now != was
            &&& was != 1 ==> now == was + 1
            &&& was == 1 ==> now == 0
            &&& forall|j: int|
                s.start <= j < s.end ==> is_digit_byte(#[trigger] bytes_of(src)[j]) || bytes_of(
                    src,
                )[j] == 95
            &&& forall|j: int| 0 <= j < text.len() ==> is_digit_byte(#[trigger] text[j])
        }),
{
    let b = bytes_of(src);
    let s = sites(src, spans, syntax)[k];
    lemma_found_where_it_starts(src, spans, syntax, k);
    lemma_swap_turns(b, s.start);
    lemma_operator_texts();
    lemma_digits_end(b, s.start);
    assert(opens_literal(b, s.start));
    lemma_decimal_bytes(perturbed(digits_value(b, s.start, s.end)));
}

/// Every mutant differs from the source it was made of.
pub proof fn every_mutant_differs(
    src: Seq<char>,
    spans: Seq<(u32, u32)>,
    syntax: LanguageSyntax,
    k: int,
)
    requires
        0 <= k < sites(src, spans, syntax).len(),
    ensures
        mutant_of(src, sites(src, spans, syntax)[k]).source != src,
{
    let b = bytes_of(src);
    let s = sites(src, spans, syntax)[k];
    let r = bytes_of(s.replacement);
    let m = spliced(b, s);
    sites_stand_on_code_in_spans(src, spans, syntax);
    assert(site_ok(b, mask_from(b, 0, syntax), spans, s));
    mutant_is_one_splice(src, spans, syntax, k);
    if m == b {
        let cut = b.subrange(s.start, s.end);
        assert(m.len() == s.start + r.len() + (b.len() - s.end));
        assert(r.len() == cut.len());
        assert forall|j: int| 0 <= j < r.len() implies #[trigger] r[j] == cut[j] by {
            assert(m[s.start + j] == r[j]);
            assert(b[s.start + j] == cut[j]);
        }
        assert(r =~= cut);
        if s.kind == "const"@ {
            literals_give_way_to_other_numbers(src, spans, syntax, k);
            lemma_moved_value(b, s.start, s.end);
        } else {
            let was = s.replacement;
            operators_give_way_to_their_opposites(src, spans, syntax, k, was);
            assert(is_opposite(was, was, s.kind));
            assert(compared(was, 0, 1) == compared(was, 0, 1));
            if s.kind == "bin"@ {
                lemma_not_its_own_opposite(was);
            }
        }
    }
}

proof fn lemma_not_its_own_opposite(op: Seq<char>)
    ensures
        !takes_back(op, op),
{
    lemma_operator_texts();
    if takes_back(op, op) {
        assert(computed(op, 3, 2) matches Some(z) && computed(op, z, 2) == Some(3int));
        if op == "*"@ {
            assert(computed(op, 3, 2) == Some(6int));
            assert(computed(op, 6, 2) == Some(12int));
        } else if op == "/"@ {
            assert(computed(op, 3, 2) == Some(1int));
            assert(computed(op, 1, 2) == Some(0int));
        }
    }
}

/// None of the mutants of a set is the source over again.
pub proof fn no_mutant_is_the_source(
    r: MutantSet,
    src: Seq<char>,
    spans: Seq<(u32, u32)>,
    syntax: LanguageSyntax,
    limit: usize,
    k: int,
)
    requires
        is_mutant_set(r, src, spans, syntax, limit),
        0 <= k < r.mutants@.len(),
    ensures
        r.mutants@[k]@.source != src,
{
    let all = sites(src, spans, syntax);
    let views = r.mutants@.map_values(|m: Mutant| m@);
    assert(views.len() == r.mutants@.len());
    assert(views[k] == mutant_of(src, all[k]));
    every_mutant_differs(src, spans, syntax, k);
}

/// Whether no edit that starts earlier can run over `p`.
spec fn stands_free(b: Seq<u8>, p: int) -> bool {
    p > 0 ==> two_byte_swap(b, p - 1) is None && !((is_digit_byte(b[p]) || b[p] == 95) && (
    is_digit_byte(b[p - 1]) || b[p - 1] == 95))
}

proof fn lemma_scan_comes_to(
    b: Seq<u8>,
    mask: Seq<bool>,
    spans: Seq<(u32, u32)>,
    i: int,
    line: nat,
    p: int,
    at: nat,
)
    requires
        valid_utf8(b),
        0 <= i <= p < b.len(),
        line == 1 + newlines(b.take(i)),
        at == 1 + newlines(b.take(p)),
        stands_free(b, p),
        b[p] != 10,
        mask[p],
        in_spans(spans, at),
        site_at(b, p, at).0 is Some,
    ensures
        exists|k: int|
            0 <= k < sites_from(b, mask, spans, i, line).len() && #[trigger] sites_from(
                b,
                mask,
                spans,
                i,
                line,
            )[k] == site_at(b, p, at).0->0,
    decreases b.len() - i,
{
    lemma_newlines_step(b, i);
    let all = sites_from(b, mask, spans, i, line);
    let x = site_at(b, p, at).0->0;
    if i == p {
        lemma_site_at(b, mask, spans, i, line);
        assert(all[0] == x);
    } else if b[i] == 10 {
        lemma_scan_comes_to(b, mask, spans, i + 1, line + 1, p, at);
        let rest = sites_from(b, mask, spans, i + 1, line + 1);
        let k = choose|k: int| 0 <= k < rest.len() && #[trigger] rest[k] == x;
        assert(all[k] == x);
    } else if !mask[i] || !in_spans(spans, line) {
        lemma_scan_comes_to(b, mask, spans, i + 1, line, p, at);
        let rest = sites_from(b, mask, spans, i + 1, line);
        let k = choose|k: int| 0 <= k < rest.len() && #[trigger] rest[k] == x;
        assert(all[k] == x);
    } else {
        lemma_site_at(b, mask, spans, i, line);
        lemma_digits_end(b, i);
        let (site, next) = site_at(b, i, line);
        lemma_newlines_run(b, i, next);
        assert(next <= p) by {
            if next > p && two_byte_swap(b, i) is None && one_byte_swap(b, i) is None {
                assert(is_digit_byte(b[p]) || b[p] == 95);
                assert(is_digit_byte(b[p - 1]) || b[p - 1] == 95);
            }
        }
        lemma_scan_comes_to(b, mask, spans, next, line, p, at);
        let rest = sites_from(b, mask, spans, next, line);
        let k = choose|k: int| 0 <= k < rest.len() && #[trigger] rest[k] == x;
        match site {
            Some(y) => {
                assert(all =~= seq![y] + rest);
                assert(all[k + 1] == x);
            },
            None => {
                assert(all =~= rest);
                assert(all[k] == x);
            },
        }
    }
}

/// No operator is passed over: wherever one stands in code, on a line of the
/// spans, some edit starts there. What only looks like one is left: the halves
/// of `<<`, `>>`, `=>` and `->`, of a comment mark, and of a longer operator.
pub proof fn operators_in_code_are_edited(
    src: Seq<char>,
    spans: Seq<(u32, u32)>,
    syntax: LanguageSyntax,
    p: int,
)
    requires
        0 <= p < bytes_of(src).len(),
        mask_from(bytes_of(src), 0, syntax)[p],
        in_spans(spans, 1 + newlines(bytes_of(src).take(p))),
        ({
            let c = bytes_of(src)[p];
            let prev = prev_byte(bytes_of(src), p);
            let next = next_byte(bytes_of(src), p);
            ||| c == '+' as u8
            ||| c == '-' as u8 && next != '>' as u8
            ||| c == '*' as u8 && prev != '/' as u8 && next != '/' as u8
            ||| c == '/' as u8 && prev != '/' as u8 && next != '/' as u8 && prev != '*' as u8 && next
                != '*' as u8
            ||| c == '&' as u8 && next == '&' as u8 && prev != '&' as u8
            ||| c == '|' as u8 && next == '|' as u8 && prev != '|' as u8
            ||| c == '!' as u8 && next == '=' as u8
            ||| c == '<' as u8 && next == '=' as u8
            ||| c == '>' as u8 && next == '=' as u8 && prev != '<' as u8 && prev != '>' as u8 && prev
                != '=' as u8 && prev != '!' as u8
            ||| c == '=' as u8 && next == '=' as u8 && prev != '=' as u8 && prev != '!' as u8 && prev
                != '<' as u8 && prev != '>' as u8
            ||| c == '<' as u8 && next != '<' as u8 && next != '=' as u8 && prev != '<' as u8 && prev
                != ':' as u8
            ||| c == '>' as u8 && next != '>' as u8 && next != '=' as u8 && prev != '>' as u8 && prev
                != '-' as u8 && prev != '=' as u8
        }),
    ensures
        exists|k: int|
            0 <= k < sites(src, spans, syntax).len() && (#[trigger] sites(
                src,
                spans,
                syntax,
            )[k]).start == p,
{
    let b = bytes_of(src);
    let mask = mask_from(b, 0, syntax);
    let at = 1 + newlines(b.take(p));
    encode_utf8_valid_utf8(src);
    assert(b.take(0) =~= Seq::empty());
    lemma_swaps(b, p);
    assert(two_byte_swap(b, p) is Some || one_byte_swap(b, p) is Some);
    if p > 0 {
        assert(next_byte(b, p - 1) == b[p]);
        assert(prev_byte(b, p) == b[p - 1]);
        lemma_swaps(b, p - 1);
    }
    assert(stands_free(b, p));
    lemma_scan_comes_to(b, mask, spans, 0, 1, p, at);
    let all = sites(src, spans, syntax);
    let k = choose|k: int| 0 <= k < all.len() && #[trigger] all[k] == site_at(b, p, at).0->0;
    assert(all[k].start == p);
}

/// No literal is passed over: wherever an integer starts in code, on a line of
/// the spans, some edit starts there, unless it is part of a float or of a
/// name, or too large for 64 bits.
pub proof fn literals_in_code_are_edited(
    src: Seq<char>,
    spans: Seq<(u32, u32)>,
    syntax: LanguageSyntax,
    p: int,
    e: int,
)
    requires
        0 <= p < e <= bytes_of(src).len(),
        mask_from(bytes_of(src), 0, syntax)[p],
        in_spans(spans, 1 + newlines(bytes_of(src).take(p))),
        forall|j: int| p <= j < e ==> '0' as u8 <= #[trigger] bytes_of(src)[j] <= '9' as u8,
        e < bytes_of(src).len() ==> !is_digit_byte(bytes_of(src)[e]) && bytes_of(src)[e]
            != '_' as u8 && bytes_of(src)[e] != '.' as u8,
        p > 0 ==> !is_word_byte(bytes_of(src)[p - 1]) && bytes_of(src)[p - 1] < 0x80 && bytes_of(
            src,
        )[p - 1] != '.' as u8,
        digits_value(bytes_of(src), p, e) <= u64::MAX,
    ensures
        exists|k: int|
            0 <= k < sites(src, spans, syntax).len() && (#[trigger] sites(
                src,
                spans,
                syntax,
            )[k]).start == p && sites(src, spans, syntax)[k].end == e && sites(
                src,
                spans,
                syntax,
            )[k].kind == "const"@,
{
    let b = bytes_of(src);
    let mask = mask_from(b, 0, syntax);
    let at = 1 + newlines(b.take(p));
    encode_utf8_valid_utf8(src);
    assert(b.take(0) =~= Seq::empty());
    lemma_swaps(b, p);
    assert(is_digit_byte(b[p]));
    lemma_run_of_digits(b, p, e);
    assert(two_byte_swap(b, p) is None && one_byte_swap(b, p) is None);
    if p > 0 {
        lemma_swaps(b, p - 1);
        assert(next_byte(b, p - 1) == b[p]);
    }
    assert(stands_free(b, p));
    lemma_scan_comes_to(b, mask, spans, 0, 1, p, at);
    let all = sites(src, spans, syntax);
    let k = choose|k: int| 0 <= k < all.len() && #[trigger] all[k] == site_at(b, p, at).0->0;
    assert(all[k].start == p && all[k].end == e && all[k].kind == "const"@);
}

proof fn lemma_run_of_digits(b: Seq<u8>, i: int, e: int)
    requires
        0 <= i <= e <= b.len(),
        forall|j: int| i <= j < e ==> '0' as u8 <= #[trigger] b[j] <= '9' as u8,
        e < b.len() ==> !is_digit_byte(b[e]) && b[e] != '_' as u8,
    ensures
        digits_end(b, i) == e,
    decreases e - i,
{
    if i < e {
        assert('0' as u8 <= b[i] <= '9' as u8);
        lemma_run_of_digits(b, i + 1, e);
    }
}

/// Where the scan stands at a byte, what it says from there on does not rest on
/// what came before.
proof fn lemma_scan_from(b: Seq<u8>, i: int, syntax: LanguageSyntax, p: int, q: int)
    requires
        syntax.wf(),
        0 <= i < p <= q < b.len(),
        mask_from(b, i, syntax)[p - 1 - i],
    ensures
        mask_from(b, i, syntax)[q - i] == mask_from(b, p, syntax)[q - p],
    decreases b.len() - i,
{
    lemma_region_end(b, i, syntax);
    lemma_mask_len(b, i, syntax);
    match region_end(b, i, syntax) {
        Some(e) => {
            lemma_mask_len(b, e, syntax);
            lemma_scan_from(b, e, syntax, p, q);
        },
        None => {
            lemma_mask_len(b, i + 1, syntax);
            if i + 1 < p {
                lemma_scan_from(b, i + 1, syntax, p, q);
            }
        },
    }
}

proof fn lemma_opens_at(b: Seq<u8>, syntax: LanguageSyntax, p: int, q: int, e: int)
    requires
        syntax.wf(),
        0 <= p <= q < e <= b.len(),
        p == 0 || mask_from(b, 0, syntax)[p - 1],
        region_end(b, p, syntax) == Some(e),
    ensures
        !mask_from(b, 0, syntax)[q],
{
    if p > 0 {
        lemma_scan_from(b, 0, syntax, p, q);
    }
    lemma_mask_len(b, e, syntax);
}

/// A line comment that opens behind code is no code, up to the end of its line.
pub proof fn a_line_comment_is_no_code(
    b: Seq<u8>,
    syntax: LanguageSyntax,
    marker: Seq<char>,
    p: int,
    q: int,
)
    requires
        syntax.wf(),
        syntax.line_comment matches Some(m) && m@ == marker,
        0 <= p <= q < b.len(),
        p == 0 || mask_from(b, 0, syntax)[p - 1],
        has_at(b, p, bytes_of(marker)),
        forall|k: int| p <= k <= q ==> #[trigger] b[k] != '\n' as u8,
    ensures
        !mask_from(b, 0, syntax)[q],
{
    lemma_line_goes_on(b, p, q);
    lemma_line_end(b, p);
    lemma_opens_at(b, syntax, p, q, line_end(b, p));
}

proof fn lemma_line_goes_on(b: Seq<u8>, i: int, q: int)
    requires
        0 <= i <= q < b.len(),
        forall|k: int| i <= k <= q ==> #[trigger] b[k] != 10,
    ensures
        line_end(b, i) > q,
    decreases q - i,
{
    if i < q {
        lemma_line_goes_on(b, i + 1, q);
    } else {
        lemma_line_end(b, i + 1);
    }
}

/// A string that opens behind code is no code, up to and with the quote that
/// closes it. A quote behind a backslash does not close it.
pub proof fn a_string_is_no_code(b: Seq<u8>, syntax: LanguageSyntax, p: int, e: int, q: int)
    requires
        syntax.wf(),
        syntax.quote == '"',
        0 <= p <= q <= e < b.len(),
        p < e,
        p == 0 || mask_from(b, 0, syntax)[p - 1],
        b[p] == '"' as u8,
        b[e] == '"' as u8,
        forall|k: int|
            p < k < e ==> #[trigger] b[k] != '"' as u8 && (b[k] != '\\' as u8),
        syntax.line_comment matches Some(m) ==> !has_at(b, p, bytes_of(m@)),
        syntax.block_comment matches Some(m) ==> !has_at(b, p, bytes_of(m.0@)),
        raw_delim(b, p, syntax.raw_quote_strings@, 0) is None,
    ensures
        !mask_from(b, 0, syntax)[q],
{
    let delim = seq![b[p]];
    lemma_closes(b, p + 1, delim, e);
    lemma_opens_at(b, syntax, p, q, e + 1);
}

proof fn lemma_closes(b: Seq<u8>, i: int, delim: Seq<u8>, e: int)
    requires
        0 <= i <= e < b.len(),
        delim.len() == 1,
        delim[0] == b[e],
        b[e] != 92,
        forall|k: int| i <= k < e ==> #[trigger] b[k] != delim[0] && b[k] != 92,
    ensures
        delimited_end(b, i, delim, true) == e + 1,
    decreases e - i,
{
    if i < e {
        assert(b[i] != delim[0] && b[i] != 92);
        if has_at(b, i, delim) {
            assert(b.subrange(i, i + 1)[0] == b[i]);
        }
        lemma_closes(b, i + 1, delim, e);
    } else {
        assert(b.subrange(i, i + 1) =~= delim);
    }
}

/// A block comment that opens behind code is no code, up to and with the mark
/// that closes it, where no other opens in it.
pub proof fn a_block_comment_is_no_code(
    b: Seq<u8>,
    syntax: LanguageSyntax,
    open: Seq<char>,
    close: Seq<char>,
    p: int,
    e: int,
    q: int,
)
    requires
        syntax.wf(),
        syntax.block_comment matches Some(m) && m.0@ == open && m.1@ == close,
        syntax.line_comment matches Some(m) ==> !has_at(b, p, bytes_of(m@)),
        0 <= p,
        p + bytes_of(open).len() <= e,
        p <= q < e + bytes_of(close).len(),
        p == 0 || mask_from(b, 0, syntax)[p - 1],
        has_at(b, p, bytes_of(open)),
        has_at(b, e, bytes_of(close)),
        bytes_of(close).len() > 0,
        forall|k: int|
            p + bytes_of(open).len() <= k <= e ==> !#[trigger] has_at(b, k, bytes_of(open)),
        forall|k: int|
            p + bytes_of(open).len() <= k < e ==> !#[trigger] has_at(b, k, bytes_of(close)),
    ensures
        !mask_from(b, 0, syntax)[q],
{
    let o = bytes_of(open);
    let c = bytes_of(close);
    lemma_block_closes(b, p + o.len(), o, c, syntax.block_comment_nests, e);
    lemma_opens_at(b, syntax, p, q, e + c.len());
}

proof fn lemma_block_closes(
    b: Seq<u8>,
    i: int,
    open: Seq<u8>,
    close: Seq<u8>,
    nests: bool,
    e: int,
)
    requires
        0 <= i <= e,
        has_at(b, e, close),
        close.len() > 0,
        forall|k: int| i <= k <= e ==> !#[trigger] has_at(b, k, open),
        forall|k: int| i <= k < e ==> !#[trigger] has_at(b, k, close),
    ensures
        block_end(b, i, open, close, nests, 1) == e + close.len(),
    decreases e - i,
{
    assert(!has_at(b, i, open));
    if i < e {
        assert(!has_at(b, i, close));
        lemma_block_closes(b, i + 1, open, close, nests, e);
    }
}

proof fn lemma_code_opens_nothing(b: Seq<u8>, i: int, syntax: LanguageSyntax, p: int)
    requires
        syntax.wf(),
        0 <= i <= p < b.len(),
        mask_from(b, i, syntax)[p - i],
    ensures
        region_end(b, p, syntax) is None,
    decreases b.len() - i,
{
    lemma_region_end(b, i, syntax);
    lemma_mask_len(b, i, syntax);
    match region_end(b, i, syntax) {
        Some(e) => {
            lemma_mask_len(b, e, syntax);
            if p >= e {
                lemma_code_opens_nothing(b, e, syntax, p);
            }
        },
        None => {
            lemma_mask_len(b, i + 1, syntax);
            if i < p {
                lemma_code_opens_nothing(b, i + 1, syntax, p);
            }
        },
    }
}

/// No comment and no string opens at a byte that is code.
pub proof fn nothing_opens_in_code(b: Seq<u8>, syntax: LanguageSyntax, p: int)
    requires
        syntax.wf(),
        0 <= p < b.len(),
        mask_from(b, 0, syntax)[p],
    ensures
        syntax.line_comment matches Some(m) ==> !has_at(b, p, bytes_of(m@)),
        syntax.block_comment matches Some(m) ==> !has_at(b, p, bytes_of(m.0@)),
        syntax.quote == '"' ==> b[p] != '"' as u8,
        syntax.char_literal is Always ==> b[p] != '\'' as u8,
{
    lemma_code_opens_nothing(b, 0, syntax, p);
}

/// What opens no comment, no string and no char literal is code, right behind
/// code.
pub proof fn what_opens_nothing_is_code(b: Seq<u8>, syntax: LanguageSyntax, p: int)
    requires
        syntax.wf(),
        0 <= p < b.len(),
        p == 0 || mask_from(b, 0, syntax)[p - 1],
        syntax.line_comment matches Some(m) ==> !has_at(b, p, bytes_of(m@)),
        syntax.block_comment matches Some(m) ==> !has_at(b, p, bytes_of(m.0@)),
        raw_delim(b, p, syntax.raw_quote_strings@, 0) is None,
        syntax.quote == '"',
        b[p] != '"' as u8,
        b[p] != '\'' as u8,
        b[p] != 'r' as u8 && b[p] != 'b' as u8,
    ensures
        mask_from(b, 0, syntax)[p],
{
    if p > 0 {
        lemma_scan_from(b, 0, syntax, p, p);
    }
}

} // verus!
