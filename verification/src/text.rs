//! Text as sequences of characters and of UTF-8 bytes.
//!
//! Spans arrive as byte offsets while names and labels are compared and cut
//! by character, so both readings of a string are modelled here: a string's
//! view is its characters, and `bytes_of` is their UTF-8 encoding.

use vstd::prelude::*;
use vstd::string::StringExecFns;
use vstd::utf8::*;

verus! {

/// The UTF-8 bytes of a character sequence.
pub open spec fn bytes_of(s: Seq<char>) -> Seq<u8> {
    encode_utf8(s)
}

/// The views of a sequence of strings.
pub open spec fn texts(v: Seq<String>) -> Seq<Seq<char>> {
    v.map_values(|s: String| s@)
}

/// Unicode's White_Space property.
pub open spec fn is_white(c: char) -> bool {
    ||| '\u{9}' <= c <= '\u{d}'
    ||| c == ' '
    ||| c == '\u{85}'
    ||| c == '\u{a0}'
    ||| c == '\u{1680}'
    ||| '\u{2000}' <= c <= '\u{200a}'
    ||| c == '\u{2028}'
    ||| c == '\u{2029}'
    ||| c == '\u{202f}'
    ||| c == '\u{205f}'
    ||| c == '\u{3000}'
}

/// `s` without its leading white space.
pub open spec fn trim_start(s: Seq<char>) -> Seq<char>
    decreases s.len(),
{
    if s.len() > 0 && is_white(s[0]) {
        trim_start(s.drop_first())
    } else {
        s
    }
}

/// `s` without its trailing white space.
pub open spec fn trim_end(s: Seq<char>) -> Seq<char>
    decreases s.len(),
{
    if s.len() > 0 && is_white(s.last()) {
        trim_end(s.drop_last())
    } else {
        s
    }
}

/// `s` without white space at either end.
pub open spec fn trimmed(s: Seq<char>) -> Seq<char> {
    trim_end(trim_start(s))
}

/// The first index at or after `from` that holds `c`, or the length of `s`.
pub open spec fn find_char(s: Seq<char>, c: char, from: int) -> int
    decreases s.len() - from,
{
    if from < 0 || from >= s.len() {
        s.len() as int
    } else if s[from] == c {
        from
    } else {
        find_char(s, c, from + 1)
    }
}

/// The part of `s` before its first `c`, or all of `s`.
pub open spec fn before(s: Seq<char>, c: char) -> Seq<char> {
    s.subrange(0, find_char(s, c, 0))
}

/// The first `n` characters of `s`, or all of it when it is shorter.
pub open spec fn clipped(s: Seq<char>, n: nat) -> Seq<char> {
    if s.len() <= n {
        s
    } else {
        s.take(n as int)
    }
}

/// The characters whose bytes are `s`'s bytes from `a` up to `b`, when both
/// ends fall between characters.
pub open spec fn byte_slice(s: Seq<char>, a: int, b: int) -> Option<Seq<char>> {
    let bytes = bytes_of(s);
    if 0 <= a <= b <= bytes.len() && is_char_boundary(bytes, a) && is_char_boundary(bytes, b) {
        Some(decode_utf8(bytes.subrange(a, b)))
    } else {
        None
    }
}

/// The decimal digit `d`.
pub open spec fn digit(d: nat) -> char
    recommends
        d < 10,
{
    ((48 + d) as u8) as char
}

/// The decimal numeral of `n`, without leading zeros.
pub open spec fn decimal(n: nat) -> Seq<char>
    decreases n,
{
    if n < 10 {
        seq![digit(n)]
    } else {
        decimal(n / 10).push(digit(n % 10))
    }
}

/// How many of the bytes are newlines.
pub open spec fn newlines(b: Seq<u8>) -> nat
    decreases b.len(),
{
    if b.len() == 0 {
        0
    } else {
        newlines(b.drop_last()) + if b.last() == 10u8 {
            1nat
        } else {
            0nat
        }
    }
}

/// Equal encodings have equal characters.
pub proof fn lemma_bytes_injective(a: Seq<char>, b: Seq<char>)
    requires
        bytes_of(a) == bytes_of(b),
    ensures
        a == b,
{
    encode_utf8_decode_utf8(a);
    encode_utf8_decode_utf8(b);
}

/// The encoding of a concatenation is the concatenation of the encodings.
pub proof fn lemma_bytes_concat(a: Seq<char>, b: Seq<char>)
    ensures
        bytes_of(a + b) == bytes_of(a) + bytes_of(b),
    decreases a.len(),
{
    if a.len() == 0 {
        assert(a + b =~= b);
        assert(bytes_of(a) + bytes_of(b) =~= bytes_of(b));
    } else {
        lemma_bytes_concat(a.drop_first(), b);
        assert((a + b).drop_first() =~= a.drop_first() + b);
        assert(encode_scalar(a[0] as u32) + (bytes_of(a.drop_first()) + bytes_of(b)) =~= (
        encode_scalar(a[0] as u32) + bytes_of(a.drop_first())) + bytes_of(b));
    }
}

/// Cutting at `a` inside a prefix is cutting at `a` in the whole.
proof fn lemma_boundary_in_prefix(bytes: Seq<u8>, a: int, b: int)
    requires
        valid_utf8(bytes),
        0 <= a <= b <= bytes.len(),
        is_char_boundary(bytes, a),
        is_char_boundary(bytes, b),
    ensures
        valid_utf8(bytes.subrange(0, b)),
        is_char_boundary(bytes.subrange(0, b), a),
{
    valid_utf8_split(bytes, b);
    let prefix = bytes.subrange(0, b);
    if a == b {
        is_char_boundary_start_end_of_seq(prefix);
    } else {
        is_char_boundary_iff_not_is_continuation_byte(bytes, a);
        is_char_boundary_iff_not_is_continuation_byte(prefix, a);
        assert(prefix[a] == bytes[a]);
    }
}

/// An ASCII byte of valid UTF-8 is a whole character: both its ends are
/// character boundaries.
pub proof fn lemma_ascii_boundaries(bytes: Seq<u8>, i: int)
    requires
        valid_utf8(bytes),
        0 <= i < bytes.len(),
        bytes[i] < 0x80,
    ensures
        is_char_boundary(bytes, i),
        is_char_boundary(bytes, i + 1),
    decreases bytes.len(),
{
    is_char_boundary_iff_not_is_continuation_byte(bytes, i);
    let n = length_of_first_scalar(bytes);
    if i == 0 {
        is_char_boundary_start_end_of_seq(pop_first_scalar(bytes));
        reveal_with_fuel(is_char_boundary, 2);
    } else {
        reveal_with_fuel(is_char_boundary, 2);
        let rest = pop_first_scalar(bytes);
        assert(i >= n);
        assert(rest[i - n] == bytes[i]);
        lemma_ascii_boundaries(rest, i - n);
    }
}

proof fn lemma_find_char_bounds(s: Seq<char>, c: char, from: int)
    requires
        0 <= from <= s.len(),
    ensures
        from <= find_char(s, c, from) <= s.len(),
        find_char(s, c, from) < s.len() ==> s[find_char(s, c, from)] == c,
        forall|k: int| from <= k < find_char(s, c, from) ==> s[k] != c,
    decreases s.len() - from,
{
    if from < s.len() && s[from] != c {
        lemma_find_char_bounds(s, c, from + 1);
    }
}

/// What `find_char` finds: the first occurrence.
pub broadcast proof fn lemma_find_char(s: Seq<char>, c: char)
    ensures
        0 <= #[trigger] find_char(s, c, 0) <= s.len(),
        find_char(s, c, 0) < s.len() ==> s[find_char(s, c, 0)] == c,
        forall|k: int| 0 <= k < find_char(s, c, 0) ==> s[k] != c,
{
    lemma_find_char_bounds(s, c, 0);
}

proof fn lemma_trim_start_at(s: Seq<char>, k: int)
    requires
        0 <= k <= s.len(),
        forall|j: int| 0 <= j < k ==> is_white(s[j]),
        k < s.len() ==> !is_white(s[k]),
    ensures
        trim_start(s) == s.skip(k),
    decreases k,
{
    if k == 0 {
        assert(s.skip(0) =~= s);
    } else {
        assert(s.drop_first().skip(k - 1) =~= s.skip(k));
        assert forall|j: int| 0 <= j < k - 1 implies is_white(s.drop_first()[j]) by {
            assert(s.drop_first()[j] == s[j + 1]);
        }
        lemma_trim_start_at(s.drop_first(), k - 1);
    }
}

proof fn lemma_trim_end_at(s: Seq<char>, k: int)
    requires
        0 <= k <= s.len(),
        forall|j: int| k <= j < s.len() ==> is_white(s[j]),
        k > 0 ==> !is_white(s[k - 1]),
    ensures
        trim_end(s) == s.take(k),
    decreases s.len() - k,
{
    if k == s.len() {
        assert(s.take(k) =~= s);
    } else {
        assert(s.drop_last().take(k) =~= s.take(k));
        lemma_trim_end_at(s.drop_last(), k);
    }
}

/// Where the leading white space of `s` ends.
proof fn lemma_trim_start(s: Seq<char>) -> (k: int)
    ensures
        0 <= k <= s.len(),
        forall|j: int| 0 <= j < k ==> is_white(#[trigger] s[j]),
        k < s.len() ==> !is_white(s[k]),
        trim_start(s) == s.skip(k),
    decreases s.len(),
{
    if s.len() > 0 && is_white(s[0]) {
        let k = lemma_trim_start(s.drop_first());
        assert(s.drop_first().skip(k) =~= s.skip(k + 1));
        assert forall|j: int| 0 <= j < k + 1 implies is_white(#[trigger] s[j]) by {
            if j > 0 {
                assert(s.drop_first()[j - 1] == s[j]);
            }
        }
        k + 1
    } else {
        assert(s.skip(0) =~= s);
        0
    }
}

/// Where the trailing white space of `s` starts.
proof fn lemma_trim_end(s: Seq<char>) -> (k: int)
    ensures
        0 <= k <= s.len(),
        forall|j: int| k <= j < s.len() ==> is_white(#[trigger] s[j]),
        k > 0 ==> !is_white(s[k - 1]),
        trim_end(s) == s.take(k),
    decreases s.len(),
{
    if s.len() > 0 && is_white(s.last()) {
        let k = lemma_trim_end(s.drop_last());
        assert(s.drop_last().take(k) =~= s.take(k));
        assert forall|j: int| k <= j < s.len() implies is_white(#[trigger] s[j]) by {
            if j < s.len() - 1 {
                assert(s.drop_last()[j] == s[j]);
            }
        }
        k
    } else {
        assert(s.take(s.len() as int) =~= s);
        s.len() as int
    }
}

/// Trimming one end first makes no difference.
pub proof fn trimming_twice_is_trimming(s: Seq<char>)
    ensures
        trimmed(trim_end(s)) == trimmed(s),
        trim_end(s).len() <= s.len(),
        trim_end(s).len() > 0 ==> trim_end(s)[0] == s[0],
{
    let a = lemma_trim_start(s);
    let e = lemma_trim_end(s);
    let t = s.take(e);
    let u = s.skip(a);
    if a >= e {
        assert forall|j: int| 0 <= j < t.len() implies is_white(#[trigger] t[j]) by {
            assert(t[j] == s[j]);
        }
        lemma_trim_start_at(t, e);
        assert(t.skip(e) =~= Seq::empty());
        if a < s.len() {
            assert(is_white(s[a]));
        }
        assert(u =~= Seq::empty());
    } else {
        lemma_trim_start_at(t, a);
        lemma_trim_end_at(t.skip(a), e - a);
        lemma_trim_end_at(u, e - a);
        assert(t.skip(a).take(e - a) =~= u.take(e - a));
    }
}

/// What starts and ends with no white space has none to trim.
pub proof fn nothing_to_trim(s: Seq<char>)
    requires
        s.len() > 0,
        !is_white(s[0]),
        !is_white(s.last()),
    ensures
        trimmed(s) == s,
{
    lemma_trim_start_at(s, 0);
    assert(s.skip(0) =~= s);
    lemma_trim_end_at(s, s.len() as int);
    assert(s.take(s.len() as int) =~= s);
}

/// Where `c` first stands.
pub proof fn lemma_found_at(s: Seq<char>, c: char, k: int)
    requires
        0 <= k <= s.len(),
        forall|j: int| 0 <= j < k ==> s[j] != c,
        k < s.len() ==> s[k] == c,
    ensures
        find_char(s, c, 0) == k,
{
    lemma_find_char(s, c);
}

/// The characters of `s`.
pub fn chars_of(s: &str) -> (r: Vec<char>)
    ensures
        r@ == s@,
{
    let mut out: Vec<char> = Vec::new();
    for c in it: s.chars()
        invariant
            out@ == it.seq().take(it.index()),
            it.seq() == s@,
    {
        out.push(c);
    }
    assert(out@ =~= s@);
    out
}

/// `String::from_iter` over characters: the string that holds them in order.
#[verifier::external_body]
pub(crate) fn string_from_chars(chars: &[char]) -> (r: String)
    ensures
        r@ == chars@,
{
    String::from_iter(chars)
}

/// Whether two strings hold the same characters.
pub fn same(a: &str, b: &str) -> (r: bool)
    ensures
        r == (a@ == b@),
{
    let x = a.as_bytes();
    let y = b.as_bytes();
    if x.len() != y.len() {
        return false;
    }
    let mut i: usize = 0;
    while i < x.len()
        invariant
            i <= x.len(),
            x.len() == y.len(),
            x@ == bytes_of(a@),
            y@ == bytes_of(b@),
            forall|k: int| 0 <= k < i ==> x@[k] == y@[k],
        decreases x.len() - i,
    {
        if x[i] != y[i] {
            return false;
        }
        i += 1;
    }
    proof {
        assert(x@ =~= y@);
        lemma_bytes_injective(a@, b@);
    }
    true
}

/// Whether `c` is white space.
pub fn white(c: char) -> (r: bool)
    ensures
        r == is_white(c),
{
    ('\u{9}' <= c && c <= '\u{d}') || c == ' ' || c == '\u{85}' || c == '\u{a0}' || c
        == '\u{1680}' || ('\u{2000}' <= c && c <= '\u{200a}') || c == '\u{2028}' || c == '\u{2029}'
        || c == '\u{202f}' || c == '\u{205f}' || c == '\u{3000}'
}

/// `s` without white space at either end.
pub fn trim(s: &[char]) -> (r: &[char])
    ensures
        r@ == trimmed(s@),
{
    let n: usize = s.len();
    let mut a: usize = 0;
    while a < n && white(s[a])
        invariant
            a <= n,
            n == s.len(),
            forall|j: int| 0 <= j < a ==> is_white(s@[j]),
        decreases n - a,
    {
        a += 1;
    }
    let mut b: usize = n;
    while a < b && white(s[b - 1])
        invariant
            a <= b <= n,
            n == s.len(),
            forall|j: int| b <= j < n ==> is_white(s@[j]),
        decreases b,
    {
        b -= 1;
    }
    let r = vstd::slice::slice_subrange(s, a, b);
    proof {
        lemma_trim_start_at(s@, a as int);
        let t = s@.skip(a as int);
        lemma_trim_end_at(t, b - a);
        assert(t.take(b - a) =~= s@.subrange(a as int, b as int));
    }
    r
}

/// The index of the first `c`, or the length.
pub fn position(s: &[char], c: char) -> (r: usize)
    ensures
        r == find_char(s@, c, 0),
        r <= s.len(),
{
    let mut i: usize = 0;
    while i < s.len() && s[i] != c
        invariant
            i <= s.len(),
            find_char(s@, c, 0) == find_char(s@, c, i as int),
        decreases s.len() - i,
    {
        i += 1;
    }
    i
}

/// The decimal numeral of `n`.
pub fn decimal_text(n: u128) -> (r: String)
    ensures
        r@ == decimal(n as nat),
{
    let mut rev: Vec<char> = Vec::new();
    let mut m: u128 = n;
    while m >= 10
        invariant
            decimal(n as nat) == decimal(m as nat) + rev@.reverse(),
        decreases m,
    {
        let d: u8 = (m % 10) as u8;
        let c: char = (48u8 + d) as char;
        let ghost before_push = rev@;
        rev.push(c);
        proof {
            assert(c == digit((m % 10) as nat));
            assert(rev@.reverse() =~= seq![c] + before_push.reverse());
            assert(decimal(m as nat) + before_push.reverse() =~= decimal((m / 10) as nat)
                + rev@.reverse());
        }
        m = m / 10;
    }
    let d: u8 = m as u8;
    let ghost before_push = rev@;
    rev.push((48u8 + d) as char);
    proof {
        assert(rev@.reverse() =~= decimal(m as nat) + before_push.reverse());
    }
    let mut out: Vec<char> = Vec::new();
    let mut k: usize = rev.len();
    while k > 0
        invariant
            k <= rev.len(),
            out@.len() == rev.len() - k,
            forall|j: int| 0 <= j < out@.len() ==> out@[j] == rev@.reverse()[j],
        decreases k,
    {
        k -= 1;
        out.push(rev[k]);
    }
    proof {
        assert(out@ =~= rev@.reverse());
    }
    string_from_chars(&out)
}

/// The piece of `s` between two byte offsets, when both fall between
/// characters.
pub fn slice(s: &str, a: usize, b: usize) -> (r: Option<&str>)
    ensures
        match r {
            Some(t) => byte_slice(s@, a as int, b as int) == Some(t@),
            None => byte_slice(s@, a as int, b as int) is None,
        },
{
    let bytes = s.as_bytes();
    proof {
        encode_utf8_valid_utf8(s@);
    }
    if a <= b && b <= bytes.len() && s.is_char_boundary(a) && s.is_char_boundary(b) {
        proof {
            lemma_boundary_in_prefix(bytes@, a as int, b as int);
        }
        let (head, _) = s.split_at(b);
        let (_, piece) = head.split_at(a);
        proof {
            assert(bytes_of(head@).subrange(a as int, b as int) =~= bytes@.subrange(
                a as int,
                b as int,
            ));
            encode_utf8_decode_utf8(piece@);
        }
        Some(piece)
    } else {
        None
    }
}

/// `a` followed by `b`.
pub fn joined(a: &str, b: &str) -> (r: String)
    ensures
        r@ == a@ + b@,
{
    let mut out = a.to_owned();
    out.append(b);
    out
}

/// The lines of `s`: what stands between newlines, without an empty line
/// behind the last newline. A carriage return stays on its line.
pub open spec fn lines(s: Seq<char>) -> Seq<Seq<char>>
    decreases s.len(),
    via lines_decreases
{
    if s.len() == 0 {
        Seq::empty()
    } else {
        let k = find_char(s, '\n', 0);
        if k >= s.len() {
            seq![s]
        } else {
            seq![s.take(k)] + lines(s.skip(k + 1))
        }
    }
}

#[via_fn]
proof fn lines_decreases(s: Seq<char>) {
    lemma_find_char(s, '\n');
}

/// Whether `s` starts with `p`.
pub open spec fn starts_with(s: Seq<char>, p: Seq<char>) -> bool {
    p.len() <= s.len() && s.take(p.len() as int) == p
}

/// Whether every character is a decimal digit.
pub open spec fn all_digits(s: Seq<char>) -> bool {
    forall|k: int| 0 <= k < s.len() ==> '0' <= #[trigger] s[k] <= '9'
}

/// The number that a sequence of decimal digits writes.
pub open spec fn number(s: Seq<char>) -> nat
    decreases s.len(),
{
    if s.len() == 0 {
        0
    } else {
        number(s.drop_last()) * 10 + (s.last() as nat - '0' as nat) as nat
    }
}

/// The unsigned 32-bit number that `s` writes: an optional plus sign and at
/// least one digit.
pub open spec fn parsed_u32(s: Seq<char>) -> Option<u32> {
    let d = if s.len() > 0 && s[0] == '+' {
        s.drop_first()
    } else {
        s
    };
    if d.len() > 0 && all_digits(d) && number(d) <= u32::MAX {
        Some(number(d) as u32)
    } else {
        None
    }
}

/// Whether `a` comes strictly before `b` in the order of their characters.
pub open spec fn precedes(a: Seq<char>, b: Seq<char>) -> bool
    decreases a.len(),
{
    if b.len() == 0 {
        false
    } else if a.len() == 0 {
        true
    } else if a[0] != b[0] {
        a[0] < b[0]
    } else {
        precedes(a.drop_first(), b.drop_first())
    }
}

/// The order of texts is strict and total.
pub proof fn precedes_is_total(a: Seq<char>, b: Seq<char>)
    ensures
        !(precedes(a, b) && precedes(b, a)),
        a != b ==> precedes(a, b) || precedes(b, a),
        a == b ==> !precedes(a, b),
    decreases a.len(),
{
    if a.len() > 0 && b.len() > 0 && a[0] == b[0] {
        precedes_is_total(a.drop_first(), b.drop_first());
        if a.drop_first() == b.drop_first() {
            assert(a =~= seq![a[0]] + a.drop_first());
            assert(b =~= seq![b[0]] + b.drop_first());
        }
    } else if a.len() == 0 && b.len() == 0 {
        assert(a =~= b);
    }
}

/// The order of texts is transitive.
pub proof fn precedes_is_transitive(a: Seq<char>, b: Seq<char>, c: Seq<char>)
    requires
        precedes(a, b),
        precedes(b, c),
    ensures
        precedes(a, c),
    decreases a.len(),
{
    if a.len() > 0 && b.len() > 0 && c.len() > 0 && a[0] == b[0] && b[0] == c[0] {
        precedes_is_transitive(a.drop_first(), b.drop_first(), c.drop_first());
    }
}

/// The lines of `s`.
pub fn split_lines(s: &[char]) -> (r: Vec<&[char]>)
    ensures
        r@.map_values(|l: &[char]| l@) == lines(s@),
{
    broadcast use lemma_find_char;

    let mut out: Vec<&[char]> = Vec::new();
    let mut rest = s;
    while rest.len() > 0
        invariant
            out@.map_values(|l: &[char]| l@) + lines(rest@) == lines(s@),
        decreases rest.len(),
    {
        let ghost before_push = out@.map_values(|l: &[char]| l@);
        let k: usize = position(rest, '\n');
        let n: usize = rest.len();
        if k >= n {
            out.push(rest);
            proof {
                assert(out@.map_values(|l: &[char]| l@) =~= before_push + seq![rest@]);
            }
            return out;
        }
        let line = vstd::slice::slice_subrange(rest, 0, k);
        let next = vstd::slice::slice_subrange(rest, k + 1, n);
        out.push(line);
        proof {
            assert(line@ =~= rest@.take(k as int));
            assert(next@ =~= rest@.skip(k + 1));
            assert(out@.map_values(|l: &[char]| l@) =~= before_push + seq![line@]);
            assert(before_push + (seq![line@] + lines(next@)) =~= (before_push + seq![line@])
                + lines(next@));
        }
        rest = next;
    }
    proof {
        assert(out@.map_values(|l: &[char]| l@) + Seq::<Seq<char>>::empty() =~= out@.map_values(
            |l: &[char]| l@,
        ));
    }
    out
}

/// `s` without its trailing white space.
pub fn trim_tail(s: &[char]) -> (r: &[char])
    ensures
        r@ == trim_end(s@),
{
    let n: usize = s.len();
    let mut b: usize = n;
    while 0 < b && white(s[b - 1])
        invariant
            b <= n,
            n == s.len(),
            forall|j: int| b <= j < n ==> is_white(s@[j]),
        decreases b,
    {
        b -= 1;
    }
    let r = vstd::slice::slice_subrange(s, 0, b);
    proof {
        lemma_trim_end_at(s@, b as int);
        assert(s@.take(b as int) =~= s@.subrange(0, b as int));
    }
    r
}

/// Whether the characters `s` are those of `t`.
pub fn chars_are(s: &[char], t: &str) -> (r: bool)
    ensures
        r == (s@ == t@),
{
    let u = chars_of(t);
    if s.len() != u.len() {
        return false;
    }
    let mut i: usize = 0;
    while i < s.len()
        invariant
            i <= s.len(),
            s.len() == u.len(),
            u@ == t@,
            forall|k: int| 0 <= k < i ==> s@[k] == u@[k],
        decreases s.len() - i,
    {
        if s[i] != u[i] {
            return false;
        }
        i += 1;
    }
    assert(s@ =~= u@);
    true
}

/// What follows the prefix `p`, when `s` starts with it.
pub fn after_prefix<'a>(s: &'a [char], p: &str) -> (r: Option<&'a [char]>)
    ensures
        match r {
            Some(t) => starts_with(s@, p@) && t@ == s@.skip(p@.len() as int),
            None => !starts_with(s@, p@),
        },
{
    let u = chars_of(p);
    let n: usize = s.len();
    let m: usize = u.len();
    if m > n {
        return None;
    }
    let head = vstd::slice::slice_subrange(s, 0, m);
    let tail = vstd::slice::slice_subrange(s, m, n);
    proof {
        assert(head@ =~= s@.take(m as int));
        assert(tail@ =~= s@.skip(m as int));
    }
    if chars_are(head, p) {
        Some(tail)
    } else {
        None
    }
}

/// The parts of `s` before and after its first `c`.
pub fn split_once(s: &[char], c: char) -> (r: Option<(&[char], &[char])>)
    ensures
        match r {
            Some((a, b)) => find_char(s@, c, 0) < s@.len() && a@ == before(s@, c) && b@
                == s@.skip(find_char(s@, c, 0) + 1),
            None => find_char(s@, c, 0) == s@.len(),
        },
{
    let k: usize = position(s, c);
    let n: usize = s.len();
    if k == n {
        return None;
    }
    let a = vstd::slice::slice_subrange(s, 0, k);
    let b = vstd::slice::slice_subrange(s, k + 1, n);
    proof {
        assert(b@ =~= s@.skip(k + 1));
    }
    Some((a, b))
}

proof fn lemma_number_grows(s: Seq<char>, k: int)
    requires
        0 <= k <= s.len(),
    ensures
        number(s.take(k)) <= number(s),
    decreases s.len() - k,
{
    if k < s.len() {
        lemma_number_grows(s, k + 1);
        assert(s.take(k + 1).drop_last() =~= s.take(k));
    } else {
        assert(s.take(k) =~= s);
    }
}

/// The unsigned 32-bit number that `s` writes.
pub fn parse_u32(s: &[char]) -> (r: Option<u32>)
    ensures
        r == parsed_u32(s@),
{
    let n: usize = s.len();
    let d = if n > 0 && s[0] == '+' {
        vstd::slice::slice_subrange(s, 1, n)
    } else {
        s
    };
    proof {
        if s@.len() > 0 && s@[0] == '+' {
            assert(d@ =~= s@.drop_first());
        }
    }
    if d.len() == 0 {
        return None;
    }
    let mut value: u64 = 0;
    let mut i: usize = 0;
    while i < d.len()
        invariant
            i <= d.len(),
            forall|k: int| 0 <= k < i ==> '0' <= #[trigger] d@[k] <= '9',
            value == number(d@.take(i as int)),
            value <= u32::MAX,
            d.len() > 0,
            parsed_u32(s@) == (if all_digits(d@) && number(d@) <= u32::MAX {
                Some(number(d@) as u32)
            } else {
                None
            }),
        decreases d.len() - i,
    {
        let c: char = d[i];
        if c < '0' || '9' < c {
            return None;
        }
        value = value * 10 + (c as u64 - '0' as u64);
        proof {
            assert(d@.take(i + 1).drop_last() =~= d@.take(i as int));
        }
        i += 1;
        if value > 0xffff_ffff {
            proof {
                lemma_number_grows(d@, i as int);
            }
            return None;
        }
    }
    proof {
        assert(d@.take(i as int) =~= d@);
    }
    Some(value as u32)
}

/// Whether `a` comes strictly before `b` in the order of their characters.
pub fn comes_before(a: &[char], b: &[char]) -> (r: bool)
    ensures
        r == precedes(a@, b@),
{
    let mut i: usize = 0;
    proof {
        assert(a@.skip(0) =~= a@);
        assert(b@.skip(0) =~= b@);
    }
    while i < a.len() && i < b.len()
        invariant
            i <= a.len(),
            i <= b.len(),
            precedes(a@, b@) == precedes(a@.skip(i as int), b@.skip(i as int)),
        decreases a.len() - i,
    {
        if a[i] != b[i] {
            return a[i] < b[i];
        }
        proof {
            assert(a@.skip(i as int).drop_first() =~= a@.skip(i + 1));
            assert(b@.skip(i as int).drop_first() =~= b@.skip(i + 1));
        }
        i += 1;
    }
    i < b.len()
}

/// The first line of a text, trimmed and cut to 48 characters.
pub open spec fn snippet_of(s: Seq<char>) -> Seq<char> {
    clipped(trimmed(before(s, '\n')), 48)
}

/// A snippet is one line of at most 48 characters, and a short line without white
/// space at its ends is its own snippet.
pub proof fn a_short_line_is_its_own_snippet(s: Seq<char>)
    ensures
        snippet_of(s).len() <= 48,
        0 < s.len() <= 48 && !is_white(s[0]) && !is_white(s.last()) && (forall|k: int|
            0 <= k < s.len() ==> #[trigger] s[k] != '\n') ==> snippet_of(s) == s,
{
    lemma_find_char_bounds(s, '\n', 0);
    if 0 < s.len() <= 48 && !is_white(s[0]) && !is_white(s.last()) && (forall|k: int|
        0 <= k < s.len() ==> #[trigger] s[k] != '\n') {
        assert(find_char(s, '\n', 0) == s.len());
        assert(before(s, '\n') =~= s);
        nothing_to_trim(s);
    }
}

/// What follows on the next lines is not in a snippet.
pub proof fn a_snippet_ends_with_its_line(a: Seq<char>, b: Seq<char>)
    requires
        forall|k: int| 0 <= k < a.len() ==> #[trigger] a[k] != '\n',
    ensures
        snippet_of(a + seq!['\n'] + b) == snippet_of(a),
{
    let s = a + seq!['\n'] + b;
    lemma_find_char_bounds(s, '\n', 0);
    lemma_find_char_bounds(a, '\n', 0);
    let p = find_char(s, '\n', 0);
    assert(s[a.len() as int] == '\n');
    if p < a.len() {
        assert(s[p] == a[p]);
    }
    assert(before(s, '\n') =~= a);
    assert(before(a, '\n') =~= a);
}

/// The parts with `sep` between them.
pub open spec fn joined_with(parts: Seq<Seq<char>>, sep: Seq<char>) -> Seq<char>
    decreases parts.len(),
{
    if parts.len() == 0 {
        Seq::empty()
    } else if parts.len() == 1 {
        parts[0]
    } else {
        joined_with(parts.drop_last(), sep) + sep + parts.last()
    }
}

/// `s` with every occurrence of `pat`, read from the left without overlap,
/// replaced by `with`.
pub open spec fn replaced(s: Seq<char>, pat: Seq<char>, with: Seq<char>) -> Seq<char>
    decreases s.len(),
{
    if pat.len() == 0 || s.len() < pat.len() {
        s
    } else if s.take(pat.len() as int) == pat {
        with + replaced(s.skip(pat.len() as int), pat, with)
    } else {
        seq![s[0]] + replaced(s.skip(1), pat, with)
    }
}

/// The first line of a text, trimmed and cut to 48 characters.
pub fn snippet(s: &str) -> (r: String)
    ensures
        r@ == snippet_of(s@),
{
    broadcast use lemma_find_char;

    let chars = chars_of(s);
    let k: usize = position(chars.as_slice(), '\n');
    let line = trim(vstd::slice::slice_subrange(chars.as_slice(), 0, k));
    if line.len() <= 48 {
        string_from_chars(line)
    } else {
        let head = vstd::slice::slice_subrange(line, 0, 48);
        assert(head@ =~= line@.take(48));
        string_from_chars(head)
    }
}

/// The parts with `sep` between them.
pub fn join(parts: &Vec<String>, sep: &str) -> (r: String)
    ensures
        r@ == joined_with(texts(parts@), sep@),
{
    let ghost all = texts(parts@);
    if parts.len() == 0 {
        return String::new();
    }
    let mut out = parts[0].clone();
    let mut k: usize = 1;
    assert(all.take(1)[0] == parts@[0]@);
    while k < parts.len()
        invariant
            1 <= k <= parts.len(),
            all == texts(parts@),
            out@ == joined_with(all.take(k as int), sep@),
        decreases parts.len() - k,
    {
        proof {
            assert(all.take(k + 1).drop_last() =~= all.take(k as int));
            assert(all.take(k + 1).last() == parts@[k as int]@);
        }
        out.append(sep);
        out.append(parts[k].as_str());
        k += 1;
    }
    assert(all.take(k as int) =~= all);
    out
}

/// `s` with every occurrence of `pat` replaced by `with`.
pub fn replace(s: &str, pat: &str, with: &str) -> (r: String)
    requires
        pat@.len() > 0,
    ensures
        r@ == replaced(s@, pat@, with@),
{
    let chars = chars_of(s);
    let sub = chars_of(with);
    let mut rest = chars.as_slice();
    let mut out: Vec<char> = Vec::new();
    while rest.len() > 0
        invariant
            pat@.len() > 0,
            sub@ == with@,
            out@ + replaced(rest@, pat@, with@) == replaced(s@, pat@, with@),
        decreases rest.len(),
    {
        let ghost done = out@;
        let n: usize = rest.len();
        match after_prefix(rest, pat) {
            Some(tail) => {
                let mut k: usize = 0;
                while k < sub.len()
                    invariant
                        k <= sub.len(),
                        sub@ == with@,
                        out@ == done + with@.take(k as int),
                    decreases sub.len() - k,
                {
                    out.push(sub[k]);
                    k += 1;
                    assert(out@ =~= done + with@.take(k as int));
                }
                proof {
                    assert(with@.take(k as int) =~= with@);
                    assert(done + (with@ + replaced(tail@, pat@, with@)) =~= out@ + replaced(
                        tail@,
                        pat@,
                        with@,
                    ));
                }
                rest = tail;
            },
            None => {
                let c: char = rest[0];
                let tail = vstd::slice::slice_subrange(rest, 1, n);
                out.push(c);
                proof {
                    assert(tail@ =~= rest@.skip(1));
                    if rest@.len() < pat@.len() {
                        assert(replaced(tail@, pat@, with@) == tail@);
                        assert(rest@ =~= seq![c] + tail@);
                    }
                    assert(done + (seq![c] + replaced(tail@, pat@, with@)) =~= out@ + replaced(
                        tail@,
                        pat@,
                        with@,
                    ));
                }
                rest = tail;
            },
        }
    }
    assert(out@ + Seq::<char>::empty() =~= out@);
    string_from_chars(&out)
}

proof fn lemma_decimal(n: nat)
    ensures
        decimal(n).len() > 0,
        all_digits(decimal(n)),
        number(decimal(n)) == n,
    decreases n,
{
    if n < 10 {
        let d = decimal(n);
        assert(d.drop_last() =~= Seq::empty());
        assert(number(d.drop_last()) == 0);
        assert(d.last() == digit(n));
    } else {
        lemma_decimal(n / 10);
        let d = decimal(n);
        assert(d.drop_last() =~= decimal(n / 10));
        assert(d.last() == digit(n % 10));
    }
}

/// A number that is printed reads back, and has nothing to trim.
pub proof fn printed_number_reads_back(n: u32)
    ensures
        parsed_u32(decimal(n as nat)) == Some(n),
        trimmed(decimal(n as nat)) == decimal(n as nat),
        decimal(n as nat).len() > 0,
        all_digits(decimal(n as nat)),
{
    lemma_decimal(n as nat);
    let d = decimal(n as nat);
    assert('0' <= d[0] <= '9');
    assert('0' <= d[d.len() - 1] <= '9');
    nothing_to_trim(d);
}

} // verus!
