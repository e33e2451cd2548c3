//! What the MIR lowering decides from its command line.
//!
//! Cargo hands a compiler wrapper the real compiler and its arguments, once
//! per compilation unit. Dependencies, build scripts and proc-macros pass
//! through untouched; the primary package is lowered, and its output lands in
//! a file that is named after the crate and the arguments.

use vstd::prelude::*;

use crate::text::{
    bytes_of, chars_of, joined, same, starts_with, string_from_chars, texts,
};

verus! {

/// A hash of the first `k` bytes, begun from `h`.
pub open spec fn hashed(h: u64, bytes: Seq<u8>, k: int) -> u64
    decreases k,
{
    if k <= 0 || k > bytes.len() {
        h
    } else {
        vstd::wrapping::u64_specs::wrapping_mul(
            hashed(h, bytes, k - 1) ^ (bytes[k - 1] as u64),
            0x0000_0100_0000_01b3,
        )
    }
}

/// A hash of the texts' bytes, one text behind the other.
pub open spec fn hash_of(all: Seq<Seq<char>>, k: int) -> u64
    decreases k,
{
    if k <= 0 || k > all.len() {
        0xcbf2_9ce4_8422_2325
    } else {
        let bytes = bytes_of(all[k - 1]);
        hashed(hash_of(all, k - 1), bytes, bytes.len() as int)
    }
}

/// A hash that depends on nothing but the bytes.
fn hash_bytes(h: u64, bytes: &[u8]) -> (r: u64)
    ensures
        r == hashed(h, bytes@, bytes@.len() as int),
{
    let mut out: u64 = h;
    let mut k: usize = 0;
    while k < bytes.len()
        invariant
            k <= bytes.len(),
            out == hashed(h, bytes@, k as int),
        decreases bytes.len() - k,
    {
        out = (out ^ (bytes[k] as u64)).wrapping_mul(0x0000_0100_0000_01b3);
        k += 1;
    }
    out
}

/// The hash of a text.
pub fn hash_text(text: &str) -> (r: u64)
    ensures
        r == hash_of(seq![text@], 1),
{
    let r: u64 = hash_bytes(0xcbf2_9ce4_8422_2325, text.as_bytes());
    proof {
        reveal_with_fuel(hash_of, 2);
        assert(seq![text@][0] == text@);
    }
    r
}

/// The hash of a list of arguments.
pub fn hash_args(args: &Vec<String>) -> (r: u64)
    ensures
        r == hash_of(texts(args@), args@.len() as int),
{
    let ghost all = texts(args@);
    let mut out: u64 = 0xcbf2_9ce4_8422_2325;
    let mut k: usize = 0;
    while k < args.len()
        invariant
            k <= args.len(),
            all == texts(args@),
            out == hash_of(all, k as int),
        decreases args.len() - k,
    {
        assert(all[k as int] == args@[k as int]@);
        out = hash_bytes(out, args[k].as_str().as_bytes());
        k += 1;
    }
    out
}

/// A hexadecimal digit.
pub open spec fn hex_digit(d: nat) -> char {
    if d < 10 {
        (48 + d) as char
    } else {
        (87 + d) as char
    }
}

/// The last `n` hexadecimal digits of a number.
pub open spec fn hex_digits(h: nat, n: nat) -> Seq<char>
    decreases n,
{
    if n == 0 {
        Seq::empty()
    } else {
        hex_digits(h / 16, (n - 1) as nat).push(hex_digit(h % 16))
    }
}

/// How many hexadecimal digits a number has.
pub open spec fn hex_width(h: nat) -> nat
    decreases h,
{
    if h < 16 {
        1
    } else {
        1 + hex_width(h / 16)
    }
}

fn hex_char(d: u64) -> (r: char)
    requires
        d < 16,
    ensures
        r == hex_digit(d as nat),
{
    if d < 10 {
        (48u8 + d as u8) as char
    } else {
        (87u8 + d as u8) as char
    }
}

fn digits(h: u64, n: u32) -> (r: String)
    ensures
        r@ == hex_digits(h as nat, n as nat),
{
    let mut back: Vec<char> = Vec::new();
    let mut m: u64 = h;
    let mut k: u32 = 0;
    while k < n
        invariant
            k <= n,
            back@.len() == k,
            hex_digits(h as nat, n as nat) =~= hex_digits(m as nat, (n - k) as nat)
                + back@.reverse(),
        decreases n - k,
    {
        let c: char = hex_char(m % 16);
        let ghost before = back@;
        back.push(c);
        proof {
            assert(back@.reverse() =~= seq![c] + before.reverse());
        }
        m = m / 16;
        k += 1;
    }
    let mut out: Vec<char> = Vec::new();
    let mut k: usize = back.len();
    while k > 0
        invariant
            k <= back.len(),
            out@.len() == back.len() - k,
            forall|j: int| 0 <= j < out@.len() ==> out@[j] == back@.reverse()[j],
        decreases k,
    {
        k -= 1;
        out.push(back[k]);
    }
    assert(out@ =~= back@.reverse());
    string_from_chars(out.as_slice())
}

/// A power of sixteen.
spec fn sixteens(k: nat) -> nat
    decreases k,
{
    if k == 0 {
        1
    } else {
        16 * sixteens((k - 1) as nat)
    }
}

proof fn lemma_width(h: nat, k: nat)
    requires
        k >= 1,
        h < sixteens(k),
    ensures
        hex_width(h) <= k,
    decreases k,
{
    if h >= 16 {
        reveal_with_fuel(sixteens, 2);
        lemma_width(h / 16, (k - 1) as nat);
    }
}

/// A number in hexadecimal.
pub fn hex_text(h: u64) -> (r: String)
    ensures
        r@ == hex_digits(h as nat, hex_width(h as nat)),
{
    proof {
        reveal_with_fuel(sixteens, 17);
        lemma_width(h as nat, 16);
    }
    let mut n: u32 = 1;
    let mut m: u64 = h;
    while m >= 16
        invariant
            n + hex_width(m as nat) == 1 + hex_width(h as nat),
            hex_width(h as nat) <= 16,
        decreases m,
    {
        m = m / 16;
        n += 1;
    }
    digits(h, n)
}

/// A number as sixteen hexadecimal digits.
pub fn hex16_text(h: u64) -> (r: String)
    ensures
        r@ == hex_digits(h as nat, 16),
{
    digits(h, 16)
}

/// The position of an argument among the first `k`, from the front.
pub open spec fn find_arg(args: Seq<Seq<char>>, a: Seq<char>, i: int) -> int
    decreases args.len() - i,
{
    if i < 0 || i >= args.len() {
        args.len() as int
    } else if args[i] == a {
        i
    } else {
        find_arg(args, a, i + 1)
    }
}

/// The argument behind the first occurrence of a flag.
pub open spec fn flag_value(args: Seq<Seq<char>>, flag: Seq<char>) -> Option<Seq<char>> {
    let i = find_arg(args, flag, 0);
    if i + 1 < args.len() {
        Some(args[i + 1])
    } else {
        None
    }
}

fn value_of<'a>(args: &'a Vec<String>, flag: &str) -> (r: Option<&'a String>)
    ensures
        match r {
            Some(v) => flag_value(texts(args@), flag@) == Some(v@),
            None => flag_value(texts(args@), flag@) is None,
        },
{
    let ghost all = texts(args@);
    let mut k: usize = 0;
    while k < args.len()
        invariant
            k <= args.len(),
            all == texts(args@),
            find_arg(all, flag@, 0) == find_arg(all, flag@, k as int),
        decreases args.len() - k,
    {
        assert(all[k as int] == args@[k as int]@);
        if same(args[k].as_str(), flag) {
            if k < args.len() - 1 {
                assert(all[k + 1] == args@[k + 1]@);
                return Some(&args[k + 1]);
            }
            return None;
        }
        k += 1;
    }
    None
}

/// The name of the crate that a compiler's arguments name, or nothing.
pub open spec fn crate_named(args: Seq<Seq<char>>) -> Seq<char> {
    match flag_value(args, "--crate-name"@) {
        Some(name) => name,
        None => Seq::empty(),
    }
}

/// The name of the crate that a compiler's arguments name, or nothing.
pub fn crate_name(args: &Vec<String>) -> (r: String)
    ensures
        r@ == crate_named(texts(args@)),
{
    match value_of(args, "--crate-name") {
        Some(name) => name.clone(),
        None => {
            let none = String::new();
            assert(none@ =~= Seq::empty());
            none
        },
    }
}

/// The edition that a command line asks for.
pub open spec fn edition_named(args: Seq<Seq<char>>) -> Seq<char> {
    match flag_value(args, "--edition"@) {
        Some(e) => e,
        None => "2021"@,
    }
}

/// The edition that a command line asks for: 2021 where it asks for none.
pub fn edition(args: &Vec<String>) -> (r: String)
    ensures
        r@ == edition_named(texts(args@)),
{
    match value_of(args, "--edition") {
        Some(e) => e.clone(),
        None => "2021".to_owned(),
    }
}

/// Whether a compiler's arguments ask for a proc-macro.
pub open spec fn asks_for_proc_macro(args: Seq<Seq<char>>) -> bool {
    ||| exists|i: int|
        0 <= i < args.len() - 1 && #[trigger] args[i] == "--crate-type"@ && args[i + 1]
            == "proc-macro"@
    ||| exists|i: int| 0 <= i < args.len() && #[trigger] args[i] == "--crate-type=proc-macro"@
}

fn is_proc_macro(args: &Vec<String>) -> (r: bool)
    ensures
        r == asks_for_proc_macro(texts(args@)),
{
    let ghost all = texts(args@);
    let mut k: usize = 0;
    while k < args.len()
        invariant
            k <= args.len(),
            all == texts(args@),
            forall|i: int|
                0 <= i < k && i < all.len() - 1 ==> !(#[trigger] all[i] == "--crate-type"@ && all[i
                    + 1] == "proc-macro"@),
            forall|i: int| 0 <= i < k ==> #[trigger] all[i] != "--crate-type=proc-macro"@,
        decreases args.len() - k,
    {
        assert(all[k as int] == args@[k as int]@);
        if same(args[k].as_str(), "--crate-type=proc-macro") {
            return true;
        }
        if same(args[k].as_str(), "--crate-type") && k < args.len() - 1 {
            assert(all[k + 1] == args@[k + 1]@);
            if same(args[k + 1].as_str(), "proc-macro") {
                return true;
            }
        }
        k += 1;
    }
    false
}

/// Whether a unit is lowered: it belongs to the primary package, there is
/// somewhere to put its output, and it is neither a build script nor a
/// proc-macro.
pub open spec fn lowers(primary: bool, has_output: bool, args: Seq<Seq<char>>) -> bool {
    primary && has_output && !starts_with(crate_named(args), "build_script"@)
        && !asks_for_proc_macro(args)
}

fn begins(s: &str, p: &str) -> (r: bool)
    ensures
        r == starts_with(s@, p@),
{
    let chars = chars_of(s);
    crate::text::after_prefix(chars.as_slice(), p).is_some()
}

/// Whether a unit is lowered rather than passed to the real compiler.
pub fn is_lowered(primary: bool, has_output: bool, args: &Vec<String>) -> (r: bool)
    ensures
        r == lowers(primary, has_output, texts(args@)),
{
    primary && has_output && !begins(crate_name(args).as_str(), "build_script") && !is_proc_macro(
        args,
    )
}

/// The file that a unit's lowering is put into.
pub open spec fn output_named(args: Seq<Seq<char>>) -> Seq<char> {
    crate_named(args) + "-"@ + hex_digits(hash_of(args, args.len() as int) as nat, 16) + ".json"@
}

/// The file that a unit's lowering is put into. Distinct units of one crate
/// (its library and its tests, say) must not clobber each other's output.
pub fn output_name(args: &Vec<String>) -> (r: String)
    ensures
        r@ == output_named(texts(args@)),
{
    let name = joined(crate_name(args).as_str(), "-");
    let hashed = joined(name.as_str(), hex16_text(hash_args(args)).as_str());
    joined(hashed.as_str(), ".json")
}

/// Whether a text ends in another.
pub open spec fn ends_with(s: Seq<char>, p: Seq<char>) -> bool {
    p.len() <= s.len() && s.skip(s.len() - p.len()) == p
}

fn ends(s: &str, p: &str) -> (r: bool)
    ensures
        r == ends_with(s@, p@),
{
    let a = chars_of(s);
    let b = chars_of(p);
    if b.len() > a.len() {
        return false;
    }
    let from: usize = a.len() - b.len();
    let mut k: usize = 0;
    while k < b.len()
        invariant
            k <= b.len(),
            a@ == s@,
            b@ == p@,
            from == a.len() - b.len(),
            forall|j: int| 0 <= j < k ==> a@[from + j] == #[trigger] b@[j],
        decreases b.len() - k,
    {
        if a[from + k] != b[k] {
            assert(s@.skip(from as int)[k as int] != p@[k as int]);
            return false;
        }
        k += 1;
    }
    assert(s@.skip(from as int) =~= p@);
    true
}

/// Whether the first argument is the real compiler, so that this is a wrapper
/// around it.
pub open spec fn wraps(first: Seq<char>) -> bool {
    ends_with(first, "rustc"@) || ends_with(first, "rustc.exe"@)
}

/// Whether the first argument is the real compiler.
pub fn is_wrapper(first: &str) -> (r: bool)
    ensures
        r == wraps(first@),
{
    ends(first, "rustc") || ends(first, "rustc.exe")
}

} // verus!
