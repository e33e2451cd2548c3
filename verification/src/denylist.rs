//! Calls known to carry no behavior: logging, metrics, tracing.

use vstd::prelude::*;

use crate::text::{chars_of, texts};

verus! {

/// A letter in lower case; every other character as it is.
pub open spec fn lower(c: char) -> char {
    if 'A' <= c && c <= 'Z' {
        (c as u32 + 32) as char
    } else {
        c
    }
}

/// A text in lower case.
pub open spec fn lowered(s: Seq<char>) -> Seq<char> {
    s.map_values(|c: char| lower(c))
}

/// Whether a character belongs to a name rather than parting two.
pub open spec fn is_word(c: char) -> bool {
    ('a' <= c && c <= 'z') || ('A' <= c && c <= 'Z') || ('0' <= c && c <= '9') || c == '_' || c
        >= '\u{80}'
}

/// Whether a pattern stands at `i` in a name, from one boundary between names
/// to another.
pub open spec fn stands_at(name: Seq<char>, pattern: Seq<char>, i: int) -> bool {
    let end = i + pattern.len();
    &&& 0 <= i && end <= name.len()
    &&& name.subrange(i, end) == pattern
    &&& i == 0 || !is_word(name[i - 1])
    &&& end == name.len() || !is_word(name[end])
}

/// Whether a pattern stands somewhere in a name, whatever the case of either.
pub open spec fn stands_in(name: Seq<char>, pattern: Seq<char>) -> bool {
    pattern.len() > 0 && exists|i: int| stands_at(lowered(name), lowered(pattern), i)
}

/// Whether some pattern of a list stands in a name.
pub open spec fn denies(patterns: Seq<Seq<char>>, name: Seq<char>) -> bool {
    exists|k: int| 0 <= k < patterns.len() && stands_in(name, #[trigger] patterns[k])
}

/// A pattern denies the name that it is.
pub proof fn a_pattern_denies_itself(patterns: Seq<Seq<char>>, k: int)
    requires
        0 <= k < patterns.len(),
        patterns[k].len() > 0,
    ensures
        denies(patterns, patterns[k]),
{
    let p = lowered(patterns[k]);
    assert(p.subrange(0, p.len() as int) =~= p);
    assert(stands_at(p, p, 0));
    assert(stands_in(patterns[k], patterns[k]));
}

/// A longer name that merely ends in a pattern is not denied by it.
pub proof fn a_longer_name_is_not_denied(front: Seq<char>, pattern: Seq<char>)
    requires
        front.len() > 0,
        forall|k: int| 0 <= k < front.len() ==> is_word(#[trigger] front[k]),
        forall|k: int| 0 <= k < pattern.len() ==> is_word(#[trigger] pattern[k]),
    ensures
        !stands_in(front + pattern, pattern),
{
    let name = lowered(front + pattern);
    let p = lowered(pattern);
    if stands_in(front + pattern, pattern) {
        let i = choose|i: int| stands_at(name, p, i);
        assert forall|k: int| 0 <= k < name.len() implies is_word(#[trigger] name[k]) by {
            let c = (front + pattern)[k];
            if k < front.len() {
                assert(is_word(front[k]));
            } else {
                assert(is_word(pattern[k - front.len()]));
            }
            assert(name[k] == lower(c));
        }
        if i > 0 {
            assert(is_word(name[i - 1]));
        } else {
            assert(is_word(name[p.len() as int]));
        }
    }
}

/// Patterns over callee names.
#[derive(Debug, Clone)]
pub struct Denylist {
    patterns: Vec<String>,
}

impl View for Denylist {
    type V = Seq<Seq<char>>;

    closed spec fn view(&self) -> Seq<Seq<char>> {
        texts(self.patterns@)
    }
}

fn lower_char(c: char) -> (r: char)
    ensures
        r == lower(c),
{
    if 'A' <= c && c <= 'Z' {
        ((c as u8) + 32u8) as char
    } else {
        c
    }
}

fn lower_chars(s: &str) -> (r: Vec<char>)
    ensures
        r@ == lowered(s@),
{
    let chars = chars_of(s);
    let mut out: Vec<char> = Vec::new();
    let mut k: usize = 0;
    while k < chars.len()
        invariant
            k <= chars.len(),
            chars@ == s@,
            out@ =~= lowered(s@).take(k as int),
        decreases chars.len() - k,
    {
        out.push(lower_char(chars[k]));
        k += 1;
    }
    assert(out@ =~= lowered(s@));
    out
}

fn word(c: char) -> (r: bool)
    ensures
        r == is_word(c),
{
    ('a' <= c && c <= 'z') || ('A' <= c && c <= 'Z') || ('0' <= c && c <= '9') || c == '_' || c
        >= '\u{80}'
}

fn at(name: &Vec<char>, pattern: &Vec<char>, i: usize) -> (r: bool)
    requires
        i + pattern@.len() <= name@.len(),
    ensures
        r == stands_at(name@, pattern@, i as int),
{
    let n: usize = name.len();
    let ghost end = i + pattern@.len();
    let mut k: usize = 0;
    while k < pattern.len()
        invariant
            k <= pattern.len(),
            n == name@.len(),
            end == i + pattern@.len(),
            end <= name@.len(),
            forall|j: int| 0 <= j < k ==> name@[i + j] == #[trigger] pattern@[j],
        decreases pattern.len() - k,
    {
        if name[i + k] != pattern[k] {
            assert(name@.subrange(i as int, end as int)[k as int] != pattern@[k as int]);
            return false;
        }
        k += 1;
    }
    assert(name@.subrange(i as int, end as int) =~= pattern@);
    (i == 0 || !word(name[i - 1])) && (i + pattern.len() == n || !word(
        name[i + pattern.len()],
    ))
}

fn found(name: &Vec<char>, pattern: &Vec<char>) -> (r: bool)
    ensures
        r == (exists|i: int| stands_at(name@, pattern@, i)),
{
    if pattern.len() > name.len() {
        return false;
    }
    let last: usize = name.len() - pattern.len();
    let mut i: usize = 0;
    loop
        invariant
            last == name.len() - pattern.len(),
            i <= last,
            forall|j: int| 0 <= j < i ==> !stands_at(name@, pattern@, j),
        decreases last - i,
    {
        if at(name, pattern, i) {
            return true;
        }
        if i == last {
            assert forall|j: int| !stands_at(name@, pattern@, j) by {}
            return false;
        }
        i += 1;
    }
}

impl Denylist {
    /// A list that denies nothing.
    #[must_use]
    pub fn empty() -> (r: Self)
        ensures
            r@ == Seq::<Seq<char>>::empty(),
    {
        let r = Denylist { patterns: Vec::new() };
        assert(texts(r.patterns@) =~= Seq::empty());
        r
    }

    /// The list with one more pattern.
    #[must_use]
    pub fn with(self, pattern: &str) -> (r: Self)
        ensures
            r@ == self@.push(pattern@),
    {
        let ghost before = self.patterns@;
        let mut patterns = self.patterns;
        patterns.push(pattern.to_owned());
        let r = Denylist { patterns };
        assert(texts(r.patterns@) =~= texts(before).push(pattern@));
        r
    }

    /// The calls of the usual logging, metrics and tracing interfaces.
    #[must_use]
    pub fn new() -> (r: Self)
        ensures
            r@ == usual_patterns(),
            forall|method: Seq<char>| denies(r@, #[trigger] ("console."@ + method)),
    {
        let r = Denylist::empty().with("org.slf4j").with("org.apache.logging").with(
            "java.util.logging",
        ).with("logger").with("logging").with("log.trace").with("log.debug").with("log.info").with(
            "log.warn",
        ).with("log.error").with("log.fine").with("log::trace").with("log::debug").with(
            "log::info",
        ).with("log::warn").with("log::error").with("tracing").with("metrics").with("console").with(
            "print",
        ).with("println").with("std::io::_print").with("std::io::_eprint");
        assert(r@ =~= usual_patterns());
        proof {
            let none = Seq::<char>::empty();
            assert forall|method: Seq<char>| denies(
                r@,
                #[trigger] ("console."@ + method),
            ) by {
                console_calls_are_denied(none, method);
                assert(none + "console."@ + method =~= "console."@ + method);
            }
        }
        r
    }

    /// Whether a callee is denied: some pattern stands in its name, aligned to
    /// the boundaries between names, whatever the case.
    #[must_use]
    pub fn matches(&self, callee: &str) -> (r: bool)
        ensures
            r == denies(self@, callee@),
    {
        let name = lower_chars(callee);
        let mut k: usize = 0;
        while k < self.patterns.len()
            invariant
                k <= self.patterns.len(),
                name@ == lowered(callee@),
                forall|j: int| 0 <= j < k ==> !stands_in(callee@, #[trigger] self@[j]),
            decreases self.patterns.len() - k,
        {
            let pattern = lower_chars(self.patterns[k].as_str());
            assert(self@[k as int] == self.patterns@[k as int]@);
            assert(pattern@.len() == self.patterns@[k as int]@.len());
            if pattern.len() > 0 && found(&name, &pattern) {
                assert(stands_in(callee@, self@[k as int]));
                return true;
            }
            k += 1;
        }
        false
    }
}

/// The patterns of the usual logging, metrics and tracing interfaces.
pub open spec fn usual_patterns() -> Seq<Seq<char>> {
    seq![
        "org.slf4j"@,
        "org.apache.logging"@,
        "java.util.logging"@,
        "logger"@,
        "logging"@,
        "log.trace"@,
        "log.debug"@,
        "log.info"@,
        "log.warn"@,
        "log.error"@,
        "log.fine"@,
        "log::trace"@,
        "log::debug"@,
        "log::info"@,
        "log::warn"@,
        "log::error"@,
        "tracing"@,
        "metrics"@,
        "console"@,
        "print"@,
        "println"@,
        "std::io::_print"@,
        "std::io::_eprint"@,
    ]
}

proof fn lemma_lower_word(c: char)
    ensures
        is_word(lower(c)) == is_word(c),
{
}

proof fn lemma_lowered_parts(a: Seq<char>, b: Seq<char>, c: Seq<char>)
    ensures
        lowered(a + b + c) == lowered(a) + lowered(b) + lowered(c),
{
    assert(lowered(a + b + c) =~= lowered(a) + lowered(b) + lowered(c));
}

/// A pattern stands in a name wherever the name holds it, in whatever case,
/// with no letter, digit or underscore of a longer word right before or right
/// behind it.
pub proof fn a_word_of_a_name_is_found(
    front: Seq<char>,
    part: Seq<char>,
    back: Seq<char>,
    pattern: Seq<char>,
)
    requires
        pattern.len() > 0,
        lowered(part) == lowered(pattern),
        front.len() == 0 || !is_word(front.last()),
        back.len() == 0 || !is_word(back[0]),
    ensures
        stands_in(front + part + back, pattern),
{
    let name = lowered(front + part + back);
    let p = lowered(pattern);
    let i = front.len() as int;
    lemma_lowered_parts(front, part, back);
    assert(p.len() == part.len());
    assert(name.subrange(i, i + p.len()) =~= p);
    if i > 0 {
        lemma_lower_word(front.last());
        assert(name[i - 1] == lower(front.last()));
    }
    if back.len() > 0 {
        lemma_lower_word(back[0]);
        assert(name[i + p.len()] == lower(back[0]));
    }
    assert(stands_at(name, p, i));
}

/// A pattern that stands in a name is a whole part of it: what comes before it
/// and behind it does not run on into it.
pub proof fn what_is_found_is_a_word_of_the_name(name: Seq<char>, pattern: Seq<char>) -> (r: (
    Seq<char>,
    Seq<char>,
    Seq<char>,
))
    requires
        stands_in(name, pattern),
    ensures
        name == r.0 + r.1 + r.2,
        lowered(r.1) == lowered(pattern),
        r.0.len() == 0 || !is_word(r.0.last()),
        r.2.len() == 0 || !is_word(r.2[0]),
{
    let i = choose|i: int| stands_at(lowered(name), lowered(pattern), i);
    let end = i + pattern.len();
    let front = name.take(i);
    let part = name.subrange(i, end);
    let back = name.skip(end);
    assert(name =~= front + part + back);
    assert(lowered(part) =~= lowered(name).subrange(i, end));
    if i > 0 {
        lemma_lower_word(name[i - 1]);
        assert(lowered(name)[i - 1] == lower(name[i - 1]));
    }
    if end < name.len() {
        lemma_lower_word(name[end]);
        assert(lowered(name)[end] == lower(name[end]));
    }
    (front, part, back)
}

/// Case does not matter: a name with one of its capitals made small is denied
/// exactly when the name is.
pub proof fn capitals_do_not_matter(patterns: Seq<Seq<char>>, name: Seq<char>, k: int)
    requires
        0 <= k < name.len(),
        'A' <= name[k] <= 'Z',
    ensures
        denies(patterns, name.update(k, (name[k] as u32 + 32) as char)) == denies(patterns, name),
{
    let other = name.update(k, (name[k] as u32 + 32) as char);
    assert(lowered(other) =~= lowered(name));
    assert forall|p: Seq<char>| #[trigger] stands_in(other, p) == stands_in(name, p) by {}
    if denies(patterns, name) {
        let j = choose|j: int| 0 <= j < patterns.len() && stands_in(name, #[trigger] patterns[j]);
        assert(stands_in(other, patterns[j]));
    }
    if denies(patterns, other) {
        let j = choose|j: int| 0 <= j < patterns.len() && stands_in(other, #[trigger] patterns[j]);
        assert(stands_in(name, patterns[j]));
    }
}

proof fn lemma_usual(k: int, front: Seq<char>, part: Seq<char>, back: Seq<char>)
    requires
        0 <= k < usual_patterns().len(),
        usual_patterns()[k].len() > 0,
        lowered(part) == lowered(usual_patterns()[k]),
        front.len() == 0 || !is_word(front.last()),
        back.len() == 0 || !is_word(back[0]),
    ensures
        denies(usual_patterns(), front + part + back),
{
    a_word_of_a_name_is_found(front, part, back, usual_patterns()[k]);
}

/// The usual list denies every call on the JavaScript console, whichever of its
/// methods is called and on whatever object the console hangs.
pub proof fn console_calls_are_denied(front: Seq<char>, method: Seq<char>)
    requires
        front.len() == 0 || front.last() == '.',
    ensures
        denies(usual_patterns(), front + "console."@ + method),
{
    reveal_strlit("console.");
    reveal_strlit("console");
    let back = seq!['.'] + method;
    assert("console."@ =~= "console"@ + seq!['.']);
    assert(front + "console."@ + method =~= front + "console"@ + back);
    lemma_usual(18, front, "console"@, back);
}

/// The usual list denies the calls of the logging libraries of Java and Kotlin:
/// whatever lies in their packages.
pub proof fn java_logging_is_denied(package: Seq<char>, method: Seq<char>)
    requires
        package == "org.slf4j."@ || package == "org.apache.logging."@ || package
            == "java.util.logging."@,
    ensures
        denies(usual_patterns(), package + method),
{
    reveal_strlit("org.slf4j.");
    reveal_strlit("org.slf4j");
    reveal_strlit("org.apache.logging.");
    reveal_strlit("org.apache.logging");
    reveal_strlit("java.util.logging.");
    reveal_strlit("java.util.logging");
    let none = Seq::<char>::empty();
    let back = seq!['.'] + method;
    if package == "org.slf4j."@ {
        assert(package =~= "org.slf4j"@ + seq!['.']);
        assert(package + method =~= none + "org.slf4j"@ + back);
        lemma_usual(0, none, "org.slf4j"@, back);
    } else if package == "org.apache.logging."@ {
        assert(package =~= "org.apache.logging"@ + seq!['.']);
        assert(package + method =~= none + "org.apache.logging"@ + back);
        lemma_usual(1, none, "org.apache.logging"@, back);
    } else {
        assert(package =~= "java.util.logging"@ + seq!['.']);
        assert(package + method =~= none + "java.util.logging"@ + back);
        lemma_usual(2, none, "java.util.logging"@, back);
    }
}

/// The usual list denies every call on a logger, on a logging module, on a
/// tracing or on a metrics interface, whatever the path that leads to it, the
/// way its parts are joined and the method that is called.
pub proof fn loggers_and_meters_are_denied(
    front: Seq<char>,
    word: Seq<char>,
    back: Seq<char>,
)
    requires
        word == "logger"@ || word == "logging"@ || word == "tracing"@ || word == "metrics"@,
        front.len() == 0 || front.last() == '.' || front.last() == ':',
        back.len() == 0 || back[0] == '.' || back[0] == ':' || back[0] == '!',
    ensures
        denies(usual_patterns(), front + word + back),
{
    reveal_strlit("logger");
    reveal_strlit("logging");
    reveal_strlit("tracing");
    reveal_strlit("metrics");
    if word == "logger"@ {
        lemma_usual(3, front, word, back);
    } else if word == "logging"@ {
        lemma_usual(4, front, word, back);
    } else if word == "tracing"@ {
        lemma_usual(16, front, word, back);
    } else {
        lemma_usual(17, front, word, back);
    }
}

/// The usual list denies what is called on a variable or module named `log`, at
/// each of the levels that the languages have, whatever leads to it.
pub proof fn levels_of_a_log_are_denied(front: Seq<char>, call: Seq<char>)
    requires
        front.len() == 0 || front.last() == '.' || front.last() == ':',
        call == "log.trace"@ || call == "log.debug"@ || call == "log.info"@ || call == "log.warn"@
            || call == "log.error"@ || call == "log.fine"@ || call == "log::trace"@ || call
            == "log::debug"@ || call == "log::info"@ || call == "log::warn"@ || call
            == "log::error"@,
    ensures
        denies(usual_patterns(), front + call),
{
    reveal_strlit("log.trace");
    reveal_strlit("log.debug");
    reveal_strlit("log.info");
    reveal_strlit("log.warn");
    reveal_strlit("log.error");
    reveal_strlit("log.fine");
    reveal_strlit("log::trace");
    reveal_strlit("log::debug");
    reveal_strlit("log::info");
    reveal_strlit("log::warn");
    reveal_strlit("log::error");
    let none = Seq::<char>::empty();
    assert(front + call =~= front + call + none);
    if call == "log.trace"@ {
        lemma_usual(5, front, call, none);
    } else if call == "log.debug"@ {
        lemma_usual(6, front, call, none);
    } else if call == "log.info"@ {
        lemma_usual(7, front, call, none);
    } else if call == "log.warn"@ {
        lemma_usual(8, front, call, none);
    } else if call == "log.error"@ {
        lemma_usual(9, front, call, none);
    } else if call == "log.fine"@ {
        lemma_usual(10, front, call, none);
    } else if call == "log::trace"@ {
        lemma_usual(11, front, call, none);
    } else if call == "log::debug"@ {
        lemma_usual(12, front, call, none);
    } else if call == "log::info"@ {
        lemma_usual(13, front, call, none);
    } else if call == "log::warn"@ {
        lemma_usual(14, front, call, none);
    } else {
        lemma_usual(15, front, call, none);
    }
}

/// The usual list denies the print calls: `print` and `println`, bare or as a
/// method of anything, and what Rust's print macros call.
pub proof fn prints_are_denied(front: Seq<char>, call: Seq<char>)
    requires
        call == "print"@ || call == "println"@ || call == "std::io::_print"@ || call
            == "std::io::_eprint"@,
        front.len() == 0 || front.last() == '.' || front.last() == ':',
    ensures
        denies(usual_patterns(), front + call),
{
    reveal_strlit("print");
    reveal_strlit("println");
    reveal_strlit("std::io::_print");
    reveal_strlit("std::io::_eprint");
    let none = Seq::<char>::empty();
    assert(front + call =~= front + call + none);
    if call == "print"@ {
        lemma_usual(19, front, call, none);
    } else if call == "println"@ {
        lemma_usual(20, front, call, none);
    } else if call == "std::io::_print"@ {
        lemma_usual(21, front, call, none);
    } else {
        lemma_usual(22, front, call, none);
    }
}

/// The usual list denies nothing else: a name that holds no logger, logging,
/// tracing, metrics, console or print of its own, no level of a log and none of
/// the logging packages is kept.
pub proof fn other_names_are_not_denied(name: Seq<char>)
    requires
        !stands_in(name, "logger"@),
        !stands_in(name, "logging"@),
        !stands_in(name, "tracing"@),
        !stands_in(name, "metrics"@),
        !stands_in(name, "console"@),
        !stands_in(name, "print"@),
        !stands_in(name, "println"@),
        !stands_in(name, "std::io::_print"@),
        !stands_in(name, "std::io::_eprint"@),
        !stands_in(name, "org.slf4j"@),
        !stands_in(name, "org.apache.logging"@),
        !stands_in(name, "java.util.logging"@),
        !stands_in(name, "log.trace"@),
        !stands_in(name, "log.debug"@),
        !stands_in(name, "log.info"@),
        !stands_in(name, "log.warn"@),
        !stands_in(name, "log.error"@),
        !stands_in(name, "log.fine"@),
        !stands_in(name, "log::trace"@),
        !stands_in(name, "log::debug"@),
        !stands_in(name, "log::info"@),
        !stands_in(name, "log::warn"@),
        !stands_in(name, "log::error"@),
    ensures
        !denies(usual_patterns(), name),
{
}

/// A word that goes on behind a pattern is another word: `printer` is no
/// `print`.
pub proof fn a_word_that_goes_on_is_not_denied(pattern: Seq<char>, back: Seq<char>)
    requires
        back.len() > 0,
        forall|k: int| 0 <= k < back.len() ==> is_word(#[trigger] back[k]),
        forall|k: int| 0 <= k < pattern.len() ==> is_word(#[trigger] pattern[k]),
    ensures
        !stands_in(pattern + back, pattern),
{
    let whole = pattern + back;
    if stands_in(whole, pattern) {
        let r = what_is_found_is_a_word_of_the_name(whole, pattern);
        assert forall|k: int| 0 <= k < whole.len() implies is_word(#[trigger] whole[k]) by {
            if k < pattern.len() {
                assert(is_word(pattern[k]));
            } else {
                assert(is_word(back[k - pattern.len()]));
            }
        }
        assert(lowered(r.1).len() == lowered(pattern).len());
        if r.0.len() > 0 {
            assert(whole[r.0.len() - 1] == r.0.last());
        } else {
            assert(whole[r.1.len() as int] == r.2[0]);
        }
    }
}

} // verus!
