//! Character classes and runs: the building blocks of the netlist grammar.
//!
//! The classes are the Unicode ones of the regex crate: a digit is any
//! decimal digit (general category Nd), a word character is what
//! `regex_syntax::is_word_character` accepts, and white space is any Unicode
//! white-space code point.
use vstd::prelude::*;

verus! {

/// The character classes that the netlist grammar distinguishes.
#[derive(Clone, Copy, Debug, PartialEq, Eq, Structural)]
pub enum CharClass {
    /// A digit or a dot: the characters of a numeric value.
    Value,
    /// A Unicode word character (letters, marks, decimal digits, connectors).
    Word,
    /// White space, new lines included.
    Space,
    /// White space other than a new line.
    LineSpace,
    /// White space or `=`: what separates a parameter from its value.
    Divider,
    /// Any character but a new line.
    NotNewline,
    /// The space character itself.
    Blank,
    /// Any character but a closing brace.
    NotCloseBrace,
    /// An ASCII letter, ASCII digit or underscore: a character of a group
    /// reference in a replacement template.
    RefLetter,
}

/// A decimal digit of any script (Unicode general category Nd, as of
/// Unicode 16), the class that `\d` matches.
pub open spec fn is_digit(c: char) -> bool {
    ||| ('\u{30}' <= c && c <= '\u{39}')
    ||| ('\u{660}' <= c && c <= '\u{669}')
    ||| ('\u{6f0}' <= c && c <= '\u{6f9}')
    ||| ('\u{7c0}' <= c && c <= '\u{7c9}')
    ||| ('\u{966}' <= c && c <= '\u{96f}')
    ||| ('\u{9e6}' <= c && c <= '\u{9ef}')
    ||| ('\u{a66}' <= c && c <= '\u{a6f}')
    ||| ('\u{ae6}' <= c && c <= '\u{aef}')
    ||| ('\u{b66}' <= c && c <= '\u{b6f}')
    ||| ('\u{be6}' <= c && c <= '\u{bef}')
    ||| ('\u{c66}' <= c && c <= '\u{c6f}')
    ||| ('\u{ce6}' <= c && c <= '\u{cef}')
    ||| ('\u{d66}' <= c && c <= '\u{d6f}')
    ||| ('\u{de6}' <= c && c <= '\u{def}')
    ||| ('\u{e50}' <= c && c <= '\u{e59}')
    ||| ('\u{ed0}' <= c && c <= '\u{ed9}')
    ||| ('\u{f20}' <= c && c <= '\u{f29}')
    ||| ('\u{1040}' <= c && c <= '\u{1049}')
    ||| ('\u{1090}' <= c && c <= '\u{1099}')
    ||| ('\u{17e0}' <= c && c <= '\u{17e9}')
    ||| ('\u{1810}' <= c && c <= '\u{1819}')
    ||| ('\u{1946}' <= c && c <= '\u{194f}')
    ||| ('\u{19d0}' <= c && c <= '\u{19d9}')
    ||| ('\u{1a80}' <= c && c <= '\u{1a89}')
    ||| ('\u{1a90}' <= c && c <= '\u{1a99}')
    ||| ('\u{1b50}' <= c && c <= '\u{1b59}')
    ||| ('\u{1bb0}' <= c && c <= '\u{1bb9}')
    ||| ('\u{1c40}' <= c && c <= '\u{1c49}')
    ||| ('\u{1c50}' <= c && c <= '\u{1c59}')
    ||| ('\u{a620}' <= c && c <= '\u{a629}')
    ||| ('\u{a8d0}' <= c && c <= '\u{a8d9}')
    ||| ('\u{a900}' <= c && c <= '\u{a909}')
    ||| ('\u{a9d0}' <= c && c <= '\u{a9d9}')
    ||| ('\u{a9f0}' <= c && c <= '\u{a9f9}')
    ||| ('\u{aa50}' <= c && c <= '\u{aa59}')
    ||| ('\u{abf0}' <= c && c <= '\u{abf9}')
    ||| ('\u{ff10}' <= c && c <= '\u{ff19}')
    ||| ('\u{104a0}' <= c && c <= '\u{104a9}')
    ||| ('\u{10d30}' <= c && c <= '\u{10d39}')
    ||| ('\u{10d40}' <= c && c <= '\u{10d49}')
    ||| ('\u{11066}' <= c && c <= '\u{1106f}')
    ||| ('\u{110f0}' <= c && c <= '\u{110f9}')
    ||| ('\u{11136}' <= c && c <= '\u{1113f}')
    ||| ('\u{111d0}' <= c && c <= '\u{111d9}')
    ||| ('\u{112f0}' <= c && c <= '\u{112f9}')
    ||| ('\u{11450}' <= c && c <= '\u{11459}')
    ||| ('\u{114d0}' <= c && c <= '\u{114d9}')
    ||| ('\u{11650}' <= c && c <= '\u{11659}')
    ||| ('\u{116c0}' <= c && c <= '\u{116c9}')
    ||| ('\u{116d0}' <= c && c <= '\u{116e3}')
    ||| ('\u{11730}' <= c && c <= '\u{11739}')
    ||| ('\u{118e0}' <= c && c <= '\u{118e9}')
    ||| ('\u{11950}' <= c && c <= '\u{11959}')
    ||| ('\u{11bf0}' <= c && c <= '\u{11bf9}')
    ||| ('\u{11c50}' <= c && c <= '\u{11c59}')
    ||| ('\u{11d50}' <= c && c <= '\u{11d59}')
    ||| ('\u{11da0}' <= c && c <= '\u{11da9}')
    ||| ('\u{11f50}' <= c && c <= '\u{11f59}')
    ||| ('\u{16130}' <= c && c <= '\u{16139}')
    ||| ('\u{16a60}' <= c && c <= '\u{16a69}')
    ||| ('\u{16ac0}' <= c && c <= '\u{16ac9}')
    ||| ('\u{16b50}' <= c && c <= '\u{16b59}')
    ||| ('\u{16d70}' <= c && c <= '\u{16d79}')
    ||| ('\u{1ccf0}' <= c && c <= '\u{1ccf9}')
    ||| ('\u{1d7ce}' <= c && c <= '\u{1d7ff}')
    ||| ('\u{1e140}' <= c && c <= '\u{1e149}')
    ||| ('\u{1e2f0}' <= c && c <= '\u{1e2f9}')
    ||| ('\u{1e4f0}' <= c && c <= '\u{1e4f9}')
    ||| ('\u{1e5f1}' <= c && c <= '\u{1e5fa}')
    ||| ('\u{1e950}' <= c && c <= '\u{1e959}')
    ||| ('\u{1fbf0}' <= c && c <= '\u{1fbf9}')
}

fn is_digit_exec(c: char) -> (b: bool)
    ensures
        b == is_digit(c),
{
    ('\u{30}' <= c && c <= '\u{39}')
        || ('\u{660}' <= c && c <= '\u{669}')
        || ('\u{6f0}' <= c && c <= '\u{6f9}')
        || ('\u{7c0}' <= c && c <= '\u{7c9}')
        || ('\u{966}' <= c && c <= '\u{96f}')
        || ('\u{9e6}' <= c && c <= '\u{9ef}')
        || ('\u{a66}' <= c && c <= '\u{a6f}')
        || ('\u{ae6}' <= c && c <= '\u{aef}')
        || ('\u{b66}' <= c && c <= '\u{b6f}')
        || ('\u{be6}' <= c && c <= '\u{bef}')
        || ('\u{c66}' <= c && c <= '\u{c6f}')
        || ('\u{ce6}' <= c && c <= '\u{cef}')
        || ('\u{d66}' <= c && c <= '\u{d6f}')
        || ('\u{de6}' <= c && c <= '\u{def}')
        || ('\u{e50}' <= c && c <= '\u{e59}')
        || ('\u{ed0}' <= c && c <= '\u{ed9}')
        || ('\u{f20}' <= c && c <= '\u{f29}')
        || ('\u{1040}' <= c && c <= '\u{1049}')
        || ('\u{1090}' <= c && c <= '\u{1099}')
        || ('\u{17e0}' <= c && c <= '\u{17e9}')
        || ('\u{1810}' <= c && c <= '\u{1819}')
        || ('\u{1946}' <= c && c <= '\u{194f}')
        || ('\u{19d0}' <= c && c <= '\u{19d9}')
        || ('\u{1a80}' <= c && c <= '\u{1a89}')
        || ('\u{1a90}' <= c && c <= '\u{1a99}')
        || ('\u{1b50}' <= c && c <= '\u{1b59}')
        || ('\u{1bb0}' <= c && c <= '\u{1bb9}')
        || ('\u{1c40}' <= c && c <= '\u{1c49}')
        || ('\u{1c50}' <= c && c <= '\u{1c59}')
        || ('\u{a620}' <= c && c <= '\u{a629}')
        || ('\u{a8d0}' <= c && c <= '\u{a8d9}')
        || ('\u{a900}' <= c && c <= '\u{a909}')
        || ('\u{a9d0}' <= c && c <= '\u{a9d9}')
        || ('\u{a9f0}' <= c && c <= '\u{a9f9}')
        || ('\u{aa50}' <= c && c <= '\u{aa59}')
        || ('\u{abf0}' <= c && c <= '\u{abf9}')
        || ('\u{ff10}' <= c && c <= '\u{ff19}')
        || ('\u{104a0}' <= c && c <= '\u{104a9}')
        || ('\u{10d30}' <= c && c <= '\u{10d39}')
        || ('\u{10d40}' <= c && c <= '\u{10d49}')
        || ('\u{11066}' <= c && c <= '\u{1106f}')
        || ('\u{110f0}' <= c && c <= '\u{110f9}')
        || ('\u{11136}' <= c && c <= '\u{1113f}')
        || ('\u{111d0}' <= c && c <= '\u{111d9}')
        || ('\u{112f0}' <= c && c <= '\u{112f9}')
        || ('\u{11450}' <= c && c <= '\u{11459}')
        || ('\u{114d0}' <= c && c <= '\u{114d9}')
        || ('\u{11650}' <= c && c <= '\u{11659}')
        || ('\u{116c0}' <= c && c <= '\u{116c9}')
        || ('\u{116d0}' <= c && c <= '\u{116e3}')
        || ('\u{11730}' <= c && c <= '\u{11739}')
        || ('\u{118e0}' <= c && c <= '\u{118e9}')
        || ('\u{11950}' <= c && c <= '\u{11959}')
        || ('\u{11bf0}' <= c && c <= '\u{11bf9}')
        || ('\u{11c50}' <= c && c <= '\u{11c59}')
        || ('\u{11d50}' <= c && c <= '\u{11d59}')
        || ('\u{11da0}' <= c && c <= '\u{11da9}')
        || ('\u{11f50}' <= c && c <= '\u{11f59}')
        || ('\u{16130}' <= c && c <= '\u{16139}')
        || ('\u{16a60}' <= c && c <= '\u{16a69}')
        || ('\u{16ac0}' <= c && c <= '\u{16ac9}')
        || ('\u{16b50}' <= c && c <= '\u{16b59}')
        || ('\u{16d70}' <= c && c <= '\u{16d79}')
        || ('\u{1ccf0}' <= c && c <= '\u{1ccf9}')
        || ('\u{1d7ce}' <= c && c <= '\u{1d7ff}')
        || ('\u{1e140}' <= c && c <= '\u{1e149}')
        || ('\u{1e2f0}' <= c && c <= '\u{1e2f9}')
        || ('\u{1e4f0}' <= c && c <= '\u{1e4f9}')
        || ('\u{1e5f1}' <= c && c <= '\u{1e5fa}')
        || ('\u{1e950}' <= c && c <= '\u{1e959}')
        || ('\u{1fbf0}' <= c && c <= '\u{1fbf9}')
}

/// An ASCII letter, ASCII digit or underscore.
pub open spec fn ascii_word(c: char) -> bool {
    ('0' <= c && c <= '9') || ('a' <= c && c <= 'z') || ('A' <= c && c <= 'Z') || c == '_'
}

/// Whether the regex crate's `\w` matches a character beyond ASCII.
pub uninterp spec fn unicode_word(c: char) -> bool;

/// Calls `regex_syntax::is_word_character`, the test behind the regex
/// crate's Unicode `\w`.  Claimed: on ASCII it accepts exactly the letters,
/// digits and `_` (its source tests these first and its table holds no other
/// ASCII character); it rejects every white-space character (its table,
/// `PERL_WORD`, holds none of the code points of `is_space`); on every other
/// character its answer depends on the character alone.  The `unicode-perl`
/// feature, on by default, is enabled, so it does not panic.
#[verifier::external_body]
fn is_word_exec(c: char) -> (b: bool)
    ensures
        b == (if c <= '\u{7f}' {
            ascii_word(c)
        } else if is_space(c) {
            false
        } else {
            unicode_word(c)
        }),
{
    regex_syntax::is_word_character(c)
}

/// A word character, as the regex crate's `\w` matches it.
pub open spec fn is_word(c: char) -> bool {
    if c <= '\u{7f}' {
        ascii_word(c)
    } else if is_space(c) {
        false
    } else {
        unicode_word(c)
    }
}

/// The Unicode white-space code points, the class that `\s` matches.
pub open spec fn is_space(c: char) -> bool {
    ||| '\t' <= c && c <= '\r'
    ||| c == ' '
    ||| c == '\u{85}'
    ||| c == '\u{a0}'
    ||| c == '\u{1680}'
    ||| '\u{2000}' <= c && c <= '\u{200a}'
    ||| c == '\u{2028}'
    ||| c == '\u{2029}'
    ||| c == '\u{202f}'
    ||| c == '\u{205f}'
    ||| c == '\u{3000}'
}

pub open spec fn in_class(k: CharClass, c: char) -> bool {
    match k {
        CharClass::Value => is_digit(c) || c == '.',
        CharClass::Word => is_word(c),
        CharClass::Space => is_space(c),
        CharClass::LineSpace => is_space(c) && c != '\n',
        CharClass::Divider => is_space(c) || c == '=',
        CharClass::NotNewline => c != '\n',
        CharClass::Blank => c == ' ',
        CharClass::NotCloseBrace => c != '}',
        CharClass::RefLetter => ('0' <= c && c <= '9') || ('a' <= c && c <= 'z') || ('A' <= c && c <= 'Z') || c == '_',
    }
}

pub fn is_in_class(k: CharClass, c: char) -> (b: bool)
    ensures
        b == in_class(k, c),
{
    let space = (c >= '\t' && c <= '\r') || c == ' ' || c == '\u{85}' || c == '\u{a0}'
        || c == '\u{1680}' || (c >= '\u{2000}' && c <= '\u{200a}') || c == '\u{2028}'
        || c == '\u{2029}' || c == '\u{202f}' || c == '\u{205f}' || c == '\u{3000}';
    match k {
        CharClass::Value => is_digit_exec(c) || c == '.',
        CharClass::Word => is_word_exec(c),
        CharClass::Space => space,
        CharClass::LineSpace => space && c != '\n',
        CharClass::Divider => space || c == '=',
        CharClass::NotNewline => c != '\n',
        CharClass::Blank => c == ' ',
        CharClass::NotCloseBrace => c != '}',
        CharClass::RefLetter => (c >= '0' && c <= '9') || (c >= 'a' && c <= 'z') || (c >= 'A' && c <= 'Z') || c == '_',
    }
}

/// The end of the longest run of class `k` that starts at `i`.
pub open spec fn run_end(t: Seq<char>, i: int, k: CharClass) -> int
    decreases t.len() - i,
{
    if 0 <= i < t.len() && in_class(k, t[i]) {
        run_end(t, i + 1, k)
    } else {
        i
    }
}

pub proof fn lemma_run_end(t: Seq<char>, i: int, k: CharClass)
    requires
        0 <= i <= t.len(),
    ensures
        i <= run_end(t, i, k) <= t.len(),
        forall|j: int| i <= j < run_end(t, i, k) ==> in_class(k, #[trigger] t[j]),
        run_end(t, i, k) < t.len() ==> !in_class(k, t[run_end(t, i, k)]),
    decreases t.len() - i,
{
    if i < t.len() && in_class(k, t[i]) {
        lemma_run_end(t, i + 1, k);
    }
}

/// A run of class `k` from `i` that stops at `j` ends at `j`.
pub proof fn lemma_run_end_at(t: Seq<char>, i: int, k: CharClass, j: int)
    requires
        0 <= i <= j <= t.len(),
        forall|x: int| i <= x < j ==> in_class(k, #[trigger] t[x]),
        j < t.len() ==> !in_class(k, t[j]),
    ensures
        run_end(t, i, k) == j,
    decreases j - i,
{
    if i < j {
        lemma_run_end_at(t, i + 1, k, j);
    }
}

/// A run of class `k` through `[i, e)` goes on as the run from `e`.
pub proof fn lemma_run_end_through(t: Seq<char>, i: int, k: CharClass, e: int)
    requires
        0 <= i <= e <= t.len(),
        forall|x: int| i <= x < e ==> in_class(k, #[trigger] t[x]),
    ensures
        run_end(t, i, k) == run_end(t, e, k),
    decreases e - i,
{
    if i < e {
        lemma_run_end_through(t, i + 1, k, e);
    }
}

/// Runs of class `k` over equal stretches of text have equal lengths.
pub proof fn lemma_run_end_agree(t: Seq<char>, i: int, u: Seq<char>, j: int, k: CharClass)
    requires
        0 <= i <= t.len(),
        0 <= j <= u.len(),
        t.subrange(i, t.len() as int) == u.subrange(j, u.len() as int),
    ensures
        run_end(u, j, k) - j == run_end(t, i, k) - i,
    decreases t.len() - i,
{
    let ts = t.subrange(i, t.len() as int);
    let us = u.subrange(j, u.len() as int);
    assert(ts.len() == us.len());
    assert(u.len() - j == t.len() - i);
    if i < t.len() {
        assert(t[i] == ts[0]);
        assert(u[j] == us[0]);
        assert(t.subrange(i + 1, t.len() as int) =~= t.subrange(i, t.len() as int).subrange(1, t.len() - i));
        assert(u.subrange(j + 1, u.len() as int) =~= u.subrange(j, u.len() as int).subrange(1, u.len() - j));
        lemma_run_end_agree(t, i + 1, u, j + 1, k);
    } else {
        assert(u.subrange(j, u.len() as int).len() == 0);
    }
}

/// Facts about the classes of single characters.
pub proof fn lemma_class_facts(c: char)
    ensures
        in_class(CharClass::Value, c) ==> !in_class(CharClass::Divider, c) && !is_space(c) && c != '#'
            && c != '!' && c != '\n' && c != '=',
        in_class(CharClass::Divider, c) ==> c != '#' && c != '!',
        in_class(CharClass::Divider, c) ==> !is_word(c),
        in_class(CharClass::Divider, c) && c <= '\u{7f}' && c != '\n' ==> c == '=' || in_class(
            CharClass::LineSpace,
            c,
        ),
        is_word(c) ==> c != '\n' && c != ' ' && c != '#' && !is_space(c),
        in_class(CharClass::Space, ' ') && in_class(CharClass::LineSpace, ' ') && in_class(
            CharClass::Divider,
            ' ',
        ) && !is_word(' ') && !in_class(CharClass::Value, ' '),
        !is_space('#') && !is_word('#') && !in_class(CharClass::Value, '#') && !in_class(
            CharClass::Divider,
            '#',
        ),
        !in_class(CharClass::LineSpace, '\n'),
{
}

pub fn run_end_exec(t: &Vec<char>, i: usize, k: CharClass) -> (e: usize)
    requires
        i <= t.len(),
    ensures
        e == run_end(t@, i as int, k),
{
    let mut j = i;
    while j < t.len() && is_in_class(k, t[j])
        invariant
            i <= j <= t.len(),
            run_end(t@, j as int, k) == run_end(t@, i as int, k),
        decreases t.len() - j,
    {
        j += 1;
    }
    j
}

/// `t` holds `w` at position `i`.
pub open spec fn holds_at(t: Seq<char>, i: int, w: Seq<char>) -> bool {
    0 <= i && i + w.len() <= t.len() && t.subrange(i, i + w.len()) == w
}

pub fn holds_at_exec(t: &Vec<char>, i: usize, w: &Vec<char>) -> (b: bool)
    ensures
        b == holds_at(t@, i as int, w@),
{
    if i > t.len() || w.len() > t.len() - i {
        return false;
    }
    let mut j: usize = 0;
    while j < w.len()
        invariant
            i + w.len() <= t.len(),
            j <= w.len(),
            forall|l: int| 0 <= l < j ==> t@[i + l] == w@[l],
        decreases w.len() - j,
    {
        if t[i + j] != w[j] {
            assert(t@.subrange(i as int, i + w.len())[j as int] != w@[j as int]);
            return false;
        }
        j += 1;
    }
    assert(t@.subrange(i as int, i + w.len()) =~= w@);
    true
}

} // verus!
