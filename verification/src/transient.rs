//! Preparing a netlist for a run whose results JoSIM writes to a CSV file.
//!
//! The first `.file` line of the netlist is replaced by an empty line, and the
//! line `.file <output>` is inserted after the first `.tran` line.  A
//! "keyword line" here is any character but a new line, the keyword, at least
//! one more character, and a new line; the inserted text loses its quotes and
//! is read as a template in which `$$` stands for `$` and `$0`, `$1`, `${0}`
//! and `${1}` (and other spellings of group 0 or 1) stand for the `.tran` line
//! itself, while references to any other group stand for nothing.
use vstd::prelude::*;
use crate::scan::{CharClass, in_class, run_end, lemma_run_end, run_end_exec, holds_at,
    holds_at_exec, lemma_run_end_at, lemma_run_end_agree};
use crate::substitute::{without_quotes, drop_quotes, not_quote};
use crate::text::{chars_of, string_of, push_all, push_range};

verus! {

pub open spec fn file_keyword() -> Seq<char> {
    seq!['f', 'i', 'l', 'e']
}

pub open spec fn tran_keyword() -> Seq<char> {
    seq!['t', 'r', 'a', 'n']
}

/// A keyword line starting at `s`: the position of the new line that ends it.
pub open spec fn keyword_line_at(t: Seq<char>, s: int, kw: Seq<char>) -> Option<int> {
    if 0 <= s < t.len() && t[s] != '\n' && holds_at(t, s + 1, kw) {
        let e = run_end(t, s + 1 + kw.len(), CharClass::NotNewline);
        if s + 1 + kw.len() < e < t.len() {
            Some(e)
        } else {
            None
        }
    } else {
        None
    }
}

/// The first keyword line at or after `i`: its start and its new line.
pub open spec fn first_keyword_line(t: Seq<char>, i: int, kw: Seq<char>) -> Option<(int, int)>
    decreases t.len() - i,
{
    if 0 <= i < t.len() {
        match keyword_line_at(t, i, kw) {
            Some(e) => Some((i, e)),
            None => first_keyword_line(t, i + 1, kw),
        }
    } else {
        None
    }
}

pub proof fn lemma_first_keyword_line(t: Seq<char>, i: int, kw: Seq<char>)
    requires
        0 <= i,
    ensures
        first_keyword_line(t, i, kw) matches Some((s, e)) ==> i <= s < e < t.len() && keyword_line_at(t, s, kw) == Some(e),
    decreases t.len() - i,
{
    if 0 <= i < t.len() {
        if keyword_line_at(t, i, kw) is None {
            lemma_first_keyword_line(t, i + 1, kw);
        } else if holds_at(t, i + 1, kw) {
            lemma_run_end(t, i + 1 + kw.len(), CharClass::NotNewline);
        }
    }
}

/// A group name that selects group 0 or group 1: an optional `+`, then
/// digits whose value is 0 or 1.
pub open spec fn selects_line(name: Seq<char>) -> bool {
    &&& group_digits(name).len() > 0
    &&& forall|j: int| 0 <= j < group_digits(name).len() - 1 ==> #[trigger] group_digits(name)[j] == '0'
    &&& (group_digits(name).last() == '0' || group_digits(name).last() == '1')
}

/// A group name without its leading `+`, if any.
pub open spec fn group_digits(name: Seq<char>) -> Seq<char> {
    if name.len() > 0 && name[0] == '+' {
        name.drop_first()
    } else {
        name
    }
}

/// What the group reference `name` stands for.
pub open spec fn group_text(name: Seq<char>, line: Seq<char>) -> Seq<char> {
    if selects_line(name) {
        line
    } else {
        Seq::empty()
    }
}

/// The template `r` from `i` on, with its references expanded.
pub open spec fn expand_from(r: Seq<char>, i: int, line: Seq<char>) -> Seq<char>
    decreases r.len() - i,
{
    if 0 <= i < r.len() {
        if r[i] != '$' {
            seq![r[i]] + expand_from(r, i + 1, line)
        } else if i + 1 < r.len() && r[i + 1] == '$' {
            seq!['$'] + expand_from(r, i + 2, line)
        } else if i + 1 < r.len() && r[i + 1] == '{' {
            let j = run_end(r, i + 2, CharClass::NotCloseBrace);
            if j < r.len() {
                proof {
                    lemma_run_end(r, i + 2, CharClass::NotCloseBrace);
                }
                group_text(r.subrange(i + 2, j), line) + expand_from(r, j + 1, line)
            } else {
                seq!['$'] + expand_from(r, i + 1, line)
            }
        } else {
            let e = run_end(r, i + 1, CharClass::RefLetter);
            if e <= i + 1 {
                seq!['$'] + expand_from(r, i + 1, line)
            } else {
                proof {
                    lemma_run_end(r, i + 1, CharClass::RefLetter);
                }
                group_text(r.subrange(i + 1, e), line) + expand_from(r, e, line)
            }
        }
    } else {
        Seq::empty()
    }
}

/// `t` without its first `.file` line (which becomes an empty line).
pub open spec fn without_file_line(t: Seq<char>) -> Seq<char> {
    match first_keyword_line(t, 0, file_keyword()) {
        Some((s, e)) => t.subrange(0, s) + seq!['\n'] + t.subrange(e + 1, t.len() as int),
        None => t,
    }
}

/// The netlist `t` set to write its results to `output`; `None` when it has
/// no `.tran` line.
pub open spec fn csv_netlist_spec(t: Seq<char>, output: Seq<char>) -> Option<Seq<char>> {
    let t1 = without_file_line(t);
    match first_keyword_line(t1, 0, tran_keyword()) {
        Some((s, e)) => {
            let line = t1.subrange(s, e + 1);
            let template = without_quotes(
                line + seq!['.', 'f', 'i', 'l', 'e', ' '] + output + seq!['\n'],
            );
            Some(t1.subrange(0, s) + expand_from(template, 0, line) + t1.subrange(
                e + 1,
                t1.len() as int,
            ))
        },
        None => None,
    }
}

/// `r` holds no `$`, so it has no reference to expand.
pub open spec fn no_dollar(r: Seq<char>) -> bool {
    forall|j: int| 0 <= j < r.len() ==> #[trigger] r[j] != '$'
}

proof fn lemma_expand_plain(r: Seq<char>, i: int, line: Seq<char>)
    requires
        0 <= i <= r.len(),
        no_dollar(r),
    ensures
        expand_from(r, i, line) == r.subrange(i, r.len() as int),
    decreases r.len() - i,
{
    if i < r.len() {
        lemma_expand_plain(r, i + 1, line);
        assert(r.subrange(i, r.len() as int) =~= seq![r[i]] + r.subrange(i + 1, r.len() as int));
    } else {
        assert(r.subrange(i, r.len() as int) =~= Seq::<char>::empty());
    }
}

proof fn lemma_expand_shift(a: Seq<char>, b: Seq<char>, j: int, line: Seq<char>)
    requires
        0 <= j <= b.len(),
    ensures
        expand_from(a + b, a.len() + j, line) == expand_from(b, j, line),
    decreases b.len() - j,
{
    let t = a + b;
    let k = a.len() + j;
    if j < b.len() {
        assert(t[k] == b[j]);
        if j + 1 < b.len() {
            assert(t[k + 1] == b[j + 1]);
        }
        if b[j] != '$' {
            lemma_expand_shift(a, b, j + 1, line);
        } else if j + 1 < b.len() && b[j + 1] == '$' {
            lemma_expand_shift(a, b, j + 2, line);
        } else if j + 1 < b.len() && b[j + 1] == '{' {
            assert(t.subrange(k + 2, t.len() as int) =~= b.subrange(j + 2, b.len() as int));
            lemma_run_end_agree(t, k + 2, b, j + 2, CharClass::NotCloseBrace);
            lemma_run_end(b, j + 2, CharClass::NotCloseBrace);
            let jj = run_end(b, j + 2, CharClass::NotCloseBrace);
            if jj < b.len() {
                assert(t.subrange(k + 2, a.len() + jj) =~= b.subrange(j + 2, jj));
                lemma_expand_shift(a, b, jj + 1, line);
            } else {
                lemma_expand_shift(a, b, j + 1, line);
            }
        } else {
            assert(t.subrange(k + 1, t.len() as int) =~= b.subrange(j + 1, b.len() as int));
            lemma_run_end_agree(t, k + 1, b, j + 1, CharClass::RefLetter);
            lemma_run_end(b, j + 1, CharClass::RefLetter);
            let e = run_end(b, j + 1, CharClass::RefLetter);
            if e <= j + 1 {
                lemma_expand_shift(a, b, j + 1, line);
            } else {
                assert(t.subrange(k + 1, a.len() + e) =~= b.subrange(j + 1, e));
                lemma_expand_shift(a, b, e, line);
            }
        }
    }
}

proof fn lemma_expand_split(a: Seq<char>, b: Seq<char>, i: int, line: Seq<char>)
    requires
        0 <= i <= a.len(),
        a.len() > 0,
        a.last() != '$',
        !in_class(CharClass::RefLetter, a.last()),
        forall|x: int| 0 <= x < b.len() ==> #[trigger] b[x] != '}',
    ensures
        expand_from(a + b, i, line) == expand_from(a, i, line) + expand_from(b, 0, line),
    decreases a.len() - i,
{
    let t = a + b;
    if i == a.len() {
        lemma_expand_shift(a, b, 0, line);
        assert(expand_from(a, i, line) =~= Seq::<char>::empty());
        assert(expand_from(b, 0, line) =~= Seq::<char>::empty() + expand_from(b, 0, line));
    } else {
        assert(t[i] == a[i]);
        assert(a.last() == a[a.len() - 1]);
        if i + 1 < a.len() {
            assert(t[i + 1] == a[i + 1]);
        }
        if a[i] != '$' {
            lemma_expand_split(a, b, i + 1, line);
            assert(seq![a[i]] + (expand_from(a, i + 1, line) + expand_from(b, 0, line)) =~= (seq![a[i]]
                + expand_from(a, i + 1, line)) + expand_from(b, 0, line));
        } else if a[i + 1] == '$' {
            lemma_expand_split(a, b, i + 2, line);
            assert(seq!['$'] + (expand_from(a, i + 2, line) + expand_from(b, 0, line)) =~= (seq!['$']
                + expand_from(a, i + 2, line)) + expand_from(b, 0, line));
        } else if a[i + 1] == '{' {
            lemma_run_end(a, i + 2, CharClass::NotCloseBrace);
            let ja = run_end(a, i + 2, CharClass::NotCloseBrace);
            if ja < a.len() {
                assert forall|x: int| i + 2 <= x < ja implies in_class(CharClass::NotCloseBrace, #[trigger] t[x]) by {
                    assert(t[x] == a[x]);
                }
                assert(t[ja] == a[ja]);
                lemma_run_end_at(t, i + 2, CharClass::NotCloseBrace, ja);
                assert(t.subrange(i + 2, ja) =~= a.subrange(i + 2, ja));
                lemma_expand_split(a, b, ja + 1, line);
                assert(group_text(a.subrange(i + 2, ja), line) + (expand_from(a, ja + 1, line) + expand_from(
                    b,
                    0,
                    line,
                )) =~= (group_text(a.subrange(i + 2, ja), line) + expand_from(a, ja + 1, line))
                    + expand_from(b, 0, line));
            } else {
                assert forall|x: int| i + 2 <= x < t.len() implies in_class(CharClass::NotCloseBrace, #[trigger] t[x]) by {
                    if x < a.len() {
                        assert(t[x] == a[x]);
                    } else {
                        assert(t[x] == b[x - a.len()]);
                    }
                }
                lemma_run_end_at(t, i + 2, CharClass::NotCloseBrace, t.len() as int);
                lemma_expand_split(a, b, i + 1, line);
                assert(seq!['$'] + (expand_from(a, i + 1, line) + expand_from(b, 0, line)) =~= (seq!['$']
                    + expand_from(a, i + 1, line)) + expand_from(b, 0, line));
            }
        } else {
            lemma_run_end(a, i + 1, CharClass::RefLetter);
            let ea = run_end(a, i + 1, CharClass::RefLetter);
            assert(ea < a.len()) by {
                if ea >= a.len() {
                    assert(in_class(CharClass::RefLetter, a[a.len() - 1]));
                }
            }
            assert forall|x: int| i + 1 <= x < ea implies in_class(CharClass::RefLetter, #[trigger] t[x]) by {
                assert(t[x] == a[x]);
            }
            assert(t[ea] == a[ea]);
            lemma_run_end_at(t, i + 1, CharClass::RefLetter, ea);
            if ea <= i + 1 {
                lemma_expand_split(a, b, i + 1, line);
                assert(seq!['$'] + (expand_from(a, i + 1, line) + expand_from(b, 0, line)) =~= (seq!['$']
                    + expand_from(a, i + 1, line)) + expand_from(b, 0, line));
            } else {
                assert(t.subrange(i + 1, ea) =~= a.subrange(i + 1, ea));
                lemma_expand_split(a, b, ea, line);
                assert(group_text(a.subrange(i + 1, ea), line) + (expand_from(a, ea, line) + expand_from(
                    b,
                    0,
                    line,
                )) =~= (group_text(a.subrange(i + 1, ea), line) + expand_from(a, ea, line))
                    + expand_from(b, 0, line));
            }
        }
    }
}

/// Law: a template is expanded piece by piece, when the first piece does
/// not end in the middle of a reference (it ends with a character that is
/// neither `$` nor a letter, digit or `_`) and the second holds no `}`.
pub proof fn lemma_expand_compose(a: Seq<char>, b: Seq<char>, line: Seq<char>)
    requires
        a.len() > 0,
        a.last() != '$',
        !in_class(CharClass::RefLetter, a.last()),
        forall|x: int| 0 <= x < b.len() ==> #[trigger] b[x] != '}',
    ensures
        expand_from(a + b, 0, line) == expand_from(a, 0, line) + expand_from(b, 0, line),
{
    lemma_expand_split(a, b, 0, line);
}

/// Law: text without `$` is copied as it is; `$$` gives `$`; `${name}` and
/// `$name` (with `name` made of letters, digits and `_`) give the `.tran` line
/// when `name` selects group 0 or 1, and nothing otherwise.
pub proof fn lemma_expand_units(r: Seq<char>, name: Seq<char>, line: Seq<char>)
    ensures
        no_dollar(r) ==> expand_from(r, 0, line) == r,
        expand_from(seq!['$', '$'], 0, line) == seq!['$'],
        (forall|x: int| 0 <= x < name.len() ==> #[trigger] name[x] != '}') ==> expand_from(
            seq!['$', '{'] + name + seq!['}'],
            0,
            line,
        ) == (if selects_line(name) {
            line
        } else {
            Seq::<char>::empty()
        }),
        name.len() > 0 && (forall|x: int| 0 <= x < name.len() ==> in_class(CharClass::RefLetter, #[trigger] name[x]))
            ==> expand_from(seq!['$'] + name, 0, line) == (if selects_line(name) {
            line
        } else {
            Seq::<char>::empty()
        }),
{
    if no_dollar(r) {
        lemma_expand_plain(r, 0, line);
        assert(r.subrange(0, r.len() as int) =~= r);
    }
    let d = seq!['$', '$'];
    assert(expand_from(d, 2, line) =~= Seq::<char>::empty());
    assert(seq!['$'] + Seq::<char>::empty() =~= seq!['$']);
    if forall|x: int| 0 <= x < name.len() ==> #[trigger] name[x] != '}' {
        let r2 = seq!['$', '{'] + name + seq!['}'];
        let j = r2.len() - 1;
        assert forall|x: int| 2 <= x < j implies in_class(CharClass::NotCloseBrace, #[trigger] r2[x]) by {
            assert(r2[x] == name[x - 2]);
        }
        lemma_run_end_at(r2, 2, CharClass::NotCloseBrace, j);
        assert(r2.subrange(2, j) =~= name);
        assert(expand_from(r2, j + 1, line) =~= Seq::<char>::empty());
        assert(group_text(name, line) + Seq::<char>::empty() =~= group_text(name, line));
    }
    if name.len() > 0 && (forall|x: int| 0 <= x < name.len() ==> in_class(CharClass::RefLetter, #[trigger] name[x])) {
        let r3 = seq!['$'] + name;
        assert(r3[1] == name[0]);
        assert forall|x: int| 1 <= x < r3.len() implies in_class(CharClass::RefLetter, #[trigger] r3[x]) by {
            assert(r3[x] == name[x - 1]);
        }
        lemma_run_end_at(r3, 1, CharClass::RefLetter, r3.len() as int);
        assert(r3.subrange(1, r3.len() as int) =~= name);
        assert(expand_from(r3, r3.len() as int, line) =~= Seq::<char>::empty());
        assert(group_text(name, line) + Seq::<char>::empty() =~= group_text(name, line));
    }
}

proof fn lemma_quote_free(r: Seq<char>)
    requires
        forall|j: int| 0 <= j < r.len() ==> #[trigger] r[j] != '"',
    ensures
        without_quotes(r) == r,
    decreases r.len(),
{
    reveal_with_fuel(Seq::filter, 1);
    if r.len() > 0 {
        lemma_quote_free(r.drop_last());
        assert(r.drop_last().push(r.last()) =~= r);
    }
}

proof fn lemma_tail_clean(output: Seq<char>)
    requires
        forall|j: int|
            0 <= j < output.len() ==> #[trigger] output[j] != '"' && output[j] != '$' && output[j] != '}',
    ensures
        ({
            let tail = seq!['.', 'f', 'i', 'l', 'e', ' '] + output + seq!['\n'];
            &&& without_quotes(tail) == tail
            &&& no_dollar(tail)
            &&& forall|x: int| 0 <= x < tail.len() ==> #[trigger] tail[x] != '}'
        }),
{
    let tail = seq!['.', 'f', 'i', 'l', 'e', ' '] + output + seq!['\n'];
    assert forall|j: int| 0 <= j < tail.len() implies #[trigger] tail[j] != '"' && tail[j] != '$'
        && tail[j] != '}' by {
        if 6 <= j < 6 + output.len() {
            assert(tail[j] == output[j - 6]);
        }
    }
    lemma_quote_free(tail);
}

proof fn lemma_line_unquoted(line: Seq<char>)
    requires
        line.len() > 0,
        line.last() == '\n',
    ensures
        without_quotes(line).len() > 0,
        without_quotes(line).last() == '\n',
{
    Seq::filter_distributes_over_add(line.drop_last(), seq!['\n'], not_quote());
    assert(line.drop_last() + seq!['\n'] =~= line);
    lemma_quote_free(seq!['\n']);
}

/// The inserted text expands to the expanded `.tran` line followed by
/// `.file `, `output` and a new line.
proof fn lemma_template_expands(line: Seq<char>, output: Seq<char>)
    requires
        line.len() > 0,
        line.last() == '\n',
        forall|j: int|
            0 <= j < output.len() ==> #[trigger] output[j] != '"' && output[j] != '$' && output[j] != '}',
    ensures
        expand_from(without_quotes(line + (seq!['.', 'f', 'i', 'l', 'e', ' '] + output + seq!['\n'])), 0, line)
            == expand_from(without_quotes(line), 0, line) + (seq!['.', 'f', 'i', 'l', 'e', ' '] + output
            + seq!['\n']),
{
    let tail = seq!['.', 'f', 'i', 'l', 'e', ' '] + output + seq!['\n'];
    lemma_tail_clean(output);
    lemma_line_unquoted(line);
    Seq::filter_distributes_over_add(line, tail, not_quote());
    let a = without_quotes(line);
    assert(without_quotes(line + tail) == a + tail);
    lemma_expand_split(a, tail, 0, line);
    lemma_expand_plain(tail, 0, line);
    assert(tail.subrange(0, tail.len() as int) =~= tail);
}

/// A line without quotes or `$` expands to itself.
proof fn lemma_plain_line(line: Seq<char>)
    requires
        forall|j: int| 0 <= j < line.len() ==> #[trigger] line[j] != '"' && line[j] != '$',
    ensures
        expand_from(without_quotes(line), 0, line) == line,
{
    lemma_quote_free(line);
    lemma_expand_plain(line, 0, line);
    assert(line.subrange(0, line.len() as int) =~= line);
}

/// Law: the netlist set to write to `output` holds, right after its first
/// `.tran` line, the line `.file ` followed by the whole of `output` and a
/// new line, when `output` holds no quote, `$` or `}` (characters that the
/// insertion reads as part of a template); everything before the `.tran`
/// line and after it is kept.  When the `.tran` line itself holds no quote or
/// `$`, it is kept as it is too.  Without a `.tran` line there is no result.
pub proof fn lemma_csv_netlist_writes_output(t: Seq<char>, output: Seq<char>)
    requires
        forall|j: int|
            0 <= j < output.len() ==> #[trigger] output[j] != '"' && output[j] != '$' && output[j] != '}',
    ensures
        ({
            let t1 = without_file_line(t);
            match first_keyword_line(t1, 0, tran_keyword()) {
                Some((s, e)) => {
                    let line = t1.subrange(s, e + 1);
                    let head = expand_from(without_quotes(line), 0, line);
                    &&& csv_netlist_spec(t, output) == Some(
                        t1.subrange(0, s) + head + seq!['.', 'f', 'i', 'l', 'e', ' '] + output + seq!['\n']
                            + t1.subrange(e + 1, t1.len() as int),
                    )
                    &&& (forall|j: int| 0 <= j < line.len() ==> #[trigger] line[j] != '"' && line[j] != '$')
                        ==> head == line
                },
                None => csv_netlist_spec(t, output) is None,
            }
        }),
{
    let t1 = without_file_line(t);
    lemma_first_keyword_line(t1, 0, tran_keyword());
    if let Some((s, e)) = first_keyword_line(t1, 0, tran_keyword()) {
        let line = t1.subrange(s, e + 1);
        assert(t1[e] == '\n') by {
            lemma_run_end(t1, s + 1 + 4, CharClass::NotNewline);
        }
        assert(line.last() == t1[e]);
        lemma_template_expands(line, output);
        assert(line + seq!['.', 'f', 'i', 'l', 'e', ' '] + output + seq!['\n'] =~= line + (seq![
            '.',
            'f',
            'i',
            'l',
            'e',
            ' ',
        ] + output + seq!['\n']));
        let head = expand_from(without_quotes(line), 0, line);
        let tail = seq!['.', 'f', 'i', 'l', 'e', ' '] + output + seq!['\n'];
        assert(t1.subrange(0, s) + (head + tail) + t1.subrange(e + 1, t1.len() as int) =~= t1.subrange(0, s)
            + head + seq!['.', 'f', 'i', 'l', 'e', ' '] + output + seq!['\n'] + t1.subrange(
            e + 1,
            t1.len() as int,
        ));
        if forall|j: int| 0 <= j < line.len() ==> #[trigger] line[j] != '"' && line[j] != '$' {
            lemma_plain_line(line);
        }
    }
}

fn keyword_line_at_exec(t: &Vec<char>, s: usize, kw: &Vec<char>) -> (r: Option<usize>)
    requires
        s < t.len(),
    ensures
        match r {
            Some(e) => keyword_line_at(t@, s as int, kw@) == Some(e as int),
            None => keyword_line_at(t@, s as int, kw@) is None,
        },
{
    if t[s] == '\n' || !holds_at_exec(t, s + 1, kw) {
        return None;
    }
    let e = run_end_exec(t, s + 1 + kw.len(), CharClass::NotNewline);
    if s + 1 + kw.len() < e && e < t.len() {
        Some(e)
    } else {
        None
    }
}

fn first_keyword_line_exec(t: &Vec<char>, kw: &Vec<char>) -> (r: Option<(usize, usize)>)
    ensures
        match r {
            Some((s, e)) => first_keyword_line(t@, 0, kw@) == Some((s as int, e as int)),
            None => first_keyword_line(t@, 0, kw@) is None,
        },
{
    let mut i: usize = 0;
    while i < t.len()
        invariant
            i <= t.len(),
            first_keyword_line(t@, 0, kw@) == first_keyword_line(t@, i as int, kw@),
        decreases t.len() - i,
    {
        match keyword_line_at_exec(t, i, kw) {
            Some(e) => {
                return Some((i, e));
            },
            None => {
                i += 1;
            },
        }
    }
    None
}

fn selects_line_exec(r: &Vec<char>, from: usize, to: usize) -> (b: bool)
    requires
        from <= to <= r.len(),
    ensures
        b == selects_line(r@.subrange(from as int, to as int)),
{
    let ghost name = r@.subrange(from as int, to as int);
    let start = if from < to && r[from] == '+' {
        from + 1
    } else {
        from
    };
    let ghost d = r@.subrange(start as int, to as int);
    assert(d =~= group_digits(name));
    if start >= to {
        return false;
    }
    let mut j = start;
    while j + 1 < to
        invariant
            start <= j < to <= r.len(),
            from <= start,
            d == r@.subrange(start as int, to as int),
            name == r@.subrange(from as int, to as int),
            d == group_digits(name),
            forall|l: int| 0 <= l < j - start ==> #[trigger] d[l] == '0',
        decreases to - j,
    {
        if r[j] != '0' {
            assert(d[j - start] == r@[j as int]);
            assert(j - start < d.len() - 1);
            assert(!selects_line(name));
            return false;
        }
        j += 1;
    }
    r[to - 1] == '0' || r[to - 1] == '1'
}

fn push_group(out: &mut Vec<char>, r: &Vec<char>, from: usize, to: usize, line: &Vec<char>)
    requires
        from <= to <= r.len(),
    ensures
        final(out)@ == old(out)@ + group_text(r@.subrange(from as int, to as int), line@),
{
    if selects_line_exec(r, from, to) {
        push_all(out, line);
    } else {
        assert(old(out)@ + Seq::<char>::empty() =~= old(out)@);
    }
}

fn expand_exec(r: &Vec<char>, line: &Vec<char>, out: &mut Vec<char>)
    ensures
        final(out)@ == old(out)@ + expand_from(r@, 0, line@),
{
    let mut i: usize = 0;
    while i < r.len()
        invariant
            i <= r.len(),
            old(out)@ + expand_from(r@, 0, line@) == out@ + expand_from(r@, i as int, line@),
        decreases r.len() - i,
    {
        let ghost before = out@;
        if r[i] != '$' {
            out.push(r[i]);
            assert(out@ + expand_from(r@, i + 1, line@) =~= before + expand_from(r@, i as int, line@));
            i += 1;
        } else if r.len() - i > 1 && r[i + 1] == '$' {
            out.push('$');
            assert(out@ + expand_from(r@, i + 2, line@) =~= before + expand_from(r@, i as int, line@));
            i += 2;
        } else if r.len() - i > 1 && r[i + 1] == '{' {
            let j = run_end_exec(r, i + 2, CharClass::NotCloseBrace);
            proof { lemma_run_end(r@, i + 2, CharClass::NotCloseBrace); }
            if j < r.len() {
                push_group(out, r, i + 2, j, line);
                assert(out@ + expand_from(r@, j + 1, line@) =~= before + expand_from(r@, i as int, line@));
                i = j + 1;
            } else {
                out.push('$');
                assert(out@ + expand_from(r@, i + 1, line@) =~= before + expand_from(r@, i as int, line@));
                i += 1;
            }
        } else {
            let e = run_end_exec(r, i + 1, CharClass::RefLetter);
            proof { lemma_run_end(r@, i + 1, CharClass::RefLetter); }
            if e <= i + 1 {
                out.push('$');
                assert(out@ + expand_from(r@, i + 1, line@) =~= before + expand_from(r@, i as int, line@));
                i += 1;
            } else {
                push_group(out, r, i + 1, e, line);
                assert(out@ + expand_from(r@, e as int, line@) =~= before + expand_from(r@, i as int, line@));
                i = e;
            }
        }
    }
    assert(out@ + expand_from(r@, r.len() as int, line@) =~= out@);
}

/// Sets a netlist to write its results to the CSV file `output`: its first
/// `.file` line becomes an empty line and `.file <output>` is inserted after
/// its first `.tran` line.  `None` when the netlist has no `.tran` line: such
/// a netlist cannot be run, and the caller decides how to fail.
pub fn csv_output_netlist(netlist: &str, output: &str) -> (r: Option<String>)
    ensures
        match csv_netlist_spec(netlist@, output@) {
            Some(s) => r matches Some(out) && out@ == s,
            None => r is None,
        },
{
    let t = chars_of(netlist);
    let out_name = chars_of(output);
    let file_kw: Vec<char> = vec!['f', 'i', 'l', 'e'];
    assert(file_kw@ =~= file_keyword());
    let tran_kw: Vec<char> = vec!['t', 'r', 'a', 'n'];
    assert(tran_kw@ =~= tran_keyword());
    let t1 = match first_keyword_line_exec(&t, &file_kw) {
        Some((s, e)) => {
            proof { lemma_first_keyword_line(t@, 0, file_kw@); }
            let mut v: Vec<char> = Vec::new();
            push_range(&mut v, &t, 0, s);
            v.push('\n');
            push_range(&mut v, &t, e + 1, t.len());
            v
        },
        None => t,
    };
    assert(t1@ =~= without_file_line(netlist@));
    let (s, e) = match first_keyword_line_exec(&t1, &tran_kw) {
        Some(p) => p,
        None => {
            return None;
        },
    };
    proof { lemma_first_keyword_line(t1@, 0, tran_kw@); }
    let mut line: Vec<char> = Vec::new();
    push_range(&mut line, &t1, s, e + 1);
    let mut raw: Vec<char> = Vec::new();
    push_all(&mut raw, &line);
    let suffix: Vec<char> = vec!['.', 'f', 'i', 'l', 'e', ' '];
    push_all(&mut raw, &suffix);
    push_all(&mut raw, &out_name);
    raw.push('\n');
    assert(raw@ =~= line@ + seq!['.', 'f', 'i', 'l', 'e', ' '] + output@ + seq!['\n']);
    let template = drop_quotes(&raw);
    let mut result: Vec<char> = Vec::new();
    push_range(&mut result, &t1, 0, s);
    expand_exec(&template, &line, &mut result);
    push_range(&mut result, &t1, e + 1, t1.len());
    Some(string_of(&result))
}

} // verus!
