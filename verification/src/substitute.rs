//! Rewriting the value of one annotated parameter in a netlist.
//!
//! An assignment of the parameter `name` has the shape
//!
//! ```text
//! divider := (space | '=')+
//! value   := (digit | '.')+
//! assign  := divider value word* space* "#!" space* name line-space* '\n'
//! ```
//!
//! The first word character after the value (a unit prefix such as `p` or
//! `u`) is kept.  Every assignment of `name` is rewritten to
//! `divider number prefix " #!" name " \n"`, where the divider and prefix are
//! those of the first assignment in the netlist.  Quotes in `name` are ignored
//! when assignments are looked for; every other character of `name` stands
//! for itself.
use vstd::prelude::*;
use crate::scan::{CharClass, in_class, is_word, is_space, run_end, lemma_run_end, is_in_class,
    run_end_exec, holds_at, holds_at_exec, lemma_run_end_at, lemma_run_end_through,
    lemma_run_end_agree, lemma_class_facts};
use crate::annotations::{var_match_at, lemma_var_match_at, scan_reaches, scan_before, scan_vars, labels,
    netlist_variables_spec, lemma_scan_split, lemma_listed_when_new};
use crate::text::{chars_of, string_of, push_all, push_range};

verus! {

/// Why a parameter could not be rewritten.
#[derive(Clone, Copy, Debug, PartialEq, Eq, Structural)]
pub enum ChangeError {
    /// The netlist holds no assignment annotated with the name.
    TargetNotFound,
}

/// `n` without its quote characters.
pub open spec fn without_quotes(n: Seq<char>) -> Seq<char> {
    n.filter(not_quote())
}

pub open spec fn not_quote() -> spec_fn(char) -> bool {
    |c: char| c != '"'
}

/// A reference to `n` searched from `k`: some white space, `n`, white space
/// other than new lines, and a new line.  The fewest leading white-space
/// characters are taken; the result is the position after the new line.
pub open spec fn name_tail(t: Seq<char>, k: int, n: Seq<char>) -> Option<int>
    decreases t.len() - k,
{
    if 0 <= k <= t.len() {
        if holds_at(t, k, n) && run_end(t, k + n.len(), CharClass::LineSpace) < t.len()
            && t[run_end(t, k + n.len(), CharClass::LineSpace)] == '\n' {
            Some(run_end(t, k + n.len(), CharClass::LineSpace) + 1)
        } else if k < t.len() && is_space(t[k]) {
            name_tail(t, k + 1, n)
        } else {
            None
        }
    } else {
        None
    }
}

pub proof fn lemma_name_tail(t: Seq<char>, k: int, n: Seq<char>)
    requires
        0 <= k,
    ensures
        name_tail(t, k, n) matches Some(end) ==> k < end <= t.len(),
    decreases t.len() - k,
{
    if 0 <= k <= t.len() {
        if holds_at(t, k, n) {
            lemma_run_end(t, k + n.len(), CharClass::LineSpace);
        }
        if k < t.len() {
            lemma_name_tail(t, k + 1, n);
        }
    }
}

/// An assignment of `n` starting at `s`: the end of the divider, the end of
/// the value, the end of the kept prefix and the end of the assignment.
pub open spec fn change_at(t: Seq<char>, s: int, n: Seq<char>) -> Option<(int, int, int, int)> {
    if 0 <= s < t.len() && in_class(CharClass::Divider, t[s]) {
        let a = run_end(t, s, CharClass::Divider);
        if a < t.len() && in_class(CharClass::Value, t[a]) {
            let m = run_end(t, a, CharClass::Value);
            let pe = if m < t.len() && is_word(t[m]) {
                m + 1
            } else {
                m
            };
            let q = run_end(t, m, CharClass::Word);
            let r = run_end(t, q, CharClass::Space);
            if r + 1 < t.len() && t[r] == '#' && t[r + 1] == '!' {
                match name_tail(t, r + 2, n) {
                    Some(end) => Some((a, m, pe, end)),
                    None => None,
                }
            } else {
                None
            }
        } else {
            None
        }
    } else {
        None
    }
}

pub proof fn lemma_change_at(t: Seq<char>, s: int, n: Seq<char>)
    ensures
        change_at(t, s, n) matches Some((a, m, pe, end)) ==> s < a < m <= pe < end <= t.len(),
{
    if 0 <= s < t.len() && in_class(CharClass::Divider, t[s]) {
        lemma_run_end(t, s, CharClass::Divider);
        let a = run_end(t, s, CharClass::Divider);
        if a < t.len() && in_class(CharClass::Value, t[a]) {
            lemma_run_end(t, a, CharClass::Value);
            let m = run_end(t, a, CharClass::Value);
            lemma_run_end(t, m, CharClass::Word);
            let q = run_end(t, m, CharClass::Word);
            lemma_run_end(t, q, CharClass::Space);
            let r = run_end(t, q, CharClass::Space);
            if r + 1 < t.len() && t[r] == '#' && t[r + 1] == '!' {
                lemma_name_tail(t, r + 2, n);
            }
        }
    }
}

/// The first assignment of `n` that starts at or after `i`: its start, the
/// end of its divider, of its value, of its prefix and of itself.
pub open spec fn first_change(t: Seq<char>, i: int, n: Seq<char>) -> Option<(int, int, int, int, int)>
    decreases t.len() - i,
{
    if 0 <= i < t.len() {
        match change_at(t, i, n) {
            Some((a, m, pe, end)) => Some((i, a, m, pe, end)),
            None => first_change(t, i + 1, n),
        }
    } else {
        None
    }
}

proof fn lemma_first_change_found(t: Seq<char>, i: int, n: Seq<char>)
    requires
        0 <= i,
    ensures
        first_change(t, i, n) matches Some((s, a, m, pe, end)) ==> i <= s < t.len() && change_at(t, s, n)
            == Some((a, m, pe, end)),
    decreases t.len() - i,
{
    if 0 <= i < t.len() && change_at(t, i, n) is None {
        lemma_first_change_found(t, i + 1, n);
    }
}

/// `t` from `i` on, with every assignment of `n` replaced by `rep`.
pub open spec fn replace_from(t: Seq<char>, i: int, n: Seq<char>, rep: Seq<char>) -> Seq<char>
    decreases t.len() - i,
{
    if 0 <= i < t.len() {
        match change_at(t, i, n) {
            Some((a, m, pe, end)) => {
                proof {
                    lemma_change_at(t, i, n);
                }
                rep + replace_from(t, end, n, rep)
            },
            None => seq![t[i]] + replace_from(t, i + 1, n, rep),
        }
    } else {
        Seq::empty()
    }
}

/// What the netlist `t` becomes when the parameter `name` is set to the
/// number written `number`; `None` when no assignment of `name` is found.
pub open spec fn variable_changer_spec(t: Seq<char>, name: Seq<char>, number: Seq<char>) -> Option<Seq<char>> {
    let n = without_quotes(name);
    match first_change(t, 0, n) {
        Some((s, a, m, pe, end)) => {
            let rep = t.subrange(s, a) + number + t.subrange(m, pe) + seq![' ', '#', '!'] + name
                + seq![' ', '\n'];
            Some(replace_from(t, 0, n, rep))
        },
        None => None,
    }
}

proof fn lemma_replace_up_to_first(t: Seq<char>, i: int, n: Seq<char>, rep: Seq<char>)
    requires
        0 <= i,
        first_change(t, i, n) is Some,
    ensures
        ({
            let (s, a, m, pe, end) = first_change(t, i, n)->0;
            &&& i <= s < t.len()
            &&& replace_from(t, i, n, rep) == t.subrange(i, s) + rep + replace_from(t, end, n, rep)
        }),
    decreases t.len() - i,
{
    let (s, a, m, pe, end) = first_change(t, i, n)->0;
    if 0 <= i < t.len() {
        if change_at(t, i, n) is None {
            lemma_replace_up_to_first(t, i + 1, n, rep);
            assert(t.subrange(i, s) =~= seq![t[i]] + t.subrange(i + 1, s));
        } else {
            assert(t.subrange(i, s) =~= Seq::<char>::empty());
        }
    }
}

/// Law: setting a parameter keeps the netlist as it is up to the first
/// assignment of the parameter, and writes there the divider and unit prefix
/// of that assignment around the new number, followed by ` #!name \n`.
pub proof fn lemma_change_keeps_prefix(t: Seq<char>, name: Seq<char>, number: Seq<char>)
    requires
        first_change(t, 0, without_quotes(name)) is Some,
    ensures
        ({
            let (s, a, m, pe, end) = first_change(t, 0, without_quotes(name))->0;
            variable_changer_spec(t, name, number) == Some(
                t.subrange(0, s) + (t.subrange(s, a) + number + t.subrange(m, pe) + seq![' ', '#', '!']
                    + name + seq![' ', '\n']) + replace_from(
                    t,
                    end,
                    without_quotes(name),
                    t.subrange(s, a) + number + t.subrange(m, pe) + seq![' ', '#', '!'] + name
                        + seq![' ', '\n'],
                ),
            )
        }),
{
    let n = without_quotes(name);
    let (s, a, m, pe, end) = first_change(t, 0, n)->0;
    let rep = t.subrange(s, a) + number + t.subrange(m, pe) + seq![' ', '#', '!'] + name + seq![' ', '\n'];
    lemma_replace_up_to_first(t, 0, n, rep);
}

/// A number written with digits and points only, at least one of them.
pub open spec fn is_number_text(s: Seq<char>) -> bool {
    s.len() > 0 && forall|j: int| 0 <= j < s.len() ==> in_class(CharClass::Value, #[trigger] s[j])
}

/// Law: after a parameter is set, the netlist is unchanged up to the end of
/// the divider of its first assignment, and there the new number stands.  Read as an annotation, the text there gives the new number
/// with the label `name` followed by a space (when `name` holds no new line);
/// read as an assignment of `name` (when `name` holds no quote), it is found
/// again at the same place, with the new number and the kept unit prefix.
#[verifier::rlimit(30)]
pub proof fn lemma_change_reads_back(t: Seq<char>, name: Seq<char>, number: Seq<char>)
    requires
        first_change(t, 0, without_quotes(name)) is Some,
        is_number_text(number),
    ensures
        ({
            let (s, a, m, pe, end) = first_change(t, 0, without_quotes(name))->0;
            let u = variable_changer_spec(t, name, number)->0;
            let v = a + number.len();
            let ls = v + (pe - m) + 3;
            let e = ls + name.len() + 1;
            &&& variable_changer_spec(t, name, number) is Some
            &&& u.subrange(0, a) == t.subrange(0, a)
            &&& u.subrange(a, v) == number
            &&& (forall|j: int| 0 <= j < name.len() ==> name[j] != '\n') ==> var_match_at(u, a) == Some(
                (v, ls, e),
            ) && u.subrange(ls, e) == name + seq![' ']
            &&& without_quotes(name) == name ==> change_at(u, s, name) == Some(
                (a, v, v + (pe - m), e + 1),
            )
        }),
{
    let n = without_quotes(name);
    let (s, a, m, pe, end) = first_change(t, 0, n)->0;
    lemma_first_change_found(t, 0, n);
    lemma_change_at(t, s, n);
    lemma_change_keeps_prefix(t, name, number);
    lemma_run_end(t, s, CharClass::Divider);
    lemma_run_end(t, a, CharClass::Value);
    let d = t.subrange(s, a);
    let pf = t.subrange(m, pe);
    let rep = assignment_text(d, number, pf, name);
    assert(rep =~= t.subrange(s, a) + number + t.subrange(m, pe) + seq![' ', '#', '!'] + name + seq![' ', '\n']);
    let u = t.subrange(0, s) + rep + replace_from(t, end, n, rep);
    assert(variable_changer_spec(t, name, number) == Some(u));
    assert(u.subrange(s, s + rep.len()) =~= rep);
    assert(parts_ok(d, pf));
    lemma_assignment_found(u, s, d, number, pf, name);
    let v = a + number.len();
    assert forall|x: int| 0 <= x < a implies #[trigger] u[x] == t[x] by {
        if x >= s {
            assert(u[x] == rep[x - s]);
        }
    }
    assert(u.subrange(0, a) =~= t.subrange(0, a));
    assert forall|x: int| a <= x < v implies #[trigger] u[x] == number[x - a] by {
        assert(u[x] == rep[x - s]);
    }
    assert(u.subrange(a, v) =~= number);
}

/// The text that an assignment is rewritten to: divider `d`, number `z`,
/// unit prefix `pf`, then ` #!`, the name and ` \n`.
pub open spec fn assignment_text(d: Seq<char>, z: Seq<char>, pf: Seq<char>, name: Seq<char>) -> Seq<char> {
    d + z + pf + seq![' ', '#', '!'] + name + seq![' ', '\n']
}

/// A divider and a kept unit prefix as an assignment has them.
pub open spec fn parts_ok(d: Seq<char>, pf: Seq<char>) -> bool {
    &&& d.len() > 0
    &&& forall|j: int| 0 <= j < d.len() ==> in_class(CharClass::Divider, #[trigger] d[j])
    &&& pf.len() <= 1
    &&& pf.len() == 1 ==> is_word(pf[0]) && !in_class(CharClass::Value, pf[0])
}

proof fn lemma_name_tail_agree(t: Seq<char>, k: int, u: Seq<char>, k2: int, n: Seq<char>)
    requires
        0 <= k <= t.len(),
        0 <= k2 <= u.len(),
        t.subrange(k, t.len() as int) == u.subrange(k2, u.len() as int),
    ensures
        match name_tail(t, k, n) {
            Some(e) => name_tail(u, k2, n) == Some(e - k + k2),
            None => name_tail(u, k2, n) is None,
        },
    decreases t.len() - k,
{
    let ts = t.subrange(k, t.len() as int);
    let us = u.subrange(k2, u.len() as int);
    assert(ts.len() == us.len());
    assert(u.len() - k2 == t.len() - k);
    if k + n.len() <= t.len() {
        assert(t.subrange(k, k + n.len()) =~= ts.subrange(0, n.len() as int));
        assert(u.subrange(k2, k2 + n.len()) =~= us.subrange(0, n.len() as int));
        assert(t.subrange(k + n.len(), t.len() as int) =~= ts.subrange(n.len() as int, ts.len() as int));
        assert(u.subrange(k2 + n.len(), u.len() as int) =~= us.subrange(n.len() as int, us.len() as int));
        lemma_run_end_agree(t, k + n.len(), u, k2 + n.len(), CharClass::LineSpace);
        lemma_run_end(t, k + n.len(), CharClass::LineSpace);
        let h = run_end(t, k + n.len(), CharClass::LineSpace);
        if h < t.len() {
            assert(t[h] == ts[h - k]);
            assert(u[h - k + k2] == us[h - k]);
        }
    }
    if k < t.len() {
        assert(t[k] == ts[0]);
        assert(u[k2] == us[0]);
        assert(t.subrange(k + 1, t.len() as int) =~= ts.subrange(1, ts.len() as int));
        assert(u.subrange(k2 + 1, u.len() as int) =~= us.subrange(1, us.len() as int));
        lemma_name_tail_agree(t, k + 1, u, k2 + 1, n);
    }
}

proof fn lemma_change_at_agree(t: Seq<char>, i: int, u: Seq<char>, j: int, n: Seq<char>)
    requires
        0 <= i < t.len(),
        0 <= j <= u.len(),
        t.subrange(i, t.len() as int) == u.subrange(j, u.len() as int),
        change_at(t, i, n) is None,
    ensures
        change_at(u, j, n) is None,
{
    let ts = t.subrange(i, t.len() as int);
    let us = u.subrange(j, u.len() as int);
    assert(ts.len() == us.len());
    assert(u.len() - j == t.len() - i);
    assert forall|x: int| i <= x < t.len() implies #[trigger] t[x] == u[x - i + j] by {
        assert(t[x] == ts[x - i]);
        assert(u[x - i + j] == us[x - i]);
    }
    assert(t[i] == u[j]);
    if in_class(CharClass::Divider, t[i]) {
        lemma_run_end_agree(t, i, u, j, CharClass::Divider);
        lemma_run_end(t, i, CharClass::Divider);
        let a = run_end(t, i, CharClass::Divider);
        if a < t.len() {
            assert(t[a] == u[a - i + j]);
            let sa = t.subrange(a, t.len() as int);
            assert(sa =~= u.subrange(a - i + j, u.len() as int));
            lemma_run_end_agree(t, a, u, a - i + j, CharClass::Value);
            lemma_run_end(t, a, CharClass::Value);
            let m = run_end(t, a, CharClass::Value);
            assert(t.subrange(m, t.len() as int) =~= u.subrange(m - i + j, u.len() as int));
            lemma_run_end_agree(t, m, u, m - i + j, CharClass::Word);
            lemma_run_end(t, m, CharClass::Word);
            let q = run_end(t, m, CharClass::Word);
            assert(t.subrange(q, t.len() as int) =~= u.subrange(q - i + j, u.len() as int));
            lemma_run_end_agree(t, q, u, q - i + j, CharClass::Space);
            lemma_run_end(t, q, CharClass::Space);
            let r = run_end(t, q, CharClass::Space);
            if r + 1 < t.len() {
                assert(t[r] == u[r - i + j]);
                assert(t[r + 1] == u[r + 1 - i + j]);
                assert(t.subrange(r + 2, t.len() as int) =~= u.subrange(r + 2 - i + j, u.len() as int));
                lemma_name_tail_agree(t, r + 2, u, r + 2 - i + j, n);
            }
        }
    }
}

/// Past the last assignment the text is copied as it is.
proof fn lemma_replace_without_change(t: Seq<char>, i: int, n: Seq<char>, rep: Seq<char>)
    requires
        0 <= i <= t.len(),
        first_change(t, i, n) is None,
    ensures
        replace_from(t, i, n, rep) == t.subrange(i, t.len() as int),
    decreases t.len() - i,
{
    if i < t.len() {
        lemma_replace_without_change(t, i + 1, n, rep);
        assert(t.subrange(i, t.len() as int) =~= seq![t[i]] + t.subrange(i + 1, t.len() as int));
    } else {
        assert(t.subrange(i, t.len() as int) =~= Seq::<char>::empty());
    }
}

/// How a rewritten assignment placed at `f` reads: its runs end where its
/// parts end.
proof fn lemma_assignment_layout(u: Seq<char>, f: int, d: Seq<char>, z: Seq<char>, pf: Seq<char>, name: Seq<char>)
    requires
        0 <= f,
        f + assignment_text(d, z, pf, name).len() <= u.len(),
        u.subrange(f, f + assignment_text(d, z, pf, name).len()) == assignment_text(d, z, pf, name),
        parts_ok(d, pf),
        is_number_text(z),
    ensures
        ({
            let a = f + d.len();
            let v = a + z.len();
            let p = pf.len() as int;
            let ls = v + p + 3;
            let e = ls + name.len() + 1;
            &&& e + 1 == f + assignment_text(d, z, pf, name).len()
            &&& forall|x: int| f <= x < a ==> #[trigger] u[x] == d[x - f]
            &&& forall|x: int| a <= x < v ==> #[trigger] u[x] == z[x - a]
            &&& in_class(CharClass::Divider, u[f])
            &&& run_end(u, f, CharClass::Divider) == a
            &&& in_class(CharClass::Value, u[a])
            &&& run_end(u, a, CharClass::Value) == v
            &&& is_word(u[v]) == (p == 1)
            &&& run_end(u, v, CharClass::Word) == v + p
            &&& run_end(u, v + p, CharClass::Space) == v + p + 1
            &&& u[v + p] == ' '
            &&& u[v + p + 1] == '#'
            &&& u[v + p + 2] == '!'
            &&& u.subrange(ls, ls + name.len()) == name
            &&& u[e - 1] == ' '
            &&& u[e] == '\n'
        }),
{
    let rep = assignment_text(d, z, pf, name);
    let a = f + d.len();
    let v = a + z.len();
    let p = pf.len() as int;
    let ls = v + p + 3;
    let e = ls + name.len() + 1;
    assert forall|x: int| f <= x < f + rep.len() implies #[trigger] u[x] == rep[x - f] by {
        assert(u[x] == u.subrange(f, f + rep.len())[x - f]);
    }
    assert(run_end(u, f, CharClass::Divider) == a) by {
        assert forall|x: int| f <= x < a implies #[trigger] in_class(CharClass::Divider, u[x]) by {
            assert(u[x] == rep[x - f]);
            assert(rep[x - f] == d[x - f]);
        }
        assert(u[a] == rep[a - f]);
        assert(u[a] == z[0]);
        lemma_class_facts(z[0]);
        lemma_run_end_at(u, f, CharClass::Divider, a);
    }
    assert(in_class(CharClass::Divider, u[f])) by {
        assert(u[f] == rep[0]);
        assert(rep[0] == d[0]);
    }
    assert(in_class(CharClass::Value, u[a])) by {
        assert(u[a] == rep[a - f]);
        assert(u[a] == z[0]);
    }
    assert(u[v + p] == ' ' && u[v + p + 1] == '#' && u[v + p + 2] == '!') by {
        assert(u[v + p] == rep[v + p - f]);
        assert(u[v + p + 1] == rep[v + p + 1 - f]);
        assert(u[v + p + 2] == rep[v + p + 2 - f]);
    }
    assert(p == 1 ==> u[v] == pf[0]) by {
        assert(u[v] == rep[v - f]);
    }
    assert(run_end(u, a, CharClass::Value) == v) by {
        assert forall|x: int| a <= x < v implies #[trigger] in_class(CharClass::Value, u[x]) by {
            assert(u[x] == rep[x - f]);
            assert(rep[x - f] == z[x - a]);
        }
        lemma_class_facts(' ');
        lemma_run_end_at(u, a, CharClass::Value, v);
    }
    assert(is_word(u[v]) == (p == 1) && run_end(u, v, CharClass::Word) == v + p) by {
        lemma_class_facts(' ');
        lemma_run_end_at(u, v, CharClass::Word, v + p);
    }
    assert(run_end(u, v + p, CharClass::Space) == v + p + 1) by {
        lemma_class_facts(' ');
        lemma_class_facts('#');
        lemma_run_end_at(u, v + p, CharClass::Space, v + p + 1);
    }
    assert(u.subrange(ls, ls + name.len()) =~= name) by {
        assert forall|j: int| 0 <= j < name.len() implies #[trigger] u[ls + j] == name[j] by {
            assert(u[ls + j] == rep[ls + j - f]);
        }
    }
    assert(u[e - 1] == ' ' && u[e] == '\n') by {
        assert(u[e - 1] == rep[e - 1 - f]);
        assert(u[e] == rep[e - f]);
    }
    assert forall|x: int| f <= x < a implies #[trigger] u[x] == d[x - f] by {
        assert(u[x] == rep[x - f]);
    }
    assert forall|x: int| a <= x < v implies #[trigger] u[x] == z[x - a] by {
        assert(u[x] == rep[x - f]);
    }
}

/// A rewritten assignment is found again as an assignment of its name, and
/// read as an annotation it gives its number under its name.
proof fn lemma_assignment_found(u: Seq<char>, f: int, d: Seq<char>, z: Seq<char>, pf: Seq<char>, name: Seq<char>)
    requires
        0 <= f,
        f + assignment_text(d, z, pf, name).len() <= u.len(),
        u.subrange(f, f + assignment_text(d, z, pf, name).len()) == assignment_text(d, z, pf, name),
        parts_ok(d, pf),
        is_number_text(z),
    ensures
        change_at(u, f, name) == Some(
            (
                f + d.len(),
                f + d.len() + z.len(),
                f + d.len() + z.len() + pf.len(),
                f + assignment_text(d, z, pf, name).len(),
            ),
        ),
        (forall|j: int| 0 <= j < name.len() ==> name[j] != '\n') ==> ({
            let v = f + d.len() + z.len();
            let ls = v + pf.len() + 3;
            let e = ls + name.len() + 1;
            &&& var_match_at(u, f + d.len()) == Some((v, ls, e))
            &&& u.subrange(ls, e) == name + seq![' ']
        }),
{
    lemma_assignment_layout(u, f, d, z, pf, name);
    let a = f + d.len();
    let v = a + z.len();
    let p = pf.len() as int;
    let ls = v + p + 3;
    let e = ls + name.len() + 1;
    assert(holds_at(u, ls, name));
    assert(run_end(u, ls + name.len(), CharClass::LineSpace) == e) by {
        lemma_class_facts(' ');
        lemma_class_facts('\n');
        lemma_run_end_at(u, ls + name.len(), CharClass::LineSpace, e);
    }
    assert(u.subrange(ls, e) =~= name + seq![' ']) by {
        assert forall|j: int| 0 <= j < name.len() implies #[trigger] u[ls + j] == name[j] by {
            assert(u[ls + j] == u.subrange(ls, ls + name.len())[j]);
        }
    }
    if forall|j: int| 0 <= j < name.len() ==> name[j] != '\n' {
        assert forall|x: int| ls <= x < e implies in_class(CharClass::NotNewline, #[trigger] u[x]) by {
            if x < e - 1 {
                assert(u[x] == u.subrange(ls, ls + name.len())[x - ls]);
            }
        }
        lemma_run_end_at(u, ls, CharClass::NotNewline, e);
    }
}

/// A divider written on one line.
pub open spec fn one_line(d: Seq<char>) -> bool {
    forall|j: int| 0 <= j < d.len() ==> #[trigger] d[j] != '\n'
}

/// A name without `#`.
pub open spec fn hash_free(name: Seq<char>) -> bool {
    forall|j: int| 0 <= j < name.len() ==> #[trigger] name[j] != '#'
}

/// The white-space run that starts at a rewritten assignment stops inside
/// its divider or at its number, on a character other than `#`.
proof fn lemma_divider_runs(u: Seq<char>, f: int, d: Seq<char>, z: Seq<char>, pf: Seq<char>, name: Seq<char>)
    requires
        0 <= f,
        f + assignment_text(d, z, pf, name).len() <= u.len(),
        u.subrange(f, f + assignment_text(d, z, pf, name).len()) == assignment_text(d, z, pf, name),
        parts_ok(d, pf),
        is_number_text(z),
    ensures
        !is_word(u[f]),
        f <= run_end(u, f, CharClass::Space) <= f + d.len(),
        u[run_end(u, f, CharClass::Space)] != '#',
{
    lemma_assignment_layout(u, f, d, z, pf, name);
    let a = f + d.len();
    lemma_class_facts(u[f]);
    lemma_class_facts(u[a]);
    lemma_run_end(u, f, CharClass::Space);
    let h = run_end(u, f, CharClass::Space);
    if h > a {
        assert(in_class(CharClass::Space, u[a]));
    }
    if h < a {
        assert(u[h] == d[h - f]);
        lemma_class_facts(d[h - f]);
    }
}

/// A run of white space other than new lines that starts in a rewritten
/// assignment with a one-line divider, no later than its `#`, stops on a
/// character that is not a new line.
proof fn lemma_tail_run(
    u: Seq<char>,
    f: int,
    d: Seq<char>,
    z: Seq<char>,
    pf: Seq<char>,
    name: Seq<char>,
    h0: int,
)
    requires
        0 <= f <= h0 <= f + d.len() + z.len() + pf.len() + 1,
        f + assignment_text(d, z, pf, name).len() <= u.len(),
        u.subrange(f, f + assignment_text(d, z, pf, name).len()) == assignment_text(d, z, pf, name),
        parts_ok(d, pf),
        one_line(d),
        is_number_text(z),
    ensures
        run_end(u, h0, CharClass::LineSpace) < u.len(),
        u[run_end(u, h0, CharClass::LineSpace)] != '\n',
{
    lemma_assignment_layout(u, f, d, z, pf, name);
    let a = f + d.len();
    let v = a + z.len();
    let sp = v + pf.len();
    lemma_run_end(u, h0, CharClass::LineSpace);
    let h = run_end(u, h0, CharClass::LineSpace);
    lemma_class_facts('#');
    lemma_class_facts(' ');
    if h > sp + 1 {
        assert(in_class(CharClass::LineSpace, u[sp + 1]));
    }
    if h < a {
        assert(u[h] == d[h - f]);
    } else if h < v {
        assert(u[h] == z[h - a]);
        lemma_class_facts(z[h - a]);
    } else if h < sp {
        lemma_class_facts(u[h]);
    }
}

/// No reference to a name without `#` starts inside the divider of a
/// rewritten assignment with a one-line divider.
proof fn lemma_name_tail_in_divider(
    u: Seq<char>,
    f: int,
    d: Seq<char>,
    z: Seq<char>,
    pf: Seq<char>,
    name: Seq<char>,
    p: int,
)
    requires
        0 <= f <= p <= f + d.len(),
        f + assignment_text(d, z, pf, name).len() <= u.len(),
        u.subrange(f, f + assignment_text(d, z, pf, name).len()) == assignment_text(d, z, pf, name),
        parts_ok(d, pf),
        one_line(d),
        is_number_text(z),
        hash_free(name),
    ensures
        name_tail(u, p, name) is None,
    decreases f + d.len() - p,
{
    lemma_assignment_layout(u, f, d, z, pf, name);
    let a = f + d.len();
    let v = a + z.len();
    let hash = v + pf.len() + 1;
    let w = name.len() as int;
    if holds_at(u, p, name) {
        assert(p + w <= hash) by {
            if p + w > hash {
                assert(name[hash - p] == u.subrange(p, p + w)[hash - p]);
            }
        }
        lemma_tail_run(u, f, d, z, pf, name, p + w);
    }
    if p < a {
        if is_space(u[p]) {
            lemma_name_tail_in_divider(u, f, d, z, pf, name, p + 1);
        }
    } else {
        lemma_class_facts(u[a]);
    }
}

/// A reference to a name without `#` that is not found before the divider
/// of an assignment is not found either when that divider and the text after
/// it are replaced by a rewritten assignment with a one-line divider.
proof fn lemma_name_tail_no_new(
    t: Seq<char>,
    k: int,
    u: Seq<char>,
    e: int,
    f: int,
    d: Seq<char>,
    z: Seq<char>,
    pf: Seq<char>,
    name: Seq<char>,
)
    requires
        0 <= k <= e < t.len(),
        0 <= k - e + f,
        forall|x: int| k <= x < e ==> #[trigger] t[x] == u[x - e + f],
        in_class(CharClass::Divider, t[e]),
        0 <= f,
        f + assignment_text(d, z, pf, name).len() <= u.len(),
        u.subrange(f, f + assignment_text(d, z, pf, name).len()) == assignment_text(d, z, pf, name),
        parts_ok(d, pf),
        one_line(d),
        is_number_text(z),
        hash_free(name),
        name_tail(t, k, name) is None,
    ensures
        name_tail(u, k - e + f, name) is None,
    decreases e - k,
{
    let k2 = k - e + f;
    let w = name.len() as int;
    lemma_assignment_layout(u, f, d, z, pf, name);
    if k == e {
        lemma_name_tail_in_divider(u, f, d, z, pf, name, f);
    } else {
        if holds_at(u, k2, name) {
            if k + w > e {
                let hash = f + d.len() + z.len() + pf.len() + 1;
                assert(k2 + w <= hash) by {
                    if k2 + w > hash {
                        assert(name[hash - k2] == u.subrange(k2, k2 + w)[hash - k2]);
                    }
                }
                lemma_tail_run(u, f, d, z, pf, name, k2 + w);
            } else {
                assert(u.subrange(k2, k2 + w) =~= t.subrange(k, k + w)) by {
                    assert forall|x: int| 0 <= x < w implies #[trigger] u.subrange(k2, k2 + w)[x]
                        == t.subrange(k, k + w)[x] by {
                        assert(t[k + x] == u[k + x - e + f]);
                    }
                }
                lemma_run_end(t, k + w, CharClass::LineSpace);
                let ht = run_end(t, k + w, CharClass::LineSpace);
                if ht < e {
                    assert forall|x: int| k2 + w <= x < ht - e + f implies in_class(
                        CharClass::LineSpace,
                        #[trigger] u[x],
                    ) by {
                        assert(t[x + e - f] == u[x]);
                    }
                    assert(t[ht] == u[ht - e + f]);
                    lemma_run_end_at(u, k2 + w, CharClass::LineSpace, ht - e + f);
                } else {
                    assert forall|x: int| k2 + w <= x < f implies in_class(
                        CharClass::LineSpace,
                        #[trigger] u[x],
                    ) by {
                        assert(t[x + e - f] == u[x]);
                    }
                    lemma_run_end_through(u, k2 + w, CharClass::LineSpace, f);
                    lemma_tail_run(u, f, d, z, pf, name, f);
                }
            }
        }
        assert(t[k] == u[k2]);
        if is_space(t[k]) {
            lemma_name_tail_no_new(t, k + 1, u, e, f, d, z, pf, name);
        }
    }
}

/// An attempt at `i` that fails before the assignment that starts at `e`
/// fails as well when that assignment is replaced by a rewritten one with a
/// one-line divider, for a name without `#`.
proof fn lemma_no_new_change(
    t: Seq<char>,
    i: int,
    u: Seq<char>,
    e: int,
    f: int,
    d: Seq<char>,
    z: Seq<char>,
    pf: Seq<char>,
    name: Seq<char>,
)
    requires
        0 <= i < e < t.len(),
        0 <= i - e + f,
        forall|x: int| i <= x < e ==> #[trigger] t[x] == u[x - e + f],
        0 <= f,
        f + assignment_text(d, z, pf, name).len() <= u.len(),
        u.subrange(f, f + assignment_text(d, z, pf, name).len()) == assignment_text(d, z, pf, name),
        parts_ok(d, pf),
        one_line(d),
        is_number_text(z),
        hash_free(name),
        change_at(t, i, name) is None,
        change_at(t, e, name) is Some,
    ensures
        change_at(u, i - e + f, name) is None,
{
    let j = i - e + f;
    let dl = f - e;
    lemma_assignment_layout(u, f, d, z, pf, name);
    lemma_divider_runs(u, f, d, z, pf, name);
    lemma_class_facts(t[e]);
    lemma_class_facts(u[f]);
    assert(t[i] == u[j]);
    if in_class(CharClass::Divider, t[i]) {
        lemma_run_end(t, i, CharClass::Divider);
        let at = run_end(t, i, CharClass::Divider);
        assert(at < e) by {
            if at >= e {
                assert forall|x: int| i <= x < e implies in_class(CharClass::Divider, #[trigger] t[x]) by {}
                lemma_run_end_through(t, i, CharClass::Divider, e);
                assert(change_at(t, i, name) == change_at(t, e, name));
            }
        }
        assert(t[at] == u[at + dl]);
        assert forall|x: int| j <= x < at + dl implies in_class(CharClass::Divider, #[trigger] u[x]) by {
            assert(t[x - dl] == u[x]);
        }
        lemma_run_end_at(u, j, CharClass::Divider, at + dl);
        if in_class(CharClass::Value, t[at]) {
            lemma_run_end(t, at, CharClass::Value);
            let mt = run_end(t, at, CharClass::Value);
            assert(mt <= e) by {
                if mt > e {
                    assert(in_class(CharClass::Value, t[e]));
                }
            }
            assert forall|x: int| at + dl <= x < mt + dl implies in_class(CharClass::Value, #[trigger] u[x]) by {
                assert(t[x - dl] == u[x]);
            }
            if mt < e {
                assert(t[mt] == u[mt + dl]);
            }
            lemma_run_end_at(u, at + dl, CharClass::Value, mt + dl);
            lemma_run_end(t, mt, CharClass::Word);
            let qt = run_end(t, mt, CharClass::Word);
            if qt < e {
                assert forall|x: int| mt + dl <= x < qt + dl implies in_class(CharClass::Word, #[trigger] u[x]) by {
                    assert(t[x - dl] == u[x]);
                }
                assert(t[qt] == u[qt + dl]);
                lemma_run_end_at(u, mt + dl, CharClass::Word, qt + dl);
                lemma_run_end(t, qt, CharClass::Space);
                let rt = run_end(t, qt, CharClass::Space);
                if rt < e {
                    assert forall|x: int| qt + dl <= x < rt + dl implies in_class(CharClass::Space, #[trigger] u[x]) by {
                        assert(t[x - dl] == u[x]);
                    }
                    assert(t[rt] == u[rt + dl]);
                    lemma_run_end_at(u, qt + dl, CharClass::Space, rt + dl);
                    if rt + 1 < e {
                        assert(t[rt + 1] == u[rt + 1 + dl]);
                        if t[rt] == '#' && t[rt + 1] == '!' {
                            lemma_name_tail_no_new(t, rt + 2, u, e, f, d, z, pf, name);
                        }
                    }
                } else {
                    assert forall|x: int| qt + dl <= x < f implies in_class(CharClass::Space, #[trigger] u[x]) by {
                        assert(t[x - dl] == u[x]);
                    }
                    lemma_run_end_through(u, qt + dl, CharClass::Space, f);
                }
            } else {
                assert forall|x: int| mt + dl <= x < f implies in_class(CharClass::Word, #[trigger] u[x]) by {
                    assert(t[x - dl] == u[x]);
                }
                lemma_run_end_through(u, mt + dl, CharClass::Word, f);
                lemma_run_end_at(u, f, CharClass::Word, f);
            }
        }
    }
}

/// Setting the parameter again, in text that was set with the same divider
/// and prefix, gives what setting it once gives.
proof fn lemma_change_twice_from(
    t: Seq<char>,
    i: int,
    u: Seq<char>,
    j: int,
    d: Seq<char>,
    pf: Seq<char>,
    name: Seq<char>,
    x: Seq<char>,
    y: Seq<char>,
)
    requires
        0 <= i <= t.len(),
        0 <= j <= u.len(),
        u.subrange(j, u.len() as int) == replace_from(t, i, name, assignment_text(d, x, pf, name)),
        parts_ok(d, pf),
        one_line(d),
        hash_free(name),
        is_number_text(x),
        is_number_text(y),
    ensures
        replace_from(u, j, name, assignment_text(d, y, pf, name)) == replace_from(
            t,
            i,
            name,
            assignment_text(d, y, pf, name),
        ),
    decreases t.len() - i,
{
    let rx = assignment_text(d, x, pf, name);
    let ry = assignment_text(d, y, pf, name);
    let us = u.subrange(j, u.len() as int);
    if i >= t.len() {
        assert(us.len() == 0);
    } else {
        match change_at(t, i, name) {
            Some((a, m, pe, end)) => {
                lemma_change_at(t, i, name);
                assert(us == rx + replace_from(t, end, name, rx));
                assert(u.subrange(j, j + rx.len()) =~= rx) by {
                    assert forall|k: int| 0 <= k < rx.len() implies #[trigger] u.subrange(j, j + rx.len())[k]
                        == rx[k] by {
                        assert(u[j + k] == us[k]);
                    }
                }
                lemma_assignment_found(u, j, d, x, pf, name);
                assert(u.subrange(j + rx.len(), u.len() as int) =~= replace_from(t, end, name, rx)) by {
                    assert forall|k: int| 0 <= k < u.len() - (j + rx.len()) implies #[trigger] u.subrange(
                        j + rx.len(),
                        u.len() as int,
                    )[k] == replace_from(t, end, name, rx)[k] by {
                        assert(u[j + rx.len() + k] == us[rx.len() + k]);
                    }
                }
                lemma_change_twice_from(t, end, u, j + rx.len(), d, pf, name, x, y);
            },
            None => {
                assert(us == seq![t[i]] + replace_from(t, i + 1, name, rx));
                assert(u[j] == t[i]) by {
                    assert(u[j] == us[0]);
                }
                match first_change(t, i + 1, name) {
                    None => {
                        lemma_replace_without_change(t, i + 1, name, rx);
                        assert(t.subrange(i, t.len() as int) =~= us);
                        lemma_change_at_agree(t, i, u, j, name);
                    },
                    Some((s2, a2, m2, pe2, end2)) => {
                        lemma_first_change_found(t, i + 1, name);
                        lemma_replace_up_to_first(t, i + 1, name, rx);
                        let f = j + (s2 - i);
                        assert(us == seq![t[i]] + t.subrange(i + 1, s2) + rx + replace_from(t, end2, name, rx));
                        assert forall|k: int| i <= k < s2 implies #[trigger] t[k] == u[k - s2 + f] by {
                            assert(u[k - s2 + f] == us[k - i]);
                        }
                        assert(u.subrange(f, f + rx.len()) =~= rx) by {
                            assert forall|k: int| 0 <= k < rx.len() implies #[trigger] u.subrange(f, f + rx.len())[k]
                                == rx[k] by {
                                assert(u[f + k] == us[s2 - i + k]);
                            }
                        }
                        lemma_no_new_change(t, i, u, s2, f, d, x, pf, name);
                    },
                }
                assert(u.subrange(j + 1, u.len() as int) =~= replace_from(t, i + 1, name, rx)) by {
                    assert forall|k: int| 0 <= k < u.len() - (j + 1) implies #[trigger] u.subrange(
                        j + 1,
                        u.len() as int,
                    )[k] == replace_from(t, i + 1, name, rx)[k] by {
                        assert(u[j + 1 + k] == us[1 + k]);
                    }
                }
                lemma_change_twice_from(t, i + 1, u, j + 1, d, pf, name, x, y);
            },
        }
    }
}

/// Where the first assignment of `n` at or after `i` starts.
pub open spec fn first_start(t: Seq<char>, i: int, n: Seq<char>) -> int {
    match first_change(t, i, n) {
        Some((s, a, m, pe, end)) => s,
        None => t.len() as int,
    }
}

/// Before the first assignment, setting the parameter makes no new one.
proof fn lemma_first_change_kept(
    t: Seq<char>,
    u: Seq<char>,
    p: int,
    d: Seq<char>,
    pf: Seq<char>,
    name: Seq<char>,
    x: Seq<char>,
)
    requires
        0 <= p,
        first_change(t, p, name) is Some,
        ({
            let s0 = first_start(t, p, name);
            &&& p <= s0
            &&& forall|k: int| p <= k < s0 ==> #[trigger] u[k] == t[k]
            &&& s0 + assignment_text(d, x, pf, name).len() <= u.len()
            &&& u.subrange(s0, s0 + assignment_text(d, x, pf, name).len()) == assignment_text(d, x, pf, name)
        }),
        parts_ok(d, pf),
        one_line(d),
        hash_free(name),
        is_number_text(x),
    ensures
        ({
            let s0 = first_start(t, p, name);
            first_change(u, p, name) == Some(
                (
                    s0,
                    s0 + d.len(),
                    s0 + d.len() + x.len(),
                    s0 + d.len() + x.len() + pf.len(),
                    s0 + assignment_text(d, x, pf, name).len(),
                ),
            )
        }),
    decreases first_start(t, p, name) - p,
{
    lemma_first_change_found(t, p, name);
    let s0 = first_start(t, p, name);
    if p == s0 {
        lemma_assignment_found(u, s0, d, x, pf, name);
    } else {
        assert(change_at(t, p, name) is None);
        assert(first_change(t, p + 1, name) == first_change(t, p, name));
        lemma_no_new_change(t, p, u, s0, s0, d, x, pf, name);
        lemma_first_change_kept(t, u, p + 1, d, pf, name, x);
    }
}

/// Law (a later change overrides an earlier one): setting a parameter to
/// `x` and then to `y` gives the netlist that setting it to `y` gives.
/// This holds for a name without quotes or `#`, when the divider of the
/// first assignment is written on one line.  Each condition leaves out
/// inputs on which the law fails: a quoted name is written back with its
/// quotes, which the second change does not find; a divider that holds a new
/// line, written into a later assignment, can complete an earlier line into
/// one more assignment, which the second change rewrites too; and a name
/// that holds `#!` can be completed the same way by the new number.
pub proof fn lemma_later_change_overrides(t: Seq<char>, name: Seq<char>, x: Seq<char>, y: Seq<char>)
    requires
        first_change(t, 0, without_quotes(name)) is Some,
        without_quotes(name) == name,
        hash_free(name),
        ({
            let (s, a, m, pe, end) = first_change(t, 0, name)->0;
            one_line(t.subrange(s, a))
        }),
        is_number_text(x),
        is_number_text(y),
    ensures
        variable_changer_spec(t, name, x) is Some,
        variable_changer_spec(variable_changer_spec(t, name, x)->0, name, y) == variable_changer_spec(
            t,
            name,
            y,
        ),
{
    let (s, a, m, pe, end) = first_change(t, 0, name)->0;
    lemma_first_change_found(t, 0, name);
    lemma_change_at(t, s, name);
    lemma_run_end(t, s, CharClass::Divider);
    lemma_run_end(t, a, CharClass::Value);
    let d = t.subrange(s, a);
    let pf = t.subrange(m, pe);
    assert(parts_ok(d, pf));
    let rx = assignment_text(d, x, pf, name);
    let ry = assignment_text(d, y, pf, name);
    assert(rx =~= t.subrange(s, a) + x + t.subrange(m, pe) + seq![' ', '#', '!'] + name + seq![' ', '\n']);
    assert(ry =~= t.subrange(s, a) + y + t.subrange(m, pe) + seq![' ', '#', '!'] + name + seq![' ', '\n']);
    lemma_change_keeps_prefix(t, name, x);
    let u = t.subrange(0, s) + rx + replace_from(t, end, name, rx);
    assert(variable_changer_spec(t, name, x) == Some(u));
    assert(u == replace_from(t, 0, name, rx));
    assert(u.subrange(s, s + rx.len()) =~= rx);
    assert forall|k: int| 0 <= k < s implies #[trigger] u[k] == t[k] by {}
    lemma_first_change_kept(t, u, 0, d, pf, name, x);
    lemma_assignment_layout(u, s, d, x, pf, name);
    let v = a + x.len();
    assert(u.subrange(s, a) =~= d);
    assert(u.subrange(v, v + pf.len()) =~= pf) by {
        assert forall|k: int| 0 <= k < pf.len() implies #[trigger] u.subrange(v, v + pf.len())[k] == pf[k] by {
            assert(u[v + k] == rx[v + k - s]);
        }
    }
    assert(u.subrange(s, a) + y + u.subrange(v, v + pf.len()) + seq![' ', '#', '!'] + name + seq![' ', '\n']
        == ry);
    assert(u.subrange(0, u.len() as int) =~= u);
    lemma_change_twice_from(t, 0, u, 0, d, pf, name, x, y);
}

proof fn lemma_name_tail_newline(t: Seq<char>, k: int, n: Seq<char>)
    requires
        0 <= k,
    ensures
        name_tail(t, k, n) matches Some(end) ==> k < end <= t.len() && t[end - 1] == '\n',
    decreases t.len() - k,
{
    lemma_name_tail(t, k, n);
    if 0 <= k <= t.len() {
        if holds_at(t, k, n) {
            lemma_run_end(t, k + n.len(), CharClass::LineSpace);
        }
        if k < t.len() {
            lemma_name_tail_newline(t, k + 1, n);
        }
    }
}

/// Reading annotations before position `a` gives the same in two texts that
/// agree before `a`, when `a` follows a divider `[s, a)` and starts a
/// number in both, and a new line comes at or after `a` in the first.
proof fn lemma_scan_transfer(t: Seq<char>, u: Seq<char>, i: int, s: int, a: int, g: int)
    requires
        0 <= i,
        0 <= s < a <= g < t.len(),
        a < u.len(),
        scan_reaches(t, i, a),
        forall|k: int| 0 <= k < a ==> #[trigger] u[k] == t[k],
        forall|k: int| s <= k < a ==> in_class(CharClass::Divider, #[trigger] t[k]),
        in_class(CharClass::Value, t[a]),
        in_class(CharClass::Value, u[a]),
        t[g] == '\n',
    ensures
        scan_reaches(u, i, a),
        scan_before(u, i, a) == scan_before(t, i, a),
    decreases a - i,
{
    if i < a {
        lemma_var_match_at(t, i);
        lemma_class_facts(t[a]);
        lemma_class_facts(u[a]);
        lemma_class_facts(t[i]);
        match var_match_at(t, i) {
            Some((m, ls, e)) => {
                lemma_run_end(t, i, CharClass::Value);
                lemma_run_end(t, m, CharClass::Word);
                let q = run_end(t, m, CharClass::Word);
                lemma_run_end(t, q, CharClass::Space);
                let r = run_end(t, q, CharClass::Space);
                lemma_run_end(t, r + 2, CharClass::NotNewline);
                lemma_run_end_at(u, i, CharClass::Value, m);
                lemma_run_end_at(u, m, CharClass::Word, q);
                lemma_run_end_at(u, q, CharClass::Space, r);
                lemma_run_end_at(u, r + 2, CharClass::NotNewline, e);
                assert(var_match_at(u, i) == Some((m, ls, e)));
                assert(u.subrange(ls, e) =~= t.subrange(ls, e));
                assert(u.subrange(i, m) =~= t.subrange(i, m));
                lemma_scan_transfer(t, u, e + 1, s, a, g);
            },
            None => {
                assert(var_match_at(u, i) is None) by {
                    if i < s && in_class(CharClass::Value, t[i]) {
                        lemma_class_facts(t[s]);
                        lemma_run_end(t, i, CharClass::Value);
                        let m = run_end(t, i, CharClass::Value);
                        if m > s {
                            assert(in_class(CharClass::Value, t[s]));
                        }
                        lemma_run_end_at(u, i, CharClass::Value, m);
                        lemma_run_end(t, m, CharClass::Word);
                        let q = run_end(t, m, CharClass::Word);
                        if q > s {
                            assert(is_word(t[s]));
                        }
                        lemma_run_end_at(u, m, CharClass::Word, q);
                        lemma_run_end(t, q, CharClass::Space);
                        let r = run_end(t, q, CharClass::Space);
                        if r > a {
                            assert(is_space(t[a]));
                        }
                        lemma_run_end_at(u, q, CharClass::Space, r);
                        if r < a && r + 1 < a && t[r] == '#' && t[r + 1] == '!' {
                            lemma_class_facts(t[r]);
                            lemma_run_end(t, r + 2, CharClass::NotNewline);
                            let e = run_end(t, r + 2, CharClass::NotNewline);
                            if e > g {
                                assert(t[g] != '\n');
                            }
                            if e < a {
                                lemma_run_end_at(u, r + 2, CharClass::NotNewline, e);
                            } else if e == a {
                                assert(t[a] != '\n');
                            }
                        }
                    }
                }
                lemma_scan_transfer(t, u, i + 1, s, a, g);
            },
        }
    }
}

/// Law (read-back): after a parameter is set, reading the netlist's
/// annotations lists the label `name` followed by a space with the new
/// number, when reading the original netlist came to the number of the
/// first assignment of `name` without an earlier annotation of that label.
pub proof fn lemma_change_is_listed(t: Seq<char>, name: Seq<char>, number: Seq<char>)
    requires
        first_change(t, 0, without_quotes(name)) is Some,
        is_number_text(number),
        forall|j: int| 0 <= j < name.len() ==> name[j] != '\n',
        ({
            let (s, a, m, pe, end) = first_change(t, 0, without_quotes(name))->0;
            &&& scan_reaches(t, 0, a)
            &&& !labels(scan_before(t, 0, a)).contains(name + seq![' '])
        }),
    ensures
        netlist_variables_spec(variable_changer_spec(t, name, number)->0).contains(
            (name + seq![' '], number),
        ),
{
    let n = without_quotes(name);
    let (s, a, m, pe, end) = first_change(t, 0, n)->0;
    lemma_change_reads_back(t, name, number);
    lemma_first_change_found(t, 0, n);
    lemma_change_at(t, s, n);
    lemma_run_end(t, s, CharClass::Divider);
    let u = variable_changer_spec(t, name, number)->0;
    let v = a + number.len();
    let ls = v + (pe - m) + 3;
    let e = ls + name.len() + 1;
    // The first assignment ends with a new line.
    lemma_run_end(t, a, CharClass::Value);
    let q = run_end(t, m, CharClass::Word);
    let r = run_end(t, q, CharClass::Space);
    lemma_run_end(t, m, CharClass::Word);
    lemma_run_end(t, q, CharClass::Space);
    lemma_name_tail_newline(t, r + 2, n);
    assert(t[end - 1] == '\n');
    assert forall|k: int| 0 <= k < a implies #[trigger] u[k] == t[k] by {
        assert(u[k] == u.subrange(0, a)[k]);
    }
    assert forall|k: int| s <= k < a implies in_class(CharClass::Divider, #[trigger] t[k]) by {}
    lemma_var_match_at(u, a);
    assert(u[a] == number[0]) by {
        assert(u[a] == u.subrange(a, v)[0]);
    }
    lemma_scan_transfer(t, u, 0, s, a, end - 1);
    lemma_scan_split(u, 0, a);
    let p = scan_before(u, 0, a);
    let x = (name + seq![' '], number);
    let rest = scan_vars(u, e + 1);
    assert(scan_vars(u, a) == seq![x] + rest);
    assert(scan_vars(u, 0) =~= p + seq![x] + rest);
    lemma_listed_when_new(p, x, rest);
}

fn name_tail_exec(t: &Vec<char>, k0: usize, n: &Vec<char>) -> (r: Option<usize>)
    requires
        k0 <= t.len(),
    ensures
        match r {
            Some(end) => name_tail(t@, k0 as int, n@) == Some(end as int),
            None => name_tail(t@, k0 as int, n@) is None,
        },
{
    let mut k = k0;
    loop
        invariant
            k0 <= k <= t.len(),
            name_tail(t@, k0 as int, n@) == name_tail(t@, k as int, n@),
        decreases t.len() - k,
    {
        if holds_at_exec(t, k, n) {
            let h = run_end_exec(t, k + n.len(), CharClass::LineSpace);
            if h < t.len() && t[h] == '\n' {
                return Some(h + 1);
            }
        }
        if k < t.len() && is_in_class(CharClass::Space, t[k]) {
            k += 1;
        } else {
            return None;
        }
    }
}

fn change_at_exec(t: &Vec<char>, s: usize, n: &Vec<char>) -> (r: Option<(usize, usize, usize, usize)>)
    requires
        s < t.len(),
    ensures
        match r {
            Some((a, m, pe, end)) => change_at(t@, s as int, n@) == Some(
                (a as int, m as int, pe as int, end as int),
            ),
            None => change_at(t@, s as int, n@) is None,
        },
{
    if !is_in_class(CharClass::Divider, t[s]) {
        return None;
    }
    let a = run_end_exec(t, s, CharClass::Divider);
    proof { lemma_run_end(t@, s as int, CharClass::Divider); }
    if a >= t.len() || !is_in_class(CharClass::Value, t[a]) {
        return None;
    }
    let m = run_end_exec(t, a, CharClass::Value);
    proof { lemma_run_end(t@, a as int, CharClass::Value); }
    let pe = if m < t.len() && is_in_class(CharClass::Word, t[m]) {
        m + 1
    } else {
        m
    };
    let q = run_end_exec(t, m, CharClass::Word);
    proof { lemma_run_end(t@, m as int, CharClass::Word); }
    let r = run_end_exec(t, q, CharClass::Space);
    proof { lemma_run_end(t@, q as int, CharClass::Space); }
    if r < t.len() && t.len() - r > 1 && t[r] == '#' && t[r + 1] == '!' {
        match name_tail_exec(t, r + 2, n) {
            Some(end) => Some((a, m, pe, end)),
            None => None,
        }
    } else {
        None
    }
}

fn first_change_exec(t: &Vec<char>, n: &Vec<char>) -> (r: Option<(usize, usize, usize, usize, usize)>)
    ensures
        match r {
            Some((s, a, m, pe, end)) => first_change(t@, 0, n@) == Some(
                (s as int, a as int, m as int, pe as int, end as int),
            ) && change_at(t@, s as int, n@) == Some((a as int, m as int, pe as int, end as int)),
            None => first_change(t@, 0, n@) is None,
        },
{
    let mut s: usize = 0;
    while s < t.len()
        invariant
            s <= t.len(),
            first_change(t@, 0, n@) == first_change(t@, s as int, n@),
        decreases t.len() - s,
    {
        match change_at_exec(t, s, n) {
            Some((a, m, pe, end)) => {
                return Some((s, a, m, pe, end));
            },
            None => {
                s += 1;
            },
        }
    }
    None
}

pub fn drop_quotes(n: &Vec<char>) -> (r: Vec<char>)
    ensures
        r@ == without_quotes(n@),
{
    let mut r: Vec<char> = Vec::new();
    let mut i: usize = 0;
    while i < n.len()
        invariant
            i <= n.len(),
            r@ == without_quotes(n@.take(i as int)),
        decreases n.len() - i,
    {
        proof {
            assert(n@.take(i + 1).drop_last() =~= n@.take(i as int));
            n@.take(i as int).lemma_filter_push(n@[i as int], not_quote());
            assert(n@.take(i + 1) =~= n@.take(i as int).push(n@[i as int]));
        }
        if n[i] != '"' {
            r.push(n[i]);
        }
        i += 1;
    }
    assert(n@.take(n.len() as int) =~= n@);
    r
}

/// Sets the annotated parameter `name` of a netlist to the number written
/// `number`: every assignment of `name` is rewritten, using the divider and
/// unit prefix of the first one.
pub fn variable_changer(netlist: &str, name: &str, number: &str) -> (r: Result<String, ChangeError>)
    ensures
        match variable_changer_spec(netlist@, name@, number@) {
            Some(s) => r matches Ok(out) && out@ == s,
            None => r == Err::<String, ChangeError>(ChangeError::TargetNotFound),
        },
{
    let name_chars = chars_of(name);
    let t = chars_of(netlist);
    let num = chars_of(number);
    let n = drop_quotes(&name_chars);
    // The first assignment supplies the divider and the prefix.
    let (s, a, m, pe) = match first_change_exec(&t, &n) {
        Some((s, a, m, pe, _)) => (s, a, m, pe),
        None => {
            return Err(ChangeError::TargetNotFound);
        },
    };
    proof { lemma_change_at(t@, s as int, n@); }
    let mut rep: Vec<char> = Vec::new();
    push_range(&mut rep, &t, s, a);
    push_all(&mut rep, &num);
    push_range(&mut rep, &t, m, pe);
    rep.push(' ');
    rep.push('#');
    rep.push('!');
    push_all(&mut rep, &name_chars);
    rep.push(' ');
    rep.push('\n');
    assert(rep@ =~= t@.subrange(s as int, a as int) + num@ + t@.subrange(m as int, pe as int)
        + seq![' ', '#', '!'] + name@ + seq![' ', '\n']);
    // Every assignment is replaced.
    let mut out: Vec<char> = Vec::new();
    let mut i: usize = 0;
    while i < t.len()
        invariant
            i <= t.len(),
            replace_from(t@, 0, n@, rep@) == out@ + replace_from(t@, i as int, n@, rep@),
        decreases t.len() - i,
    {
        let ghost before = out@;
        match change_at_exec(&t, i, &n) {
            Some((_, _, _, end)) => {
                proof { lemma_change_at(t@, i as int, n@); }
                push_all(&mut out, &rep);
                assert(out@ + replace_from(t@, end as int, n@, rep@) =~= before + replace_from(
                    t@,
                    i as int,
                    n@,
                    rep@,
                ));
                i = end;
            },
            None => {
                out.push(t[i]);
                assert(out@ + replace_from(t@, i + 1, n@, rep@) =~= before + replace_from(
                    t@,
                    i as int,
                    n@,
                    rep@,
                ));
                i += 1;
            },
        }
    }
    assert(out@ + replace_from(t@, t.len() as int, n@, rep@) =~= out@);
    Ok(string_of(&out))
}

} // verus!
