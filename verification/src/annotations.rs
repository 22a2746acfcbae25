//! `#!name` annotations in a JoSIM netlist.
//!
//! A line such as `.param bias=20 #!bias` marks the number before `#!` as a
//! circuit parameter called `bias` whose margins are to be measured.  The
//! grammar of an annotation is
//!
//! ```text
//! value  := (digit | '.')+
//! annot  := value word* space* "#!" label '\n'
//! label  := (any character but '\n')+
//! ```
//!
//! where a match may start anywhere, the earliest match is taken first and the
//! next search starts after the new line that ends a match.
use vstd::prelude::*;
use crate::scan::{CharClass, in_class, run_end, lemma_run_end, is_in_class, run_end_exec};
use crate::text::{chars_of, string_of, slice_string};

verus! {

/// An annotated value found at `s`: the end of its digits, and the start and
/// end of its label (the label ends at a new line).
pub open spec fn var_match_at(t: Seq<char>, s: int) -> Option<(int, int, int)> {
    if 0 <= s < t.len() && in_class(CharClass::Value, t[s]) {
        let m = run_end(t, s, CharClass::Value);
        let q = run_end(t, m, CharClass::Word);
        let r = run_end(t, q, CharClass::Space);
        if r + 1 < t.len() && t[r] == '#' && t[r + 1] == '!' {
            let e = run_end(t, r + 2, CharClass::NotNewline);
            if r + 2 < e < t.len() {
                Some((m, r + 2, e))
            } else {
                None
            }
        } else {
            None
        }
    } else {
        None
    }
}

pub proof fn lemma_var_match_at(t: Seq<char>, s: int)
    ensures
        var_match_at(t, s) matches Some((m, ls, e)) ==> {
            &&& s < m < ls < e < t.len()
            &&& t[e] == '\n'
            &&& forall|j: int| s <= j < m ==> in_class(CharClass::Value, #[trigger] t[j])
        },
{
    if 0 <= s < t.len() && in_class(CharClass::Value, t[s]) {
        let m = run_end(t, s, CharClass::Value);
        lemma_run_end(t, s, CharClass::Value);
        let q = run_end(t, m, CharClass::Word);
        lemma_run_end(t, m, CharClass::Word);
        let r = run_end(t, q, CharClass::Space);
        lemma_run_end(t, q, CharClass::Space);
        if r + 1 < t.len() && t[r] == '#' && t[r + 1] == '!' {
            lemma_run_end(t, r + 2, CharClass::NotNewline);
        }
    }
}

/// Every annotated value of `t` from position `i` on, as (label, value text),
/// in the order in which they occur.
pub open spec fn scan_vars(t: Seq<char>, i: int) -> Seq<(Seq<char>, Seq<char>)>
    decreases t.len() - i,
{
    if 0 <= i < t.len() {
        match var_match_at(t, i) {
            Some((m, ls, e)) => {
                proof {
                    lemma_var_match_at(t, i);
                }
                seq![(t.subrange(ls, e), t.subrange(i, m))] + scan_vars(t, e + 1)
            },
            None => scan_vars(t, i + 1),
        }
    } else {
        Seq::empty()
    }
}

pub open spec fn labels(s: Seq<(Seq<char>, Seq<char>)>) -> Seq<Seq<char>> {
    s.map_values(|p: (Seq<char>, Seq<char>)| p.0)
}

/// The entries of `s` whose label does not occur earlier in `s`, in order.
pub open spec fn first_occurrences(s: Seq<(Seq<char>, Seq<char>)>) -> Seq<(Seq<char>, Seq<char>)>
    decreases s.len(),
{
    if s.len() == 0 {
        s
    } else {
        let rest = first_occurrences(s.drop_last());
        if labels(s.drop_last()).contains(s.last().0) {
            rest
        } else {
            rest.push(s.last())
        }
    }
}

/// The annotated parameters of a netlist: each label once, with the value
/// written at its first annotation.
pub open spec fn netlist_variables_spec(t: Seq<char>) -> Seq<(Seq<char>, Seq<char>)> {
    first_occurrences(scan_vars(t, 0))
}

pub open spec fn pairs_view(v: Seq<(String, String)>) -> Seq<(Seq<char>, Seq<char>)> {
    v.map_values(|p: (String, String)| (p.0@, p.1@))
}

pub proof fn lemma_push_contains(s: Seq<Seq<char>>, y: Seq<char>, x: Seq<char>)
    ensures
        s.push(y).contains(x) <==> s.contains(x) || y == x,
{
    if s.push(y).contains(x) {
        let j = choose|j: int| 0 <= j < s.push(y).len() && s.push(y)[j] == x;
        if j < s.len() {
            assert(s[j] == x);
        }
    }
    if s.contains(x) {
        let j = choose|j: int| 0 <= j < s.len() && s[j] == x;
        assert(s.push(y)[j] == x);
    }
    if y == x {
        assert(s.push(y)[s.len() as int] == x);
    }
}

pub proof fn lemma_first_occurrences_labels(s: Seq<(Seq<char>, Seq<char>)>, x: Seq<char>)
    ensures
        labels(first_occurrences(s)).contains(x) <==> labels(s).contains(x),
    decreases s.len(),
{
    if s.len() > 0 {
        let d = s.drop_last();
        lemma_first_occurrences_labels(d, x);
        assert(labels(s) =~= labels(d).push(s.last().0));
        lemma_push_contains(labels(d), s.last().0, x);
        let rest = first_occurrences(d);
        if !labels(d).contains(s.last().0) {
            assert(labels(rest.push(s.last())) =~= labels(rest).push(s.last().0));
            lemma_push_contains(labels(rest), s.last().0, x);
        } else {
            lemma_first_occurrences_labels(d, s.last().0);
        }
    }
}

pub proof fn lemma_first_occurrences_distinct(s: Seq<(Seq<char>, Seq<char>)>)
    ensures
        forall|i: int, j: int|
            0 <= i < j < first_occurrences(s).len() ==> first_occurrences(s)[i].0
                != first_occurrences(s)[j].0,
    decreases s.len(),
{
    if s.len() > 0 {
        let d = s.drop_last();
        lemma_first_occurrences_distinct(d);
        let rest = first_occurrences(d);
        if !labels(d).contains(s.last().0) {
            lemma_first_occurrences_labels(d, s.last().0);
            assert forall|i: int, j: int|
                0 <= i < j < rest.push(s.last()).len() implies rest.push(s.last())[i].0
                != rest.push(s.last())[j].0 by {
                if j == rest.len() {
                    assert(labels(rest)[i] == rest[i].0);
                }
            }
        }
    }
}

proof fn lemma_first_occurrences_first(s: Seq<(Seq<char>, Seq<char>)>)
    ensures
        forall|i: int|
            0 <= i < first_occurrences(s).len() ==> exists|j: int|
                0 <= j < s.len() && s[j] == #[trigger] first_occurrences(s)[i] && forall|k: int|
                    0 <= k < j ==> s[k].0 != first_occurrences(s)[i].0,
    decreases s.len(),
{
    if s.len() > 0 {
        let d = s.drop_last();
        lemma_first_occurrences_first(d);
        let rest = first_occurrences(d);
        let fo = first_occurrences(s);
        assert forall|i: int| 0 <= i < fo.len() implies exists|j: int|
            0 <= j < s.len() && s[j] == #[trigger] fo[i] && forall|k: int|
                0 <= k < j ==> s[k].0 != fo[i].0 by {
            if i < rest.len() {
                assert(fo[i] == rest[i]);
                let j = choose|j: int|
                    0 <= j < d.len() && d[j] == #[trigger] rest[i] && forall|k: int|
                        0 <= k < j ==> d[k].0 != rest[i].0;
                assert(s[j] == d[j]);
                assert forall|k: int| 0 <= k < j implies s[k].0 != fo[i].0 by {
                    assert(s[k] == d[k]);
                }
            } else {
                let j = s.len() - 1;
                assert(fo[i] == s.last());
                assert forall|k: int| 0 <= k < j implies s[k].0 != fo[i].0 by {
                    assert(labels(d)[k] == d[k].0);
                    assert(d[k] == s[k]);
                }
            }
        }
    }
}

/// Law: the parameters of a netlist are listed once each, every annotated
/// label is listed, and each listed value is the one written at the first
/// annotation with that label.
pub proof fn lemma_netlist_variables(t: Seq<char>)
    ensures
        forall|i: int, j: int|
            0 <= i < j < netlist_variables_spec(t).len() ==> netlist_variables_spec(t)[i].0
                != netlist_variables_spec(t)[j].0,
        forall|x: Seq<char>|
            labels(netlist_variables_spec(t)).contains(x) <==> labels(scan_vars(t, 0)).contains(x),
        forall|i: int|
            0 <= i < netlist_variables_spec(t).len() ==> exists|j: int|
                0 <= j < scan_vars(t, 0).len() && scan_vars(t, 0)[j]
                    == #[trigger] netlist_variables_spec(t)[i] && forall|k: int|
                    0 <= k < j ==> scan_vars(t, 0)[k].0 != netlist_variables_spec(t)[i].0,
{
    let s = scan_vars(t, 0);
    lemma_first_occurrences_distinct(s);
    lemma_first_occurrences_first(s);
    assert forall|x: Seq<char>|
        labels(netlist_variables_spec(t)).contains(x) <==> labels(s).contains(x) by {
        lemma_first_occurrences_labels(s, x);
    }
}

/// Reading the annotations of `t` from `i` on comes to position `a`: every
/// annotation read before `a` ends before it.
pub open spec fn scan_reaches(t: Seq<char>, i: int, a: int) -> bool
    decreases a - i,
{
    if i == a {
        true
    } else if 0 <= i < a && i < t.len() {
        match var_match_at(t, i) {
            Some((m, ls, e)) => {
                proof {
                    lemma_var_match_at(t, i);
                }
                e + 1 <= a && scan_reaches(t, e + 1, a)
            },
            None => scan_reaches(t, i + 1, a),
        }
    } else {
        false
    }
}

/// The annotations of `t` read from `i` on before position `a`.
pub open spec fn scan_before(t: Seq<char>, i: int, a: int) -> Seq<(Seq<char>, Seq<char>)>
    decreases a - i,
{
    if 0 <= i < a && i < t.len() {
        match var_match_at(t, i) {
            Some((m, ls, e)) => {
                proof {
                    lemma_var_match_at(t, i);
                }
                if e + 1 <= a {
                    seq![(t.subrange(ls, e), t.subrange(i, m))] + scan_before(t, e + 1, a)
                } else {
                    seq![(t.subrange(ls, e), t.subrange(i, m))]
                }
            },
            None => scan_before(t, i + 1, a),
        }
    } else {
        Seq::empty()
    }
}

pub proof fn lemma_scan_split(t: Seq<char>, i: int, a: int)
    requires
        0 <= i,
        scan_reaches(t, i, a),
    ensures
        scan_vars(t, i) == scan_before(t, i, a) + scan_vars(t, a),
    decreases a - i,
{
    if i == a {
        assert(scan_before(t, i, a) =~= Seq::<(Seq<char>, Seq<char>)>::empty());
        assert(scan_vars(t, i) =~= Seq::<(Seq<char>, Seq<char>)>::empty() + scan_vars(t, a));
    } else {
        lemma_var_match_at(t, i);
        match var_match_at(t, i) {
            Some((m, ls, e)) => {
                lemma_scan_split(t, e + 1, a);
                assert(scan_vars(t, i) =~= scan_before(t, i, a) + scan_vars(t, a));
            },
            None => {
                lemma_scan_split(t, i + 1, a);
            },
        }
    }
}

/// What comes first in a sequence of annotations stays first when more
/// follow.
pub proof fn lemma_first_occurrences_prefix(s: Seq<(Seq<char>, Seq<char>)>, r: Seq<(Seq<char>, Seq<char>)>)
    ensures
        first_occurrences(s).len() <= first_occurrences(s + r).len(),
        first_occurrences(s + r).subrange(0, first_occurrences(s).len() as int) == first_occurrences(s),
    decreases r.len(),
{
    if r.len() == 0 {
        assert(s + r =~= s);
        assert(first_occurrences(s).subrange(0, first_occurrences(s).len() as int) =~= first_occurrences(s));
    } else {
        let r2 = r.drop_last();
        lemma_first_occurrences_prefix(s, r2);
        assert((s + r).drop_last() =~= s + r2);
        assert((s + r).last() == r.last());
        let f1 = first_occurrences(s);
        let f2 = first_occurrences(s + r2);
        let f3 = first_occurrences(s + r);
        assert(f3 == f2 || f3 == f2.push(r.last()));
        assert(f3.subrange(0, f1.len() as int) =~= f2.subrange(0, f1.len() as int));
    }
}

/// An annotation whose label was not read before it is listed among the
/// parameters.
pub proof fn lemma_listed_when_new(
    p: Seq<(Seq<char>, Seq<char>)>,
    x: (Seq<char>, Seq<char>),
    r: Seq<(Seq<char>, Seq<char>)>,
)
    requires
        !labels(p).contains(x.0),
    ensures
        first_occurrences(p + seq![x] + r).contains(x),
{
    let px = p.push(x);
    assert(px.drop_last() =~= p);
    assert(first_occurrences(px) == first_occurrences(p).push(x));
    assert(p + seq![x] =~= px);
    lemma_first_occurrences_prefix(px, r);
    let f = first_occurrences(px + r);
    let k = first_occurrences(p).len() as int;
    assert(f.subrange(0, k + 1)[k] == x);
    assert(f[k] == x);
}

fn var_match_at_exec(t: &Vec<char>, s: usize) -> (r: Option<(usize, usize, usize)>)
    requires
        s < t.len(),
    ensures
        match r {
            Some((m, ls, e)) => var_match_at(t@, s as int) == Some((m as int, ls as int, e as int)),
            None => var_match_at(t@, s as int) is None,
        },
{
    if !is_in_class(CharClass::Value, t[s]) {
        return None;
    }
    let m = run_end_exec(t, s, CharClass::Value);
    proof { lemma_run_end(t@, s as int, CharClass::Value); }
    let q = run_end_exec(t, m, CharClass::Word);
    proof { lemma_run_end(t@, m as int, CharClass::Word); }
    let r = run_end_exec(t, q, CharClass::Space);
    proof { lemma_run_end(t@, q as int, CharClass::Space); }
    if r < t.len() && t.len() - r > 1 && t[r] == '#' && t[r + 1] == '!' {
        let e = run_end_exec(t, r + 2, CharClass::NotNewline);
        if r + 2 < e && e < t.len() {
            Some((m, r + 2, e))
        } else {
            None
        }
    } else {
        None
    }
}

/// Every annotated value of a netlist, as (label, value text) pairs, in the
/// order in which they occur (a label may come more than once).
pub fn annotated_values(netlist: &str) -> (r: Vec<(String, String)>)
    ensures
        pairs_view(r@) == scan_vars(netlist@, 0),
{
    let t = chars_of(netlist);
    let mut found: Vec<(String, String)> = Vec::new();
    let mut i: usize = 0;
    while i < t.len()
        invariant
            i <= t.len(),
            scan_vars(t@, 0) == pairs_view(found@) + scan_vars(t@, i as int),
        decreases t.len() - i,
    {
        let ghost before = found@;
        match var_match_at_exec(&t, i) {
            Some((m, ls, e)) => {
                proof { lemma_var_match_at(t@, i as int); }
                let label = slice_string(&t, ls, e);
                let value = slice_string(&t, i, m);
                found.push((label, value));
                assert(pairs_view(found@) =~= pairs_view(before).push((label@, value@)));
                assert(scan_vars(t@, i as int) == seq![(label@, value@)] + scan_vars(t@, e + 1));
                assert(pairs_view(found@) + scan_vars(t@, e + 1) =~= pairs_view(before)
                    + scan_vars(t@, i as int));
                i = e + 1;
            },
            None => {
                i += 1;
            },
        }
    }
    assert(pairs_view(found@) + scan_vars(t@, t.len() as int) =~= pairs_view(found@));
    found
}

/// The annotated parameters of a netlist, as (label, value text) pairs: each
/// label once, with the value text of its first annotation, in the order of
/// first occurrence.
pub fn netlist_variables(netlist: &str) -> (r: Vec<(String, String)>)
    ensures
        pairs_view(r@) == netlist_variables_spec(netlist@),
{
    let all = annotated_values(netlist);
    unique_by_label(&all)
}

/// The pairs of `s` whose label does not occur earlier in `s`, in order.
pub fn unique_by_label(s: &Vec<(String, String)>) -> (r: Vec<(String, String)>)
    ensures
        pairs_view(r@) == first_occurrences(pairs_view(s@)),
{
    let mut r: Vec<(String, String)> = Vec::new();
    let mut i: usize = 0;
    while i < s.len()
        invariant
            i <= s.len(),
            pairs_view(r@) == first_occurrences(pairs_view(s@).take(i as int)),
        decreases s.len() - i,
    {
        let ghost prefix = pairs_view(s@).take(i as int);
        let mut seen = false;
        let mut j: usize = 0;
        while j < r.len()
            invariant
                j <= r.len(),
                i < s.len(),
                seen <==> exists|l: int| 0 <= l < j && r@[l].0@ == s@[i as int].0@,
            decreases r.len() - j,
        {
            if r[j].0 == s[i].0 {
                seen = true;
            }
            j += 1;
        }
        let ghost next = pairs_view(s@).take(i + 1);
        assert(next.drop_last() =~= prefix);
        assert(next.last() == (s@[i as int].0@, s@[i as int].1@));
        proof {
            lemma_first_occurrences_labels(prefix, s@[i as int].0@);
            let fo = first_occurrences(prefix);
            assert(labels(fo) =~= labels(pairs_view(r@)));
            if seen {
                let l = choose|l: int| 0 <= l < r.len() && r@[l].0@ == s@[i as int].0@;
                assert(labels(fo)[l] == s@[i as int].0@);
            }
            if labels(fo).contains(s@[i as int].0@) {
                let l = choose|l: int| 0 <= l < labels(fo).len() && labels(fo)[l] == s@[i as int].0@;
                assert(r@[l].0@ == s@[i as int].0@);
            }
        }
        if !seen {
            let p = (s[i].0.clone(), s[i].1.clone());
            let ghost old_r = r@;
            r.push(p);
            assert(pairs_view(r@) =~= pairs_view(old_r).push(next.last()));
        }
        i += 1;
    }
    assert(pairs_view(s@).take(s.len() as int) =~= pairs_view(s@));
    r
}

/// An annotation `#!label\n` (label non-empty) starting at `s`: the position of
/// the new line that ends it.
pub open spec fn annotation_at(t: Seq<char>, s: int) -> Option<int> {
    if 0 <= s && s + 1 < t.len() && t[s] == '#' && t[s + 1] == '!' {
        let e = run_end(t, s + 2, CharClass::NotNewline);
        if s + 2 < e < t.len() {
            Some(e)
        } else {
            None
        }
    } else {
        None
    }
}

pub proof fn lemma_annotation_at(t: Seq<char>, s: int)
    ensures
        annotation_at(t, s) matches Some(e) ==> s + 2 < e < t.len() && t[e] == '\n',
{
    if 0 <= s && s + 1 < t.len() && t[s] == '#' && t[s + 1] == '!' {
        lemma_run_end(t, s + 2, CharClass::NotNewline);
    }
}

/// `t` from position `i` on, with each annotation (from `#!` up to and
/// including its new line) replaced by a bare new line.
pub open spec fn strip_from(t: Seq<char>, i: int) -> Seq<char>
    decreases t.len() - i,
{
    if 0 <= i < t.len() {
        match annotation_at(t, i) {
            Some(e) => {
                proof {
                    lemma_annotation_at(t, i);
                }
                seq!['\n'] + strip_from(t, e + 1)
            },
            None => seq![t[i]] + strip_from(t, i + 1),
        }
    } else {
        Seq::empty()
    }
}

fn annotation_at_exec(t: &Vec<char>, s: usize) -> (r: Option<usize>)
    requires
        s < t.len(),
    ensures
        match r {
            Some(e) => annotation_at(t@, s as int) == Some(e as int),
            None => annotation_at(t@, s as int) is None,
        },
{
    if t.len() - s > 1 && t[s] == '#' && t[s + 1] == '!' {
        let e = run_end_exec(t, s + 2, CharClass::NotNewline);
        if s + 2 < e && e < t.len() {
            Some(e)
        } else {
            None
        }
    } else {
        None
    }
}

/// The netlist as the simulator is to read it: every annotation `#!label`
/// (with the new line that ends it) becomes a bare new line.
pub fn strip_annotations(netlist: &str) -> (r: String)
    ensures
        r@ == strip_from(netlist@, 0),
{
    let t = chars_of(netlist);
    let mut out: Vec<char> = Vec::new();
    let mut i: usize = 0;
    while i < t.len()
        invariant
            i <= t.len(),
            strip_from(t@, 0) == out@ + strip_from(t@, i as int),
        decreases t.len() - i,
    {
        let ghost before = out@;
        match annotation_at_exec(&t, i) {
            Some(e) => {
                proof { lemma_annotation_at(t@, i as int); }
                out.push('\n');
                assert(out@ + strip_from(t@, e + 1) =~= before + strip_from(t@, i as int));
                i = e + 1;
            },
            None => {
                out.push(t[i]);
                assert(out@ + strip_from(t@, i + 1) =~= before + strip_from(t@, i as int));
                i += 1;
            },
        }
    }
    assert(out@ + strip_from(t@, t.len() as int) =~= out@);
    string_of(&out)
}

/// `u` has a new line at or after `j`.
pub open spec fn newline_from(u: Seq<char>, j: int) -> bool {
    exists|k: int| j <= k < u.len() && u[k] == '\n'
}

/// The characters of an annotation at `r`: `#!`, a first label character
/// that is not a new line, and a new line somewhere after.
pub open spec fn annotation_chars(u: Seq<char>, r: int) -> bool {
    &&& 0 <= r
    &&& r + 2 < u.len()
    &&& u[r] == '#'
    &&& u[r + 1] == '!'
    &&& u[r + 2] != '\n'
    &&& newline_from(u, r + 2)
}

proof fn lemma_annotation_chars(u: Seq<char>, r: int)
    ensures
        annotation_at(u, r) is Some <==> annotation_chars(u, r),
{
    if 0 <= r && r + 1 < u.len() && u[r] == '#' && u[r + 1] == '!' {
        lemma_run_end(u, r + 2, CharClass::NotNewline);
        let e = run_end(u, r + 2, CharClass::NotNewline);
        if e < u.len() {
            assert(u[e] == '\n');
        }
        if newline_from(u, r + 2) {
            let k = choose|k: int| r + 2 <= k < u.len() && u[k] == '\n';
            assert(e <= k) by {
                if e > k {
                    assert(in_class(CharClass::NotNewline, u[k]));
                }
            }
        }
        if r + 2 < u.len() && u[r + 2] != '\n' {
            assert(in_class(CharClass::NotNewline, u[r + 2]));
        }
    }
}

proof fn lemma_strip_without_newline(t: Seq<char>, i: int)
    requires
        0 <= i <= t.len(),
        forall|j: int| i <= j < t.len() ==> t[j] != '\n',
    ensures
        strip_from(t, i) == t.subrange(i, t.len() as int),
    decreases t.len() - i,
{
    if i < t.len() {
        lemma_annotation_at(t, i);
        lemma_strip_without_newline(t, i + 1);
        assert(strip_from(t, i) =~= t.subrange(i, t.len() as int));
    } else {
        assert(t.subrange(i, t.len() as int) =~= Seq::<char>::empty());
    }
}

proof fn lemma_strip_shape(t: Seq<char>, i: int)
    requires
        0 <= i < t.len(),
    ensures
        annotation_at(t, i) matches Some(e) ==> strip_from(t, i) == seq!['\n'] + strip_from(t, e + 1),
        annotation_at(t, i) is None ==> strip_from(t, i) == seq![t[i]] + strip_from(t, i + 1),
{
}

/// Law behind the cleaning: a stripped netlist holds no annotation.
proof fn lemma_strip_clean(t: Seq<char>, i: int)
    requires
        0 <= i,
    ensures
        forall|r: int| !annotation_chars(strip_from(t, i), r),
    decreases t.len() - i,
{
    if i < t.len() {
        let u = strip_from(t, i);
        lemma_strip_shape(t, i);
        match annotation_at(t, i) {
            Some(e) => {
                lemma_annotation_at(t, i);
                let w = strip_from(t, e + 1);
                lemma_strip_clean(t, e + 1);
                assert forall|r: int| !annotation_chars(u, r) by {
                    if annotation_chars(u, r) {
                        assert(r >= 1);
                        let k = choose|k: int| r + 2 <= k < u.len() && u[k] == '\n';
                        assert(w[k - 1] == '\n');
                        assert(annotation_chars(w, r - 1));
                    }
                }
            },
            None => {
                let w = strip_from(t, i + 1);
                lemma_strip_clean(t, i + 1);
                assert forall|r: int| !annotation_chars(u, r) by {
                    if annotation_chars(u, r) {
                        let k = choose|k: int| r + 2 <= k < u.len() && u[k] == '\n';
                        if r >= 1 {
                            assert(w[k - 1] == '\n');
                            assert(annotation_chars(w, r - 1));
                        } else {
                            // u starts with "#!": so does t at i.
                            assert(t[i] == '#');
                            lemma_strip_shape(t, i + 1);
                            lemma_annotation_at(t, i + 1);
                            assert(annotation_at(t, i + 1) is None);
                            assert(t[i + 1] == '!');
                            let w2 = strip_from(t, i + 2);
                            assert(u =~= seq!['#', '!'] + w2);
                            lemma_annotation_chars(t, i);
                            if i + 2 < t.len() && t[i + 2] == '\n' {
                                lemma_strip_shape(t, i + 2);
                                lemma_annotation_at(t, i + 2);
                                assert(w2[0] == '\n');
                            } else {
                                // no new line in t after i + 2
                                assert forall|j: int| i + 2 <= j < t.len() implies t[j] != '\n' by {
                                    if t[j] == '\n' {
                                        assert(newline_from(t, i + 2));
                                        assert(annotation_chars(t, i));
                                    }
                                }
                                lemma_strip_without_newline(t, i + 2);
                                assert(w2[k - 2] == '\n');
                                assert(t[i + 2 + (k - 2)] == '\n');
                            }
                        }
                    }
                }
            },
        }
    }
}

proof fn lemma_scan_vars_empty(u: Seq<char>, i: int)
    requires
        0 <= i,
        forall|r: int| !annotation_chars(u, r),
    ensures
        scan_vars(u, i).len() == 0,
    decreases u.len() - i,
{
    if i < u.len() {
        match var_match_at(u, i) {
            Some((m, ls, e)) => {
                let r = ls - 2;
                lemma_var_match_at(u, i);
                assert(annotation_at(u, r) is Some);
                lemma_annotation_chars(u, r);
            },
            None => {
                lemma_scan_vars_empty(u, i + 1);
            },
        }
    }
}

/// Law: a netlist stripped of its annotations has no annotated parameter
/// left; what the simulator reads carries no `#!` label.
pub proof fn lemma_stripped_has_no_variables(t: Seq<char>)
    ensures
        netlist_variables_spec(strip_from(t, 0)).len() == 0,
        forall|r: int| annotation_at(strip_from(t, 0), r) is None,
{
    lemma_strip_clean(t, 0);
    lemma_scan_vars_empty(strip_from(t, 0), 0);
    assert forall|r: int| annotation_at(strip_from(t, 0), r) is None by {
        lemma_annotation_chars(strip_from(t, 0), r);
    }
}

proof fn lemma_strip_identity(u: Seq<char>, i: int)
    requires
        0 <= i <= u.len(),
        forall|r: int| annotation_at(u, r) is None,
    ensures
        strip_from(u, i) == u.subrange(i, u.len() as int),
    decreases u.len() - i,
{
    if i < u.len() {
        lemma_strip_identity(u, i + 1);
        assert(strip_from(u, i) =~= u.subrange(i, u.len() as int));
    } else {
        assert(u.subrange(i, u.len() as int) =~= Seq::<char>::empty());
    }
}

/// Law: stripping is idempotent; a stripped netlist is left as it is.
pub proof fn lemma_strip_idempotent(t: Seq<char>)
    ensures
        strip_from(strip_from(t, 0), 0) == strip_from(t, 0),
{
    let u = strip_from(t, 0);
    lemma_stripped_has_no_variables(t);
    lemma_strip_identity(u, 0);
    assert(u.subrange(0, u.len() as int) =~= u);
}

} // verus!
