//! The text that JoSIM prints, turned into comma-separated values.
//!
//! JoSIM prints its progress, then the line `100% Formatting Output`, then the
//! result table with columns separated (and lines indented) by spaces.
use vstd::prelude::*;
use crate::scan::{CharClass, run_end, lemma_run_end, run_end_exec, holds_at, holds_at_exec, lemma_run_end_at,
    lemma_run_end_agree};
use crate::text::{chars_of, string_of};

verus! {

/// The line after which JoSIM prints its result table.
pub open spec fn output_marker() -> Seq<char> {
    seq![
        '1', '0', '0', '%', ' ', 'F', 'o', 'r', 'm', 'a', 't', 't', 'i', 'n', 'g', ' ', 'O', 'u',
        't', 'p', 'u', 't', '\n',
    ]
}

fn output_marker_exec() -> (r: Vec<char>)
    ensures
        r@ == output_marker(),
{
    let r: Vec<char> = vec![
        '1', '0', '0', '%', ' ', 'F', 'o', 'r', 'm', 'a', 't', 't', 'i', 'n', 'g', ' ', 'O', 'u',
        't', 'p', 'u', 't', '\n',
    ];
    assert(r@ =~= output_marker());
    r
}

/// The first position at or after `i` where `w` occurs in `t`, or the length
/// of `t` when there is none.
pub open spec fn find_from(t: Seq<char>, i: int, w: Seq<char>) -> int
    decreases t.len() - i,
{
    if 0 <= i < t.len() {
        if holds_at(t, i, w) {
            i
        } else {
            find_from(t, i + 1, w)
        }
    } else {
        t.len() as int
    }
}

pub proof fn lemma_find_from(t: Seq<char>, i: int, w: Seq<char>)
    requires
        0 <= i <= t.len(),
    ensures
        i <= find_from(t, i, w) <= t.len(),
        find_from(t, i, w) < t.len() ==> holds_at(t, find_from(t, i, w), w),
        forall|j: int| i <= j < find_from(t, i, w) ==> !holds_at(t, j, w),
    decreases t.len() - i,
{
    if i < t.len() && !holds_at(t, i, w) {
        lemma_find_from(t, i + 1, w);
    }
}

/// `t` holds `w` somewhere.
pub open spec fn occurs(t: Seq<char>, w: Seq<char>) -> bool {
    exists|j: int| holds_at(t, j, w)
}

/// `t` from `i` on, with each new line followed by spaces reduced to the new
/// line alone.
pub open spec fn trim_line_starts(t: Seq<char>, i: int) -> Seq<char>
    decreases t.len() - i,
{
    if 0 <= i < t.len() {
        if t[i] == '\n' && i + 1 < t.len() && t[i + 1] == ' ' {
            proof {
                lemma_run_end(t, i + 1, CharClass::Blank);
            }
            seq!['\n'] + trim_line_starts(t, run_end(t, i + 1, CharClass::Blank))
        } else {
            seq![t[i]] + trim_line_starts(t, i + 1)
        }
    } else {
        Seq::empty()
    }
}

/// `t` from `i` on, with each run of spaces replaced by one comma.
pub open spec fn spaces_to_commas(t: Seq<char>, i: int) -> Seq<char>
    decreases t.len() - i,
{
    if 0 <= i < t.len() {
        if t[i] == ' ' {
            proof {
                lemma_run_end(t, i, CharClass::Blank);
            }
            seq![','] + spaces_to_commas(t, run_end(t, i, CharClass::Blank))
        } else {
            seq![t[i]] + spaces_to_commas(t, i + 1)
        }
    } else {
        Seq::empty()
    }
}

/// The result table of a JoSIM run: the text between the first marker line
/// and the next one (or the end), with line indentation removed and spaces
/// turned into commas.
pub open spec fn table_text(t: Seq<char>) -> Seq<char> {
    let start = find_from(t, 0, output_marker()) + output_marker().len();
    let segment = t.subrange(start, find_from(t, start, output_marker()));
    spaces_to_commas(trim_line_starts(segment, 0), 0)
}

proof fn lemma_no_spaces_from(t: Seq<char>, i: int)
    requires
        0 <= i,
    ensures
        forall|j: int| 0 <= j < spaces_to_commas(t, i).len() ==> spaces_to_commas(t, i)[j] != ' ',
    decreases t.len() - i,
{
    if i < t.len() {
        let u = spaces_to_commas(t, i);
        if t[i] == ' ' {
            lemma_run_end(t, i, CharClass::Blank);
            let e = run_end(t, i, CharClass::Blank);
            lemma_no_spaces_from(t, e);
            assert forall|j: int| 0 <= j < u.len() implies u[j] != ' ' by {
                if j > 0 {
                    assert(u[j] == spaces_to_commas(t, e)[j - 1]);
                }
            }
        } else {
            lemma_no_spaces_from(t, i + 1);
            assert forall|j: int| 0 <= j < u.len() implies u[j] != ' ' by {
                if j > 0 {
                    assert(u[j] == spaces_to_commas(t, i + 1)[j - 1]);
                }
            }
        }
    }
}

/// Law: the table handed to the CSV reader holds no space; every run of
/// spaces has become a single comma.
pub proof fn lemma_table_has_no_spaces(t: Seq<char>)
    ensures
        forall|j: int| 0 <= j < table_text(t).len() ==> table_text(t)[j] != ' ',
{
    let start = find_from(t, 0, output_marker()) + output_marker().len();
    let segment = t.subrange(start, find_from(t, start, output_marker()));
    lemma_no_spaces_from(trim_line_starts(segment, 0), 0);
}

/// `k` spaces.
pub open spec fn blanks(k: nat) -> Seq<char> {
    Seq::new(k, |i: int| ' ')
}

/// Neither a space nor a comma.
pub open spec fn cell_char() -> spec_fn(char) -> bool {
    |c: char| c != ' ' && c != ','
}

/// Not a comma.
pub open spec fn not_comma() -> spec_fn(char) -> bool {
    |c: char| c != ','
}

/// Not a space.
pub open spec fn not_blank() -> spec_fn(char) -> bool {
    |c: char| c != ' '
}

proof fn lemma_filter_one(c: char, p: spec_fn(char) -> bool)
    ensures
        seq![c].filter(p) == (if p(c) {
            seq![c]
        } else {
            Seq::<char>::empty()
        }),
{
    reveal_with_fuel(Seq::filter, 2);
    assert(seq![c].drop_last() =~= Seq::<char>::empty());
}

proof fn lemma_filter_none(t: Seq<char>, p: spec_fn(char) -> bool)
    requires
        forall|j: int| 0 <= j < t.len() ==> !p(#[trigger] t[j]),
    ensures
        t.filter(p) == Seq::<char>::empty(),
    decreases t.len(),
{
    reveal_with_fuel(Seq::filter, 1);
    if t.len() > 0 {
        lemma_filter_none(t.drop_last(), p);
    }
}

/// `t` from `i` on splits at `k` into a head and the rest.
proof fn lemma_split_at(t: Seq<char>, i: int, k: int, p: spec_fn(char) -> bool)
    requires
        0 <= i <= k <= t.len(),
    ensures
        t.subrange(i, t.len() as int).filter(p) == t.subrange(i, k).filter(p) + t.subrange(
            k,
            t.len() as int,
        ).filter(p),
{
    assert(t.subrange(i, t.len() as int) =~= t.subrange(i, k) + t.subrange(k, t.len() as int));
    Seq::filter_distributes_over_add(t.subrange(i, k), t.subrange(k, t.len() as int), p);
}

proof fn lemma_commas_keep_cells(t: Seq<char>, i: int)
    requires
        0 <= i <= t.len(),
    ensures
        spaces_to_commas(t, i).filter(not_comma()) == t.subrange(i, t.len() as int).filter(cell_char()),
    decreases t.len() - i,
{
    if i < t.len() {
        if t[i] == ' ' {
            lemma_run_end(t, i, CharClass::Blank);
            let e = run_end(t, i, CharClass::Blank);
            lemma_commas_keep_cells(t, e);
            lemma_split_at(t, i, e, cell_char());
            lemma_filter_none(t.subrange(i, e), cell_char());
            lemma_filter_one(',', not_comma());
            Seq::filter_distributes_over_add(seq![','], spaces_to_commas(t, e), not_comma());
            assert(t.subrange(i, e).filter(cell_char()) + t.subrange(e, t.len() as int).filter(cell_char())
                =~= t.subrange(e, t.len() as int).filter(cell_char()));
            assert(Seq::<char>::empty() + spaces_to_commas(t, e).filter(not_comma()) =~= spaces_to_commas(
                t,
                e,
            ).filter(not_comma()));
        } else {
            lemma_commas_keep_cells(t, i + 1);
            lemma_split_at(t, i, i + 1, cell_char());
            assert(t.subrange(i, i + 1) =~= seq![t[i]]);
            lemma_filter_one(t[i], cell_char());
            lemma_filter_one(t[i], not_comma());
            Seq::filter_distributes_over_add(seq![t[i]], spaces_to_commas(t, i + 1), not_comma());
        }
    } else {
        assert(t.subrange(i, t.len() as int) =~= Seq::<char>::empty());
        lemma_filter_none(Seq::<char>::empty(), cell_char());
        lemma_filter_none(Seq::<char>::empty(), not_comma());
    }
}

proof fn lemma_trim_keeps(t: Seq<char>, i: int, p: spec_fn(char) -> bool)
    requires
        0 <= i <= t.len(),
        !p(' '),
    ensures
        trim_line_starts(t, i).filter(p) == t.subrange(i, t.len() as int).filter(p),
    decreases t.len() - i,
{
    if i < t.len() {
        lemma_filter_one(t[i], p);
        if t[i] == '\n' && i + 1 < t.len() && t[i + 1] == ' ' {
            lemma_run_end(t, i + 1, CharClass::Blank);
            let e = run_end(t, i + 1, CharClass::Blank);
            lemma_trim_keeps(t, e, p);
            lemma_split_at(t, i, i + 1, p);
            lemma_split_at(t, i + 1, e, p);
            assert(t.subrange(i, i + 1) =~= seq![t[i]]);
            assert(t.subrange(i + 1, t.len() as int).subrange(0, e - i - 1) =~= t.subrange(i + 1, e));
            lemma_filter_none(t.subrange(i + 1, e), p);
            Seq::filter_distributes_over_add(seq!['\n'], trim_line_starts(t, e), p);
            assert(t.subrange(i + 1, e).filter(p) + t.subrange(e, t.len() as int).filter(p)
                =~= t.subrange(e, t.len() as int).filter(p));
        } else {
            lemma_trim_keeps(t, i + 1, p);
            lemma_split_at(t, i, i + 1, p);
            assert(t.subrange(i, i + 1) =~= seq![t[i]]);
            Seq::filter_distributes_over_add(seq![t[i]], trim_line_starts(t, i + 1), p);
        }
    } else {
        assert(t.subrange(i, t.len() as int) =~= Seq::<char>::empty());
        lemma_filter_none(Seq::<char>::empty(), p);
    }
}

/// Law: the table keeps every character of JoSIM's result table but spaces,
/// in order: read without its commas, the table is the text between the
/// marker lines read without its spaces and commas.
pub proof fn lemma_table_keeps_cells(t: Seq<char>)
    ensures
        ({
            let start = find_from(t, 0, output_marker()) + output_marker().len();
            let segment = t.subrange(start, find_from(t, start, output_marker()));
            table_text(t).filter(not_comma()) == segment.filter(cell_char())
        }),
{
    let start = find_from(t, 0, output_marker()) + output_marker().len();
    let segment = t.subrange(start, find_from(t, start, output_marker()));
    let trimmed = trim_line_starts(segment, 0);
    lemma_commas_keep_cells(trimmed, 0);
    assert(trimmed.subrange(0, trimmed.len() as int) =~= trimmed);
    lemma_trim_keeps(segment, 0, cell_char());
    assert(segment.subrange(0, segment.len() as int) =~= segment);
}

proof fn lemma_commas_shift(a: Seq<char>, b: Seq<char>, j: int)
    requires
        0 <= j <= b.len(),
    ensures
        spaces_to_commas(a + b, a.len() + j) == spaces_to_commas(b, j),
    decreases b.len() - j,
{
    let t = a + b;
    assert(t[a.len() + j] == b[j] || j == b.len());
    if j < b.len() {
        if b[j] == ' ' {
            assert(t.subrange(a.len() + j, t.len() as int) =~= b.subrange(j, b.len() as int));
            lemma_run_end_agree(t, a.len() + j, b, j, CharClass::Blank);
            lemma_run_end(b, j, CharClass::Blank);
            lemma_commas_shift(a, b, run_end(b, j, CharClass::Blank));
        } else {
            lemma_commas_shift(a, b, j + 1);
        }
    }
}

proof fn lemma_commas_split(a: Seq<char>, b: Seq<char>, i: int)
    requires
        0 <= i <= a.len(),
        !(a.len() > 0 && b.len() > 0 && a.last() == ' ' && b[0] == ' '),
    ensures
        spaces_to_commas(a + b, i) == spaces_to_commas(a, i) + spaces_to_commas(b, 0),
    decreases a.len() - i,
{
    let t = a + b;
    if i == a.len() {
        lemma_commas_shift(a, b, 0);
        assert(spaces_to_commas(a, i) =~= Seq::<char>::empty());
        assert(spaces_to_commas(b, 0) =~= Seq::<char>::empty() + spaces_to_commas(b, 0));
    } else {
        assert(t[i] == a[i]);
        if a[i] == ' ' {
            lemma_run_end(a, i, CharClass::Blank);
            let e = run_end(a, i, CharClass::Blank);
            assert forall|x: int| i <= x < e implies #[trigger] t[x] == ' ' by {
                assert(t[x] == a[x]);
            }
            if e < a.len() {
                assert(t[e] == a[e]);
            } else if b.len() > 0 {
                assert(a.last() == a[a.len() - 1]);
                assert(t[e] == b[0]);
            }
            lemma_run_end_at(t, i, CharClass::Blank, e);
            lemma_commas_split(a, b, e);
            assert(seq![','] + (spaces_to_commas(a, e) + spaces_to_commas(b, 0)) =~= (seq![',']
                + spaces_to_commas(a, e)) + spaces_to_commas(b, 0));
        } else {
            lemma_commas_split(a, b, i + 1);
            assert(seq![a[i]] + (spaces_to_commas(a, i + 1) + spaces_to_commas(b, 0)) =~= (seq![a[i]]
                + spaces_to_commas(a, i + 1)) + spaces_to_commas(b, 0));
        }
    }
}

/// Law: turning spaces into commas works piece by piece: two texts that are
/// not joined inside a run of spaces are turned one after the other.
pub proof fn lemma_commas_compose(a: Seq<char>, b: Seq<char>)
    requires
        !(a.len() > 0 && b.len() > 0 && a.last() == ' ' && b[0] == ' '),
    ensures
        spaces_to_commas(a + b, 0) == spaces_to_commas(a, 0) + spaces_to_commas(b, 0),
{
    lemma_commas_split(a, b, 0);
}

/// Law: a character other than a space is kept as it is, the empty text
/// gives the empty text, and a run of spaces becomes one comma.  With
/// `lemma_commas_compose` this fixes the result on every text.
pub proof fn lemma_commas_units(c: char, k: nat)
    ensures
        c != ' ' ==> spaces_to_commas(seq![c], 0) == seq![c],
        spaces_to_commas(Seq::<char>::empty(), 0) == Seq::<char>::empty(),
        k >= 1 ==> spaces_to_commas(blanks(k), 0) == seq![','],
{
    if c != ' ' {
        assert(spaces_to_commas(seq![c], 1) =~= Seq::<char>::empty());
        assert(seq![c] + Seq::<char>::empty() =~= seq![c]);
    }
    if k >= 1 {
        let t = blanks(k);
        lemma_run_end_at(t, 0, CharClass::Blank, k as int);
        assert(spaces_to_commas(t, k as int) =~= Seq::<char>::empty());
        assert(seq![','] + Seq::<char>::empty() =~= seq![',']);
    }
}

proof fn lemma_trim_shift(a: Seq<char>, b: Seq<char>, j: int)
    requires
        0 <= j <= b.len(),
    ensures
        trim_line_starts(a + b, a.len() + j) == trim_line_starts(b, j),
    decreases b.len() - j,
{
    let t = a + b;
    if j < b.len() {
        assert(t[a.len() + j] == b[j]);
        if j + 1 < b.len() {
            assert(t[a.len() + j + 1] == b[j + 1]);
        }
        if b[j] == '\n' && j + 1 < b.len() && b[j + 1] == ' ' {
            assert(t.subrange(a.len() + j + 1, t.len() as int) =~= b.subrange(j + 1, b.len() as int));
            lemma_run_end_agree(t, a.len() + j + 1, b, j + 1, CharClass::Blank);
            lemma_run_end(b, j + 1, CharClass::Blank);
            lemma_trim_shift(a, b, run_end(b, j + 1, CharClass::Blank));
        } else {
            lemma_trim_shift(a, b, j + 1);
        }
    }
}

proof fn lemma_trim_split(a: Seq<char>, b: Seq<char>, i: int)
    requires
        0 <= i <= a.len(),
        b.len() > 0 ==> b[0] != ' ',
    ensures
        trim_line_starts(a + b, i) == trim_line_starts(a, i) + trim_line_starts(b, 0),
    decreases a.len() - i,
{
    let t = a + b;
    if i == a.len() {
        lemma_trim_shift(a, b, 0);
        assert(trim_line_starts(a, i) =~= Seq::<char>::empty());
        assert(trim_line_starts(b, 0) =~= Seq::<char>::empty() + trim_line_starts(b, 0));
    } else {
        assert(t[i] == a[i]);
        if i + 1 < a.len() {
            assert(t[i + 1] == a[i + 1]);
        } else if b.len() > 0 {
            assert(t[i + 1] == b[0]);
        }
        if a[i] == '\n' && i + 1 < a.len() && a[i + 1] == ' ' {
            lemma_run_end(a, i + 1, CharClass::Blank);
            let e = run_end(a, i + 1, CharClass::Blank);
            assert forall|x: int| i + 1 <= x < e implies #[trigger] t[x] == ' ' by {
                assert(t[x] == a[x]);
            }
            if e < a.len() {
                assert(t[e] == a[e]);
            } else if b.len() > 0 {
                assert(t[e] == b[0]);
            }
            lemma_run_end_at(t, i + 1, CharClass::Blank, e);
            lemma_trim_split(a, b, e);
            assert(seq!['\n'] + (trim_line_starts(a, e) + trim_line_starts(b, 0)) =~= (seq!['\n']
                + trim_line_starts(a, e)) + trim_line_starts(b, 0));
        } else {
            lemma_trim_split(a, b, i + 1);
            assert(seq![a[i]] + (trim_line_starts(a, i + 1) + trim_line_starts(b, 0)) =~= (seq![a[i]]
                + trim_line_starts(a, i + 1)) + trim_line_starts(b, 0));
        }
    }
}

/// Law: removing line indentation works piece by piece: a text whose second
/// piece does not start with a space is treated one piece after the other.
pub proof fn lemma_trim_compose(a: Seq<char>, b: Seq<char>)
    requires
        b.len() > 0 ==> b[0] != ' ',
    ensures
        trim_line_starts(a + b, 0) == trim_line_starts(a, 0) + trim_line_starts(b, 0),
{
    lemma_trim_split(a, b, 0);
}

proof fn lemma_trim_no_newline(t: Seq<char>, i: int)
    requires
        0 <= i <= t.len(),
        forall|j: int| 0 <= j < t.len() ==> #[trigger] t[j] != '\n',
    ensures
        trim_line_starts(t, i) == t.subrange(i, t.len() as int),
    decreases t.len() - i,
{
    if i < t.len() {
        lemma_trim_no_newline(t, i + 1);
        assert(t.subrange(i, t.len() as int) =~= seq![t[i]] + t.subrange(i + 1, t.len() as int));
    } else {
        assert(t.subrange(i, t.len() as int) =~= Seq::<char>::empty());
    }
}

/// Law: a character followed by `k` spaces is kept as it is, unless it is a
/// new line and `k` is not zero: then the spaces go.  Spaces alone are kept.
/// With `lemma_trim_compose` this fixes the result on every text.
pub proof fn lemma_trim_units(c: char, k: nat)
    ensures
        trim_line_starts(seq![c] + blanks(k), 0) == (if c == '\n' && k > 0 {
            seq!['\n']
        } else {
            seq![c] + blanks(k)
        }),
        trim_line_starts(blanks(k), 0) == blanks(k),
{
    let t = seq![c] + blanks(k);
    assert(t[0] == c);
    lemma_trim_no_newline(blanks(k), 0);
    assert(blanks(k).subrange(0, k as int) =~= blanks(k));
    if c == '\n' && k > 0 {
        assert(t[1] == ' ');
        assert forall|x: int| 1 <= x < t.len() implies #[trigger] t[x] == ' ' by {
            assert(t[x] == blanks(k)[x - 1]);
        }
        lemma_run_end_at(t, 1, CharClass::Blank, t.len() as int);
        assert(trim_line_starts(t, t.len() as int) =~= Seq::<char>::empty());
        assert(seq!['\n'] + Seq::<char>::empty() =~= seq!['\n']);
    } else if c == '\n' {
        assert(t =~= seq!['\n']);
        assert(trim_line_starts(t, 1) =~= Seq::<char>::empty());
        assert(seq!['\n'] + Seq::<char>::empty() =~= seq!['\n']);
    } else {
        assert forall|j: int| 0 <= j < t.len() implies #[trigger] t[j] != '\n' by {
            if j > 0 {
                assert(t[j] == blanks(k)[j - 1]);
            }
        }
        lemma_trim_no_newline(t, 0);
        assert(t.subrange(0, t.len() as int) =~= t);
    }
}

fn find_from_exec(t: &Vec<char>, i: usize, w: &Vec<char>) -> (r: usize)
    requires
        i <= t.len(),
    ensures
        r == find_from(t@, i as int, w@),
{
    let mut j = i;
    while j < t.len()
        invariant
            i <= j <= t.len(),
            find_from(t@, j as int, w@) == find_from(t@, i as int, w@),
        decreases t.len() - j,
    {
        if holds_at_exec(t, j, w) {
            return j;
        }
        j += 1;
    }
    j
}

fn trim_line_starts_exec(t: &Vec<char>) -> (r: Vec<char>)
    ensures
        r@ == trim_line_starts(t@, 0),
{
    let mut out: Vec<char> = Vec::new();
    let mut i: usize = 0;
    while i < t.len()
        invariant
            i <= t.len(),
            trim_line_starts(t@, 0) == out@ + trim_line_starts(t@, i as int),
        decreases t.len() - i,
    {
        let ghost before = out@;
        if t[i] == '\n' && t.len() - i > 1 && t[i + 1] == ' ' {
            let e = run_end_exec(t, i + 1, CharClass::Blank);
            proof { lemma_run_end(t@, i + 1, CharClass::Blank); }
            out.push('\n');
            assert(out@ + trim_line_starts(t@, e as int) =~= before + trim_line_starts(t@, i as int));
            i = e;
        } else {
            out.push(t[i]);
            assert(out@ + trim_line_starts(t@, i + 1) =~= before + trim_line_starts(t@, i as int));
            i += 1;
        }
    }
    assert(out@ + trim_line_starts(t@, t.len() as int) =~= out@);
    out
}

fn spaces_to_commas_exec(t: &Vec<char>) -> (r: Vec<char>)
    ensures
        r@ == spaces_to_commas(t@, 0),
{
    let mut out: Vec<char> = Vec::new();
    let mut i: usize = 0;
    while i < t.len()
        invariant
            i <= t.len(),
            spaces_to_commas(t@, 0) == out@ + spaces_to_commas(t@, i as int),
        decreases t.len() - i,
    {
        let ghost before = out@;
        if t[i] == ' ' {
            let e = run_end_exec(t, i, CharClass::Blank);
            proof { lemma_run_end(t@, i as int, CharClass::Blank); }
            out.push(',');
            assert(out@ + spaces_to_commas(t@, e as int) =~= before + spaces_to_commas(t@, i as int));
            i = e;
        } else {
            out.push(t[i]);
            assert(out@ + spaces_to_commas(t@, i + 1) =~= before + spaces_to_commas(t@, i as int));
            i += 1;
        }
    }
    assert(out@ + spaces_to_commas(t@, t.len() as int) =~= out@);
    out
}

/// The comma-separated result table in JoSIM's printed output; `None` when
/// the output holds no `100% Formatting Output` line (the run failed, for
/// instance on a singular matrix).
pub fn raw_to_filestream(output: &str) -> (r: Option<String>)
    ensures
        r is None <==> !occurs(output@, output_marker()),
        r matches Some(s) ==> s@ == table_text(output@),
{
    let t = chars_of(output);
    let w = output_marker_exec();
    let f = find_from_exec(&t, 0, &w);
    proof { lemma_find_from(t@, 0, w@); }
    if f >= t.len() {
        assert forall|j: int| !holds_at(t@, j, w@) by {
            if holds_at(t@, j, w@) && j >= t@.len() {
                assert(w@.len() > 0);
            }
        }
        return None;
    }
    assert(holds_at(t@, f as int, w@));
    let start = f + w.len();
    let g = find_from_exec(&t, start, &w);
    proof { lemma_find_from(t@, start as int, w@); }
    let mut segment: Vec<char> = Vec::new();
    let mut i = start;
    while i < g
        invariant
            start <= i <= g <= t.len(),
            segment@ == t@.subrange(start as int, i as int),
        decreases g - i,
    {
        segment.push(t[i]);
        assert(t@.subrange(start as int, i + 1) =~= t@.subrange(start as int, i as int).push(
            t@[i as int],
        ));
        i += 1;
    }
    let trimmed = trim_line_starts_exec(&segment);
    let csv = spaces_to_commas_exec(&trimmed);
    Some(string_of(&csv))
}

} // verus!
