//! Switch timings: finding a switching event and pairing the timing tables of
//! two simulations for comparison.
use vstd::prelude::*;
use vstd::set_lib::{set_int_range, lemma_int_range};

verus! {

/// Sample `i` exists (is not missing) and lies strictly above `level`.
pub open spec fn above(samples: Seq<Option<u64>>, i: int, level: u64) -> bool {
    samples[i] matches Some(x) && x > level
}

/// The first sample that lies strictly above `level`.
///
/// Samples are given by order keys: any map from the measured values to
/// integers that keeps their order; a missing sample is never above a level.
pub fn first_above(samples: &Vec<Option<u64>>, level: u64) -> (r: Option<usize>)
    ensures
        match r {
            Some(i) => i < samples.len() && above(samples@, i as int, level) && forall|j: int|
                0 <= j < i ==> !above(samples@, j, level),
            None => forall|j: int| 0 <= j < samples.len() ==> !above(samples@, j, level),
        },
{
    let mut i: usize = 0;
    while i < samples.len()
        invariant
            i <= samples.len(),
            forall|j: int| 0 <= j < i ==> !above(samples@, j, level),
        decreases samples.len() - i,
    {
        match samples[i] {
            Some(x) => {
                if x > level {
                    return Some(i);
                }
            },
            None => {},
        }
        i += 1;
    }
    None
}

/// Sample `i` exists and lies strictly below `level`.
pub open spec fn below(samples: Seq<Option<u64>>, i: int, level: u64) -> bool {
    samples[i] matches Some(x) && x < level
}

/// No sample lies strictly above `high` or strictly below `low` (missing
/// samples are never outside): the differences between two timing tables
/// stay within the tolerated band.
pub fn within_band(samples: &Vec<Option<u64>>, low: u64, high: u64) -> (b: bool)
    ensures
        b <==> forall|j: int|
            0 <= j < samples.len() ==> !above(samples@, j, high) && !below(samples@, j, low),
{
    let mut i: usize = 0;
    while i < samples.len()
        invariant
            i <= samples.len(),
            forall|j: int| 0 <= j < i ==> !above(samples@, j, high) && !below(samples@, j, low),
        decreases samples.len() - i,
    {
        match samples[i] {
            Some(x) => {
                if x > high || x < low {
                    assert(above(samples@, i as int, high) || below(samples@, i as int, low));
                    return false;
                }
            },
            None => {},
        }
        i += 1;
    }
    true
}

/// What a comparison of two timing tables by shape decides.
#[derive(Clone, Copy, Debug, PartialEq, Eq, Structural)]
pub enum ShapeVerdict {
    /// A table does not have exactly two columns (time and phase).
    NotTimingTable,
    /// The tables differ in their number of rows: the timings differ.
    Differ,
    /// The tables have the same shape: compare them row by row.
    Compare,
}

/// Decides, from the shapes (rows, columns) of two timing tables, whether
/// they can be compared.
pub fn shape_verdict(default_shape: (usize, usize), target_shape: (usize, usize)) -> (v: ShapeVerdict)
    ensures
        v == (if default_shape.1 != 2 || target_shape.1 != 2 {
            ShapeVerdict::NotTimingTable
        } else if default_shape.0 != target_shape.0 {
            ShapeVerdict::Differ
        } else {
            ShapeVerdict::Compare
        }),
{
    if default_shape.1 != 2 || target_shape.1 != 2 {
        ShapeVerdict::NotTimingTable
    } else if default_shape.0 != target_shape.0 {
        ShapeVerdict::Differ
    } else {
        ShapeVerdict::Compare
    }
}

/// The first index at or after `j` where `names` holds `label`.
pub open spec fn position_from(names: Seq<Seq<char>>, label: Seq<char>, j: int) -> Option<int>
    decreases names.len() - j,
{
    if 0 <= j < names.len() {
        if names[j] == label {
            Some(j)
        } else {
            position_from(names, label, j + 1)
        }
    } else {
        None
    }
}

/// The first index where `names` holds `label`.
pub open spec fn position(names: Seq<Seq<char>>, label: Seq<char>) -> Option<int> {
    position_from(names, label, 0)
}

/// The sort key of a position: an absent label sorts before every present one.
pub open spec fn rank(p: Option<int>) -> int {
    match p {
        Some(x) => x + 1,
        None => 0,
    }
}

pub open spec fn strings_view(v: Seq<String>) -> Seq<Seq<char>> {
    v.map_values(|s: String| s@)
}

/// The sort keys of `labels`: the rank of each label's position in `names`.
pub open spec fn label_ranks(labels: Seq<Seq<char>>, names: Seq<Seq<char>>) -> Seq<int> {
    labels.map_values(|l: Seq<char>| rank(position(names, l)))
}

/// `r` lists every index of `keys` once, by increasing key, and indices of
/// equal keys in increasing order: the result of a stable sort by key.
pub open spec fn is_stable_order(keys: Seq<int>, r: Seq<usize>) -> bool {
    &&& r.len() == keys.len()
    &&& forall|i: int| 0 <= i < r.len() ==> #[trigger] r[i] < keys.len()
    &&& r.no_duplicates()
    &&& forall|a: int, b: int|
        #![trigger r[a], r[b]]
        0 <= a < b < r.len() ==> keys[r[a] as int] < keys[r[b] as int] || (keys[r[a] as int]
            == keys[r[b] as int] && r[a] < r[b])
}

fn position_exec(names: &Vec<String>, label: &String) -> (r: Option<usize>)
    ensures
        match r {
            Some(j) => position(strings_view(names@), label@) == Some(j as int),
            None => position(strings_view(names@), label@) is None,
        },
{
    let ghost nv = strings_view(names@);
    let mut j: usize = 0;
    while j < names.len()
        invariant
            j <= names.len(),
            nv == strings_view(names@),
            position(nv, label@) == position_from(nv, label@, j as int),
        decreases names.len() - j,
    {
        if names[j] == *label {
            return Some(j);
        }
        j += 1;
    }
    None
}

proof fn lemma_position_bound(names: Seq<Seq<char>>, label: Seq<char>, j: int)
    requires
        0 <= j,
    ensures
        position_from(names, label, j) matches Some(p) ==> j <= p < names.len(),
    decreases names.len() - j,
{
    if 0 <= j < names.len() && names[j] != label {
        lemma_position_bound(names, label, j + 1);
    }
}

/// Appends, in increasing order, the indices whose rank is `c`.
fn push_rank(r: &mut Vec<usize>, ranks: &Vec<usize>, c: usize)
    requires
        forall|a: int, b: int|
            #![trigger old(r)@[a], old(r)@[b]]
            0 <= a < b < old(r)@.len() ==> ranks@[old(r)@[a] as int] < ranks@[old(r)@[b] as int]
                || (ranks@[old(r)@[a] as int] == ranks@[old(r)@[b] as int] && old(r)@[a]
                < old(r)@[b]),
        forall|a: int| 0 <= a < old(r)@.len() ==> #[trigger] old(r)@[a] < ranks@.len() && ranks@[old(r)@[a] as int] < c,
    ensures
        forall|a: int, b: int|
            #![trigger final(r)@[a], final(r)@[b]]
            0 <= a < b < final(r)@.len() ==> ranks@[final(r)@[a] as int] < ranks@[final(r)@[b] as int]
                || (ranks@[final(r)@[a] as int] == ranks@[final(r)@[b] as int] && final(r)@[a]
                < final(r)@[b]),
        forall|a: int| 0 <= a < final(r)@.len() ==> #[trigger] final(r)@[a] < ranks@.len() && ranks@[final(r)@[a] as int] <= c,
        forall|x: usize| old(r)@.contains(x) ==> final(r)@.contains(x),
        forall|i: usize| i < ranks@.len() && ranks@[i as int] == c ==> final(r)@.contains(i),
{
    let ghost r0 = r@;
    let mut i: usize = 0;
    while i < ranks.len()
        invariant
            i <= ranks.len(),
            r0.len() <= r@.len(),
            forall|a: int| 0 <= a < r0.len() ==> r@[a] == r0[a],
            forall|a: int, b: int|
                #![trigger r@[a], r@[b]]
                0 <= a < b < r@.len() ==> ranks@[r@[a] as int] < ranks@[r@[b] as int] || (
                ranks@[r@[a] as int] == ranks@[r@[b] as int] && r@[a] < r@[b]),
            forall|a: int| 0 <= a < r@.len() ==> #[trigger] r@[a] < ranks@.len() && (ranks@[r@[a] as int] < c
                || (ranks@[r@[a] as int] == c && r@[a] < i)),
            forall|j: usize| j < i && ranks@[j as int] == c ==> r@.contains(j),
        decreases ranks.len() - i,
    {
        if ranks[i] == c {
            let ghost before = r@;
            r.push(i);
            assert forall|j: usize| j < i + 1 && ranks@[j as int] == c implies r@.contains(j) by {
                if j == i {
                    assert(r@[before.len() as int] == i);
                } else {
                    let k = choose|k: int| 0 <= k < before.len() && before[k] == j;
                    assert(r@[k] == j);
                }
            }
        }
        i += 1;
    }
    assert forall|x: usize| r0.contains(x) implies r@.contains(x) by {
        let k = choose|k: int| 0 <= k < r0.len() && r0[k] == x;
        assert(r@[k] == x);
    }
}

/// The order in which a stable sort by the position of each label in `names`
/// (absent labels first) lists the labels: `r[i]` is the index of the label
/// that comes `i`-th.
pub fn order_by_position(labels: &Vec<String>, names: &Vec<String>) -> (r: Vec<usize>)
    ensures
        is_stable_order(label_ranks(strings_view(labels@), strings_view(names@)), r@),
{
    let ghost keys = label_ranks(strings_view(labels@), strings_view(names@));
    let mut ranks: Vec<usize> = Vec::new();
    let mut i: usize = 0;
    while i < labels.len()
        invariant
            i <= labels.len(),
            ranks@.len() == i,
            keys == label_ranks(strings_view(labels@), strings_view(names@)),
            forall|j: int| 0 <= j < i ==> #[trigger] ranks@[j] as int == keys[j] && ranks@[j] <= names.len(),
        decreases labels.len() - i,
    {
        let k = match position_exec(names, &labels[i]) {
            Some(p) => {
                proof {
                    lemma_position_bound(strings_view(names@), labels@[i as int]@, 0);
                    assert(strings_view(names@).len() == names.len());
                }
                p + 1
            },
            None => 0,
        };
        ranks.push(k);
        i += 1;
    }
    let m = names.len();
    let mut r: Vec<usize> = Vec::new();
    push_rank(&mut r, &ranks, 0);
    let mut c: usize = 0;
    while c < m
        invariant
            c <= m,
            ranks@.len() == labels.len(),
            forall|j: int| 0 <= j < ranks@.len() ==> #[trigger] ranks@[j] as int == keys[j] && ranks@[j] <= m,
            forall|a: int, b: int|
                #![trigger r@[a], r@[b]]
                0 <= a < b < r@.len() ==> ranks@[r@[a] as int] < ranks@[r@[b] as int] || (
                ranks@[r@[a] as int] == ranks@[r@[b] as int] && r@[a] < r@[b]),
            forall|a: int| 0 <= a < r@.len() ==> #[trigger] r@[a] < ranks@.len() && ranks@[r@[a] as int] <= c,
            forall|j: usize| j < ranks@.len() && ranks@[j as int] <= c ==> r@.contains(j),
        decreases m - c,
    {
        let ghost before = r@;
        push_rank(&mut r, &ranks, c + 1);
        assert forall|j: usize| j < ranks@.len() && ranks@[j as int] <= c + 1 implies r@.contains(j) by {
            if ranks@[j as int] <= c {
                assert(before.contains(j));
            }
        }
        c += 1;
    }
    proof {
        let n = ranks@.len() as int;
        assert(r@.no_duplicates()) by {
            assert forall|a: int, b: int| 0 <= a < r@.len() && 0 <= b < r@.len() && a != b implies r@[a] != r@[b] by {
                if a < b {
                    assert(ranks@[r@[a] as int] < ranks@[r@[b] as int] || r@[a] < r@[b]);
                } else {
                    assert(ranks@[r@[b] as int] < ranks@[r@[a] as int] || r@[b] < r@[a]);
                }
            }
        }
        let ri = r@.map_values(|x: usize| x as int);
        r@.lemma_no_duplicates_injective(|x: usize| x as int);
        ri.unique_seq_to_set();
        assert(ri.to_set() =~= set_int_range(0, n)) by {
            assert forall|x: int| ri.to_set().contains(x) implies set_int_range(0, n).contains(x) by {
                let k = choose|k: int| 0 <= k < ri.len() && ri[k] == x;
                assert(r@[k] < ranks@.len());
            }
            assert forall|x: int| set_int_range(0, n).contains(x) implies ri.to_set().contains(x) by {
                let j = x as usize;
                assert(r@.contains(j));
                let k = choose|k: int| 0 <= k < r@.len() && r@[k] == j;
                assert(ri[k] == x);
            }
        }
        lemma_int_range(0, n);
        assert forall|a: int, b: int|
            #![trigger r@[a], r@[b]]
            0 <= a < b < r@.len() implies keys[r@[a] as int] < keys[r@[b] as int] || (keys[r@[a] as int]
                == keys[r@[b] as int] && r@[a] < r@[b]) by {
            assert(ranks@[r@[a] as int] as int == keys[r@[a] as int]);
            assert(ranks@[r@[b] as int] as int == keys[r@[b] as int]);
        }
    }
    r
}

/// Why two lists of timing tables cannot be compared.
#[derive(Clone, Copy, Debug, PartialEq, Eq, Structural)]
pub enum PairingError {
    /// The two lists and the list of observed elements differ in length.
    SizeMismatch,
}

/// Pairs the timing tables of two simulations for comparison: both lists are
/// put in the order of their elements in `element_names` (stable sort by
/// position, absent names first) and the `i`-th of each are paired.
pub fn pair_timing_tables(
    default_labels: &Vec<String>,
    target_labels: &Vec<String>,
    element_names: &Vec<String>,
) -> (r: Result<Vec<(usize, usize)>, PairingError>)
    ensures
        r is Err <==> default_labels.len() != target_labels.len() || default_labels.len()
            != element_names.len(),
        r matches Ok(pairs) ==> {
            &&& is_stable_order(
                label_ranks(strings_view(default_labels@), strings_view(element_names@)),
                pairs@.map_values(|p: (usize, usize)| p.0),
            )
            &&& is_stable_order(
                label_ranks(strings_view(target_labels@), strings_view(element_names@)),
                pairs@.map_values(|p: (usize, usize)| p.1),
            )
        },
{
    if default_labels.len() != target_labels.len() || default_labels.len() != element_names.len() {
        return Err(PairingError::SizeMismatch);
    }
    let d = order_by_position(default_labels, element_names);
    let t = order_by_position(target_labels, element_names);
    let mut pairs: Vec<(usize, usize)> = Vec::new();
    let mut i: usize = 0;
    while i < d.len()
        invariant
            i <= d.len(),
            d.len() == t.len(),
            pairs@.len() == i,
            forall|k: int| 0 <= k < i ==> #[trigger] pairs@[k] == (d@[k], t@[k]),
        decreases d.len() - i,
    {
        pairs.push((d[i], t[i]));
        i += 1;
    }
    assert(pairs@.map_values(|p: (usize, usize)| p.0) =~= d@);
    assert(pairs@.map_values(|p: (usize, usize)| p.1) =~= t@);
    Ok(pairs)
}

proof fn lemma_position_found(names: Seq<Seq<char>>, label: Seq<char>, j: int)
    requires
        0 <= j,
    ensures
        position_from(names, label, j) matches Some(p) ==> j <= p < names.len() && names[p] == label,
        (exists|k: int| j <= k < names.len() && names[k] == label) ==> position_from(names, label, j) is Some,
    decreases names.len() - j,
{
    if 0 <= j < names.len() && names[j] != label {
        lemma_position_found(names, label, j + 1);
        if exists|k: int| j <= k < names.len() && names[k] == label {
            let k = choose|k: int| j <= k < names.len() && names[k] == label;
            assert(k != j);
            assert(j + 1 <= k);
        }
    }
}

/// Law: when every label is distinct and occurs among the `n` names (and
/// there are as many labels as names), a stable order by position lists, as
/// its `i`-th entry, the label equal to the `i`-th name.  Timing tables are
/// therefore paired by label, and the overall verdict does not depend on the
/// order in which the tables come.
pub proof fn lemma_order_by_name(labels: Seq<Seq<char>>, names: Seq<Seq<char>>, r: Seq<usize>)
    requires
        labels.len() == names.len(),
        forall|a: int, b: int| 0 <= a < b < labels.len() ==> labels[a] != labels[b],
        forall|a: int| 0 <= a < labels.len() ==> names.contains(#[trigger] labels[a]),
        is_stable_order(label_ranks(labels, names), r),
    ensures
        forall|i: int| 0 <= i < r.len() ==> labels[#[trigger] r[i] as int] == names[i],
{
    let keys = label_ranks(labels, names);
    let n = labels.len() as int;
    assert forall|a: int| 0 <= a < n implies 1 <= #[trigger] keys[a] <= n && names[keys[a] - 1] == labels[a] by {
        let x = labels[a];
        let k = choose|k: int| 0 <= k < names.len() && names[k] == x;
        lemma_position_found(names, x, 0);
    }
    // distinct labels have distinct keys
    assert forall|a: int, b: int| 0 <= a < n && 0 <= b < n && a != b implies keys[a] != keys[b] by {
        if keys[a] == keys[b] {
            assert(names[keys[a] - 1] == labels[a]);
            assert(names[keys[b] - 1] == labels[b]);
            if a < b {
                assert(labels[a] != labels[b]);
            } else {
                assert(labels[b] != labels[a]);
            }
        }
    }
    // the keys along r strictly increase
    assert forall|a: int, b: int| 0 <= a < b < n implies keys[r[a] as int] < keys[r[b] as int] by {
        assert(r[a] != r[b]);
        assert(keys[r[a] as int] < keys[r[b] as int] || (keys[r[a] as int] == keys[r[b] as int] && r[a] < r[b]));
    }
    lemma_strict_keys(keys, r, n);
    assert forall|i: int| 0 <= i < r.len() implies labels[#[trigger] r[i] as int] == names[i] by {
        assert(keys[r[i] as int] == i + 1);
    }
}

/// The tables of one side of a comparison, each listed under its label:
/// every label occurs once and is one of the observed element names.
pub open spec fn labelled_once<T>(labels: Seq<Seq<char>>, tables: Seq<T>, names: Seq<Seq<char>>) -> bool {
    &&& labels.len() == names.len()
    &&& tables.len() == labels.len()
    &&& forall|a: int, b: int| 0 <= a < b < labels.len() ==> labels[a] != labels[b]
    &&& forall|a: int| 0 <= a < labels.len() ==> names.contains(#[trigger] labels[a])
}

/// Two listings hold the same table under each label.
pub open spec fn same_tables<T>(labels1: Seq<Seq<char>>, tables1: Seq<T>, labels2: Seq<Seq<char>>, tables2: Seq<T>) -> bool {
    forall|a: int, b: int|
        0 <= a < labels1.len() && 0 <= b < labels2.len() && labels1[a] == labels2[b] ==> tables1[a]
            == tables2[b]
}

/// The pair `p1` of tables picks the same default table and the same target
/// table as the pair `p2`.
pub open spec fn same_pair<T>(
    default_tables1: Seq<T>,
    target_tables1: Seq<T>,
    p1: (usize, usize),
    default_tables2: Seq<T>,
    target_tables2: Seq<T>,
    p2: (usize, usize),
) -> bool {
    &&& default_tables1[p1.0 as int] == default_tables2[p2.0 as int]
    &&& target_tables1[p1.1 as int] == target_tables2[p2.1 as int]
}

/// Law: the pairs of timing tables compared do not depend on the order in
/// which the tables are listed.  Given two listings of the same default
/// tables and two listings of the same target tables (each table under its
/// own label, every label once and among the element names), the pairings
/// that `pair_timing_tables` returns for the two listings put the same two
/// tables side by side at every position, so the overall verdict, which asks
/// every pair to agree, is the same.
pub proof fn lemma_pairing_ignores_order<T>(
    names: Seq<Seq<char>>,
    default_labels1: Seq<Seq<char>>,
    default_tables1: Seq<T>,
    target_labels1: Seq<Seq<char>>,
    target_tables1: Seq<T>,
    pairs1: Seq<(usize, usize)>,
    default_labels2: Seq<Seq<char>>,
    default_tables2: Seq<T>,
    target_labels2: Seq<Seq<char>>,
    target_tables2: Seq<T>,
    pairs2: Seq<(usize, usize)>,
)
    requires
        labelled_once(default_labels1, default_tables1, names),
        labelled_once(target_labels1, target_tables1, names),
        labelled_once(default_labels2, default_tables2, names),
        labelled_once(target_labels2, target_tables2, names),
        same_tables(default_labels1, default_tables1, default_labels2, default_tables2),
        same_tables(target_labels1, target_tables1, target_labels2, target_tables2),
        is_stable_order(label_ranks(default_labels1, names), pairs1.map_values(|p: (usize, usize)| p.0)),
        is_stable_order(label_ranks(target_labels1, names), pairs1.map_values(|p: (usize, usize)| p.1)),
        is_stable_order(label_ranks(default_labels2, names), pairs2.map_values(|p: (usize, usize)| p.0)),
        is_stable_order(label_ranks(target_labels2, names), pairs2.map_values(|p: (usize, usize)| p.1)),
    ensures
        pairs1.len() == pairs2.len(),
        forall|i: int|
            0 <= i < pairs1.len() ==> same_pair(default_tables1, target_tables1, #[trigger] pairs1[i],
                default_tables2, target_tables2, pairs2[i]),
{
    let d1 = pairs1.map_values(|p: (usize, usize)| p.0);
    let t1 = pairs1.map_values(|p: (usize, usize)| p.1);
    let d2 = pairs2.map_values(|p: (usize, usize)| p.0);
    let t2 = pairs2.map_values(|p: (usize, usize)| p.1);
    lemma_order_by_name(default_labels1, names, d1);
    lemma_order_by_name(target_labels1, names, t1);
    lemma_order_by_name(default_labels2, names, d2);
    lemma_order_by_name(target_labels2, names, t2);
    assert forall|i: int| 0 <= i < pairs1.len() implies same_pair(default_tables1, target_tables1,
        #[trigger] pairs1[i], default_tables2, target_tables2, pairs2[i]) by {
        assert(d1[i] == pairs1[i].0);
        assert(d2[i] == pairs2[i].0);
        assert(t1[i] == pairs1[i].1);
        assert(t2[i] == pairs2[i].1);
        assert(default_labels1[d1[i] as int] == names[i]);
        assert(default_labels2[d2[i] as int] == names[i]);
        assert(target_labels1[t1[i] as int] == names[i]);
        assert(target_labels2[t2[i] as int] == names[i]);
    }
}

proof fn lemma_strict_keys(keys: Seq<int>, r: Seq<usize>, n: int)
    requires
        r.len() == n,
        keys.len() == n,
        forall|i: int| 0 <= i < n ==> #[trigger] r[i] < n,
        forall|a: int| 0 <= a < n ==> 1 <= #[trigger] keys[a] <= n,
        forall|a: int, b: int| 0 <= a < b < n ==> keys[r[a] as int] < keys[r[b] as int],
    ensures
        forall|i: int| 0 <= i < n ==> keys[#[trigger] r[i] as int] == i + 1,
{
    assert forall|i: int| 0 <= i < n implies keys[#[trigger] r[i] as int] >= i + 1 by {
        lemma_keys_low(keys, r, n, i);
    }
    assert forall|i: int| 0 <= i < n implies keys[#[trigger] r[i] as int] <= i + 1 by {
        lemma_keys_high(keys, r, n, i);
    }
}

proof fn lemma_keys_low(keys: Seq<int>, r: Seq<usize>, n: int, i: int)
    requires
        r.len() == n,
        keys.len() == n,
        0 <= i < n,
        forall|i: int| 0 <= i < n ==> #[trigger] r[i] < n,
        forall|a: int| 0 <= a < n ==> 1 <= #[trigger] keys[a] <= n,
        forall|a: int, b: int| 0 <= a < b < n ==> keys[r[a] as int] < keys[r[b] as int],
    ensures
        keys[r[i] as int] >= i + 1,
    decreases i,
{
    if i > 0 {
        lemma_keys_low(keys, r, n, i - 1);
    }
}

proof fn lemma_keys_high(keys: Seq<int>, r: Seq<usize>, n: int, i: int)
    requires
        r.len() == n,
        keys.len() == n,
        0 <= i < n,
        forall|i: int| 0 <= i < n ==> #[trigger] r[i] < n,
        forall|a: int| 0 <= a < n ==> 1 <= #[trigger] keys[a] <= n,
        forall|a: int, b: int| 0 <= a < b < n ==> keys[r[a] as int] < keys[r[b] as int],
    ensures
        keys[r[i] as int] <= i + 1,
    decreases n - i,
{
    if i < n - 1 {
        lemma_keys_high(keys, r, n, i + 1);
    }
}

} // verus!
