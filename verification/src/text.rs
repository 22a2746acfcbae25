use vstd::prelude::*;

verus! {

/// The characters of `s`, in order.
pub fn chars_of(s: &str) -> (r: Vec<char>)
    ensures
        r@ == s@,
{
    let mut r: Vec<char> = Vec::new();
    for c in it: s.chars()
        invariant
            r@ == it.seq().take(it.index() as int),
    {
        r.push(c);
    }
    r
}

/// Calls `String::push`, which appends one character to a string (its
/// documented effect, claimed here without proof).
#[verifier::external_body]
fn push_char(s: &mut String, c: char)
    ensures
        final(s)@ == old(s)@.push(c),
{
    s.push(c)
}

/// The string made of the characters of `v`, in order.
pub fn string_of(v: &Vec<char>) -> (r: String)
    ensures
        r@ == v@,
{
    let mut r = String::new();
    let mut i: usize = 0;
    while i < v.len()
        invariant
            i <= v.len(),
            r@ == v@.take(i as int),
        decreases v.len() - i,
    {
        push_char(&mut r, v[i]);
        assert(v@.take(i + 1) == v@.take(i as int).push(v@[i as int]));
        i += 1;
    }
    assert(v@.take(v.len() as int) == v@);
    r
}

/// Appends the characters of `s` to `out`.
pub fn push_all(out: &mut Vec<char>, s: &Vec<char>)
    ensures
        final(out)@ == old(out)@ + s@,
{
    let mut i: usize = 0;
    while i < s.len()
        invariant
            i <= s.len(),
            out@ == old(out)@ + s@.take(i as int),
        decreases s.len() - i,
    {
        out.push(s[i]);
        assert(s@.take(i + 1) =~= s@.take(i as int).push(s@[i as int]));
        i += 1;
    }
    assert(s@.take(s.len() as int) =~= s@);
}

/// Appends the characters `t[from..to]` to `out`.
pub fn push_range(out: &mut Vec<char>, t: &Vec<char>, from: usize, to: usize)
    requires
        from <= to <= t.len(),
    ensures
        final(out)@ == old(out)@ + t@.subrange(from as int, to as int),
{
    let mut i = from;
    while i < to
        invariant
            from <= i <= to <= t.len(),
            out@ == old(out)@ + t@.subrange(from as int, i as int),
        decreases to - i,
    {
        out.push(t[i]);
        assert(t@.subrange(from as int, i + 1) =~= t@.subrange(from as int, i as int).push(
            t@[i as int],
        ));
        i += 1;
    }
}

/// The characters `t[from..to]` as a string.
pub fn slice_string(t: &Vec<char>, from: usize, to: usize) -> (r: String)
    requires
        from <= to <= t.len(),
    ensures
        r@ == t@.subrange(from as int, to as int),
{
    let mut v: Vec<char> = Vec::new();
    let mut i = from;
    while i < to
        invariant
            from <= i <= to <= t.len(),
            v@ == t@.subrange(from as int, i as int),
        decreases to - i,
    {
        v.push(t[i]);
        assert(t@.subrange(from as int, i + 1) == t@.subrange(from as int, i as int).push(t@[i as int]));
        i += 1;
    }
    string_of(&v)
}

} // verus!
