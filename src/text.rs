use vstd::prelude::*;

verus! {

/// The characters of `s`, in order.
pub fn chars_of(s: &str) -> (r: Vec<char>)
    ensures
        r@ == s@,
{
    let mut out: Vec<char> = Vec::new();
    for c in it: s.chars()
        invariant
            out@ == it.seq().subrange(0, it.index() as int),
    {
        out.push(c);
    }
    assert(out@ =~= s@);
    out
}

} // verus!

verus! {

/// Position of the last `c` in `s`, or -1 where `s` holds none.
pub open spec fn last_index_of(s: Seq<char>, c: char) -> int
    decreases s.len(),
{
    if s.len() == 0 {
        -1
    } else if s.last() == c {
        s.len() - 1
    } else {
        last_index_of(s.drop_last(), c)
    }
}

/// The position of the last `c` in `v[start..end]`, counted from `start`.
pub fn find_last(v: &Vec<char>, c: char, start: usize, end: usize) -> (r: Option<usize>)
    requires
        start <= end <= v@.len(),
    ensures
        match r {
            Some(k) => k == last_index_of(v@.subrange(start as int, end as int), c) && k < end
                - start,
            None => last_index_of(v@.subrange(start as int, end as int), c) == -1,
        },
{
    let ghost s = v@.subrange(start as int, end as int);
    let mut i: usize = end - start;
    assert(s.subrange(0, i as int) =~= s);
    while i > 0
        invariant
            start <= end <= v@.len(),
            s == v@.subrange(start as int, end as int),
            i <= s.len(),
            last_index_of(s, c) == last_index_of(s.subrange(0, i as int), c),
        decreases i,
    {
        assert(s.subrange(0, i as int).drop_last() =~= s.subrange(0, i - 1));
        if v[start + i - 1] == c {
            return Some(i - 1);
        }
        i = i - 1;
    }
    None
}

/// Whether `v[start..end]` is exactly `w`.
pub fn range_equals(v: &Vec<char>, start: usize, end: usize, w: &Vec<char>) -> (r: bool)
    requires
        start <= end <= v@.len(),
    ensures
        r == (v@.subrange(start as int, end as int) == w@),
{
    if end - start != w.len() {
        return false;
    }
    let mut k: usize = 0;
    while k < w.len()
        invariant
            start <= end <= v@.len(),
            start + w@.len() == end,
            k <= w@.len(),
            forall|j: int| 0 <= j < k ==> v@[start + j] == w@[j],
        decreases w@.len() - k,
    {
        if v[start + k] != w[k] {
            return false;
        }
        k = k + 1;
    }
    assert(v@.subrange(start as int, end as int) =~= w@);
    true
}

} // verus!

verus! {

/// The last `c` of `a + b` is the last of `b` where `b` holds one, else the
/// last of `a`.
pub proof fn lemma_last_index_of_concat(a: Seq<char>, b: Seq<char>, c: char)
    ensures
        last_index_of(a + b, c) == if last_index_of(b, c) >= 0 {
            a.len() + last_index_of(b, c)
        } else {
            last_index_of(a, c)
        },
    decreases b.len(),
{
    if b.len() == 0 {
        assert(a + b =~= a);
    } else {
        assert((a + b).drop_last() =~= a + b.drop_last());
        if b.last() != c {
            lemma_last_index_of_concat(a, b.drop_last(), c);
        }
    }
}

} // verus!
