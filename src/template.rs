use vstd::prelude::*;

use crate::text::chars_of;

verus! {

/// The placeholder that a page's body replaces in the template.
pub const MARKER: &'static str = "{{content}}";

/// The characters of `MARKER`.
pub open spec fn marker() -> Seq<char> {
    seq!['{', '{', 'c', 'o', 'n', 't', 'e', 'n', 't', '}', '}']
}

/// `pat` occurs in `s` at position `i`.
pub open spec fn occurs_at(s: Seq<char>, pat: Seq<char>, i: int) -> bool {
    0 <= i && i + pat.len() <= s.len() && s.subrange(i, i + pat.len()) == pat
}

/// `s` with every occurrence of `pat` replaced by `rep`, scanning from the
/// left and resuming after each replaced occurrence.
pub open spec fn replace_all(s: Seq<char>, pat: Seq<char>, rep: Seq<char>) -> Seq<char>
    recommends
        pat.len() > 0,
    decreases s.len(),
{
    if pat.len() == 0 || s.len() < pat.len() {
        s
    } else if s.subrange(0, pat.len() as int) == pat {
        rep + replace_all(s.subrange(pat.len() as int, s.len() as int), pat, rep)
    } else {
        seq![s[0]] + replace_all(s.subrange(1, s.len() as int), pat, rep)
    }
}

/// Where `pat` does not occur before `k`, replacing leaves `s[..k]` as it is.
pub proof fn lemma_replace_skips_prefix(s: Seq<char>, pat: Seq<char>, rep: Seq<char>, k: int)
    requires
        pat.len() > 0,
        0 <= k <= s.len(),
        forall|i: int| 0 <= i < k ==> !occurs_at(s, pat, i),
    ensures
        replace_all(s, pat, rep) == s.subrange(0, k) + replace_all(
            s.subrange(k, s.len() as int),
            pat,
            rep,
        ),
    decreases k,
{
    if k == 0 {
        assert(s.subrange(0, s.len() as int) =~= s);
        assert(s.subrange(0, 0) + s =~= s);
    } else {
        lemma_replace_skips_prefix(s, pat, rep, k - 1);
        let t = s.subrange(k - 1, s.len() as int);
        assert(t.subrange(1, t.len() as int) =~= s.subrange(k, s.len() as int));
        if t.len() >= pat.len() {
            assert(t.subrange(0, pat.len() as int) =~= s.subrange(k - 1, k - 1 + pat.len()));
            assert(!occurs_at(s, pat, k - 1));
        } else {
            assert(s.subrange(k, s.len() as int).len() < pat.len());
        }
        assert(s.subrange(0, k - 1) + seq![s[k - 1]] =~= s.subrange(0, k));
        assert(t =~= seq![s[k - 1]] + s.subrange(k, s.len() as int));
    }
}

/// Where `pat` does not occur in `s`, replacing changes nothing.
pub proof fn lemma_replace_absent(s: Seq<char>, pat: Seq<char>, rep: Seq<char>)
    requires
        pat.len() > 0,
        forall|i: int| !occurs_at(s, pat, i),
    ensures
        replace_all(s, pat, rep) == s,
{
    lemma_replace_skips_prefix(s, pat, rep, s.len() as int);
    assert(s.subrange(s.len() as int, s.len() as int).len() == 0);
    assert(s.subrange(0, s.len() as int) + s.subrange(s.len() as int, s.len() as int) =~= s);
}

/// A template that holds the marker exactly once, at `k`, renders as itself
/// with that one occurrence replaced by the body: the text before and after
/// it is kept character for character.
pub proof fn lemma_substitute_exactly_once(template: Seq<char>, body: Seq<char>, k: int)
    requires
        occurs_at(template, marker(), k),
        forall|i: int| occurs_at(template, marker(), i) ==> i == k,
    ensures
        replace_all(template, marker(), body) == template.subrange(0, k) + body
            + template.subrange(k + marker().len(), template.len() as int),
{
    let pat = marker();
    let m = pat.len() as int;
    let n = template.len() as int;
    lemma_replace_skips_prefix(template, pat, body, k);
    let t = template.subrange(k, n);
    assert(t.subrange(0, m) =~= template.subrange(k, k + m));
    let rest = template.subrange(k + m, n);
    assert(t.subrange(m, t.len() as int) =~= rest);
    assert forall|i: int| !occurs_at(rest, pat, i) by {
        if occurs_at(rest, pat, i) {
            assert(rest.subrange(i, i + m) =~= template.subrange(k + m + i, k + m + i + m));
            assert(occurs_at(template, pat, k + m + i));
        }
    }
    lemma_replace_absent(rest, pat, body);
}

/// A template without the marker renders as itself: the body is dropped.
pub proof fn lemma_substitute_without_marker(template: Seq<char>, body: Seq<char>)
    requires
        forall|i: int| !occurs_at(template, marker(), i),
    ensures
        replace_all(template, marker(), body) == template,
{
    lemma_replace_absent(template, marker(), body);
}

/// Substitutes `body` for every marker in `template`.
pub fn substitute(template: &str, body: &str) -> (r: String)
    ensures
        r@ == replace_all(template@, marker(), body@),
{
    proof {
        reveal_strlit("{{content}}");
    }
    let s = chars_of(template);
    let pat = chars_of(MARKER);
    assert(pat@ =~= marker());
    let n: usize = s.len();
    let m: usize = pat.len();
    let mut out = String::new();
    let mut start: usize = 0;
    let mut i: usize = 0;
    assert(s@.subrange(0, n as int) =~= s@);
    while m <= n - i
        invariant
            n == s@.len(),
            m == pat@.len(),
            m > 0,
            s@ == template@,
            pat@ == marker(),
            start <= i <= n,
            replace_all(s@, pat@, body@) == out@ + s@.subrange(start as int, i as int)
                + replace_all(s@.subrange(i as int, n as int), pat@, body@),
        decreases n - i,
    {
        let t = Ghost(s@.subrange(i as int, n as int));
        let mut k: usize = 0;
        let mut hit = true;
        while k < m
            invariant
                i + m <= n,
                n == s@.len(),
                m == pat@.len(),
                k <= m,
                hit == (forall|j: int| 0 <= j < k ==> s@[i + j] == pat@[j]),
            decreases m - k,
        {
            if s[i + k] != pat[k] {
                hit = false;
            }
            k = k + 1;
        }
        proof {
            assert(t@.subrange(0, m as int) =~= s@.subrange(i as int, i + m));
            if hit {
                assert(s@.subrange(i as int, i + m) =~= pat@);
            } else {
                assert(s@.subrange(i as int, i + m) != pat@) by {
                    let j = choose|j: int| 0 <= j < m && s@[i + j] != pat@[j];
                    assert(s@.subrange(i as int, i + m)[j] == s@[i + j]);
                }
            }
        }
        if hit {
            let piece = template.substring_char(start, i);
            out.append(piece);
            out.append(body);
            proof {
                assert(t@.subrange(m as int, t@.len() as int) =~= s@.subrange(i + m, n as int));
                assert(s@.subrange(i + m, i + m) =~= Seq::<char>::empty());
            }
            i = i + m;
            start = i;
            assert(replace_all(s@, pat@, body@) =~= out@ + s@.subrange(start as int, i as int)
                + replace_all(s@.subrange(i as int, n as int), pat@, body@));
        } else {
            proof {
                assert(t@.subrange(1, t@.len() as int) =~= s@.subrange(i + 1, n as int));
                assert(s@.subrange(start as int, i as int) + seq![s@[i as int]] =~= s@.subrange(
                    start as int,
                    i + 1,
                ));
            }
            i = i + 1;
            assert(replace_all(s@, pat@, body@) =~= out@ + s@.subrange(start as int, i as int)
                + replace_all(s@.subrange(i as int, n as int), pat@, body@));
        }
    }
    let rest = template.substring_char(start, n);
    out.append(rest);
    assert(out@ =~= replace_all(s@, pat@, body@));
    out
}

} // verus!
