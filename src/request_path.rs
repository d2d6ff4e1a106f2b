use vstd::prelude::*;

use crate::content_type::{extension_of, extension_range, file_name_of, name_extension};
use crate::text::{chars_of, last_index_of, lemma_last_index_of_concat};

verus! {

/// The segments of `cur + p` when splitting at '/', where `cur` is the
/// segment read so far.
pub open spec fn segments_from(cur: Seq<char>, p: Seq<char>) -> Seq<Seq<char>>
    decreases p.len(),
{
    if p.len() == 0 {
        seq![cur]
    } else if p[0] == '/' {
        seq![cur] + segments_from(Seq::empty(), p.drop_first())
    } else {
        segments_from(cur.push(p[0]), p.drop_first())
    }
}

/// The pieces of `p` between its '/' characters; "a//b/" has the segments
/// "a", "", "b" and "".
pub open spec fn segments(p: Seq<char>) -> Seq<Seq<char>> {
    segments_from(Seq::empty(), p)
}

/// A segment that names nothing: empty, or ".".
pub open spec fn is_skipped(s: Seq<char>) -> bool {
    s.len() == 0 || s == seq!['.']
}

/// ".."
pub open spec fn parent_segment() -> Seq<char> {
    seq!['.', '.']
}

/// A segment that names an entry: not empty, ".", or "..".
pub open spec fn is_plain(s: Seq<char>) -> bool {
    !is_skipped(s) && s != parent_segment()
}

/// The segments that name something, in order: empty and "." segments are
/// dropped, as a path's components drop them.
pub open spec fn kept(segs: Seq<Seq<char>>) -> Seq<Seq<char>>
    decreases segs.len(),
{
    if segs.len() == 0 {
        Seq::empty()
    } else if is_skipped(segs.last()) {
        kept(segs.drop_last())
    } else {
        kept(segs.drop_last()).push(segs.last())
    }
}

/// The segments joined with '/'.
pub open spec fn join(segs: Seq<Seq<char>>) -> Seq<char>
    decreases segs.len(),
{
    if segs.len() == 0 {
        Seq::empty()
    } else if segs.len() == 1 {
        segs[0]
    } else {
        join(segs.drop_last()) + seq!['/'] + segs.last()
    }
}

/// `p` without its empty and "." segments: "a//b/./c/" becomes "a/b/c".
pub open spec fn clean(p: Seq<char>) -> Seq<char> {
    join(kept(segments(p)))
}

/// `p` starts at the root.
pub open spec fn is_absolute(p: Seq<char>) -> bool {
    p.len() > 0 && p[0] == '/'
}

/// `p` has a ".." segment.
pub open spec fn has_parent_segment(p: Seq<char>) -> bool {
    exists|i: int| 0 <= i < segments(p).len() && segments(p)[i] == parent_segment()
}

/// A request path that is looked up: relative, without a ".." segment, and
/// naming something once cleaned. Any other cannot be kept under the content
/// root and is refused.
pub open spec fn is_accepted(p: Seq<char>) -> bool {
    !is_absolute(p) && !has_parent_segment(p) && kept(segments(p)).len() > 0
}

/// A path that may be joined under a content directory: every segment is a
/// plain name, so it cannot name anything outside that directory.
pub open spec fn is_safe_path(p: Seq<char>) -> bool {
    forall|i: int| 0 <= i < segments(p).len() ==> is_plain(#[trigger] segments(p)[i])
}

/// The file a path names: the path itself where it has an extension, else
/// the path with ".html" appended.
pub open spec fn normalized(p: Seq<char>) -> Seq<char> {
    if extension_of(p) is None {
        p + html_suffix()
    } else {
        p
    }
}

/// ".html"
pub open spec fn html_suffix() -> Seq<char> {
    seq!['.', 'h', 't', 'm', 'l']
}

/// Splitting `a + b` continues the last segment of `a` into `b`.
pub proof fn lemma_segments_concat(cur: Seq<char>, a: Seq<char>, b: Seq<char>)
    ensures
        segments_from(cur, a).len() >= 1,
        segments_from(cur, a + b) == segments_from(cur, a).drop_last() + segments_from(
            segments_from(cur, a).last(),
            b,
        ),
    decreases a.len(),
{
    if a.len() == 0 {
        assert(a + b =~= b);
        assert(segments_from(cur, a).drop_last() =~= Seq::<Seq<char>>::empty());
        assert(Seq::<Seq<char>>::empty() + segments_from(cur, b) =~= segments_from(cur, b));
    } else {
        assert((a + b).drop_first() =~= a.drop_first() + b);
        assert((a + b)[0] == a[0]);
        if a[0] == '/' {
            lemma_segments_concat(Seq::empty(), a.drop_first(), b);
            let s = segments_from(Seq::empty(), a.drop_first());
            assert((seq![cur] + s).drop_last() =~= seq![cur] + s.drop_last());
            assert((seq![cur] + s).last() == s.last());
        } else {
            lemma_segments_concat(cur.push(a[0]), a.drop_first(), b);
        }
    }
}

/// A segment never holds '/'.
pub proof fn lemma_segments_no_slash(cur: Seq<char>, p: Seq<char>)
    requires
        !cur.contains('/'),
    ensures
        forall|i: int, j: int|
            0 <= i < segments_from(cur, p).len() && 0 <= j < segments_from(cur, p)[i].len()
                ==> segments_from(cur, p)[i][j] != '/',
    decreases p.len(),
{
    if p.len() == 0 {
        assert forall|i: int, j: int|
            0 <= i < segments_from(cur, p).len() && 0 <= j < segments_from(cur, p)[i].len()
                implies segments_from(cur, p)[i][j] != '/' by {
            assert(segments_from(cur, p)[i] == cur);
            assert(cur[j] != '/');
        }
    } else {
        if p[0] == '/' {
            lemma_segments_no_slash(Seq::empty(), p.drop_first());
            let s = segments_from(Seq::empty(), p.drop_first());
            assert(segments_from(cur, p) == seq![cur] + s);
            assert forall|i: int, j: int|
                0 <= i < segments_from(cur, p).len() && 0 <= j < segments_from(cur, p)[i].len()
                    implies segments_from(cur, p)[i][j] != '/' by {
                if i == 0 {
                    assert(cur[j] != '/');
                } else {
                    assert(segments_from(cur, p)[i] == s[i - 1]);
                }
            }
        } else {
            let c2 = cur.push(p[0]);
            assert forall|j: int| 0 <= j < c2.len() implies c2[j] != '/' by {
                if j < cur.len() {
                    assert(cur[j] != '/');
                }
            }
            lemma_segments_no_slash(c2, p.drop_first());
            assert(segments_from(cur, p) == segments_from(c2, p.drop_first()));
        }
    }
}

/// Text without '/' only extends the current segment.
pub proof fn lemma_segments_plain_tail(cur: Seq<char>, b: Seq<char>)
    requires
        !b.contains('/'),
    ensures
        segments_from(cur, b) == seq![cur + b],
    decreases b.len(),
{
    if b.len() == 0 {
        assert(cur + b =~= cur);
    } else {
        assert(b[0] != '/');
        assert(!b.drop_first().contains('/')) by {
            if b.drop_first().contains('/') {
                let j = choose|j: int| 0 <= j < b.drop_first().len() && b.drop_first()[j] == '/';
                assert(b[j + 1] == '/');
            }
        }
        lemma_segments_plain_tail(cur.push(b[0]), b.drop_first());
        assert(cur.push(b[0]) + b.drop_first() =~= cur + b);
    }
}

/// A name followed by '/' splits into the name and an empty segment.
pub proof fn lemma_segments_dir(d: Seq<char>)
    requires
        !d.contains('/'),
    ensures
        segments(d + seq!['/']) == seq![d, Seq::<char>::empty()],
{
    lemma_segments_concat(Seq::empty(), d, seq!['/']);
    lemma_segments_plain_tail(Seq::empty(), d);
    assert(Seq::<char>::empty() + d =~= d);
    assert(seq!['/'].drop_first() =~= Seq::<char>::empty());
    assert(segments_from(d, seq!['/']) == seq![d] + segments_from(
        Seq::<char>::empty(),
        Seq::<char>::empty(),
    ));
    assert(seq![d].drop_last() + seq![d, Seq::<char>::empty()] =~= seq![d, Seq::<char>::empty()]);
}

/// Joining segments without '/' and splitting again gives them back.
pub proof fn lemma_segments_of_join(segs: Seq<Seq<char>>)
    requires
        segs.len() > 0,
        forall|i: int| 0 <= i < segs.len() ==> !(#[trigger] segs[i]).contains('/'),
    ensures
        segments(join(segs)) == segs,
    decreases segs.len(),
{
    if segs.len() == 1 {
        lemma_segments_plain_tail(Seq::empty(), segs[0]);
        assert(Seq::<char>::empty() + segs[0] =~= segs[0]);
        assert(seq![segs[0]] =~= segs);
    } else {
        let init = segs.drop_last();
        assert forall|i: int| 0 <= i < init.len() implies !(#[trigger] init[i]).contains('/') by {
            assert(init[i] == segs[i]);
        }
        lemma_segments_of_join(init);
        let a = join(init);
        let s = segs.last();
        assert(!s.contains('/')) by {
            assert(segs[segs.len() - 1] == s);
        }
        lemma_segments_concat(Seq::empty(), a + seq!['/'], s);
        lemma_segments_concat(Seq::empty(), a, seq!['/']);
        assert(seq!['/'].drop_first() =~= Seq::<char>::empty());
        assert(segments_from(segments(a).last(), seq!['/']) == seq![segments(a).last()]
            + segments_from(Seq::empty(), Seq::<char>::empty()));
        let sa = segments(a);
        assert(sa.drop_last() + seq![sa.last(), Seq::<char>::empty()] =~= sa.push(
            Seq::empty(),
        ));
        assert(segments(a + seq!['/']) =~= sa.push(Seq::empty()));
        lemma_segments_plain_tail(Seq::empty(), s);
        assert(Seq::<char>::empty() + s =~= s);
        assert(sa.push(Seq::empty()).drop_last() + seq![s] =~= segs);
    }
}

/// What `kept` keeps comes from the input and is neither empty nor ".";
/// where nothing is skipped, it keeps everything.
pub proof fn lemma_kept(segs: Seq<Seq<char>>)
    ensures
        forall|i: int|
            0 <= i < kept(segs).len() ==> !is_skipped(#[trigger] kept(segs)[i]) && exists|j: int|
                0 <= j < segs.len() && segs[j] == kept(segs)[i],
        (forall|i: int| 0 <= i < segs.len() ==> !is_skipped(#[trigger] segs[i])) ==> kept(segs)
            == segs,
    decreases segs.len(),
{
    if segs.len() > 0 {
        let init = segs.drop_last();
        lemma_kept(init);
        assert forall|i: int|
            0 <= i < kept(segs).len() implies !is_skipped(#[trigger] kept(segs)[i]) && exists|j: int|
                0 <= j < segs.len() && segs[j] == kept(segs)[i] by {
            if i < kept(init).len() {
                let j = choose|j: int| 0 <= j < init.len() && init[j] == kept(init)[i];
                assert(segs[j] == init[j]);
            } else {
                assert(segs[segs.len() - 1] == kept(segs)[i]);
            }
        }
        if forall|i: int| 0 <= i < segs.len() ==> !is_skipped(#[trigger] segs[i]) {
            assert forall|i: int| 0 <= i < init.len() implies !is_skipped(#[trigger] init[i]) by {
                assert(init[i] == segs[i]);
            }
            assert(!is_skipped(segs[segs.len() - 1]));
            assert(init.push(segs.last()) =~= segs);
        }
    }
}

/// A leading segment that names something stays in front.
pub proof fn lemma_kept_prepend(x: Seq<char>, segs: Seq<Seq<char>>)
    requires
        !is_skipped(x),
    ensures
        kept(seq![x] + segs) == seq![x] + kept(segs),
    decreases segs.len(),
{
    if segs.len() == 0 {
        assert(seq![x] + segs =~= seq![x]);
        assert(seq![x].drop_last() =~= Seq::<Seq<char>>::empty());
        assert(seq![x].last() == x);
        assert(kept(seq![x]) == kept(Seq::<Seq<char>>::empty()).push(x));
        assert(seq![x] + kept(segs) =~= seq![x]);
        assert(Seq::<Seq<char>>::empty().push(x) =~= seq![x]);
    } else {
        lemma_kept_prepend(x, segs.drop_last());
        let all = seq![x] + segs;
        assert(all.drop_last() =~= seq![x] + segs.drop_last());
        assert(all.last() == segs.last());
        if is_skipped(segs.last()) {
            assert(kept(all) == kept(all.drop_last()));
        } else {
            assert(kept(all) == kept(all.drop_last()).push(segs.last()));
            assert((seq![x] + kept(segs.drop_last())).push(segs.last()) =~= seq![x] + kept(
                segs.drop_last(),
            ).push(segs.last()));
        }
    }
}

/// The cleaned form of an accepted path is safe.
pub proof fn lemma_clean_safe(p: Seq<char>)
    requires
        is_accepted(p),
    ensures
        is_safe_path(clean(p)),
        segments(clean(p)) == kept(segments(p)),
{
    let segs = segments(p);
    let k = kept(segs);
    lemma_kept(segs);
    lemma_segments_no_slash(Seq::empty(), p);
    assert forall|i: int| 0 <= i < k.len() implies !(#[trigger] k[i]).contains('/') by {
        let j = choose|j: int| 0 <= j < segs.len() && segs[j] == k[i];
        if k[i].contains('/') {
            let t = choose|t: int| 0 <= t < k[i].len() && k[i][t] == '/';
            assert(segs[j][t] == '/');
        }
    }
    lemma_segments_of_join(k);
    assert forall|i: int| 0 <= i < k.len() implies is_plain(#[trigger] k[i]) by {
        let j = choose|j: int| 0 <= j < segs.len() && segs[j] == k[i];
        assert(segs[j] != parent_segment());
    }
}

/// A safe path is not empty and its last segment is a plain name.
pub proof fn lemma_safe_path_shape(p: Seq<char>)
    requires
        is_safe_path(p),
    ensures
        segments(p).len() >= 1,
        kept(segments(p)) == segments(p),
        is_plain(segments(p).last()),
        file_name_of(p) == Some(segments(p).last()),
{
    lemma_segments_concat(Seq::empty(), p, Seq::empty());
    let s = segments(p);
    assert(is_plain(s[s.len() - 1]));
    assert forall|i: int| 0 <= i < s.len() implies !is_skipped(#[trigger] s[i]) by {
        assert(is_plain(s[i]));
    }
    lemma_kept(s);
}

/// A safe path without an extension gets ".html" appended, and then has the
/// extension "html" and is still safe.
pub proof fn lemma_extension_defaulting(p: Seq<char>)
    requires
        is_safe_path(p),
        extension_of(p) is None,
    ensures
        normalized(p) == p + html_suffix(),
        extension_of(normalized(p)) == Some(seq!['h', 't', 'm', 'l']),
        is_safe_path(normalized(p)),
{
    let h = html_suffix();
    lemma_safe_path_shape(p);
    let s = segments(p);
    let last = s.last();
    lemma_segments_concat(Seq::empty(), p, h);
    assert(!h.contains('/')) by {
        if h.contains('/') {
            let j = choose|j: int| 0 <= j < h.len() && h[j] == '/';
            assert(j < 5);
        }
    }
    lemma_segments_plain_tail(last, h);
    let s2 = s.drop_last().push(last + h);
    assert(segments(p + h) =~= s2);
    assert(is_plain(last + h)) by {
        assert((last + h).len() >= 6);
    }
    assert forall|i: int| 0 <= i < s2.len() implies is_plain(#[trigger] s2[i]) by {
        if i < s.len() - 1 {
            assert(s2[i] == s[i]);
        }
    }
    lemma_safe_path_shape(p + h);
    lemma_last_index_of_concat(last, h, '.');
    reveal_with_fuel(last_index_of, 6);
    assert(last_index_of(h, '.') == 0);
    assert((last + h).subrange(last.len() as int + 1, (last + h).len() as int) =~= seq!['h', 't', 'm', 'l']);
    assert(name_extension(last + h) == Some(seq!['h', 't', 'm', 'l']));
}

/// Normalizing keeps a safe path safe.
pub proof fn lemma_normalized_safe(p: Seq<char>)
    requires
        is_safe_path(p),
    ensures
        is_safe_path(normalized(p)),
{
    if extension_of(p) is None {
        lemma_extension_defaulting(p);
    }
}

/// The result of cleaning a request path, read in one pass.
pub struct Cleaned {
    /// The path without its empty and "." segments.
    pub text: String,
    /// The character range of its last segment that names something.
    pub last: Option<(usize, usize)>,
    /// Whether it has a ".." segment.
    pub parent: bool,
}

/// Splits `path` into segments, and keeps those that name something.
pub fn clean_path(path: &str) -> (r: Cleaned)
    ensures
        r.text@ == clean(path@),
        r.parent == has_parent_segment(path@),
        match r.last {
            Some((a, b)) => {
                &&& a <= b <= path@.len()
                &&& kept(segments(path@)).len() > 0
                &&& path@.subrange(a as int, b as int) == kept(segments(path@)).last()
            },
            None => kept(segments(path@)).len() == 0,
        },
{
    let v = chars_of(path);
    let n: usize = v.len();
    let mut out = String::new();
    let mut any = false;
    let mut parent = false;
    let mut last: Option<(usize, usize)> = None;
    let mut start: usize = 0;
    let mut i: usize = 0;
    let ghost mut done: Seq<Seq<char>> = Seq::empty();
    assert(v@.subrange(0, 0) =~= Seq::<char>::empty());
    assert(v@.subrange(0, n as int) =~= v@);
    loop
        invariant
            n == v@.len(),
            v@ == path@,
            start <= i <= n,
            segments(v@) == done + segments_from(
                v@.subrange(start as int, i as int),
                v@.subrange(i as int, n as int),
            ),
            out@ == join(kept(done)),
            any == (kept(done).len() > 0),
            parent == exists|j: int| 0 <= j < done.len() && done[j] == parent_segment(),
            match last {
                Some((a, b)) => {
                    &&& a <= b <= n
                    &&& kept(done).len() > 0
                    &&& v@.subrange(a as int, b as int) == kept(done).last()
                },
                None => kept(done).len() == 0,
            },
        decreases n - i,
    {
        let at_end = i == n;
        if at_end || v[i] == '/' {
            let ghost seg = v@.subrange(start as int, i as int);
            let ghost old_done = done;
            proof {
                let rest = v@.subrange(i as int, n as int);
                if at_end {
                    assert(rest.len() == 0);
                } else {
                    assert(rest.drop_first() =~= v@.subrange(i + 1, n as int));
                    assert(seq![seg] + segments_from(Seq::empty(), rest.drop_first()) =~= seq![seg]
                        + segments_from(
                        v@.subrange(i + 1, i + 1),
                        v@.subrange(i + 1, n as int),
                    )) by {
                        assert(v@.subrange(i + 1, i + 1) =~= Seq::<char>::empty());
                    }
                }
                done = done.push(seg);
                assert(done.drop_last() =~= old_done);
            }
            let len = i - start;
            if len == 2 && v[start] == '.' && v[start + 1] == '.' {
                assert(seg =~= parent_segment());
                parent = true;
            } else {
                assert forall|j: int| 0 <= j < done.len() && done[j] == parent_segment() implies
                    0 <= j < old_done.len() && old_done[j] == parent_segment() by {
                    if j == old_done.len() {
                        assert(seg.len() == 2 ==> seg[0] == v@[start as int]);
                    }
                }
            }
            if !(len == 0 || (len == 1 && v[start] == '.')) {
                assert(!is_skipped(seg)) by {
                    if seg == seq!['.'] {
                        assert(seg[0] == v@[start as int]);
                    }
                }
                let piece = path.substring_char(start, i);
                if any {
                    out.append("/");
                    proof {
                        reveal_strlit("/");
                    }
                }
                out.append(piece);
                proof {
                    let k = kept(old_done);
                    assert(kept(done) == k.push(seg));
                    if k.len() > 0 {
                        assert(k.push(seg).drop_last() =~= k);
                    }
                    assert(out@ =~= join(kept(done)));
                }
                any = true;
                last = Some((start, i));
            } else {
                assert(is_skipped(seg)) by {
                    if len == 1 {
                        assert(seg =~= seq!['.']);
                    }
                }
            }
            if at_end {
                proof {
                    assert(segments_from(seg, Seq::<char>::empty()) == seq![seg]);
                    assert(segments(v@) =~= done);
                }
                return Cleaned { text: out, last, parent };
            }
            start = i + 1;
        } else {
            proof {
                let rest = v@.subrange(i as int, n as int);
                assert(rest.drop_first() =~= v@.subrange(i + 1, n as int));
                assert(v@.subrange(start as int, i as int).push(v@[i as int]) =~= v@.subrange(
                    start as int,
                    i + 1,
                ));
            }
        }
        i = i + 1;
    }
}

/// The cleaned form of a request path that is looked up; `None` for one
/// that is refused.
pub fn clean_request_path(path: &str) -> (r: Option<String>)
    ensures
        r is Some <==> is_accepted(path@),
        r matches Some(c) ==> c@ == clean(path@),
{
    let v = chars_of(path);
    let absolute = v.len() > 0 && v[0] == '/';
    let c = clean_path(path);
    if absolute || c.parent || c.last.is_none() {
        None
    } else {
        Some(c.text)
    }
}

/// Appends ".html" to a path that has no extension.
pub fn normalize(path: &str) -> (r: String)
    ensures
        r@ == normalized(path@),
{
    let p = String::from_str(path);
    match extension_range(path) {
        Some(_) => p,
        None => {
            proof {
                reveal_strlit(".html");
            }
            let r = p.concat(".html");
            assert(r@ =~= path@ + html_suffix());
            r
        },
    }
}

} // verus!
