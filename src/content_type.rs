use vstd::prelude::*;

use crate::request_path::{clean_path, kept, lemma_kept_prepend, lemma_segments_concat, segments, parent_segment};
use crate::text::{chars_of, find_last, last_index_of, range_equals};

verus! {

/// The kinds of content a page can be served as.
#[derive(Clone, Copy, Debug, PartialEq, Eq, Structural)]
pub enum ContentType {
    Css,
    Html,
    JavaScript,
    PlainText,
}

/// The name of the file that path `p` ends in: its last segment that is
/// neither empty nor ".". There is none where no such segment exists, or
/// where it is "..".
pub open spec fn file_name_of(p: Seq<char>) -> Option<Seq<char>> {
    let k = kept(segments(p));
    if k.len() == 0 || k.last() == parent_segment() {
        None
    } else {
        Some(k.last())
    }
}

/// The extension of file name `f`: what follows its last '.', where that
/// dot is not the first character. `.hidden` and `page` have none, `a.` has
/// an empty one.
pub open spec fn name_extension(f: Seq<char>) -> Option<Seq<char>> {
    let dot = last_index_of(f, '.');
    if dot > 0 {
        Some(f.subrange(dot + 1, f.len() as int))
    } else {
        None
    }
}

/// The extension of the file that path `p` names.
pub open spec fn extension_of(p: Seq<char>) -> Option<Seq<char>> {
    match file_name_of(p) {
        Some(f) => name_extension(f),
        None => None,
    }
}

/// The content type that a path's extension calls for: `css`, `html` and `js`
/// are recognised, a path without an extension is HTML, any other extension
/// is plain text.
pub open spec fn content_type_of(p: Seq<char>) -> ContentType {
    match extension_of(p) {
        None => ContentType::Html,
        Some(e) => if e == seq!['c', 's', 's'] {
            ContentType::Css
        } else if e == seq!['h', 't', 'm', 'l'] {
            ContentType::Html
        } else if e == seq!['j', 's'] {
            ContentType::JavaScript
        } else {
            ContentType::PlainText
        },
    }
}

/// Under a directory `d` that is one plain name, a path keeps its
/// extension.
pub proof fn lemma_extension_under(d: Seq<char>, q: Seq<char>)
    requires
        segments(d + seq!['/']) == seq![d, Seq::<char>::empty()],
        d.len() > 0,
        d != seq!['.'],
        d != parent_segment(),
        last_index_of(d, '.') <= 0,
    ensures
        extension_of(d + seq!['/'] + q) == extension_of(q),
{
    lemma_segments_concat(Seq::empty(), d + seq!['/'], q);
    assert(segments(d + seq!['/'] + q) =~= seq![d] + segments(q));
    lemma_kept_prepend(d, segments(q));
    let k = kept(segments(q));
    if k.len() == 0 {
        assert(seq![d] + k =~= seq![d]);
    } else {
        assert((seq![d] + k).last() == k.last());
    }
}

/// The character range of the extension of `path`, as `extension_of`
/// defines it.
pub fn extension_range(path: &str) -> (r: Option<(usize, usize)>)
    ensures
        match r {
            Some((a, b)) => a <= b <= path@.len() && extension_of(path@) == Some(
                path@.subrange(a as int, b as int),
            ),
            None => extension_of(path@) is None,
        },
{
    let v = chars_of(path);
    let c = clean_path(path);
    match c.last {
        None => None,
        Some((a, b)) => {
            let ghost f = v@.subrange(a as int, b as int);
            if range_equals(&v, a, b, &vec!['.', '.']) {
                return None;
            }
            match find_last(&v, '.', a, b) {
                Some(k) => {
                    if k > 0 {
                        assert(f.subrange(k + 1, f.len() as int) =~= v@.subrange(
                            a + k + 1,
                            b as int,
                        ));
                        Some((a + k + 1, b))
                    } else {
                        None
                    }
                },
                None => None,
            }
        },
    }
}

/// Infers the content type of the file at `path` from its extension.
/// Every path gets exactly one of the four types.
pub fn detect_content_type(path: &str) -> (r: ContentType)
    ensures
        r == content_type_of(path@),
{
    let v = chars_of(path);
    match extension_range(path) {
        None => ContentType::Html,
        Some((a, b)) => {
            if range_equals(&v, a, b, &vec!['c', 's', 's']) {
                ContentType::Css
            } else if range_equals(&v, a, b, &vec!['h', 't', 'm', 'l']) {
                ContentType::Html
            } else if range_equals(&v, a, b, &vec!['j', 's']) {
                ContentType::JavaScript
            } else {
                ContentType::PlainText
            }
        },
    }
}

impl ContentType {
    /// The MIME type sent in the `Content-Type` header.
    pub fn mime(&self) -> (r: &'static str)
        ensures
            r@ == mime_of(*self),
    {
        match self {
            ContentType::Css => "text/css",
            ContentType::Html => "text/html",
            ContentType::JavaScript => "application/js",
            ContentType::PlainText => "text/plain",
        }
    }
}

/// The MIME type of each content type.
pub open spec fn mime_of(t: ContentType) -> Seq<char> {
    match t {
        ContentType::Css => "text/css"@,
        ContentType::Html => "text/html"@,
        ContentType::JavaScript => "application/js"@,
        ContentType::PlainText => "text/plain"@,
    }
}

} // verus!
