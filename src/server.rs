use vstd::prelude::*;

use crate::content_type::ContentType;
use crate::resolver::{start_state, LoadError, Lookup, Page};
use crate::template::{marker, replace_all, substitute};

verus! {

/// Where the template lies, relative to the content root.
pub const TEMPLATE_FILE: &'static str = "templates/main.html";

/// The request path that a request for `/` stands for.
pub const INDEX_PATH: &'static str = "index";

/// The server's shared, read-only state: the page template.
pub struct Server {
    template: String,
}

/// A response: status code, content type and body.
#[derive(Debug)]
pub struct Reply {
    pub status: u16,
    pub content_type: ContentType,
    pub body: String,
}

/// The body served for a page: an HTML page goes into the template in place
/// of the marker; any other file is served as it is.
pub open spec fn page_body(template: Seq<char>, content_type: ContentType, contents: Seq<char>) -> Seq<
    char,
> {
    if content_type == ContentType::Html {
        replace_all(template, marker(), contents)
    } else {
        contents
    }
}

impl View for Server {
    type V = Seq<char>;

    closed spec fn view(&self) -> Seq<char> {
        self.template@
    }
}

impl Server {
    /// A server with the given template. A template without the marker is
    /// accepted; its pages then show the template alone.
    pub fn new(template: String) -> (r: Server)
        ensures
            r@ == template@,
    {
        Server { template }
    }

    /// The template.
    pub fn template(&self) -> (r: &str)
        ensures
            r@ == self@,
    {
        self.template.as_str()
    }

    /// Starts resolving request path `path` to a file.
    pub fn read_request_file(&self, path: &str) -> (r: Lookup)
        ensures
            r@ == start_state(path@),
    {
        Lookup::new(path)
    }

    /// The response for a finished lookup: 200 with the page, or 404 with
    /// the lookup's error.
    pub fn render(&self, result: &Result<Page, LoadError>) -> (r: Reply)
        ensures
            match result {
                Ok(page) => {
                    &&& r.status == 200
                    &&& r.content_type == page.content_type
                    &&& r.body@ == page_body(self@, page.content_type, page.contents@)
                },
                Err(e) => {
                    &&& r.status == 404
                    &&& r.content_type == ContentType::PlainText
                    &&& r.body@ == "Failed to read file: "@ + e.0@
                },
            },
    {
        match result {
            Ok(page) => {
                let body = match page.content_type {
                    ContentType::Html => substitute(self.template.as_str(), page.contents.as_str()),
                    _ => page.contents.clone(),
                };
                Reply { status: 200, content_type: page.content_type, body }
            },
            Err(e) => {
                let body = String::from_str("Failed to read file: ").concat(e.0.as_str());
                Reply { status: 404, content_type: ContentType::PlainText, body }
            },
        }
    }
}

} // verus!
