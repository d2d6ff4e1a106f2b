use page_server::{
    substitute, Action, ContentType, LoadError, Page, Reply, Server, INDEX_PATH, MARKER,
    TEMPLATE_FILE,
};

/// Runs one request against an in-memory set of files; returns the reply and
/// the paths that were read, in order.
fn serve(server: &Server, path: &str, files: &[(&str, &str)]) -> (Reply, Vec<String>) {
    let mut lookup = server.read_request_file(path);
    let mut reads = Vec::new();
    let mut action = lookup.next_action();
    let result = loop {
        match action {
            Action::Read(p) => {
                reads.push(p.clone());
                let outcome = match files.iter().find(|(name, _)| *name == p) {
                    Some((_, body)) => Ok(body.to_string()),
                    None => Err(LoadError(format!("no such file: {}", p))),
                };
                action = lookup.on_read(outcome);
            }
            Action::Done(r) => break r,
        }
    };
    (server.render(&result), reads)
}

const TEMPLATE: &str = "<html><body>{{content}}</body></html>";

#[test]
fn index_page_is_templated() {
    let server = Server::new(TEMPLATE.to_string());
    let (reply, reads) = serve(&server, INDEX_PATH, &[("pages/index.html", "Hello")]);
    assert_eq!(reply.status, 200);
    assert_eq!(reply.body, "<html><body>Hello</body></html>");
    assert_eq!(reply.content_type, ContentType::Html);
    assert_eq!(reply.content_type.mime(), "text/html");
    assert_eq!(reads, vec!["pages/index.html".to_string()]);
}

#[test]
fn stylesheet_from_public_is_raw() {
    let server = Server::new(TEMPLATE.to_string());
    let css = "body { color: red; }";
    let (reply, reads) = serve(&server, "style.css", &[("public/style.css", css)]);
    assert_eq!(reply.status, 200);
    assert_eq!(reply.body, css);
    assert_eq!(reply.content_type.mime(), "text/css");
    assert_eq!(reads, vec!["pages/style.css".to_string(), "public/style.css".to_string()]);
}

#[test]
fn missing_page_is_not_found() {
    let server = Server::new(TEMPLATE.to_string());
    let (reply, reads) = serve(&server, "about", &[("pages/index.html", "Hello")]);
    assert_eq!(reply.status, 404);
    assert_eq!(reads, vec!["pages/about.html".to_string(), "public/about.html".to_string()]);
    assert!(!reply.body.is_empty());
    assert!(!reply.body.contains("<html>"));
    assert_eq!(
        reply.body,
        "Failed to read file: failed to load any of pages/about.html, public/about.html"
    );
    assert_eq!(reply.content_type, ContentType::PlainText);
}

#[test]
fn parent_path_reads_nothing() {
    let server = Server::new(TEMPLATE.to_string());
    let files = [("secret.html", "top secret"), ("pages/../secret.html", "top secret")];
    let (reply, reads) = serve(&server, "../secret", &files);
    assert_eq!(reply.status, 404);
    assert!(reads.is_empty());
    assert!(!reply.body.contains("top secret"));
    assert_eq!(reply.body, "Failed to read file: refused path ../secret");
}

#[test]
fn deep_traversal_reads_nothing() {
    let server = Server::new(TEMPLATE.to_string());
    for p in ["../../etc/passwd", "/etc/passwd", "a/../../b", "a/..", ".", ""] {
        let (reply, reads) = serve(&server, p, &[]);
        assert_eq!(reply.status, 404);
        assert!(reads.is_empty());
    }
}

#[test]
fn template_without_marker_drops_fragment() {
    let server = Server::new("<html><body></body></html>".to_string());
    let (reply, _) = serve(&server, "index", &[("pages/index.html", "Hello")]);
    assert_eq!(reply.status, 200);
    assert_eq!(reply.body, "<html><body></body></html>");
}

#[test]
fn pages_win_over_public() {
    let server = Server::new(TEMPLATE.to_string());
    let files = [("public/about.html", "from public"), ("pages/about.html", "from pages")];
    let (reply, reads) = serve(&server, "about", &files);
    assert_eq!(reply.status, 200);
    assert_eq!(reply.body, "<html><body>from pages</body></html>");
    assert_eq!(reads, vec!["pages/about.html".to_string()]);
}

#[test]
fn public_html_used_when_pages_lacks_it() {
    let server = Server::new(TEMPLATE.to_string());
    let (reply, _) = serve(&server, "about", &[("public/about.html", "from public")]);
    assert_eq!(reply.status, 200);
    assert_eq!(reply.body, "<html><body>from public</body></html>");
}

#[test]
fn script_and_text_are_raw() {
    let server = Server::new(TEMPLATE.to_string());
    let (reply, _) = serve(&server, "js/app.js", &[("public/js/app.js", "let x = 1;")]);
    assert_eq!(reply.body, "let x = 1;");
    assert_eq!(reply.content_type, ContentType::JavaScript);
    let (reply, _) = serve(&server, "notes.txt", &[("pages/notes.txt", "plain")]);
    assert_eq!(reply.body, "plain");
    assert_eq!(reply.content_type.mime(), "text/plain");
}

#[test]
fn nested_page_is_found() {
    let server = Server::new(TEMPLATE.to_string());
    let (reply, reads) = serve(&server, "blog/first", &[("pages/blog/first.html", "Post")]);
    assert_eq!(reply.status, 200);
    assert_eq!(reply.body, "<html><body>Post</body></html>");
    assert_eq!(reads, vec!["pages/blog/first.html".to_string()]);
}

#[test]
fn trailing_slash_and_empty_segments_served() {
    let server = Server::new(TEMPLATE.to_string());
    let (reply, reads) = serve(&server, "about/", &[("pages/about.html", "About")]);
    assert_eq!(reply.status, 200);
    assert_eq!(reply.body, "<html><body>About</body></html>");
    assert_eq!(reads, vec!["pages/about.html".to_string()]);
    let (reply, reads) = serve(&server, "blog//post", &[("public/blog/post.html", "P")]);
    assert_eq!(reply.status, 200);
    assert_eq!(reads, vec!["pages/blog/post.html".to_string(), "public/blog/post.html".to_string()]);
    let (reply, reads) = serve(&server, "a/./b", &[("pages/a/b.html", "B")]);
    assert_eq!(reply.body, "<html><body>B</body></html>");
    assert_eq!(reads, vec!["pages/a/b.html".to_string()]);
}

#[test]
fn lookup_steps_directly() {
    let server = Server::new(TEMPLATE.to_string());
    let mut lookup = server.read_request_file("about");
    match lookup.next_action() {
        Action::Read(p) => assert_eq!(p, "pages/about.html"),
        Action::Done(_) => panic!("expected a read"),
    }
    match lookup.on_read(Err(LoadError("gone".to_string()))) {
        Action::Read(p) => assert_eq!(p, "public/about.html"),
        Action::Done(_) => panic!("expected a read"),
    }
    match lookup.on_read(Ok("x".to_string())) {
        Action::Done(Ok(page)) => {
            assert_eq!(page.contents, "x");
            assert_eq!(page.content_type, ContentType::Html);
        }
        _ => panic!("expected a page"),
    }
}

#[test]
fn render_error_and_page() {
    let server = Server::new(TEMPLATE.to_string());
    assert_eq!(server.template(), TEMPLATE);
    let r = server.render(&Err(LoadError("nope".to_string())));
    assert_eq!(r.status, 404);
    assert_eq!(r.body, "Failed to read file: nope");
    let page = Page { content_type: ContentType::Css, contents: "a{}".to_string() };
    let r = server.render(&Ok(page));
    assert_eq!(r.status, 200);
    assert_eq!(r.body, "a{}");
}

#[test]
fn substitute_exactly_once() {
    assert_eq!(substitute("<p>{{content}}</p>", "Hi"), "<p>Hi</p>");
    assert_eq!(substitute("{{content}}", ""), "");
    assert_eq!(substitute("a{{content}}b", "{{content}}"), "a{{content}}b");
}

#[test]
fn substitute_every_marker() {
    assert_eq!(substitute("{{content}}|{{content}}", "x"), "x|x");
    assert_eq!(substitute("{{{content}}}", "x"), "{x}");
}

#[test]
fn substitute_without_marker() {
    assert_eq!(substitute("<p>{{contents}}</p>", "Hi"), "<p>{{contents}}</p>");
    assert_eq!(substitute("", "Hi"), "");
}

#[test]
fn substitute_unicode() {
    assert_eq!(substitute("é{{content}}日", "ü"), "éü日");
}

#[test]
fn constants() {
    assert_eq!(MARKER, "{{content}}");
    assert_eq!(TEMPLATE_FILE, "templates/main.html");
    assert_eq!(INDEX_PATH, "index");
}
