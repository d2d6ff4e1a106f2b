use page_server::{clean_request_path, detect_content_type, normalize, ContentType};

#[test]
fn content_type_of_known_extensions() {
    assert_eq!(detect_content_type("public/style.css"), ContentType::Css);
    assert_eq!(detect_content_type("pages/index.html"), ContentType::Html);
    assert_eq!(detect_content_type("public/app.js"), ContentType::JavaScript);
}

#[test]
fn content_type_of_other_extension_is_plain_text() {
    assert_eq!(detect_content_type("public/notes.txt"), ContentType::PlainText);
    assert_eq!(detect_content_type("public/page.HTML"), ContentType::PlainText);
    assert_eq!(detect_content_type("public/archive.tar.gz"), ContentType::PlainText);
}

#[test]
fn content_type_without_extension_is_html() {
    assert_eq!(detect_content_type("index"), ContentType::Html);
    assert_eq!(detect_content_type("public/.hidden"), ContentType::Html);
    assert_eq!(detect_content_type("v1.2/readme"), ContentType::Html);
    assert_eq!(detect_content_type(""), ContentType::Html);
    assert_eq!(detect_content_type(".."), ContentType::Html);
    assert_eq!(detect_content_type("a/.."), ContentType::Html);
    assert_eq!(detect_content_type("a"), ContentType::Html);
}

#[test]
fn content_type_reads_last_file_name() {
    assert_eq!(detect_content_type("x.css/"), ContentType::Css);
    assert_eq!(detect_content_type("x.css/."), ContentType::Css);
    assert_eq!(detect_content_type("x.css//"), ContentType::Css);
    assert_eq!(detect_content_type("a."), ContentType::PlainText);
}

#[test]
fn content_type_is_one_of_four_for_any_path() {
    for p in ["", "/", ".", "..", "a.", "a/b/c.d/e", "x.css/", "é.js", "日本.css"] {
        let t = detect_content_type(p);
        assert!(matches!(
            t,
            ContentType::Css | ContentType::Html | ContentType::JavaScript | ContentType::PlainText
        ));
    }
    assert_eq!(detect_content_type("日本.css"), ContentType::Css);
}

#[test]
fn mime_strings() {
    assert_eq!(ContentType::Css.mime(), "text/css");
    assert_eq!(ContentType::Html.mime(), "text/html");
    assert_eq!(ContentType::JavaScript.mime(), "application/js");
    assert_eq!(ContentType::PlainText.mime(), "text/plain");
}

fn cleaned(p: &str) -> Option<String> {
    clean_request_path(p)
}

#[test]
fn plain_paths_accepted() {
    assert_eq!(cleaned("index"), Some("index".to_string()));
    assert_eq!(cleaned("blog/post.html"), Some("blog/post.html".to_string()));
    assert_eq!(cleaned("..hidden"), Some("..hidden".to_string()));
    assert_eq!(cleaned("a/.b/c"), Some("a/.b/c".to_string()));
}

#[test]
fn empty_and_dot_segments_dropped() {
    assert_eq!(cleaned("about/"), Some("about".to_string()));
    assert_eq!(cleaned("blog//post"), Some("blog/post".to_string()));
    assert_eq!(cleaned("a/./b"), Some("a/b".to_string()));
    assert_eq!(cleaned("./index"), Some("index".to_string()));
    assert_eq!(cleaned("a//./b/."), Some("a/b".to_string()));
}

#[test]
fn traversal_paths_refused() {
    assert_eq!(cleaned("../../etc/passwd"), None);
    assert_eq!(cleaned("../secret"), None);
    assert_eq!(cleaned("a/../../b"), None);
    assert_eq!(cleaned("a/.."), None);
    assert_eq!(cleaned("a/../b"), None);
    assert_eq!(cleaned("/etc/passwd"), None);
    assert_eq!(cleaned("//x"), None);
}

#[test]
fn paths_naming_nothing_refused() {
    assert_eq!(cleaned(""), None);
    assert_eq!(cleaned("."), None);
    assert_eq!(cleaned("./"), None);
    assert_eq!(cleaned("/"), None);
}

#[test]
fn normalize_appends_html_without_extension() {
    assert_eq!(normalize("about"), "about.html");
    assert_eq!(normalize("blog/post"), "blog/post.html");
    assert_eq!(normalize("v1.2/page"), "v1.2/page.html");
    assert_eq!(normalize(".hidden"), ".hidden.html");
    assert_eq!(normalize(".."), "...html");
}

#[test]
fn normalize_keeps_extension() {
    assert_eq!(normalize("style.css"), "style.css");
    assert_eq!(normalize("a/b.txt"), "a/b.txt");
}
