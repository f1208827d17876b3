use http_sockets::routes::{http_routes, ContentKind, StaticPage};

#[test]
fn static_routes() {
    let routes = http_routes();
    let table: Vec<(&str, &str, &str, StaticPage)> = routes
        .iter()
        .map(|r| (r.method.as_str(), r.path.as_str(), r.version.as_str(), r.page))
        .collect();
    assert_eq!(
        table,
        vec![
            ("GET", "/$", "1.1", StaticPage::Index),
            ("GET", "/style.css", "1.1", StaticPage::Css),
            ("GET", "/functions.js", "1.1", StaticPage::Js),
        ]
    );
}

#[test]
fn page_files_and_kinds() {
    assert_eq!(StaticPage::Index.file_path(), "sample_page/index.html");
    assert_eq!(StaticPage::Css.file_path(), "sample_page/style.css");
    assert_eq!(StaticPage::Js.file_path(), "sample_page/functions.js");
    assert_eq!(StaticPage::Index.kind(), ContentKind::Html);
    assert_eq!(StaticPage::Css.kind(), ContentKind::Css);
    assert_eq!(StaticPage::Js.kind(), ContentKind::JavaScript);
}
