use vstd::prelude::*;

verus! {

/// The pages that the server serves from files.
#[derive(Clone, Copy, Debug, PartialEq, Eq, Structural)]
pub enum StaticPage {
    Index,
    Css,
    Js,
}

/// The kind of content a page is sent as.
#[derive(Clone, Copy, Debug, PartialEq, Eq, Structural)]
pub enum ContentKind {
    Html,
    Css,
    JavaScript,
}

/// One route: the request's method, path pattern and HTTP version, and the page
/// that answers it.
pub struct Route {
    pub method: String,
    pub path: String,
    pub version: String,
    pub page: StaticPage,
}

impl StaticPage {
    /// The file the page is read from.
    pub fn file_path(&self) -> (path: &'static str)
        ensures
            path@ == match *self {
                StaticPage::Index => "sample_page/index.html"@,
                StaticPage::Css => "sample_page/style.css"@,
                StaticPage::Js => "sample_page/functions.js"@,
            },
    {
        match self {
            StaticPage::Index => "sample_page/index.html",
            StaticPage::Css => "sample_page/style.css",
            StaticPage::Js => "sample_page/functions.js",
        }
    }

    /// The content kind the page is sent as.
    pub fn kind(&self) -> (kind: ContentKind)
        ensures
            kind == match *self {
                StaticPage::Index => ContentKind::Html,
                StaticPage::Css => ContentKind::Css,
                StaticPage::Js => ContentKind::JavaScript,
            },
    {
        match self {
            StaticPage::Index => ContentKind::Html,
            StaticPage::Css => ContentKind::Css,
            StaticPage::Js => ContentKind::JavaScript,
        }
    }
}

fn route(method: &str, path: &str, version: &str, page: StaticPage) -> (r: Route)
    ensures
        r.method@ == method@,
        r.path@ == path@,
        r.version@ == version@,
        r.page == page,
{
    Route { method: method.to_owned(), path: path.to_owned(), version: version.to_owned(), page }
}

/// The routes of the static pages: the index at `/`, the style sheet and the script.
pub fn http_routes() -> (routes: Vec<Route>)
    ensures
        routes@.len() == 3,
        forall|i: int| 0 <= i < 3 ==> routes@[i].method@ == "GET"@ && routes@[i].version@ == "1.1"@,
        routes@[0].path@ == "/$"@,
        routes@[0].page == StaticPage::Index,
        routes@[1].path@ == "/style.css"@,
        routes@[1].page == StaticPage::Css,
        routes@[2].path@ == "/functions.js"@,
        routes@[2].page == StaticPage::Js,
{
    let mut routes: Vec<Route> = Vec::new();
    routes.push(route("GET", "/$", "1.1", StaticPage::Index));
    routes.push(route("GET", "/style.css", "1.1", StaticPage::Css));
    routes.push(route("GET", "/functions.js", "1.1", StaticPage::Js));
    routes
}

} // verus!
