//! The visual editor's request routing: which endpoint a request reaches.
use vstd::prelude::*;

use crate::text::str_eq;

verus! {

/// What an editor request asks for.
#[derive(Debug, Clone, Copy, PartialEq, Eq, Structural)]
pub enum Route {
    /// `GET /`: the page itself.
    Page,
    /// `GET /api/state`: the loaded source, options and themes.
    State,
    /// `GET /api/events`: the loaded recording's events.
    EventsGet,
    /// `POST /api/events`: replace the loaded recording's events.
    EventsReplace,
    /// `POST /api/render`: render with the posted options.
    Render,
    /// `POST /api/open`: load a dropped file.
    Open,
    /// `POST /api/save`: write the current render to disk.
    Save,
    /// Anything else.
    NotFound,
}

pub open spec fn route_spec(method: Seq<char>, url: Seq<char>) -> Route {
    if method == "GET"@ && url == "/"@ {
        Route::Page
    } else if method == "GET"@ && url == "/api/state"@ {
        Route::State
    } else if method == "GET"@ && url == "/api/events"@ {
        Route::EventsGet
    } else if method == "POST"@ && url == "/api/events"@ {
        Route::EventsReplace
    } else if method == "POST"@ && url == "/api/render"@ {
        Route::Render
    } else if method == "POST"@ && url == "/api/open"@ {
        Route::Open
    } else if method == "POST"@ && url == "/api/save"@ {
        Route::Save
    } else {
        Route::NotFound
    }
}

/// The endpoint for a request's method and URL.
pub fn route(method: &str, url: &str) -> (r: Route)
    ensures
        r == route_spec(method@, url@),
{
    let get = str_eq(method, "GET");
    let post = str_eq(method, "POST");
    if get && str_eq(url, "/") {
        Route::Page
    } else if get && str_eq(url, "/api/state") {
        Route::State
    } else if get && str_eq(url, "/api/events") {
        Route::EventsGet
    } else if post && str_eq(url, "/api/events") {
        Route::EventsReplace
    } else if post && str_eq(url, "/api/render") {
        Route::Render
    } else if post && str_eq(url, "/api/open") {
        Route::Open
    } else if post && str_eq(url, "/api/save") {
        Route::Save
    } else {
        Route::NotFound
    }
}

} // verus!
