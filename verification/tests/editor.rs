use terminal_svg::editor::{route, Route};

#[test]
fn editor_requests_reach_their_endpoints() {
    assert_eq!(route("GET", "/"), Route::Page);
    assert_eq!(route("GET", "/api/state"), Route::State);
    assert_eq!(route("GET", "/api/events"), Route::EventsGet);
    assert_eq!(route("POST", "/api/events"), Route::EventsReplace);
    assert_eq!(route("POST", "/api/render"), Route::Render);
    assert_eq!(route("POST", "/api/open"), Route::Open);
    assert_eq!(route("POST", "/api/save"), Route::Save);
    assert_eq!(route("POST", "/"), Route::NotFound);
    assert_eq!(route("GET", "/api/render"), Route::NotFound);
    assert_eq!(route("get", "/"), Route::NotFound);
}
