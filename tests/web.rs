use resp_gate::auth::{is_cookie_header, session_cookie_steps};
use resp_gate::web::{
    Route, file_response_head, guess_file_mime, method_allowed, public_path, public_path_with, route_for,
    static_file_from, static_file_path, static_path_allowed, text_response,
};

#[test]
fn routes_by_exact_path() {
    assert_eq!(route_for("/"), Route::Hello);
    assert_eq!(route_for("/method"), Route::Method);
    assert_eq!(route_for("/ip"), Route::Ip);
    assert_eq!(route_for("/404"), Route::NotFound);
    assert_eq!(route_for("/index.html"), Route::File);
    assert_eq!(route_for("/method/"), Route::File);
    assert_eq!(route_for(""), Route::File);
}

#[test]
fn static_paths_must_be_rooted_and_not_climb() {
    assert!(static_path_allowed("/index.html"));
    assert!(static_path_allowed("/a.b/c"));
    assert!(!static_path_allowed("index.html"));
    assert!(!static_path_allowed(""));
    assert!(!static_path_allowed("/../etc/passwd"));
    assert!(!static_path_allowed("/a/.."));
    assert_eq!(static_file_from("/x.css"), Some("static/x.css".to_string()));
    assert_eq!(static_file_from("/.."), None);
}

#[test]
fn static_file_path_decodes_percent_escapes() {
    assert_eq!(static_file_path("/a%20b.txt"), Some("static/a b.txt".to_string()));
    assert_eq!(static_file_path("/%2E%2E/secret"), None);
    assert_eq!(static_file_path("/%ff"), None);
    assert_eq!(static_file_path("/caf%C3%A9"), Some("static/caf\u{e9}".to_string()));
    assert_eq!(static_file_path("/%41%62"), Some("static/Ab".to_string()));
    assert_eq!(static_file_path("/a%4"), Some("static/a%4".to_string()));
    assert_eq!(static_file_path("/a%zz"), Some("static/a%zz".to_string()));
}

#[test]
fn srs_paths_are_public() {
    assert!(public_path("/srs/LoginInterface.html"));
    assert!(public_path("/SRS"));
    assert!(public_path("/Srs/x"));
    assert!(!public_path("/srs/../secret"));
    assert!(!public_path("/index.html"));
    assert!(!public_path("/sr"));
    assert!(public_path_with("/SRS/A", "/srs/a"));
    assert!(!public_path_with("/srs/a", "/srs/a"));
}

#[test]
fn mime_types_by_extension() {
    assert_eq!(guess_file_mime("html"), "text/html");
    assert_eq!(guess_file_mime("HTML"), "text/html");
    assert_eq!(guess_file_mime("JpEg"), "image/jpeg");
    assert_eq!(guess_file_mime("jpg"), "image/jpeg");
    assert_eq!(guess_file_mime("mpa"), "audio/mpeg");
    assert_eq!(guess_file_mime("woff2"), "font/woff2");
    assert_eq!(guess_file_mime("js"), "application/javascript");
    assert_eq!(guess_file_mime("rs"), "application/octet-stream");
    assert_eq!(guess_file_mime(""), "application/octet-stream");
}

#[test]
fn responses_announce_the_body_length() {
    assert_eq!(
        text_response("200 OK", "text/plain", "Hello, World!"),
        "HTTP/1.1 200 OK\r\nContent-Type: text/plain\r\nContent-Length: 13\r\nConnection: close\r\n\r\nHello, World!"
    );
    assert_eq!(
        text_response("404 NOT FOUND", "text/html", "\u{e9}"),
        "HTTP/1.1 404 NOT FOUND\r\nContent-Type: text/html\r\nContent-Length: 2\r\nConnection: close\r\n\r\n\u{e9}"
    );
    assert_eq!(
        file_response_head(1024, "image/png"),
        "HTTP/1.1 200 OK\r\nContent-Length: 1024\r\nContent-Type: image/png\r\nConnection: close\r\n\r\n"
    );
}

#[test]
fn session_cookies_are_found_in_order() {
    assert_eq!(
        session_cookie_steps("a=1; key=\"abc\"; b=2; key=def"),
        vec![Some("abc".to_string()), Some("def".to_string())]
    );
    assert_eq!(session_cookie_steps("a=1"), Vec::<Option<String>>::new());
    assert_eq!(session_cookie_steps("key=x; =bad"), vec![Some("x".to_string()), None]);
}

#[test]
fn cookie_header_name_ignores_case() {
    assert!(is_cookie_header("Cookie"));
    assert!(is_cookie_header("COOKIE"));
    assert!(!is_cookie_header("Cookies"));
    assert!(!is_cookie_header("Set-Cookie"));
}

#[test]
fn only_get_and_post_are_answered() {
    assert!(method_allowed("GET"));
    assert!(method_allowed("POST"));
    assert!(!method_allowed("get"));
    assert!(!method_allowed("PUT"));
    assert!(!method_allowed(""));
}
