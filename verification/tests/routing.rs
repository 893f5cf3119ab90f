use thai_practice::routing::{
    admission, api_status, content_type, content_type_for, file_extension, query_mode,
    request_target, require_word, route, split_url, static_path, word_id, Admission, Method,
    Route, Target,
};

#[test]
fn url_splits_at_first_question_mark() {
    assert_eq!(split_url("/api/quiz?mode=spell"), ("/api/quiz".to_string(), "mode=spell".to_string()));
    assert_eq!(split_url("/api/words"), ("/api/words".to_string(), String::new()));
    assert_eq!(split_url("/a?b?c"), ("/a".to_string(), "b?c".to_string()));
    assert_eq!(split_url("?"), (String::new(), String::new()));
}

#[test]
fn targets() {
    assert!(matches!(request_target(Method::Post, "/api/login"), Target::Login));
    assert!(matches!(request_target(Method::Get, "/api/login"), Target::Api));
    assert!(matches!(request_target(Method::Get, "/api/words"), Target::Api));
    assert!(matches!(request_target(Method::Get, "/api/"), Target::Api));
    assert!(matches!(request_target(Method::Get, "/api"), Target::Static));
    assert!(matches!(request_target(Method::Get, "/"), Target::Static));
    assert!(matches!(request_target(Method::Get, "/../Cargo.toml"), Target::Static));
}

#[test]
fn routes() {
    assert!(matches!(route(Method::Get, "/api/words"), Route::ListWords));
    assert!(matches!(route(Method::Post, "/api/words"), Route::AddWord));
    assert!(matches!(route(Method::Put, "/api/words/12"), Route::UpdateWord(12)));
    assert!(matches!(route(Method::Delete, "/api/words/-3"), Route::DeleteWord(-3)));
    assert!(matches!(route(Method::Get, "/api/quiz"), Route::Quiz));
    assert!(matches!(route(Method::Post, "/api/review"), Route::Review));
    assert!(matches!(route(Method::Put, "/api/words/x"), Route::NoSuchEndpoint));
    assert!(matches!(route(Method::Delete, "/api/words/"), Route::NoSuchEndpoint));
    assert!(matches!(route(Method::Get, "/api/words/1"), Route::NoSuchEndpoint));
    assert!(matches!(route(Method::Other, "/api/words"), Route::NoSuchEndpoint));
    assert!(matches!(route(Method::Post, "/api/quiz"), Route::NoSuchEndpoint));
}

#[test]
fn word_ids_parse_like_std() {
    for s in ["0", "+7", "-0", "9223372036854775807", "-9223372036854775808", "007"] {
        let path = format!("/api/words/{s}");
        assert_eq!(word_id(&path), s.parse::<i64>().ok(), "{s}");
    }
    for s in ["", "+", "-", "1x", " 1", "9223372036854775808", "-9223372036854775809", "99999999999999999999999", "١"] {
        let path = format!("/api/words/{s}");
        assert_eq!(word_id(&path), None, "{s}");
        assert_eq!(s.parse::<i64>().ok(), None, "{s}");
    }
    assert_eq!(word_id("/api/word/1"), None);
}

#[test]
fn quiz_mode_from_query() {
    assert_eq!(query_mode("mode=spell"), "spell");
    assert_eq!(query_mode("x=1&mode=read&mode=listen"), "read");
    assert_eq!(query_mode("xmode=read"), "");
    assert_eq!(query_mode(""), "");
    assert_eq!(query_mode("mode=hack"), "hack");
    assert_eq!(query_mode(" mode=spell"), "");
}

#[test]
fn static_paths() {
    assert_eq!(static_path("/"), Some("index.html".to_string()));
    assert_eq!(static_path("/app.js"), Some("app.js".to_string()));
    assert_eq!(static_path("///a/b.css"), Some("a/b.css".to_string()));
    assert_eq!(static_path("//"), Some(String::new()));
}

#[test]
fn path_traversal_is_blocked() {
    assert_eq!(static_path("/../Cargo.toml"), None);
    assert_eq!(static_path("/a/..b"), None);
    assert_eq!(static_path("/.."), None);
    assert_eq!(static_path("/./a"), Some("./a".to_string()));
}

#[test]
fn content_types() {
    assert_eq!(content_type(Some("html")), "text/html; charset=utf-8");
    assert_eq!(content_type(Some("js")), "text/javascript");
    assert_eq!(content_type(Some("css")), "text/css");
    assert_eq!(content_type(Some("json")), "application/json");
    assert_eq!(content_type(Some("svg")), "image/svg+xml");
    assert_eq!(content_type(Some("png")), "application/octet-stream");
    assert_eq!(content_type(Some("HTML")), "application/octet-stream");
    assert_eq!(content_type(None), "application/octet-stream");
}

#[test]
fn api_without_session_is_refused_with_401() {
    assert!(matches!(admission(Target::Api, false), Admission::Refused(401)));
    assert!(matches!(admission(Target::Api, true), Admission::Endpoint));
    assert!(matches!(admission(Target::Login, false), Admission::Login));
    assert!(matches!(admission(Target::Static, false), Admission::StaticFile));
    let t = request_target(Method::Get, "/api/words");
    assert!(matches!(admission(t, false), Admission::Refused(401)));
}

#[test]
fn api_errors_are_400() {
    assert_eq!(api_status(false), 400);
    assert_eq!(api_status(true), 200);
}

#[test]
fn missing_word_is_refused() {
    assert_eq!(require_word(true), Ok(()));
    assert_eq!(require_word(false), Err("no such word".to_string()));
}

#[test]
fn file_extension_matches_std_path() {
    let cases = [
        "index.html", "app.js", "a/b.css", "a/b.css/", "a/b.css/.", "a/.", "./a.svg", ".", "",
        "a/", ".bashrc", "a/.hidden", "a/.x.json", "foo.", "a.b.c", "dir.d/file", "x//y.js",
        "a/./b.html", "..", "a/..", "a.txt/..", "ü.ñ", "noext",
    ];
    for rel in cases {
        let expected = std::path::Path::new(rel).extension().and_then(|e| e.to_str()).map(String::from);
        assert_eq!(file_extension(rel), expected, "{rel}");
        let full = std::path::Path::new("public").join(rel);
        if !rel.contains("..") {
            let expected = full.extension().and_then(|e| e.to_str());
            assert_eq!(content_type_for(rel), content_type(expected), "{rel}");
        }
    }
}

#[test]
fn content_type_by_path() {
    assert_eq!(content_type_for("index.html"), "text/html; charset=utf-8");
    assert_eq!(content_type_for("js/app.js"), "text/javascript");
    assert_eq!(content_type_for("data.json"), "application/json");
    assert_eq!(content_type_for("icon.svg"), "image/svg+xml");
    assert_eq!(content_type_for("style.css"), "text/css");
    assert_eq!(content_type_for("README"), "application/octet-stream");
    assert_eq!(content_type_for(".css"), "application/octet-stream");
}
