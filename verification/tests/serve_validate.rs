use leandown::serve::{
    candidate_path, content_type, is_source_change, request_path, resolve_path, watch_step,
    WatchState, DEBOUNCE_MS,
};
use leandown::site::resolve_output;
use leandown::text::join_path;
use leandown::validate::{lake_verdict, relative_path, Verdict};

#[test]
fn resolve_output_defaults_under_the_root() {
    assert_eq!(resolve_output("/proj", None), "/proj/leandown_site/output");
    assert_eq!(resolve_output("/proj/", None), "/proj/leandown_site/output");
    assert_eq!(resolve_output("/proj", Some("/elsewhere/site".to_string())), "/elsewhere/site");
}

#[test]
fn request_path_drops_the_query() {
    assert_eq!(request_path("/a.html?x=1&y=2"), "/a.html");
    assert_eq!(request_path("/plain"), "/plain");
    assert_eq!(request_path("?q"), "");
    assert_eq!(request_path("/p?a?b"), "/p");
}

#[test]
fn resolve_path_serves_index_for_root_and_directories() {
    assert_eq!(resolve_path("/out", "/", false), "/out/index.html");
    assert_eq!(resolve_path("/out", "", true), "/out/index.html");
    assert_eq!(resolve_path("/out", "/a/b.html", false), "/out/a/b.html");
    assert_eq!(resolve_path("/out", "//x.css", false), "/out/x.css");
    assert_eq!(resolve_path("/out", "/docs", true), "/out/docs/index.html");
    assert_eq!(candidate_path("/out", "///docs"), "/out/docs");
}

#[test]
fn content_type_by_extension() {
    assert_eq!(content_type("/out/index.html"), "text/html; charset=utf-8");
    assert_eq!(content_type("styles.css"), "text/css");
    assert_eq!(content_type("a/b.js"), "application/javascript");
    assert_eq!(content_type("f.woff2"), "font/woff2");
    assert_eq!(content_type("f.woff"), "font/woff");
    assert_eq!(content_type("i.svg"), "image/svg+xml");
    assert_eq!(content_type("i.png"), "image/png");
    assert_eq!(content_type("favicon.ico"), "image/x-icon");
    assert_eq!(content_type("archive.tar.gz"), "application/octet-stream");
    assert_eq!(content_type("STYLE.CSS"), "application/octet-stream");
    assert_eq!(content_type("noext"), "application/octet-stream");
    assert_eq!(content_type(".html"), "application/octet-stream");
}

#[test]
fn source_changes_are_lean_files_outside_the_output() {
    let v = |xs: &[&str]| xs.iter().map(|s| s.to_string()).collect::<Vec<String>>();
    assert!(is_source_change(&v(&["/r/A.lean"]), "/r/out"));
    assert!(is_source_change(&v(&["/r/notes.txt", "/r/B/C.lean"]), "/r/out"));
    assert!(!is_source_change(&v(&["/r/out/A.lean"]), "/r/out"));
    assert!(!is_source_change(&v(&["/r/A.lean", "/r/out/A.html"]), "/r/out"));
    assert!(!is_source_change(&v(&["/r/A.txt"]), "/r/out"));
    assert!(is_source_change(&v(&["/r/outside/A.lean"]), "/r/out"));
    assert!(!is_source_change(&Vec::new(), "/r/out"));
}

#[test]
fn watcher_rebuilds_once_changes_settle() {
    assert_eq!(DEBOUNCE_MS, 300);
    let st = WatchState { pending: false, last_change: 0 };
    let (st, rebuild) = watch_step(&st, true, 1000);
    assert!(!rebuild);
    assert!(st.pending);
    assert_eq!(st.last_change, 1000);
    let (st, rebuild) = watch_step(&st, false, 1200);
    assert!(!rebuild);
    let (st, rebuild) = watch_step(&st, true, 1250);
    assert!(!rebuild);
    let (st, rebuild) = watch_step(&st, false, 1500);
    assert!(!rebuild);
    let (st, rebuild) = watch_step(&st, false, 1550);
    assert!(rebuild);
    assert!(!st.pending);
    let (_, rebuild) = watch_step(&st, false, 5000);
    assert!(!rebuild);
}

#[test]
fn relative_path_strips_the_root() {
    assert_eq!(relative_path("/r/A/B.lean", "/r"), "A/B.lean");
    assert_eq!(relative_path("/x/B.lean", "/r"), "/x/B.lean");
    assert_eq!(relative_path("/rr/B.lean", "/r"), "/rr/B.lean");
}

#[test]
fn lake_verdict_passes_a_clean_build() {
    assert!(matches!(lake_verdict(true, "Build completed successfully.\n", "A/B.lean"), Verdict::Pass));
    assert!(matches!(
        lake_verdict(true, "warning: Other.lean:1:0: unused variable\n", "A/B.lean"),
        Verdict::Pass
    ));
}

#[test]
fn lake_verdict_reports_warnings_about_the_page() {
    match lake_verdict(true, "info\n  warning: A/B.lean:3:4: unused variable `x`  \nwarning: C.lean:1:1: other\n", "A/B.lean") {
        Verdict::Warnings(ws) => assert_eq!(ws, vec!["warning: A/B.lean:3:4: unused variable `x`".to_string()]),
        _ => panic!("expected warnings"),
    }
}

#[test]
fn lake_verdict_reports_build_errors() {
    match lake_verdict(false, "error: A/B.lean:3: bad\r\n error: A/B.lean:4: worse \nerror: build failed\nwarning: A/B.lean:1: w\n", "A/B.lean") {
        Verdict::BuildErrors(es) => assert_eq!(
            es,
            vec!["error: A/B.lean:3: bad".to_string(), "error: A/B.lean:4: worse".to_string()]
        ),
        _ => panic!("expected build errors"),
    }
    assert!(matches!(lake_verdict(false, "", "A/B.lean"), Verdict::BuildErrors(es) if es.is_empty()));
}

#[test]
fn join_path_follows_path_join() {
    for (base, rest) in [("out", "a.html"), ("out/", "x"), ("", "x"), ("out", "/abs"), ("out", ""), ("a/b", "c/d")] {
        let expected = std::path::Path::new(base).join(rest).to_string_lossy().into_owned();
        assert_eq!(join_path(base, rest), expected);
    }
    assert_eq!(join_path("out", "a.html"), "out/a.html");
    assert_eq!(join_path("out", "/abs"), "/abs");
}
