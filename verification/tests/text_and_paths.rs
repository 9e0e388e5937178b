//! Texts, paths, frames, release targets and diagnostics on given values.
use analyzed::boundary::{
    normalize_uri, rust_analyzer_lsp_boundary, rust_analyzer_private_boundary, skip_slow_tests, SharedAnalyzerAnalysisKey,
};
use analyzed::diagnostics::{
    filter_diagnostics, resolve_path, span_range, Diagnostic, DiagnosticCode, DiagnosticSpan, Position, PositionEncoding, Range,
};
use analyzed::dist::{targets, BuildError, BuildPlan, Target};
use analyzed::lsp_frame::{body_copied, parse_whole_number, relay, FrameError, FrameHeader, HeaderStep};
use analyzed::paths::{
    common_path_prefix_len, join_names, names_ratoml, names_rust, normalize_fs_path, starts_with, strip_prefix,
    strip_verbatim_prefix, FilePath, LineEndings,
};
use analyzed::startup::session_roots;
use analyzed::text::{decimal_of, decode, decode_plain, line_endings_of};

fn s(text: &str) -> String {
    text.to_string()
}

#[test]
fn line_endings_are_made_plain() {
    assert_eq!(LineEndings::normalize(&s("a\r\nb\nc\r")), (s("a\nb\nc\r"), LineEndings::Dos));
    assert_eq!(LineEndings::normalize(&s("\r\r\n")), (s("\r\n"), LineEndings::Dos));
    assert_eq!(LineEndings::normalize(&s("a\nb\n")), (s("a\nb\n"), LineEndings::Unix));
    assert_eq!(LineEndings::normalize(&s("")), (s(""), LineEndings::Unix));
    assert_eq!(line_endings_of(&s("a\r\n")), LineEndings::Dos);
    assert_eq!(line_endings_of(&s("a\r \n")), LineEndings::Unix);
}

#[test]
fn plain_text_is_kept() {
    let text = s("fn main() {}\n\r x");
    assert_eq!(LineEndings::normalize(&text).0, text);
}

#[test]
fn bytes_are_decoded_as_utf8() {
    assert_eq!(decode("ä\r\n".as_bytes().to_vec()), Some((s("ä\n"), LineEndings::Dos)));
    assert_eq!(decode(vec![0xff]), None);
    assert_eq!(decode_plain("ä\r\n".as_bytes().to_vec()), Some(s("ä\r\n")));
    assert_eq!(decode_plain(vec![0xc3]), None);
}

#[test]
fn numbers_are_written_in_decimal() {
    assert_eq!(decimal_of(0), "0");
    assert_eq!(decimal_of(-17), "-17");
    assert_eq!(decimal_of(i32::MIN), "-2147483648");
    assert_eq!(decimal_of(i32::MAX), "2147483647");
}

#[test]
fn common_prefix_counts_whole_parts() {
    assert_eq!(common_path_prefix_len("/a/b/c", "/a/b/d"), common_path_prefix_len("/a/b/d", "/a/b/c"));
    assert_eq!(common_path_prefix_len("/a/b", "/a/b"), common_path_prefix_len("/a/b", "/a/b/c"));
    assert!(common_path_prefix_len("/a/b/c", "/a/b/d") > common_path_prefix_len("/a/b/c", "/a/x"));
    assert_eq!(common_path_prefix_len("", ""), common_path_prefix_len("a", "b"));
}

#[test]
fn verbatim_prefixes_go_on_windows_only() {
    assert_eq!(strip_verbatim_prefix(s("\\\\?\\C:\\a"), true), "C:\\a");
    assert_eq!(strip_verbatim_prefix(s("\\\\?\\UNC\\host\\share"), true), "\\\\host\\share");
    assert_eq!(strip_verbatim_prefix(s("C:\\a"), true), "C:\\a");
    assert_eq!(strip_verbatim_prefix(s("\\\\?\\C:\\a"), false), "\\\\?\\C:\\a");
}

#[test]
fn drives_are_in_upper_case() {
    let patched = |path: &str| analyzed::paths::patch_path_prefix(s(path), true);
    assert_eq!(patched("c:\\a\\b"), "C:\\a\\b");
    assert_eq!(patched("D:/a"), "D:/a");
    assert_eq!(patched("z:"), "Z:");
    assert_eq!(patched("\\\\?\\c:\\a"), "\\\\?\\C:\\a");
    assert_eq!(patched("\\\\?\\c:"), "\\\\?\\C:");
    assert_eq!(patched("\\\\?\\c:a"), "\\\\?\\c:a");
    assert_eq!(patched("\\\\server\\share"), "\\\\server\\share");
    assert_eq!(patched("1:\\a"), "1:\\a");
    assert_eq!(patched(""), "");
    assert_eq!(patched(&patched("c:\\a")), "C:\\a");
    assert_eq!(analyzed::paths::patch_path_prefix(s("c:/a"), false), "c:/a");
}

#[test]
fn server_reports_the_release_and_its_commit() {
    let info = analyzed::startup::server_info("2026-01-05", "0123456789abcdef");
    assert_eq!(info.name, "rust-analyzer");
    assert_eq!(info.version, "2026-01-05 01234567");
}

#[test]
fn prefixes_are_looked_at_and_taken_off() {
    assert!(starts_with("/a/b", "/a"));
    assert!(!starts_with("/a", "/a/b"));
    assert_eq!(strip_prefix("/a/b", "/a"), Some(s("/b")));
    assert_eq!(strip_prefix("/a/b", "/b"), None);
}

#[test]
fn missing_parts_are_put_back_behind_the_known_ancestor() {
    assert_eq!(join_names(s("/real"), &vec![s("b"), s("c")], false), "/real/b/c");
    let ancestors = vec![None, None, Some(s("/real"))];
    assert_eq!(normalize_fs_path(s("/link/b/c"), &ancestors, &vec![s("c"), s("b"), s("link")], false), "/real/b/c");
    assert_eq!(normalize_fs_path(s("/x"), &vec![Some(s("/y"))], &vec![s("x")], false), "/y");
    assert_eq!(normalize_fs_path(s("/x"), &vec![None], &vec![s("x")], false), "/x");
}

#[test]
fn parent_components_below_the_known_ancestor_are_kept() {
    let ancestors = vec![None, None, Some(s("/real"))];
    assert_eq!(normalize_fs_path(s("/link/../c"), &ancestors, &vec![s("c"), s(".."), s("link")], false), "/real/../c");
}

#[test]
fn normal_form_is_its_own_normal_form() {
    let ancestors = vec![None, None, Some(s("/real"))];
    let once = normalize_fs_path(s("/link/b/c"), &ancestors, &vec![s("c"), s("b"), s("link")], false);
    assert_eq!(once, "/real/b/c");
    let again = normalize_fs_path(once.clone(), &ancestors, &vec![s("c"), s("b"), s("real")], false);
    assert_eq!(again, once);
}

#[test]
fn file_names_tell_what_a_file_is() {
    assert!(names_rust(&s("/a/lib.rs")));
    assert!(!names_rust(&s("/a/lib.toml")));
    assert!(names_ratoml(&s("/a/rust-analyzer.toml")));
    assert!(!names_ratoml(&s("/a/Cargo.toml")));
}

#[test]
fn paths_are_compared_by_their_canonical_form() {
    let one = FilePath { text: s("/link"), key: s("/real") };
    assert_eq!(one.normalized().text, "/real");
    assert!(one.same(&one.duplicate()));
}

fn frame(lines: &[&str]) -> FrameHeader {
    let mut header = FrameHeader::new();
    for line in lines {
        assert_eq!(header.push_line(&line.as_bytes().to_vec()), Ok(HeaderStep::More));
    }
    assert_eq!(header.push_line(&b"\r\n".to_vec()), Ok(HeaderStep::Complete));
    header
}

#[test]
fn header_announces_its_length() {
    assert_eq!(frame(&["Content-Length: 12\r\n"]).content_length(), Ok(12));
    assert_eq!(frame(&["content-length: +7\r\n", "Content-Type: x\r\n"]).content_length(), Ok(7));
    assert_eq!(frame(&["Content-Length: 1\r\n", "Content-Length: 2\r\n"]).content_length(), Ok(2));
    assert_eq!(frame(&["Content-Length: 18446744073709551615\r\n"]).content_length(), Ok(u64::MAX));
}

#[test]
fn bad_headers_are_refused() {
    assert_eq!(frame(&["Content-Type: x\r\n"]).content_length(), Err(FrameError::MissingLength));
    assert_eq!(frame(&["Content-Length: twelve\r\n"]).content_length(), Err(FrameError::BadLength));
    assert_eq!(frame(&["Content-Length: 18446744073709551616\r\n"]).content_length(), Err(FrameError::BadLength));
    assert_eq!(frame(&["Content-Length: -1\r\n"]).content_length(), Err(FrameError::BadLength));
    let mut header = FrameHeader::new();
    assert_eq!(header.push_line(&b"Content-Length: 1\n".to_vec()), Err(FrameError::Malformed));
    let mut header = FrameHeader::new();
    assert_eq!(header.push_line(&vec![0xff, b'\r', b'\n']), Ok(HeaderStep::More));
    assert_eq!(header.push_line(&b"\r\n".to_vec()), Ok(HeaderStep::Complete));
    assert_eq!(header.content_length(), Err(FrameError::NotText));
}

#[test]
fn input_may_end_between_frames_only() {
    let mut header = FrameHeader::new();
    assert_eq!(header.push_line(&vec![]), Ok(HeaderStep::Finished));
    let mut header = FrameHeader::new();
    assert_eq!(header.push_line(&b"Content-Length: 1\r\n".to_vec()), Ok(HeaderStep::More));
    assert_eq!(header.push_line(&vec![]), Err(FrameError::HeaderEnded));
    assert_eq!(body_copied(5, 5), Ok(()));
    assert_eq!(body_copied(5, 4), Err(FrameError::BodyEnded));
}

#[test]
fn whole_numbers_are_read() {
    let number = |text: &str| parse_whole_number(&text.chars().collect());
    assert_eq!(number("0"), Some(0));
    assert_eq!(number("007"), Some(7));
    assert_eq!(number("+1"), Some(1));
    assert_eq!(number(""), None);
    assert_eq!(number("+"), None);
    assert_eq!(number("1 "), None);
}

#[test]
fn marker_ends_what_is_relayed() {
    assert_eq!(relay(&vec![1, 2, 3], 0), (3, false));
    assert_eq!(relay(&vec![1, 2, 0], 0), (2, true));
    assert_eq!(relay(&vec![0, 1], 0), (2, false));
}

#[test]
fn uris_of_drives_are_made_uniform() {
    assert_eq!(normalize_uri(&s("file://C:/a")), "file:///c:/a");
    assert_eq!(normalize_uri(&s("file:///c:/a")), "file:///c:/a");
    assert_eq!(normalize_uri(&s("http://C:/a")), "http://C:/a");
    assert_eq!(normalize_uri(&s("x file://D:")), "x file:///d:");
    assert_eq!(normalize_uri(&s("file://1:/a")), "file://1:/a");
}

#[test]
fn slow_tests_run_where_they_are_asked_for() {
    assert!(skip_slow_tests(false, false, false));
    assert!(!skip_slow_tests(false, true, false));
    assert!(!skip_slow_tests(false, false, true));
    assert!(skip_slow_tests(true, true, true));
}

#[test]
fn boundaries_name_their_entry_points() {
    let lsp = rust_analyzer_lsp_boundary();
    let private = rust_analyzer_private_boundary();
    assert!(!lsp.main_loop.is_empty());
    assert!(private.global_state.contains("GlobalState"));
    assert!(private.request_dispatcher.contains("RequestDispatcher"));
    assert!(private.notification_dispatcher.contains("NotificationDispatcher"));
    let key = SharedAnalyzerAnalysisKey::shared();
    assert!(key.initialization_options.is_none() && key.workspace_configuration.is_none());
}

#[test]
fn release_targets_differ() {
    let list = targets();
    assert_eq!(list.len(), 9);
    for (i, one) in list.iter().enumerate() {
        for other in &list[i + 1..] {
            assert_ne!(one.triple, other.triple);
        }
    }
    assert_eq!(list[0].triple, "x86_64-pc-windows-msvc");
    assert_eq!(list[8].rustflags.join(" "), "-Clink-arg=-fuse-ld=lld -Ctarget-feature=-crt-static");
}

#[test]
fn targets_are_found_by_their_triple() {
    let windows = Target::detect(&s("i686-pc-windows-msvc")).unwrap();
    assert_eq!(windows.cargo_target, "i686-pc-windows-msvc");
    assert_eq!(windows.server_name, "analyzed.exe");
    assert_eq!(windows.symbols_name, Some(s("analyzed.pdb")));
    assert_eq!(windows.archive_name(), "analyzed-i686-pc-windows-msvc.zip");
    assert_eq!(windows.deployment_target(), None);
    let arm = Target::detect(&s("arm-unknown-linux-gnueabihf")).unwrap();
    assert_eq!(arm.cargo_target, "arm-unknown-linux-gnueabihf.2.28");
    assert_eq!(arm.server_name, "analyzed");
    assert_eq!(arm.archive_name(), "analyzed-arm-unknown-linux-gnueabihf.tar.gz");
    let mac = Target::detect(&s("aarch64-apple-darwin")).unwrap();
    assert_eq!(mac.deployment_target(), Some(s("14.0")));
    assert!(Target::detect(&s("wasm32-unknown-unknown")).is_none());
}

#[test]
fn guided_builds_need_their_training() {
    let windows = Target::detect(&s("x86_64-pc-windows-msvc")).unwrap();
    assert!(matches!(windows.build_plan(false, false), Err(BuildError::NoTraining)));
    assert!(matches!(windows.build_plan(true, false), Err(BuildError::MissingTraining)));
    match windows.build_plan(true, true) {
        Ok(BuildPlan::Guided { instrument, optimize }) => {
            assert_eq!(
                instrument.args.join(" "),
                "cargo pgo build -- -p analyzed --target x86_64-pc-windows-msvc --features mimalloc"
            );
            assert_eq!(
                optimize.args.join(" "),
                "cargo pgo optimize build -- -p analyzed --target x86_64-pc-windows-msvc --features mimalloc"
            );
            assert_eq!(instrument.rustflags, Some(s("-Ctarget-feature=+crt-static")));
        }
        plan => panic!("{plan:?}"),
    }
    let arm = Target::detect(&s("arm-unknown-linux-gnueabihf")).unwrap();
    match arm.build_plan(false, false) {
        Ok(BuildPlan::Plain(build)) => {
            assert_eq!(build.args.join(" "), "cargo zigbuild -p analyzed --target arm-unknown-linux-gnueabihf.2.28 --release");
            assert_eq!(build.rustflags, None);
        }
        plan => panic!("{plan:?}"),
    }
}

fn range(line: u32) -> Range {
    Range { start: Position { line, character: 0 }, end: Position { line, character: 4 } }
}

fn diagnostic(line: u32, source: &str, code: Option<DiagnosticCode>) -> Diagnostic {
    Diagnostic { range: range(line), source: Some(s(source)), code }
}

#[test]
fn compiler_diagnostics_replace_the_analyzer_s_own() {
    let text = |code: &str| Some(DiagnosticCode::Text(s(code)));
    let list = vec![
        diagnostic(1, "rust-analyzer", text("E0308")),
        diagnostic(1, "rustc", text("E0308")),
        diagnostic(2, "rust-analyzer", text("E0308")),
        diagnostic(3, "rust-analyzer", Some(DiagnosticCode::Int(7))),
        diagnostic(3, "rustc", text("7")),
        diagnostic(4, "clippy", text("E0308")),
    ];
    assert_eq!(filter_diagnostics(&list), vec![false, true, true, false, true, true]);
}

#[test]
fn spans_are_counted_from_zero() {
    let span = DiagnosticSpan { line_start: 3, line_end: 4, column_start: 2, column_end: 3, text: vec![s("aä😀"), s("xyz")] };
    let at = span_range(PositionEncoding::Utf32, &span);
    assert_eq!(at.start, Position { line: 2, character: 1 });
    assert_eq!(at.end, Position { line: 3, character: 2 });
    let wide = DiagnosticSpan { line_start: 1, line_end: 1, column_start: 4, column_end: 4, text: vec![s("aä😀x")] };
    assert_eq!(span_range(PositionEncoding::Utf8, &wide).start.character, 7);
    assert_eq!(span_range(PositionEncoding::Utf16, &wide).start.character, 4);
    assert_eq!(span_range(PositionEncoding::Utf32, &wide).start.character, 3);
}

#[test]
fn first_matching_prefix_is_remapped() {
    let remap = vec![(s("/rustc/"), s("/src/")), (s("/rustc"), s("/other"))];
    assert_eq!(resolve_path(&remap, &s("/rustc/lib.rs")), "/src/lib.rs");
    assert_eq!(resolve_path(&remap, &s("/rustcx")), "/otherx");
    assert_eq!(resolve_path(&remap, &s("/a.rs")), "/a.rs");
}

#[test]
fn root_is_opened_where_no_folder_is() {
    let named = session_roots(Some(s("/w")), None, Some(vec![Some(s("/w/a")), None, Some(s("/w/b"))])).unwrap();
    assert_eq!((named.root, named.workspace_roots), (s("/w"), vec![s("/w/a"), s("/w/b")]));
    let pathless = session_roots(None, Some(s("/here")), Some(vec![None])).unwrap();
    assert_eq!((pathless.root, pathless.workspace_roots), (s("/here"), vec![s("/here")]));
    assert_eq!(session_roots(Some(s("/w")), Some(s("/here")), None).unwrap().workspace_roots, vec![s("/w")]);
    assert!(session_roots(None, None, Some(vec![Some(s("/w"))])).is_none());
}
