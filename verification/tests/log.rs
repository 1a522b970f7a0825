use sitegen::log::{log_error, log_info, log_info_depth_file};

#[test]
fn info_line() {
    assert_eq!(log_info("Starting build..."), "[INFO] Starting build...");
}

#[test]
fn error_line() {
    assert_eq!(log_error("boom"), "[ERROR] boom");
}

#[test]
fn depth_line_for_changed_file() {
    assert_eq!(
        log_info_depth_file(true, 2, "src/sub/a.html"),
        "[INFO]     🔄 a.html"
    );
}

#[test]
fn depth_line_for_unchanged_file() {
    assert_eq!(log_info_depth_file(false, 0, "src/b.css"), "[INFO] ✅ b.css");
}
