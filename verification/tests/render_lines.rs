use paraexec::outcome::CommandOutcome;
use paraexec::outcome::render_status_line;
use paraexec::render::render_stderr_line;
use paraexec::render::render_stdout_line;

#[test]
fn stdout_line_exact() {
    assert_eq!(render_stdout_line("label1", 6, "hi"), "label1  | hi");
}

#[test]
fn stderr_line_exact() {
    assert_eq!(render_stderr_line("err", 3, "oops"), "err !| oops");
}

#[test]
fn stdout_line_pads_short_label() {
    assert_eq!(
        render_stdout_line("a", 9, "x"),
        format!("{:<width$}  | {}", "a", "x", width = 9)
    );
}

#[test]
fn status_line_success() {
    let line = render_status_line("label1", 6, &CommandOutcome::Exited(0));
    assert_eq!(line, "label1  = exited with code 0");
}

#[test]
fn status_line_failure_code() {
    let line = render_status_line("label2", 6, &CommandOutcome::Exited(1));
    assert_eq!(line, "label2  = exited with code 1");
}

#[test]
fn status_line_multi_digit_code() {
    let line = render_status_line("j", 1, &CommandOutcome::Exited(255));
    assert_eq!(line, "j  = exited with code 255");
}

#[test]
fn status_line_negative_code() {
    let line = render_status_line("j", 1, &CommandOutcome::Exited(-12));
    assert_eq!(line, "j  = exited with code -12");
}

#[test]
fn status_line_abnormal_termination() {
    let line = render_status_line("j", 1, &CommandOutcome::TerminatedAbnormally);
    assert_eq!(line, "j  = terminated abnormally");
}

#[test]
fn launch_failure_line_names_the_failure() {
    let o = CommandOutcome::LaunchFailed("No such file or directory".to_string());
    let line = render_status_line("ghost", 5, &o);
    assert_eq!(line, "ghost  = failed to start: No such file or directory");
    assert!(line.contains("failed to start"));
}

#[test]
fn columns_align_across_labels() {
    // Both labels of one run are padded to the longest label's width, so the
    // marker starts at the same column in every line.
    let width = 9;
    let short = render_stdout_line("a", width, "x");
    let long = render_stdout_line("longlabel", width, "y");
    let short_err = render_stderr_line("a", width, "z");
    let status = render_status_line("a", width, &CommandOutcome::Exited(0));
    assert_eq!(short.chars().nth(width + 2), Some('|'));
    assert_eq!(long.chars().nth(width + 2), Some('|'));
    assert_eq!(short_err.chars().nth(width + 2), Some('|'));
    assert_eq!(status.chars().nth(width + 2), Some('='));
    assert!(short.starts_with("a        "));
    assert!(long.starts_with("longlabel"));
}

#[test]
fn label_longer_than_width_is_not_cut() {
    assert_eq!(render_stdout_line("verylong", 3, "t"), "verylong  | t");
}

#[test]
fn line_prefix_reads_back_as_label() {
    // Round trip: the printed prefix, with padding trimmed, is the label.
    let line = render_stdout_line("web", 8, "ready");
    let prefix: String = line.chars().take(8).collect();
    assert_eq!(prefix.trim_end(), "web");
}
