use paraexec::args::RunPlan;
use paraexec::args::max_label_width;
use paraexec::args::plan_run;
use paraexec::outcome::CommandOutcome;
use paraexec::outcome::aggregate_outcomes;
use paraexec::outcome::render_status_line;
use paraexec::render::render_stdout_line;

fn tokens(ts: &[&str]) -> Vec<String> {
    ts.iter().map(|t| t.to_string()).collect()
}

#[test]
fn two_group_run_end_to_end() {
    // Groups `label1/ FOO=bar echo hi` and `label2/ false`, separator `sep`.
    let args = tokens(&["sep", "label1/", "FOO=bar", "echo", "hi", "sep", "label2/", "false"]);
    let cmds = match plan_run(&args) {
        RunPlan::Execute(cmds) => cmds,
        _ => panic!("expected an execution plan"),
    };
    assert_eq!(cmds.len(), 2);
    assert_eq!(
        cmds[0].environment_overrides,
        vec![("FOO".to_string(), "bar".to_string())]
    );

    let width = max_label_width(&cmds);
    assert_eq!(width, 6);

    // What the run prints: one output line from the first command, one
    // status line per command, and the aggregate exit code.
    let out = render_stdout_line(&cmds[0].label, width, "hi");
    assert_eq!(out, "label1  | hi");

    let first = render_status_line(&cmds[0].label, width, &CommandOutcome::Exited(0));
    assert_eq!(first, "label1  = exited with code 0");

    let second = render_status_line(&cmds[1].label, width, &CommandOutcome::Exited(1));
    assert_eq!(second, "label2  = exited with code 1");

    let outcomes = vec![CommandOutcome::Exited(0), CommandOutcome::Exited(1)];
    assert_eq!(aggregate_outcomes(&outcomes).exit_code(), 1);
}

#[test]
fn overrides_stay_with_their_own_command() {
    // Two concurrent commands; only the first carries the override A=1.
    let args = tokens(&["sep", "A=1", "printenv", "A", "sep", "printenv", "A"]);
    let cmds = match plan_run(&args) {
        RunPlan::Execute(cmds) => cmds,
        _ => panic!("expected an execution plan"),
    };
    assert_eq!(cmds.len(), 2);
    assert_eq!(
        cmds[0].environment_overrides,
        vec![("A".to_string(), "1".to_string())]
    );
    assert!(cmds[1].environment_overrides.is_empty());
}

#[test]
fn failed_start_appears_once_and_fails_run() {
    // One command that cannot start, one that runs: the unstartable one
    // yields exactly its one status line and makes the run fail, without
    // silencing the other command's lines.
    let args = tokens(&["sep", "no-such-program-zz", "sep", "echo", "ok"]);
    let cmds = match plan_run(&args) {
        RunPlan::Execute(cmds) => cmds,
        _ => panic!("expected an execution plan"),
    };
    let width = max_label_width(&cmds);

    let failure = CommandOutcome::LaunchFailed("No such file or directory".to_string());
    let failure_line = render_status_line(&cmds[0].label, width, &failure);
    assert_eq!(
        failure_line,
        "no-such-program-zz  = failed to start: No such file or directory"
    );
    assert_eq!(failure_line.matches("failed to start").count(), 1);

    let other = render_stdout_line(&cmds[1].label, width, "ok");
    assert_eq!(other, format!("{:<width$}  | {}", "echo", "ok", width = width));

    let outcomes = vec![failure, CommandOutcome::Exited(0)];
    assert_eq!(aggregate_outcomes(&outcomes).exit_code(), 1);
}
