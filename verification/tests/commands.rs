use paraexec::args::CommandSpec;
use paraexec::args::RunPlan;
use paraexec::args::max_label_width;
use paraexec::args::parse_commands;
use paraexec::args::plan_run;

fn tokens(ts: &[&str]) -> Vec<String> {
    ts.iter().map(|t| t.to_string()).collect()
}

#[test]
fn split_two_groups() {
    let sep = "sep".to_string();
    let rest = tokens(&["label1/", "FOO=bar", "echo", "hi", "sep", "label2/", "false"]);
    let cmds = parse_commands(&sep, &rest);
    assert_eq!(cmds.len(), 2);
    assert_eq!(cmds[0].label, "label1");
    assert_eq!(cmds[0].program, "echo");
    assert_eq!(cmds[0].arguments, vec!["hi".to_string()]);
    assert_eq!(
        cmds[0].environment_overrides,
        vec![("FOO".to_string(), "bar".to_string())]
    );
    assert_eq!(cmds[1].label, "label2");
    assert_eq!(cmds[1].program, "false");
    assert!(cmds[1].arguments.is_empty());
    assert!(cmds[1].environment_overrides.is_empty());
}

#[test]
fn empty_groups_are_dropped() {
    let sep = "--".to_string();
    let rest = tokens(&["--", "a", "--", "--", "b"]);
    let cmds = parse_commands(&sep, &rest);
    assert_eq!(cmds.len(), 2);
    assert_eq!(cmds[0].program, "a");
    assert_eq!(cmds[1].program, "b");
}

#[test]
fn no_tokens_no_commands() {
    let sep = "--".to_string();
    let rest: Vec<String> = Vec::new();
    let cmds = parse_commands(&sep, &rest);
    assert!(cmds.is_empty());
}

#[test]
fn group_without_program_contributes_nothing() {
    let sep = "--".to_string();
    let rest = tokens(&["x/", "A=1", "--", "run"]);
    let cmds = parse_commands(&sep, &rest);
    assert_eq!(cmds.len(), 1);
    assert_eq!(cmds[0].program, "run");
}

#[test]
fn empty_program_group_contributes_nothing() {
    let sep = "--".to_string();
    let rest = tokens(&["", "--", "run"]);
    let cmds = parse_commands(&sep, &rest);
    assert_eq!(cmds.len(), 1);
    assert_eq!(cmds[0].program, "run");
}

#[test]
fn plan_only_empty_program_group_is_usage() {
    let args = tokens(&["sep", "label/", ""]);
    assert!(matches!(plan_run(&args), RunPlan::Usage));
}

#[test]
fn plan_empty_args_is_usage() {
    let args: Vec<String> = Vec::new();
    assert!(matches!(plan_run(&args), RunPlan::Usage));
}

#[test]
fn plan_long_help_flag() {
    let args = tokens(&["--help"]);
    assert!(matches!(plan_run(&args), RunPlan::Help));
}

#[test]
fn plan_short_help_flag() {
    let args = tokens(&["-h", "whatever"]);
    assert!(matches!(plan_run(&args), RunPlan::Help));
}

#[test]
fn plan_separator_alone_is_usage() {
    let args = tokens(&["sep"]);
    assert!(matches!(plan_run(&args), RunPlan::Usage));
}

#[test]
fn plan_only_invalid_group_is_usage() {
    let args = tokens(&["sep", "only-a-label/"]);
    assert!(matches!(plan_run(&args), RunPlan::Usage));
}

#[test]
fn plan_runs_valid_commands() {
    let args = tokens(&["sep", "echo", "hi", "sep", "false"]);
    match plan_run(&args) {
        RunPlan::Execute(cmds) => {
            assert_eq!(cmds.len(), 2);
            assert_eq!(cmds[0].program, "echo");
            assert_eq!(cmds[1].program, "false");
        }
        _ => panic!("expected an execution plan"),
    }
}

#[test]
fn width_is_longest_label() {
    let sep = "sep".to_string();
    let rest = tokens(&["a/", "x", "sep", "longlabel/", "y"]);
    let cmds = parse_commands(&sep, &rest);
    assert_eq!(max_label_width(&cmds), 9);
}

#[test]
fn width_of_no_commands_is_zero() {
    let cmds: Vec<CommandSpec> = Vec::new();
    assert_eq!(max_label_width(&cmds), 0);
}
