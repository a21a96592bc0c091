use git_impact::config::{Config, Node, RawConfig};
use git_impact::graph::Planner;
use git_impact::runner::{
    after_command, command_failure_message, display_command, run_steps, start_failure_message, CommandEnd,
    RunProgress, RunStep,
};

fn strings(items: &[&str]) -> Vec<String> {
    items.iter().map(|s| s.to_string()).collect()
}

fn sample_config() -> Config {
    let raw = RawConfig {
        nodes: vec![
            (
                "catalog".to_owned(),
                Node {
                    paths: strings(&["catalog/**"]),
                    depends_on: Vec::new(),
                    command: strings(&["terragrunt", "apply"]),
                },
            ),
            (
                "docs".to_owned(),
                Node {
                    paths: strings(&["docs/**"]),
                    depends_on: strings(&["catalog"]),
                    command: strings(&["echo", "build docs"]),
                },
            ),
        ],
        direct_nodes: Vec::new(),
    };
    Config::from_raw(raw).unwrap()
}

fn planner_of(config: &Config) -> Planner {
    match Planner::new(config) {
        Ok(planner) => planner,
        Err(error) => panic!("{}", error.message()),
    }
}

#[test]
fn quotes_arguments_with_white_space() {
    assert_eq!(display_command(&strings(&["make", "deploy"])), "make deploy");
    assert_eq!(
        display_command(&strings(&["echo", "hello world", "tab\there"])),
        "echo \"hello world\" \"tab\\there\""
    );
    assert_eq!(display_command(&[]), "");
}

#[test]
fn dry_run_describes_each_command_in_order() {
    let config = sample_config();
    let plan = planner_of(&config).plan(strings(&["catalog/x"]));
    let steps = run_steps(&config, &plan, true);

    let lines: Vec<String> = steps
        .iter()
        .map(|step| match step {
            RunStep::Say(line) => line.clone(),
            RunStep::Run { .. } => panic!("dry run runs nothing"),
        })
        .collect();
    assert_eq!(
        lines,
        strings(&[
            "dry-run: catalog: terragrunt apply",
            "dry-run: docs: echo \"build docs\""
        ])
    );
}

#[test]
fn run_hands_out_each_argument_vector() {
    let config = sample_config();
    let plan = planner_of(&config).plan(strings(&["docs/index.md"]));
    let steps = run_steps(&config, &plan, false);

    assert_eq!(steps.len(), 1);
    match &steps[0] {
        RunStep::Run { node, line, argv } => {
            assert_eq!(node, "docs");
            assert_eq!(line, "running: docs: echo \"build docs\"");
            assert_eq!(argv, &strings(&["echo", "build docs"]));
        }
        RunStep::Say(_) => panic!("expected a command to run"),
    }
}

#[test]
fn nothing_to_run_is_reported() {
    let config = sample_config();
    let plan = planner_of(&config).plan(strings(&["elsewhere.txt"]));
    let steps = run_steps(&config, &plan, false);

    assert_eq!(steps.len(), 1);
    assert!(matches!(&steps[0], RunStep::Say(line) if line == "No impacted commands to run."));
}

#[test]
fn failure_message_names_node_and_status() {
    assert_eq!(
        command_failure_message("docs", "exit status: 2"),
        "command for node 'docs' failed with status exit status: 2"
    );
}

#[test]
fn command_ends_decide_whether_the_run_goes_on() {
    assert_eq!(after_command("docs", &CommandEnd::Success), Ok(()));
    assert_eq!(
        after_command("docs", &CommandEnd::Exit("2".to_owned())),
        Err("command for node 'docs' failed with status 2".to_owned())
    );
    assert_eq!(
        after_command("docs", &CommandEnd::Signal),
        Err("command for node 'docs' failed with status signal".to_owned())
    );
    assert_eq!(
        after_command("docs", &CommandEnd::NotStarted),
        Err("failed to start command for node 'docs'".to_owned())
    );
    assert_eq!(
        start_failure_message("docs"),
        "failed to start command for node 'docs'"
    );
}

fn step_node(step: &RunStep) -> String {
    match step {
        RunStep::Run { node, .. } => node.clone(),
        RunStep::Say(line) => line.clone(),
    }
}

#[test]
fn run_stops_at_the_first_failed_command() {
    let config = sample_config();
    let plan = planner_of(&config).plan(strings(&["catalog/x"]));
    let mut progress = RunProgress::new(&config, &plan, false);

    let first = progress.current().map(step_node);
    assert_eq!(first, Some("catalog".to_owned()));
    progress.record(CommandEnd::Exit("3".to_owned()));

    assert!(progress.current().is_none());
    assert_eq!(
        progress.result(),
        Err("command for node 'catalog' failed with status 3".to_owned())
    );
}

#[test]
fn run_succeeds_when_every_command_succeeds() {
    let config = sample_config();
    let plan = planner_of(&config).plan(strings(&["catalog/x"]));
    let mut progress = RunProgress::new(&config, &plan, false);

    let mut started = Vec::new();
    while let Some(step) = progress.current() {
        started.push(step_node(step));
        progress.record(CommandEnd::Success);
    }
    assert_eq!(started, strings(&["catalog", "docs"]));
    assert_eq!(progress.result(), Ok(()));
}

#[test]
fn dry_run_only_says_what_it_would_run() {
    let config = sample_config();
    let plan = planner_of(&config).plan(strings(&["catalog/x"]));
    let mut progress = RunProgress::new(&config, &plan, true);

    let mut lines = Vec::new();
    while let Some(step) = progress.current() {
        lines.push(step_node(step));
        progress.record(CommandEnd::Success);
    }
    assert_eq!(
        lines,
        strings(&[
            "dry-run: catalog: terragrunt apply",
            "dry-run: docs: echo \"build docs\""
        ])
    );
    assert_eq!(progress.result(), Ok(()));
}
