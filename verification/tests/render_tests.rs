use git_impact::config::{Config, Node, RawConfig};
use git_impact::graph::Planner;
use git_impact::render::{render_config_tree, render_impact_tree, render_node_list, render_plan};

fn strings(items: &[&str]) -> Vec<String> {
    items.iter().map(|s| s.to_string()).collect()
}

fn node(paths: &[&str], depends_on: &[&str], command: &[&str]) -> Node {
    Node {
        paths: strings(paths),
        depends_on: strings(depends_on),
        command: strings(command),
    }
}

fn config_of(entries: Vec<(&str, Node)>) -> Config {
    let raw = RawConfig {
        nodes: entries
            .into_iter()
            .map(|(name, node)| (name.to_string(), node))
            .collect(),
        direct_nodes: Vec::new(),
    };
    Config::from_raw(raw).unwrap()
}

fn two_node_config() -> Config {
    config_of(vec![
        (
            "catalog",
            node(&["modules/datalake/catalog/**"], &[], &["terragrunt", "apply"]),
        ),
        ("dagster", node(&["dagster/**"], &["catalog"], &["make", "deploy"])),
    ])
}

fn lines(items: &[&str]) -> String {
    let mut out = String::new();
    for item in items {
        out.push_str(item);
        out.push('\n');
    }
    out
}

fn planner_of(config: &Config) -> Planner {
    match Planner::new(config) {
        Ok(planner) => planner,
        Err(error) => panic!("{}", error.message()),
    }
}

#[test]
fn renders_tree_style_impact_output() {
    let config = two_node_config();
    let planner = planner_of(&config);
    let plan = planner.plan(vec!["modules/datalake/catalog/schema.sql".to_owned()]);

    let output = render_impact_tree(&config, &plan);

    assert!(output.contains("|-- changed files"));
    assert!(output.contains("catalog [direct]"));
    assert!(output.contains("dagster [impacted]"));
    assert!(output.contains("command: terragrunt apply"));
}

#[test]
fn renders_the_whole_impact_tree() {
    let config = two_node_config();
    let planner = planner_of(&config);
    let plan = planner.plan(vec!["modules/datalake/catalog/schema.sql".to_owned()]);

    let expected = lines(&[
        "git-impact",
        "|-- changed files",
        "|   `-- modules/datalake/catalog/schema.sql",
        "|-- impact expansion",
        "|   `-- catalog [direct]",
        "|       |-- matched files",
        "|       |   `-- modules/datalake/catalog/schema.sql",
        "|       |-- command: terragrunt apply",
        "|       `-- downstream",
        "|           `-- dagster [impacted]",
        "|               `-- command: make deploy",
        "`-- execution order",
        "    |-- catalog: terragrunt apply",
        "    `-- dagster: make deploy",
    ]);
    assert_eq!(render_impact_tree(&config, &plan), expected);
}

#[test]
fn marks_nodes_reached_twice_as_already_shown() {
    let config = config_of(vec![
        ("a", node(&["a/**"], &[], &["echo", "a"])),
        ("b", node(&[], &["a"], &["echo", "b"])),
        ("c", node(&[], &["a"], &["echo", "c"])),
        ("d", node(&[], &["b", "c"], &["echo", "d"])),
    ]);
    let planner = planner_of(&config);
    let plan = planner.plan(strings(&["a/x"]));

    let output = render_impact_tree(&config, &plan);
    assert!(output.contains("d [impacted]"));
    assert!(output.contains("d [already shown]"));
    assert_eq!(output.matches("d [impacted]").count(), 1);
}

#[test]
fn renders_empty_impact_tree() {
    let config = two_node_config();
    let planner = planner_of(&config);
    let plan = planner.plan(Vec::new());

    assert_eq!(
        render_impact_tree(&config, &plan),
        "git-impact\n|-- changed files\n|-- impact expansion\n`-- execution order\n"
    );
}

#[test]
fn renders_node_list() {
    let config = config_of(vec![
        ("lint", node(&[], &[], &["echo", "hello world"])),
        ("build", node(&[], &[], &["cargo", "build"])),
    ]);

    assert_eq!(
        render_node_list(&config),
        "build: cargo build\nlint: echo \"hello world\"\n"
    );
}

#[test]
fn renders_plan_sections() {
    let config = two_node_config();
    let planner = planner_of(&config);
    let plan = planner.plan(vec!["modules/datalake/catalog/schema.sql".to_owned()]);

    let expected = "Changed files:\n  modules/datalake/catalog/schema.sql\n\n\
Direct impact:\n  catalog\n\n\
Expanded impact:\n  catalog\n  dagster\n\n\
Execution order:\n  catalog: terragrunt apply\n  dagster: make deploy\n";
    assert_eq!(render_plan(&config, &plan), expected);
}

#[test]
fn renders_plan_without_impact() {
    let config = two_node_config();
    let planner = planner_of(&config);
    let plan = planner.plan(Vec::new());

    let expected = "Changed files:\n  none\n\nDirect impact:\n  none\n\n\
Expanded impact:\n  none\n\nExecution order:\n  none\n";
    assert_eq!(render_plan(&config, &plan), expected);
}

#[test]
fn renders_config_tree() {
    let config = two_node_config();

    let expected = lines(&[
        "git-impact.yaml",
        "|-- catalog",
        "|   |-- paths",
        "|   |   `-- modules/datalake/catalog/**",
        "|   `-- command: terragrunt apply",
        "`-- dagster",
        "    |-- paths",
        "    |   `-- dagster/**",
        "    |-- depends_on",
        "    |   `-- catalog",
        "    `-- command: make deploy",
    ]);
    assert_eq!(render_config_tree(&config), expected);
}
