use git_impact::config::{Config, Node, RawConfig};
use git_impact::graph::Planner;

fn strings(items: &[&str]) -> Vec<String> {
    items.iter().map(|s| s.to_string()).collect()
}

fn node(paths: &[&str], depends_on: &[&str], command: &[&str]) -> Node {
    Node {
        paths: strings(paths),
        depends_on: strings(depends_on),
        command: strings(command),
    }
}

fn config_of(entries: Vec<(&str, Node)>) -> Config {
    let raw = RawConfig {
        nodes: entries
            .into_iter()
            .map(|(name, node)| (name.to_string(), node))
            .collect(),
        direct_nodes: Vec::new(),
    };
    Config::from_raw(raw).unwrap()
}

fn sample_config() -> Config {
    config_of(vec![
        (
            "catalog",
            node(&["modules/datalake/catalog/**"], &[], &["terragrunt", "apply"]),
        ),
        ("dagster", node(&["dagster/**"], &["catalog"], &["make", "deploy"])),
        ("reports", node(&["reports/**"], &["dagster"], &["make", "reports"])),
    ])
}

fn planner_of(config: &Config) -> Planner {
    match Planner::new(config) {
        Ok(planner) => planner,
        Err(error) => panic!("{}", error.message()),
    }
}

fn has_key(entries: &[(String, Vec<String>)], key: &str) -> bool {
    entries.iter().any(|(name, _)| name == key)
}

#[test]
fn expands_downstream_dependents() {
    let planner = planner_of(&sample_config());
    let plan = planner.plan(vec!["modules/datalake/catalog/schema.sql".to_owned()]);

    assert_eq!(
        plan.execution_order,
        vec![
            "catalog".to_owned(),
            "dagster".to_owned(),
            "reports".to_owned()
        ]
    );
    assert!(has_key(&plan.direct_matches, "catalog"));
    assert!(plan.impacted.iter().any(|n| n == "dagster"));
    assert!(plan.impacted.iter().any(|n| n == "reports"));
}

#[test]
fn does_not_pull_in_upstream_dependencies_for_downstream_changes() {
    let planner = planner_of(&sample_config());
    let plan = planner.plan(vec!["dagster/job.py".to_owned()]);

    assert_eq!(
        plan.execution_order,
        vec!["dagster".to_owned(), "reports".to_owned()]
    );
    assert!(!plan.impacted.iter().any(|n| n == "catalog"));
}

#[test]
fn keeps_dependency_order_when_multiple_nodes_match_directly() {
    let planner = planner_of(&sample_config());
    let plan = planner.plan(vec![
        "dagster/job.py".to_owned(),
        "modules/datalake/catalog/schema.sql".to_owned(),
    ]);

    assert_eq!(
        plan.execution_order,
        vec![
            "catalog".to_owned(),
            "dagster".to_owned(),
            "reports".to_owned()
        ]
    );
}

#[test]
fn changed_files_are_sorted_and_deduplicated() {
    let planner = planner_of(&sample_config());
    let plan = planner.plan(strings(&["reports/b.txt", "dagster/a.py", "reports/b.txt"]));

    assert_eq!(plan.changed_files, strings(&["dagster/a.py", "reports/b.txt"]));
    assert_eq!(
        plan.direct_matches,
        vec![
            ("dagster".to_owned(), strings(&["dagster/a.py"])),
            ("reports".to_owned(), strings(&["reports/b.txt"])),
        ]
    );
}

#[test]
fn records_which_impacted_nodes_triggered_each_dependent() {
    let planner = planner_of(&sample_config());
    let plan = planner.plan(strings(&["modules/datalake/catalog/x.sql"]));

    assert_eq!(
        plan.triggered_by,
        vec![
            ("dagster".to_owned(), strings(&["catalog"])),
            ("reports".to_owned(), strings(&["dagster"])),
        ]
    );
    assert_eq!(plan.impacted, strings(&["catalog", "dagster", "reports"]));
}

#[test]
fn unmatched_files_impact_nothing() {
    let planner = planner_of(&sample_config());
    let plan = planner.plan(strings(&["README.md"]));

    assert_eq!(plan.changed_files, strings(&["README.md"]));
    assert!(plan.direct_matches.is_empty());
    assert!(plan.triggered_by.is_empty());
    assert!(plan.impacted.is_empty());
    assert!(plan.execution_order.is_empty());
}

#[test]
fn glob_star_does_not_cross_directory_separators() {
    let config = config_of(vec![("top", node(&["*.rs"], &[], &["cargo", "check"]))]);
    let planner = planner_of(&config);
    let plan = planner.plan(strings(&["main.rs", "src/lib.rs"]));

    assert_eq!(
        plan.direct_matches,
        vec![("top".to_owned(), strings(&["main.rs"]))]
    );
}

#[test]
fn execution_order_follows_listed_dependencies_depth_first() {
    let config = config_of(vec![
        ("base", node(&["base/**"], &[], &["echo", "base"])),
        ("left", node(&[], &["base"], &["echo", "left"])),
        ("right", node(&[], &["base"], &["echo", "right"])),
        ("top", node(&["top/**"], &["right", "left"], &["echo", "top"])),
    ]);
    let planner = planner_of(&config);

    let plan = planner.plan(strings(&["base/x", "top/y"]));
    assert_eq!(plan.execution_order, strings(&["base", "left", "right", "top"]));
    assert_eq!(
        plan.triggered_by,
        vec![
            ("left".to_owned(), strings(&["base"])),
            ("right".to_owned(), strings(&["base"])),
            ("top".to_owned(), strings(&["left", "right"])),
        ]
    );

    let config = config_of(vec![
        ("a", node(&["a/**"], &["c", "b"], &["echo"])),
        ("b", node(&["b/**"], &[], &["echo"])),
        ("c", node(&["c/**"], &[], &["echo"])),
    ]);
    let planner = planner_of(&config);
    let plan = planner.plan(strings(&["a/1", "b/1", "c/1"]));
    assert_eq!(plan.execution_order, strings(&["c", "b", "a"]));
}

#[test]
fn expand_keeps_the_given_matches() {
    let planner = planner_of(&sample_config());
    let direct = vec![("dagster".to_owned(), strings(&["x"]))];
    let plan = planner.expand(strings(&["x"]), direct.clone());

    assert_eq!(plan.changed_files, strings(&["x"]));
    assert_eq!(plan.direct_matches, direct);
    assert_eq!(plan.impacted, strings(&["dagster", "reports"]));
    assert_eq!(plan.execution_order, strings(&["dagster", "reports"]));
}

#[test]
fn plan_depends_only_on_the_set_of_changed_files() {
    let planner = planner_of(&sample_config());
    let first = planner.plan(strings(&["reports/r.txt", "dagster/a.py", "reports/r.txt"]));
    let second = planner.plan(strings(&["dagster/a.py", "reports/r.txt"]));

    assert_eq!(first, second);
}
