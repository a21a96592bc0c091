use git_impact::config::{Config, ConfigError, Node, RawConfig};

fn strings(items: &[&str]) -> Vec<String> {
    items.iter().map(|s| s.to_string()).collect()
}

fn node(paths: &[&str], depends_on: &[&str], command: &[&str]) -> Node {
    Node {
        paths: strings(paths),
        depends_on: strings(depends_on),
        command: strings(command),
    }
}

fn named(entries: Vec<(&str, Node)>) -> Vec<(String, Node)> {
    entries
        .into_iter()
        .map(|(name, node)| (name.to_string(), node))
        .collect()
}

fn wrapped(entries: Vec<(&str, Node)>) -> RawConfig {
    RawConfig {
        nodes: named(entries),
        direct_nodes: Vec::new(),
    }
}

fn direct(entries: Vec<(&str, Node)>) -> RawConfig {
    RawConfig {
        nodes: Vec::new(),
        direct_nodes: named(entries),
    }
}

fn rejected(raw: RawConfig) -> ConfigError {
    match Config::from_raw(raw) {
        Ok(_) => panic!("configuration was accepted"),
        Err(error) => error,
    }
}

#[test]
fn accepts_wrapped_nodes_config() {
    let config = Config::from_raw(wrapped(vec![(
        "catalog",
        node(&["modules/datalake/catalog/**"], &[], &["terragrunt", "apply"]),
    )]))
    .unwrap();

    assert!(config.node("catalog").is_some());
}

#[test]
fn accepts_direct_nodes_config() {
    let config = Config::from_raw(direct(vec![(
        "catalog",
        node(&["modules/datalake/catalog/**"], &[], &["terragrunt", "apply"]),
    )]))
    .unwrap();

    assert!(config.node("catalog").is_some());
}

#[test]
fn rejects_unknown_dependencies() {
    let error = rejected(wrapped(vec![(
        "dagster",
        node(&["dagster/**"], &["catalog"], &["make"]),
    )]));

    assert!(error.message().contains("unknown node 'catalog'"));
}

#[test]
fn rejects_dependency_cycles() {
    let error = rejected(wrapped(vec![
        ("a", node(&[], &["b"], &["echo", "a"])),
        ("b", node(&[], &["a"], &["echo", "b"])),
    ]));

    assert!(error.message().contains("dependency cycle detected"));
}

#[test]
fn reports_the_cycle_path_from_the_first_node_in_name_order() {
    let error = rejected(wrapped(vec![
        ("b", node(&[], &["a"], &["echo", "b"])),
        ("a", node(&[], &["b"], &["echo", "a"])),
    ]));

    assert_eq!(error.message(), "dependency cycle detected: a -> b -> a");
}

#[test]
fn reports_a_cycle_that_does_not_start_at_the_root() {
    let error = rejected(wrapped(vec![
        ("a", node(&[], &["b"], &["echo"])),
        ("b", node(&[], &["c"], &["echo"])),
        ("c", node(&[], &["b"], &["echo"])),
    ]));

    assert_eq!(error.message(), "dependency cycle detected: b -> c -> b");
}

#[test]
fn reports_a_node_that_depends_on_itself() {
    let error = rejected(wrapped(vec![("a", node(&[], &["a"], &["echo"]))]));

    assert_eq!(error.message(), "dependency cycle detected: a -> a");
}

#[test]
fn rejects_mixed_node_styles() {
    let raw = RawConfig {
        nodes: named(vec![("a", node(&[], &[], &["echo"]))]),
        direct_nodes: named(vec![("b", node(&[], &[], &["echo"]))]),
    };
    let error = rejected(raw);

    assert!(matches!(error, ConfigError::MixedNodeStyles));
    assert_eq!(
        error.message(),
        "use either top-level 'nodes:' or direct node keys, not both"
    );
}

#[test]
fn rejects_configuration_without_nodes() {
    let error = rejected(wrapped(vec![]));

    assert!(matches!(error, ConfigError::NoNodes));
    assert_eq!(error.message(), "config must define at least one node");
}

#[test]
fn rejects_blank_node_name() {
    let error = rejected(wrapped(vec![(" \t", node(&[], &[], &["echo"]))]));

    assert!(matches!(error, ConfigError::EmptyNodeName));
    assert_eq!(error.message(), "node name cannot be empty");
}

#[test]
fn rejects_empty_command() {
    let error = rejected(wrapped(vec![("lint", node(&["src/**"], &[], &[]))]));

    assert_eq!(error.message(), "node 'lint' command cannot be empty");
}

#[test]
fn rejects_blank_command_argument() {
    let error = rejected(wrapped(vec![("lint", node(&[], &[], &["cargo", "  "]))]));

    assert_eq!(error.message(), "node 'lint' command contains an empty argument");
}

#[test]
fn rejects_blank_path_pattern() {
    let error = rejected(wrapped(vec![("lint", node(&["src/**", " "], &[], &["cargo"]))]));

    assert_eq!(error.message(), "node 'lint' contains an empty path pattern");
}

#[test]
fn rejects_invalid_glob() {
    let error = rejected(wrapped(vec![("lint", node(&["src/[ab"], &[], &["cargo"]))]));

    assert!(matches!(error, ConfigError::InvalidGlob { .. }));
    assert_eq!(error.message(), "node 'lint' has invalid glob 'src/[ab'");
}

#[test]
fn rejects_duplicate_dependency() {
    let error = rejected(wrapped(vec![
        ("a", node(&[], &[], &["echo"])),
        ("b", node(&[], &["a", "a"], &["echo"])),
    ]));

    assert_eq!(error.message(), "node 'b' depends on 'a' more than once");
}

#[test]
fn checks_nodes_in_name_order() {
    let error = rejected(wrapped(vec![
        ("zeta", node(&[], &[], &[])),
        ("alpha", node(&[], &[], &["echo", ""])),
    ]));

    assert_eq!(error.message(), "node 'alpha' command contains an empty argument");
}

#[test]
fn node_checks_come_before_dependency_checks() {
    let error = rejected(wrapped(vec![
        ("a", node(&[], &["missing"], &["echo"])),
        ("b", node(&[], &[], &[])),
    ]));

    assert_eq!(error.message(), "node 'b' command cannot be empty");
}

#[test]
fn nodes_are_sorted_by_name_and_later_entries_win() {
    let config = Config::from_raw(wrapped(vec![
        ("reports", node(&["reports/**"], &[], &["make", "reports"])),
        ("catalog", node(&["old/**"], &[], &["old"])),
        ("catalog", node(&["catalog/**"], &[], &["terragrunt", "apply"])),
    ]))
    .unwrap();

    let names: Vec<&str> = config.nodes().iter().map(|(name, _)| name.as_str()).collect();
    assert_eq!(names, vec!["catalog", "reports"]);
    let catalog = config.node("catalog").unwrap();
    assert_eq!(catalog.command, strings(&["terragrunt", "apply"]));
    assert_eq!(catalog.paths, strings(&["catalog/**"]));
    assert!(config.node("missing").is_none());
}
