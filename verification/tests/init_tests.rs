use git_impact::config::{Config, RawConfig};
use git_impact::init::{default_patterns, files_without, generated_node};

fn strings(items: &[&str]) -> Vec<String> {
    items.iter().map(|s| s.to_string()).collect()
}

#[test]
fn collapses_nested_files_to_top_level_patterns() {
    let patterns = default_patterns(&[
        "Cargo.toml".to_owned(),
        "src/main.rs".to_owned(),
        "src/lib.rs".to_owned(),
        "tests/cli.rs".to_owned(),
    ]);

    assert_eq!(
        patterns,
        vec![
            "Cargo.toml".to_owned(),
            "src/**".to_owned(),
            "tests/**".to_owned()
        ]
    );
}

#[test]
fn skips_blank_file_names_and_sorts_patterns() {
    let patterns = default_patterns(&strings(&["zeta.txt", "  ", "", "a/b/c.txt", "a/d.txt", "B.md"]));

    assert_eq!(patterns, strings(&["B.md", "a/**", "zeta.txt"]));
    assert!(default_patterns(&[]).is_empty());
}

#[test]
fn leaves_out_the_configuration_file() {
    let files = strings(&["git-impact.yaml", "src/main.rs", "README.md"]);

    assert_eq!(
        files_without(files.clone(), &Some("git-impact.yaml".to_owned())),
        strings(&["src/main.rs", "README.md"])
    );
    assert_eq!(files_without(files.clone(), &None), files);
    assert_eq!(
        files_without(files.clone(), &Some("other.yaml".to_owned())),
        files
    );
}

#[test]
fn generated_node_runs_a_placeholder_echo() {
    let (name, node) = generated_node(strings(&["src/**"]));

    assert_eq!(name, "node");
    assert_eq!(node.paths, strings(&["src/**"]));
    assert!(node.depends_on.is_empty());
    assert_eq!(node.command, strings(&["echo", "git-impact: node was impacted"]));
}

#[test]
fn generated_configuration_is_accepted() {
    let files = strings(&["Cargo.toml", "src/main.rs", "docs/guide/intro.md"]);
    let (name, node) = generated_node(default_patterns(&files));
    let raw = RawConfig {
        nodes: vec![(name, node)],
        direct_nodes: Vec::new(),
    };

    let config = Config::from_raw(raw).unwrap();
    let node = config.node("node").unwrap();
    assert_eq!(node.paths, strings(&["Cargo.toml", "docs/**", "src/**"]));
}
