use git_impact::agent::render_prompt;

#[test]
fn prompt_contains_setup_commands() {
    let prompt = render_prompt("git-impact.yaml", "main", "HEAD");

    assert!(prompt.contains("git-impact --config git-impact.yaml init"));
    assert!(prompt.contains("git-impact --config git-impact.yaml validate"));
    assert!(prompt.contains("git-impact skills"));
    assert!(prompt.contains("ruff format"));
}

#[test]
fn prompt_names_the_range_to_inspect() {
    let prompt = render_prompt("ci/impact.yaml", "origin/main", "feature");

    assert!(prompt.starts_with("You are an AI coding agent working in a Git repository."));
    assert!(prompt.contains(
        "git-impact --config ci/impact.yaml tree --base origin/main --head feature"
    ));
    assert!(prompt.contains("git-impact --config ci/impact.yaml run --base origin/main --head feature"));
    assert!(prompt.contains("`git-impact-quality-hooks` skill folder"));
    assert!(prompt.ends_with("skill folder in this repo.\n"));
}
