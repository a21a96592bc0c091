//! Setup instructions for an AI coding agent.
use vstd::prelude::*;

verus! {

/// `part` occurs in `s` as a contiguous piece.
pub open spec fn contains_text(s: Seq<char>, part: Seq<char>) -> bool {
    exists|i: int| 0 <= i <= s.len() - part.len() && #[trigger] s.subrange(i, i + part.len()) == part
}

/// The command line that writes a configuration.
pub open spec fn init_line(config: Seq<char>) -> Seq<char> {
    "git-impact --config "@ + config + " init"@
}

/// The command line that validates the configuration.
pub open spec fn validate_line(config: Seq<char>) -> Seq<char> {
    "git-impact --config "@ + config + " validate"@
}

/// The command line that draws the impact tree of a range.
pub open spec fn tree_line(config: Seq<char>, base: Seq<char>, head: Seq<char>) -> Seq<char> {
    "git-impact --config "@ + config + " tree --base "@ + base + " --head "@ + head
}

/// The command line that runs the impacted commands of a range.
pub open spec fn run_line(config: Seq<char>, base: Seq<char>, head: Seq<char>) -> Seq<char> {
    "git-impact --config "@ + config + " run --base "@ + base + " --head "@ + head
}

/// The name of the skill folder that `git-impact skills` creates.
pub open spec fn skill_name() -> Seq<char> {
    "git-impact-quality-hooks"@
}

/// The setup steps of the instructions.
pub open spec fn setup_text(config: Seq<char>) -> Seq<char> {
    "You are an AI coding agent working in a Git repository. Use git-impact as the changed-file quality gate.\n\nSetup:\n1. Check whether `"@
        + config
        + "` exists. If it does not, run `"@
        + "git-impact --config "@
        + config
        + " init"@
        + "`.\n2. Inspect `"@
        + config
        + "` and replace placeholder `echo` commands with deterministic quality hooks for this repo.\n3. Prefer small nodes tied to file patterns, for example Python files -> `ruff format .`, Rust files -> `cargo fmt`, shared libraries -> tests that cover dependents.\n4. Use `depends_on` when one check must run before another check, or when downstream nodes should be impacted by upstream changes.\n5. Keep commands as argv arrays. Do not rely on shell pipes, redirection, aliases, or interactive prompts.\n\n"@
}

/// The steps before finishing changes, and the pointer to the skill.
pub open spec fn finish_text(config: Seq<char>, base: Seq<char>, head: Seq<char>) -> Seq<char> {
    "Before finishing changes:\n1. Run `"@
        + validate_line(config)
        + "`.\n2. Run `"@
        + tree_line(config, base, head)
        + "` and inspect the impacted graph.\n3. Run `"@
        + run_line(config, base, head)
        + "` when the tools are available in this environment.\n4. If a command cannot run because a tool is missing, report the missing tool and the skipped git-impact node.\n\nFor reusable agent instructions, run `git-impact skills` to create a `"@
        + skill_name()
        + "` skill folder in this repo.\n"@
}

/// The setup instructions, naming the configuration file and the diff range.
pub open spec fn prompt_text(config: Seq<char>, base: Seq<char>, head: Seq<char>) -> Seq<char> {
    setup_text(config) + finish_text(config, base, head)
}

/// Renders the setup instructions for an agent.
pub fn render_prompt(config: &str, base: &str, head: &str) -> (res: String)
    ensures
        res@ == prompt_text(config@, base@, head@),
{
    let mut out = String::new();
    out.append("You are an AI coding agent working in a Git repository. Use git-impact as the changed-file quality gate.\n\nSetup:\n1. Check whether `");
    out.append(config);
    out.append("` exists. If it does not, run `");
    out.append("git-impact --config ");
    out.append(config);
    out.append(" init");
    out.append("`.\n2. Inspect `");
    out.append(config);
    out.append("` and replace placeholder `echo` commands with deterministic quality hooks for this repo.\n3. Prefer small nodes tied to file patterns, for example Python files -> `ruff format .`, Rust files -> `cargo fmt`, shared libraries -> tests that cover dependents.\n4. Use `depends_on` when one check must run before another check, or when downstream nodes should be impacted by upstream changes.\n5. Keep commands as argv arrays. Do not rely on shell pipes, redirection, aliases, or interactive prompts.\n\n");
    let ghost setup = out@;
    assert(setup =~= setup_text(config@));
    out.append("Before finishing changes:\n1. Run `");
    out.append("git-impact --config ");
    out.append(config);
    out.append(" validate");
    out.append("`.\n2. Run `");
    out.append("git-impact --config ");
    out.append(config);
    out.append(" tree --base ");
    out.append(base);
    out.append(" --head ");
    out.append(head);
    out.append("` and inspect the impacted graph.\n3. Run `");
    out.append("git-impact --config ");
    out.append(config);
    out.append(" run --base ");
    out.append(base);
    out.append(" --head ");
    out.append(head);
    out.append("` when the tools are available in this environment.\n4. If a command cannot run because a tool is missing, report the missing tool and the skipped git-impact node.\n\nFor reusable agent instructions, run `git-impact skills` to create a `");
    out.append("git-impact-quality-hooks");
    out.append("` skill folder in this repo.\n");
    assert(out@ =~= setup_text(config@) + finish_text(config@, base@, head@));
    out
}

/// A piece between two others occurs in the whole.
proof fn lemma_contains_middle(a: Seq<char>, x: Seq<char>, b: Seq<char>)
    ensures
        contains_text(a + x + b, x),
{
    let s = a + x + b;
    assert(s.subrange(a.len() as int, (a.len() + x.len()) as int) =~= x);
}

/// A piece of a text occurs in the text with more before or after it.
proof fn lemma_contains_within(a: Seq<char>, t: Seq<char>, b: Seq<char>, x: Seq<char>)
    requires
        contains_text(t, x),
    ensures
        contains_text(a + t + b, x),
{
    let i = choose|i: int| 0 <= i <= t.len() - x.len() && #[trigger] t.subrange(i, i + x.len()) == x;
    let s = a + t + b;
    assert(s.subrange(a.len() + i, a.len() + i + x.len()) =~= t.subrange(i, i + x.len()));
}

/// Law: the instructions hold the command lines that write and validate the
/// given configuration, draw the impact tree and run the impacted commands
/// of the given range, and name the skill folder `git-impact-quality-hooks`.
pub proof fn law_prompt_names_the_commands(config: Seq<char>, base: Seq<char>, head: Seq<char>)
    ensures
        contains_text(prompt_text(config, base, head), init_line(config)),
        contains_text(prompt_text(config, base, head), validate_line(config)),
        contains_text(prompt_text(config, base, head), tree_line(config, base, head)),
        contains_text(prompt_text(config, base, head), run_line(config, base, head)),
        contains_text(prompt_text(config, base, head), skill_name()),
{
    let s = setup_text(config);
    let f = finish_text(config, base, head);
    let s1 = "You are an AI coding agent working in a Git repository. Use git-impact as the changed-file quality gate.\n\nSetup:\n1. Check whether `"@
        + config
        + "` exists. If it does not, run `"@;
    let s2 = "`.\n2. Inspect `"@
        + config
        + "` and replace placeholder `echo` commands with deterministic quality hooks for this repo.\n3. Prefer small nodes tied to file patterns, for example Python files -> `ruff format .`, Rust files -> `cargo fmt`, shared libraries -> tests that cover dependents.\n4. Use `depends_on` when one check must run before another check, or when downstream nodes should be impacted by upstream changes.\n5. Keep commands as argv arrays. Do not rely on shell pipes, redirection, aliases, or interactive prompts.\n\n"@;
    assert(s + f =~= s1 + init_line(config) + (s2 + f));
    lemma_contains_middle(s1, init_line(config), s2 + f);
    let e = Seq::<char>::empty();
    let f1 = "Before finishing changes:\n1. Run `"@;
    let v = validate_line(config);
    let f2 = "`.\n2. Run `"@;
    let t = tree_line(config, base, head);
    let f3 = "` and inspect the impacted graph.\n3. Run `"@;
    let r = run_line(config, base, head);
    let f4 = "` when the tools are available in this environment.\n4. If a command cannot run because a tool is missing, report the missing tool and the skipped git-impact node.\n\nFor reusable agent instructions, run `git-impact skills` to create a `"@;
    let k = skill_name();
    let f5 = "` skill folder in this repo.\n"@;
    assert(f =~= f1 + v + (f2 + t + f3 + r + f4 + k + f5));
    lemma_contains_middle(f1, v, f2 + t + f3 + r + f4 + k + f5);
    lemma_contains_within(s, f, e, v);
    assert(f =~= (f1 + v + f2) + t + (f3 + r + f4 + k + f5));
    lemma_contains_middle(f1 + v + f2, t, f3 + r + f4 + k + f5);
    lemma_contains_within(s, f, e, t);
    assert(f =~= (f1 + v + f2 + t + f3) + r + (f4 + k + f5));
    lemma_contains_middle(f1 + v + f2 + t + f3, r, f4 + k + f5);
    lemma_contains_within(s, f, e, r);
    assert(f =~= (f1 + v + f2 + t + f3 + r + f4) + k + f5);
    lemma_contains_middle(f1 + v + f2 + t + f3 + r + f4, k, f5);
    lemma_contains_within(s, f, e, k);
    assert(s + f + e =~= prompt_text(config, base, head));
}

} // verus!
