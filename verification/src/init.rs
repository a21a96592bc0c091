//! What `init` writes: path patterns that cover a repository's files, and
//! the ready-to-run node that holds them.
use vstd::prelude::*;

use std::path::PathBuf;

use crate::config::Node;
use crate::text::{blank, chars_of, insert_sorted, is_blank, sorted_strict, string_of, views};

verus! {

/// `std::path::PathBuf`, carried opaquely.
#[verifier::external_type_specification]
#[verifier::external_body]
pub struct ExPathBuf(PathBuf);

/// Where `init` wrote the configuration, and whether it found files to
/// cover.
#[derive(Debug, PartialEq, Eq)]
pub struct InitResult {
    pub path: PathBuf,
    pub has_patterns: bool,
}

/// The position of the first `/` of `f`, or its length when it has none.
pub open spec fn first_slash(f: Seq<char>) -> int
    decreases f.len(),
{
    if f.len() == 0 {
        0
    } else if f[0] == '/' {
        0
    } else {
        1 + first_slash(f.drop_first())
    }
}

/// The pattern that covers a file: its top-level directory followed by
/// `/**`, or the file itself when it sits at the top.
pub open spec fn pattern_for(f: Seq<char>) -> Seq<char> {
    if first_slash(f) < f.len() {
        f.take(first_slash(f)) + "/**"@
    } else {
        f
    }
}

proof fn lemma_first_slash(f: Seq<char>, j: int)
    requires
        0 <= j <= f.len(),
        forall|k: int| 0 <= k < j ==> f[k] != '/',
        j < f.len() ==> f[j] == '/',
    ensures
        first_slash(f) == j,
    decreases j,
{
    if j > 0 {
        let t = f.drop_first();
        assert forall|k: int| 0 <= k < j - 1 implies t[k] != '/' by {
            assert(t[k] == f[k + 1]);
        }
        if j < f.len() {
            assert(t[j - 1] == f[j]);
        }
        lemma_first_slash(t, j - 1);
    }
}

/// Law: the pattern of a file inside a directory is its top-level
/// directory, the part before its first `/`, followed by `/**`; a file with
/// no `/` is its own pattern.
pub proof fn law_pattern_for(f: Seq<char>, j: int)
    requires
        0 <= j <= f.len(),
        forall|k: int| 0 <= k < j ==> f[k] != '/',
        j < f.len() ==> f[j] == '/',
    ensures
        j == f.len() ==> pattern_for(f) == f,
        j < f.len() ==> pattern_for(f) == f.take(j) + "/**"@,
{
    lemma_first_slash(f, j);
}

/// The patterns covering the given files, sorted: one per top-level
/// directory (`dir/**`) and one per top-level file; blank names are skipped.
pub fn default_patterns(files: &[String]) -> (res: Vec<String>)
    ensures
        sorted_strict(views(res@)),
        forall|x: Seq<char>|
            views(res@).contains(x) <==> exists|i: int|
                0 <= i < files@.len() && !is_blank(#[trigger] files@[i]@) && pattern_for(files@[i]@) == x,
{
    let mut out: Vec<String> = Vec::new();
    let mut i: usize = 0;
    while i < files.len()
        invariant
            i <= files@.len(),
            sorted_strict(views(out@)),
            forall|x: Seq<char>|
                views(out@).contains(x) <==> exists|q: int|
                    0 <= q < i && !is_blank(#[trigger] files@[q]@) && pattern_for(files@[q]@) == x,
        decreases files@.len() - i,
    {
        let file = &files[i];
        if !blank(file.as_str()) {
            let cs = chars_of(file.as_str());
            let mut j: usize = 0;
            while j < cs.len() && cs[j] != '/'
                invariant
                    j <= cs@.len(),
                    forall|k: int| 0 <= k < j ==> cs@[k] != '/',
                decreases cs@.len() - j,
            {
                j = j + 1;
            }
            proof {
                lemma_first_slash(cs@, j as int);
            }
            let pattern = if j < cs.len() {
                let mut top = string_of(&cs, 0, j);
                top.append("/**");
                assert(cs@.subrange(0, j as int) =~= cs@.take(j as int));
                top
            } else {
                file.clone()
            };
            let ghost before = views(out@);
            insert_sorted(&mut out, pattern);
            proof {
                assert forall|x: Seq<char>|
                    views(out@).contains(x) <==> exists|q: int|
                        0 <= q < i + 1 && !is_blank(#[trigger] files@[q]@) && pattern_for(files@[q]@) == x by {
                    assert(views(out@).to_set().contains(x) == views(out@).contains(x));
                    assert(before.to_set().contains(x) == before.contains(x));
                }
            }
        } else {
            proof {
                assert forall|x: Seq<char>|
                    views(out@).contains(x) <==> exists|q: int|
                        0 <= q < i + 1 && !is_blank(#[trigger] files@[q]@) && pattern_for(files@[q]@) == x by {
                    if exists|q: int| 0 <= q < i + 1 && !is_blank(#[trigger] files@[q]@) && pattern_for(files@[q]@) == x {
                        let q = choose|q: int| 0 <= q < i + 1 && !is_blank(#[trigger] files@[q]@) && pattern_for(files@[q]@) == x;
                        assert(q != i);
                    }
                }
            }
        }
        i = i + 1;
    }
    out
}

/// Whether a file is the one to leave out.
pub open spec fn kept(target: Option<String>, f: Seq<char>) -> bool {
    !(target is Some && target->0@ == f)
}

/// The files other than `target` (the configuration file itself, when it
/// lies in the repository), in order.
pub fn files_without(files: Vec<String>, target: &Option<String>) -> (res: Vec<String>)
    ensures
        views(res@) == views(files@).filter(|f: Seq<char>| kept(*target, f)),
{
    let ghost p = |f: Seq<char>| kept(*target, f);
    let mut out: Vec<String> = Vec::new();
    let mut i: usize = 0;
    assert(views(files@.take(0)) =~= Seq::<Seq<char>>::empty());
    assert(Seq::<Seq<char>>::empty().filter(p) =~= Seq::<Seq<char>>::empty()) by {
        reveal(Seq::filter);
    }
    while i < files.len()
        invariant
            i <= files@.len(),
            p == (|f: Seq<char>| kept(*target, f)),
            views(out@) == views(files@.take(i as int)).filter(p),
        decreases files@.len() - i,
    {
        let file = &files[i];
        let keep = match target {
            Some(t) => !crate::text::str_eq(t.as_str(), file.as_str()),
            None => true,
        };
        proof {
            assert(views(files@.take(i + 1)) =~= views(files@.take(i as int)).push(file@));
            views(files@.take(i as int)).lemma_filter_push(file@, p);
        }
        if keep {
            let ghost before = out@;
            out.push(file.clone());
            assert(views(out@) =~= views(before).push(file@));
        }
        i = i + 1;
    }
    assert(files@.take(files@.len() as int) =~= files@);
    out
}

/// The node that `init` writes, with its name: the given patterns and a
/// harmless `echo` command.
pub fn generated_node(patterns: Vec<String>) -> (res: (String, Node))
    ensures
        res.0@ == "node"@,
        res.1.paths == patterns,
        res.1.depends_on@.len() == 0,
        views(res.1.command@) == seq!["echo"@, "git-impact: node was impacted"@],
{
    let mut command: Vec<String> = Vec::new();
    command.push(String::from_str("echo"));
    command.push(String::from_str("git-impact: node was impacted"));
    assert(views(command@) =~= seq!["echo"@, "git-impact: node was impacted"@]);
    (String::from_str("node"), Node { paths: patterns, depends_on: Vec::new(), command })
}

/// A covering pattern of a file that is not blank is not blank either.
proof fn lemma_first_slash_range(f: Seq<char>)
    ensures
        0 <= first_slash(f) <= f.len(),
    decreases f.len(),
{
    if f.len() > 0 {
        lemma_first_slash_range(f.drop_first());
    }
}

proof fn lemma_pattern_not_blank(f: Seq<char>)
    requires
        !is_blank(f),
    ensures
        !is_blank(pattern_for(f)),
{
    lemma_first_slash_range(f);
    if first_slash(f) < f.len() {
        reveal_strlit("/**");
        let p = pattern_for(f);
        let j = first_slash(f);
        assert(p[j + 1] == '*');
        assert(!crate::text::is_white_space(p[j + 1]));
    }
}

/// Law: the configuration that `init` writes is accepted whenever the
/// patterns it derived from the repository's files compile as globs: the
/// node passes every check, has no dependencies and forms no cycle.
pub proof fn law_init_config_accepted(files: Seq<Seq<char>>, patterns: Seq<Seq<char>>, node: Node, res: Result<crate::config::Config, crate::config::ConfigError>)
    requires
        forall|x: Seq<char>| patterns.contains(x) <==> exists|i: int| 0 <= i < files.len() && !is_blank(#[trigger] files[i]) && pattern_for(files[i]) == x,
        views(node.paths@) == patterns,
        node.depends_on@.len() == 0,
        views(node.command@) == seq!["echo"@, "git-impact: node was impacted"@],
        forall|k: int| 0 <= k < patterns.len() ==> crate::glob::glob_compiles(#[trigger] patterns[k]),
        crate::config::validation_outcome(map!["node"@ => node], res),
    ensures
        res is Ok,
{
    let m = map!["node"@ => node];
    reveal_strlit("node");
    reveal_strlit("echo");
    reveal_strlit("git-impact: node was impacted");
    assert(!is_blank("node"@)) by {
        assert(!crate::text::is_white_space("node"@[0]));
    }
    assert(views(node.command@).len() == 2);
    assert(node.command@.len() == 2);
    assert(views(node.command@)[0] == node.command@[0]@);
    assert(views(node.command@)[1] == node.command@[1]@);
    assert(node.command@[0]@ == "echo"@);
    assert(node.command@[1]@ == "git-impact: node was impacted"@);
    assert(!is_blank("echo"@)) by {
        assert(!crate::text::is_white_space("echo"@[0]));
    }
    assert(!is_blank("git-impact: node was impacted"@)) by {
        assert(!crate::text::is_white_space("git-impact: node was impacted"@[0]));
    }
    assert forall|k: int| 0 <= k < node.command.len() implies !is_blank(#[trigger] node.command@[k]@) by {
        assert(k == 0 || k == 1);
    }
    assert forall|k: int| 0 <= k < node.paths.len() implies crate::config::pattern_ok(#[trigger] node.paths@[k]@) by {
        assert(views(node.paths@).len() == node.paths@.len());
        assert(views(node.paths@)[k] == node.paths@[k]@);
        assert(crate::glob::glob_compiles(patterns[k]));
        assert(patterns.contains(patterns[k]));
        let i = choose|i: int| 0 <= i < files.len() && !is_blank(#[trigger] files[i]) && pattern_for(files[i]) == patterns[k];
        lemma_pattern_not_blank(files[i]);
    }
    assert(crate::config::entry_ok("node"@, node));
    assert forall|n: Seq<char>| #[trigger] m.contains_key(n) implies crate::config::entry_ok(n, m[n]) by {
        assert(n == "node"@);
    }
    assert forall|n: Seq<char>| #[trigger] m.contains_key(n) implies crate::config::deps_ok(m, m[n]) by {
        assert(n == "node"@);
    }
    assert forall|c: Seq<Seq<char>>| !#[trigger] crate::config::is_name_cycle(m, c) by {
        if crate::config::is_name_cycle(m, c) {
            assert(m.contains_key(c[0]));
            assert(views(m[c[0]].depends_on@).contains(c[1]));
        }
    }
}

} // verus!
