//! Impact planning: which nodes the changed files match directly, which
//! nodes those changes reach downstream through `depends_on`, and the
//! order in which their commands run.
use vstd::prelude::*;

use crate::config::{dep_graph, entry_names, Config, Node};
use crate::deps::{
    acyclic, adj_in_range, edge, ints, is_cycle, is_walk, lemma_back_edge_cycle,
    lemma_closed_holds_reach, lemma_distinct_bounded, lemma_distinct_bounded_ints,
    lemma_reaches_prepend, lemma_reaches_self, lemma_walk_push, reaches,
};
use crate::glob::{
    add_glob, any_glob_matches, build_glob, build_glob_set, glob_compiles, glob_set_builds,
    glob_set_is_match, new_glob_set_builder, set_sources, PathGlobSet,
};
use crate::text::{lemma_sorted_strict_unique, seq_less, sorted_strict, sorted_unique, str_eq, views};

verus! {

/// What a set of changed files impacts.
#[derive(Debug, Clone, PartialEq, Eq)]
pub struct ImpactPlan {
    /// The changed files, sorted, without repetitions.
    pub changed_files: Vec<String>,
    /// For each node that some changed file matches, in name order, the
    /// files it matches.
    pub direct_matches: Vec<(String, Vec<String>)>,
    /// For each node impacted through a dependency, in name order, the
    /// impacted nodes it depends on, in name order.
    pub triggered_by: Vec<(String, Vec<String>)>,
    /// The impacted nodes, in name order.
    pub impacted: Vec<String>,
    /// The impacted nodes, each after the impacted nodes it depends on.
    pub execution_order: Vec<String>,
}

/// Why a planner could not be built.
#[derive(Debug)]
pub enum PlanError {
    /// The glob set of this node's patterns failed to build.
    GlobSetFailed { node: String },
}

/// Matches changed files against the nodes of a configuration and expands
/// the impact downstream.
pub struct Planner {
    names: Vec<String>,
    globs: Vec<PathGlobSet>,
    deps: Vec<Vec<usize>>,
    dependents: Vec<Vec<usize>>,
    patterns: Ghost<Seq<Seq<Seq<char>>>>,
}

// ------------------------------------------------------------------
// Specifications
// ------------------------------------------------------------------

/// The names of a list of named entries.
pub open spec fn key_names(s: Seq<(String, Vec<String>)>) -> Seq<Seq<char>> {
    s.map_values(|e: (String, Vec<String>)| e.0@)
}

/// Named entries, each name with the views of its strings.
pub open spec fn entry_views(s: Seq<(String, Vec<String>)>) -> Seq<(Seq<char>, Seq<Seq<char>>)> {
    s.map_values(|e: (String, Vec<String>)| (e.0@, views(e.1@)))
}

/// `row` lists, in increasing order, the nodes that depend on `j`.
pub open spec fn lists_dependents(g: Seq<Seq<usize>>, j: int, row: Seq<usize>) -> bool {
    &&& g.len() <= usize::MAX
    &&& forall|a: int, b: int| 0 <= a < b < row.len() ==> row[a] < row[b]
    &&& forall|t: int| 0 <= t < row.len() ==> #[trigger] row[t] < g.len()
    &&& forall|x: int| 0 <= x < g.len() ==> (row.contains(x as usize) <==> #[trigger] edge(g, x, j))
}

/// The predicate "some pattern of `pats` matches".
pub open spec fn matches_any(pats: Seq<Seq<char>>) -> spec_fn(Seq<char>) -> bool {
    |f: Seq<char>| any_glob_matches(pats, f)
}

/// The direct matches among the first `k` nodes: each node some file
/// matches, with the files it matches, in the order of `files`.
pub open spec fn direct_upto(
    names: Seq<Seq<char>>,
    pats: Seq<Seq<Seq<char>>>,
    files: Seq<Seq<char>>,
    k: int,
) -> Seq<(Seq<char>, Seq<Seq<char>>)>
    decreases k,
{
    if k <= 0 {
        Seq::empty()
    } else {
        let prev = direct_upto(names, pats, files, k - 1);
        let ms = files.filter(matches_any(pats[k - 1]));
        if ms.len() > 0 {
            prev.push((names[k - 1], ms))
        } else {
            prev
        }
    }
}

/// Node `j` is matched directly: its name is a key of the direct matches.
pub open spec fn seeded(names: Seq<Seq<char>>, keys: Seq<Seq<char>>, j: int) -> bool {
    0 <= j < names.len() && keys.contains(names[j])
}

/// Node `i` is impacted: it depends, directly or not, on a node matched
/// directly (or is one).
pub open spec fn impacted_node(g: Seq<Seq<usize>>, names: Seq<Seq<char>>, keys: Seq<Seq<char>>, i: int) -> bool {
    0 <= i < names.len() && exists|j: int| seeded(names, keys, j) && #[trigger] reaches(g, i, j)
}

/// The impacted nodes that node `d` depends on, by name.
pub open spec fn triggers_of(
    g: Seq<Seq<usize>>,
    names: Seq<Seq<char>>,
    keys: Seq<Seq<char>>,
    d: int,
    s: Seq<Seq<char>>,
) -> bool {
    &&& sorted_strict(s)
    &&& s.len() > 0
    &&& forall|x: Seq<char>|
        s.contains(x) <==> exists|c: int|
            impacted_node(g, names, keys, c) && #[trigger] edge(g, d, c) && names[c] == x
}

/// What `expand` computes from the names, graph and direct keys.
pub open spec fn expansion(
    g: Seq<Seq<usize>>,
    names: Seq<Seq<char>>,
    keys: Seq<Seq<char>>,
    plan: ImpactPlan,
) -> bool {
    let imp = views(plan.impacted@);
    let order = views(plan.execution_order@);
    let tb = plan.triggered_by@;
    // impacted: the impacted nodes in name order
    &&& sorted_strict(imp)
    &&& forall|x: Seq<char>| imp.contains(x) <==> exists|i: int| impacted_node(g, names, keys, i) && names[i] == x
    // triggered_by: nodes depending on an impacted node, with those nodes
    &&& sorted_strict(key_names(tb))
    &&& forall|k: int| 0 <= k < tb.len() ==> names.contains(#[trigger] tb[k].0@)
    &&& forall|k: int, d: int|
        #![trigger tb[k], names[d]]
        0 <= k < tb.len() && 0 <= d < names.len() && names[d] == tb[k].0@ ==> triggers_of(g, names, keys, d, views(tb[k].1@))
    &&& forall|d: int, c: int|
        0 <= d < names.len() && impacted_node(g, names, keys, c) && #[trigger] edge(g, d, c) ==> key_names(tb).contains(names[d])
    // execution_order: a depth-first walk from each impacted node in name
    // order, through the dependencies in the order they are listed
    &&& order == names_of(names, dfs_order(g, impacted_flags(g, names, keys), names.len() as int))
    // hence each impacted node once, after the impacted nodes it depends on
    &&& order.no_duplicates()
    &&& forall|x: Seq<char>| order.contains(x) <==> imp.contains(x)
    &&& forall|k: int, i: int, j: int|
        #![trigger order[k], edge(g, i, j)]
        0 <= k < order.len() && 0 <= i < names.len() && names[i] == order[k] && edge(g, i, j)
            && impacted_node(g, names, keys, j) ==> exists|k2: int| 0 <= k2 < k && order[k2] == names[j]
}

/// Which nodes are impacted, by position.
pub open spec fn impacted_flags(g: Seq<Seq<usize>>, names: Seq<Seq<char>>, keys: Seq<Seq<char>>) -> Seq<bool> {
    Seq::new(names.len(), |i: int| impacted_node(g, names, keys, i))
}

/// Depth-first placement of node `i` after `order`: unless `order` holds it
/// already, its flagged dependencies are placed first, in the order they
/// are listed, then `i` itself. `fuel` bounds the depth of the search.
pub open spec fn dfs_visit(g: Seq<Seq<usize>>, flags: Seq<bool>, order: Seq<usize>, i: usize, fuel: nat) -> Seq<usize>
    decreases fuel, 0int, 0int,
{
    if fuel == 0 || order.contains(i) {
        order
    } else {
        dfs_visit_deps(g, flags, order, i, g[i as int].len() as int, (fuel - 1) as nat).push(i)
    }
}

/// Depth-first placement of the flagged ones among the first `t`
/// dependencies of node `i`, one after the other.
pub open spec fn dfs_visit_deps(g: Seq<Seq<usize>>, flags: Seq<bool>, order: Seq<usize>, i: usize, t: int, fuel: nat) -> Seq<usize>
    decreases fuel, 1int, t,
{
    if t <= 0 {
        order
    } else {
        let o = dfs_visit_deps(g, flags, order, i, t - 1, fuel);
        let j = g[i as int][t - 1];
        if flags[j as int] {
            dfs_visit(g, flags, o, j, fuel)
        } else {
            o
        }
    }
}

/// The execution order: a depth-first placement of each flagged node among
/// the first `k`, in position order.
pub open spec fn dfs_order(g: Seq<Seq<usize>>, flags: Seq<bool>, k: int) -> Seq<usize>
    decreases k,
{
    if k <= 0 {
        Seq::empty()
    } else {
        let o = dfs_order(g, flags, k - 1);
        if flags[k - 1] {
            dfs_visit(g, flags, o, (k - 1) as usize, g.len())
        } else {
            o
        }
    }
}

/// What `plan` returns for the changed files `files`: the files sorted
/// without repetitions, the direct matches among them, and their expansion.
pub open spec fn planned(p: Planner, files: Seq<Seq<char>>, res: ImpactPlan) -> bool {
    &&& sorted_strict(p.node_names())
    &&& sorted_strict(views(res.changed_files@))
    &&& views(res.changed_files@).to_set() == files.to_set()
    &&& entry_views(res.direct_matches@) == direct_upto(
        p.node_names(),
        p.patterns(),
        views(res.changed_files@),
        p.node_names().len() as int,
    )
    &&& expansion(p.graph(), p.node_names(), key_names(res.direct_matches@), res)
}

impl Planner {
    #[verifier::type_invariant]
    spec fn inv(self) -> bool {
        let n = self.names@.len();
        &&& self.globs@.len() == n
        &&& self.deps@.len() == n
        &&& self.dependents@.len() == n
        &&& self.patterns@.len() == n
        &&& n <= usize::MAX
        &&& sorted_strict(views(self.names@))
        &&& forall|i: int| 0 <= i < n ==> set_sources(#[trigger] self.globs@[i].set) == self.patterns@[i]
        &&& adj_in_range(self.graph())
        &&& acyclic(self.graph())
        &&& forall|j: int| 0 <= j < n ==> lists_dependents(self.graph(), j, #[trigger] self.dependents@[j]@)
    }

    /// The node names, sorted.
    pub closed spec fn node_names(&self) -> Seq<Seq<char>> {
        views(self.names@)
    }

    /// The dependency graph over node positions.
    pub closed spec fn graph(&self) -> Seq<Seq<usize>> {
        Seq::new(self.deps@.len(), |i: int| self.deps@[i]@)
    }

    /// The path patterns of each node.
    pub closed spec fn patterns(&self) -> Seq<Seq<Seq<char>>> {
        self.patterns@
    }

    /// Compiles the glob set of every node.
    pub fn new(config: &Config) -> (res: Result<Planner, PlanError>)
        ensures
            res is Ok <==> forall|i: int| 0 <= i < config@.len() ==> glob_set_builds(views(#[trigger] config@[i].1.paths@)),
            match res {
                Ok(p) => {
                    &&& p.node_names() == entry_names(config@)
                    &&& p.graph() == dep_graph(config@)
                    &&& p.patterns().len() == config@.len()
                    &&& forall|i: int| 0 <= i < config@.len() ==> #[trigger] p.patterns()[i] == views(config@[i].1.paths@)
                },
                Err(e) => exists|i: int|
                    0 <= i < config@.len() && !glob_set_builds(views(#[trigger] config@[i].1.paths@))
                        && (forall|j: int| 0 <= j < i ==> glob_set_builds(views(#[trigger] config@[j].1.paths@)))
                        && (e matches PlanError::GlobSetFailed { node } && node@ == config@[i].0@),
            },
    {
        let entries = config.nodes();
        let adj = config.dependency_positions();
        let n = entries.len();
        let ghost g = dep_graph(entries@);
        let mut names: Vec<String> = Vec::new();
        let mut globs: Vec<PathGlobSet> = Vec::new();
        let mut deps: Vec<Vec<usize>> = Vec::new();
        let ghost mut pats: Seq<Seq<Seq<char>>> = Seq::empty();
        let mut i: usize = 0;
        while i < n
            invariant
                n == entries@.len(),
                entries@ == config@,
                crate::config::config_wf(config@),
                adj@.len() == n,
                forall|k: int| 0 <= k < n ==> #[trigger] adj@[k]@ == g[k],
                g == dep_graph(config@),
                i <= n,
                names@.len() == i,
                globs@.len() == i,
                deps@.len() == i,
                pats.len() == i,
                forall|k: int| 0 <= k < i ==> #[trigger] names@[k]@ == entry_names(config@)[k],
                forall|k: int| 0 <= k < i ==> #[trigger] deps@[k]@ == g[k],
                forall|k: int| 0 <= k < i ==> pats[k] == views(config@[k].1.paths@),
                forall|k: int| 0 <= k < i ==> set_sources(#[trigger] globs@[k].set) == pats[k],
                forall|k: int| 0 <= k < i ==> glob_set_builds(views(#[trigger] config@[k].1.paths@)),
            decreases n - i,
        {
            proof {
                assert(crate::config::entry_ok(config@[i as int].0@, config@[i as int].1));
            }
            let set = match compile_globs(&entries[i].0, &entries[i].1.paths) {
                Ok(s) => s,
                Err(e) => {
                    return Err(e);
                },
            };
            names.push(entries[i].0.clone());
            globs.push(set);
            deps.push(copy_positions(&adj[i]));
            proof {
                pats = pats.push(views(config@[i as int].1.paths@));
            }
            i = i + 1;
        }
        proof {
            assert(views(names@) =~= entry_names(config@));
        }
        let ghost g2 = Seq::new(deps@.len(), |k: int| deps@[k]@);
        assert(g2 =~= g);
        let dependents = compute_dependents(&deps, Ghost(g));
        let planner = Planner { names, globs, deps, dependents, patterns: Ghost(pats) };
        Ok(planner)
    }

    /// The files of `files` that each node matches, for the nodes that
    /// match any.
    fn direct_matches(&self, files: &Vec<String>) -> (res: Vec<(String, Vec<String>)>)
        ensures
            entry_views(res@) == direct_upto(self.node_names(), self.patterns(), views(files@), self.node_names().len() as int),
    {
        proof {
            use_type_invariant(self);
        }
        let ghost fv = views(files@);
        let mut out: Vec<(String, Vec<String>)> = Vec::new();
        let mut i: usize = 0;
        while i < self.names.len()
            invariant
                i <= self.names@.len(),
                self.globs@.len() == self.names@.len(),
                self.patterns@.len() == self.names@.len(),
                forall|k: int| 0 <= k < self.names@.len() ==> set_sources(#[trigger] self.globs@[k].set) == self.patterns@[k],
                fv == views(files@),
                entry_views(out@) == direct_upto(self.node_names(), self.patterns(), fv, i as int),
            decreases self.names@.len() - i,
        {
            let ghost pred = matches_any(self.patterns@[i as int]);
            let mut ms: Vec<String> = Vec::new();
            let mut k: usize = 0;
            while k < files.len()
                invariant
                    k <= files.len(),
                    i < self.names@.len(),
                    self.globs@.len() == self.names@.len(),
                    set_sources(self.globs@[i as int].set) == self.patterns@[i as int],
                    pred == matches_any(self.patterns@[i as int]),
                    fv == views(files@),
                    views(ms@) == fv.take(k as int).filter(pred),
                decreases files.len() - k,
            {
                let hit = glob_set_is_match(&self.globs[i], files[k].as_str());
                proof {
                    assert(fv.take(k + 1) =~= fv.take(k as int).push(fv[k as int]));
                    fv.take(k as int).lemma_filter_push(fv[k as int], pred);
                    assert(pred(fv[k as int]) == hit);
                }
                if hit {
                    let ghost before = ms@;
                    ms.push(files[k].clone());
                    assert(views(ms@) =~= views(before).push(fv[k as int]));
                }
                k = k + 1;
            }
            assert(fv.take(files@.len() as int) =~= fv);
            if ms.len() > 0 {
                let ghost before = out@;
                out.push((self.names[i].clone(), ms));
                assert(entry_views(out@) =~= entry_views(before).push((self.node_names()[i as int], fv.filter(pred))));
            }
            i = i + 1;
        }
        out
    }

    /// Plans the impact of the changed files.
    pub fn plan(&self, changed_files: Vec<String>) -> (res: ImpactPlan)
        ensures
            planned(*self, views(changed_files@), res),
    {
        let files = sorted_unique(changed_files);
        let direct = self.direct_matches(&files);
        proof {
            use_type_invariant(self);
            let du = direct_upto(self.node_names(), self.patterns(), views(files@), self.node_names().len() as int);
            self.lemma_direct_keys(views(files@), self.node_names().len() as int);
            assert forall|t: int| 0 <= t < direct@.len() implies self.node_names().contains(#[trigger] direct@[t].0@) by {
                assert(entry_views(direct@)[t].0 == direct@[t].0@);
                assert(du[t].0 == direct@[t].0@);
            }
        }
        self.expand(files, direct)
    }

    /// The keys of the direct matches are node names.
    proof fn lemma_direct_keys(&self, files: Seq<Seq<char>>, k: int)
        requires
            0 <= k <= self.node_names().len(),
        ensures
            forall|t: int| 0 <= t < direct_upto(self.node_names(), self.patterns(), files, k).len() ==>
                self.node_names().contains(#[trigger] direct_upto(self.node_names(), self.patterns(), files, k)[t].0),
        decreases k,
    {
        if k > 0 {
            self.lemma_direct_keys(files, k - 1);
            let d = direct_upto(self.node_names(), self.patterns(), files, k);
            let prev = direct_upto(self.node_names(), self.patterns(), files, k - 1);
            assert forall|t: int| 0 <= t < d.len() implies self.node_names().contains(#[trigger] d[t].0) by {
                if t < prev.len() {
                    assert(d[t] == prev[t]);
                } else {
                    assert(self.node_names()[k - 1] == d[t].0);
                }
            }
        }
    }

    /// Expands direct matches downstream: the impacted nodes, what
    /// triggered each, and the execution order. The direct matches and
    /// changed files are kept as given.
    pub fn expand(&self, changed_files: Vec<String>, direct_matches: Vec<(String, Vec<String>)>) -> (res: ImpactPlan)
        requires
            forall|t: int| 0 <= t < direct_matches@.len() ==> self.node_names().contains(#[trigger] direct_matches@[t].0@),
        ensures
            res.changed_files == changed_files,
            res.direct_matches == direct_matches,
            expansion(self.graph(), self.node_names(), key_names(direct_matches@), res),
    {
        proof {
            use_type_invariant(self);
        }
        let ghost g = self.graph();
        let ghost names = self.node_names();
        let ghost keys = key_names(direct_matches@);
        let n = self.names.len();
        assert(n == names.len());
        // seed the search with the directly matched nodes
        let mut flags: Vec<bool> = Vec::new();
        let mut k: usize = 0;
        while k < n
            invariant
                k <= n,
                flags@.len() == k,
                forall|q: int| 0 <= q < k ==> !#[trigger] flags@[q],
            decreases n - k,
        {
            flags.push(false);
            k = k + 1;
        }
        let mut queue: Vec<usize> = Vec::new();
        let mut t: usize = 0;
        while t < direct_matches.len()
            invariant
                n == names.len(),
                names == self.node_names(),
                g == self.graph(),
                g.len() == n,
                keys == key_names(direct_matches@),
                sorted_strict(names),
                forall|q: int| 0 <= q < direct_matches@.len() ==> names.contains(#[trigger] direct_matches@[q].0@),
                t <= direct_matches.len(),
                flags@.len() == n,
                queue_inv(g, names, keys, flags@, queue@),
                forall|q: int| 0 <= q < t ==> exists|j: int| 0 <= j < n && names[j] == #[trigger] keys[q] && flags@[j],
            decreases direct_matches.len() - t,
        {
            let pos = self.position_of(direct_matches[t].0.as_str());
            proof {
                assert(names.contains(direct_matches@[t as int].0@));
                assert(keys[t as int] == direct_matches@[t as int].0@);
                lemma_reaches_self(g, pos as int);
                assert(seeded(names, keys, pos as int));
            }
            if !flags[pos] {
                let ghost old_q = queue@;
                let ghost old_f = flags@;
                flags.set(pos, true);
                queue.push(pos);
                proof {
                    lemma_queue_push(g, names, keys, old_f, old_q, pos);
                }
            }
            t = t + 1;
        }
        proof {
            assert forall|j: int| seeded(names, keys, j) implies #[trigger] flags@[j] by {
                let q = choose|q: int| 0 <= q < keys.len() && keys[q] == names[j];
                let j2 = choose|j2: int| 0 <= j2 < n && names[j2] == keys[q] && flags@[j2];
                crate::config::lemma_sorted_index_order(names, j, j2);
            }
        }
        // breadth-first expansion through the dependents
        let mut cursor: usize = 0;
        while cursor < queue.len()
            invariant
                n == names.len(),
                g == self.graph(),
                g.len() == n,
                adj_in_range(g),
                self.dependents@.len() == n,
                forall|j: int| 0 <= j < n ==> lists_dependents(g, j, #[trigger] self.dependents@[j]@),
                flags@.len() == n,
                queue_inv(g, names, keys, flags@, queue@),
                cursor <= queue@.len(),
                forall|j: int| seeded(names, keys, j) ==> #[trigger] flags@[j],
                forall|q: int, d: int| 0 <= q < cursor && #[trigger] edge(g, d, queue@[q] as int) ==> flags@[d],
            decreases n - cursor,
        {
            proof {
                lemma_distinct_bounded(queue@, n as int);
            }
            let current = queue[cursor];
            let row = &self.dependents[current];
            let mut r: usize = 0;
            while r < row.len()
                invariant
                    n == names.len(),
                    g == self.graph(),
                    g.len() == n,
                    current < n,
                    row@ == self.dependents@[current as int]@,
                    lists_dependents(g, current as int, row@),
                    impacted_node(g, names, keys, current as int),
                    flags@.len() == n,
                    queue_inv(g, names, keys, flags@, queue@),
                    cursor < queue@.len(),
                    queue@[cursor as int] == current,
                    r <= row.len(),
                    forall|j: int| seeded(names, keys, j) ==> #[trigger] flags@[j],
                    forall|q: int, d: int| 0 <= q < cursor && #[trigger] edge(g, d, queue@[q] as int) ==> flags@[d],
                    forall|q: int| 0 <= q < r ==> #[trigger] flags@[row@[q] as int],
                decreases row.len() - r,
            {
                let d = row[r];
                proof {
                    assert(row@.contains(d));
                    assert(edge(g, d as int, current as int));
                }
                if !flags[d] {
                    let ghost old_q = queue@;
                    let ghost old_f = flags@;
                    proof {
                        let j = choose|j: int| seeded(names, keys, j) && #[trigger] reaches(g, current as int, j);
                        lemma_reaches_prepend(g, d as int, current as int, j);
                    }
                    flags.set(d, true);
                    queue.push(d);
                    proof {
                        lemma_queue_push(g, names, keys, old_f, old_q, d);
                        assert(queue@[cursor as int] == current);
                    }
                }
                r = r + 1;
            }
            proof {
                assert forall|q: int, d: int| 0 <= q < cursor + 1 && #[trigger] edge(g, d, queue@[q] as int) implies flags@[d] by {
                    if q == cursor {
                        assert(row@.contains(d as usize));
                        let w = choose|w: int| 0 <= w < row@.len() && row@[w] == d as usize;
                        assert(flags@[row@[w] as int]);
                    }
                }
            }
            cursor = cursor + 1;
        }
        proof {
            let holds = |x: int| 0 <= x < n && flags@[x];
            assert forall|d: int, c: int| holds(c) && #[trigger] edge(g, d, c) implies holds(d) by {
                assert(queue@.contains(c as usize));
                let q = choose|q: int| 0 <= q < queue@.len() && queue@[q] == c as usize;
            }
            assert forall|i: int| impacted_node(g, names, keys, i) implies #[trigger] flags@[i] by {
                let j = choose|j: int| seeded(names, keys, j) && #[trigger] reaches(g, i, j);
                lemma_closed_holds_reach(g, holds, i, j);
            }
        }
        let impacted = self.impacted_names(&flags, Ghost(keys));
        let triggered_by = self.triggered_by(&flags, Ghost(keys));
        let order = self.execution_order(&flags, Ghost(keys));
        let execution_order = self.names_at_positions(&order);
        proof {
            assert(views(execution_order@) =~= names_of(names, order@));
            assert(flags@ =~= impacted_flags(g, names, keys)) by {
                assert forall|i: int| 0 <= i < n implies flags@[i] == impacted_flags(g, names, keys)[i] by {
                    if flags@[i] {
                        assert(queue@.contains(i as usize));
                        let t = choose|t: int| 0 <= t < queue@.len() && queue@[t] == i as usize;
                        assert(impacted_node(g, names, keys, queue@[t] as int));
                    }
                }
            }
            let ov = views(execution_order@);
            assert(ov.no_duplicates()) by {
                assert forall|a: int, b: int| 0 <= a < ov.len() && 0 <= b < ov.len() && a != b implies ov[a] != ov[b] by {
                    assert(order@[a] != order@[b]);
                    crate::config::lemma_sorted_index_order(names, order@[a] as int, order@[b] as int);
                }
            }
            assert forall|x: Seq<char>| ov.contains(x) <==> views(impacted@).contains(x) by {
                if ov.contains(x) {
                    let a = choose|a: int| 0 <= a < ov.len() && ov[a] == x;
                    assert(order@.contains(order@[a]));
                    assert(flags@[order@[a] as int]);
                    assert(impacted_node(g, names, keys, order@[a] as int));
                    assert(names[order@[a] as int] == x);
                }
                if views(impacted@).contains(x) {
                    let i = choose|i: int| impacted_node(g, names, keys, i) && names[i] == x;
                    assert(flags@[i]);
                    let a = choose|a: int| 0 <= a < order@.len() && order@[a] == i as usize;
                    assert(ov[a] == x);
                }
            }
            assert forall|k: int, i: int, j: int|
                #![trigger ov[k], edge(g, i, j)]
                0 <= k < ov.len() && 0 <= i < names.len() && names[i] == ov[k] && edge(g, i, j)
                    && impacted_node(g, names, keys, j) implies exists|k2: int| 0 <= k2 < k && ov[k2] == names[j] by {
                crate::config::lemma_sorted_index_order(names, i, order@[k] as int);
                assert(flags@[j]);
                let b = choose|b: int| 0 <= b < k && order@[b] == j as usize;
                assert(ov[b] == names[j]);
            }
        }
        ImpactPlan {
            changed_files,
            direct_matches,
            triggered_by,
            impacted,
            execution_order,
        }
    }

    /// The position of a node name.
    fn position_of(&self, name: &str) -> (res: usize)
        requires
            self.node_names().contains(name@),
        ensures
            res < self.node_names().len(),
            self.node_names()[res as int] == name@,
    {
        proof {
            use_type_invariant(self);
        }
        let mut i: usize = 0;
        while i < self.names.len()
            invariant
                i <= self.names@.len(),
                views(self.names@).contains(name@),
                forall|k: int| 0 <= k < i ==> self.names@[k]@ != name@,
            decreases self.names@.len() - i,
        {
            if str_eq(self.names[i].as_str(), name) {
                return i;
            }
            i = i + 1;
        }
        proof {
            let k = choose|k: int| 0 <= k < views(self.names@).len() && views(self.names@)[k] == name@;
            assert(self.names@[k]@ == name@);
        }
        0
    }

    /// The names at the given positions.
    fn names_at_positions(&self, ps: &Vec<usize>) -> (res: Vec<String>)
        requires
            forall|t: int| 0 <= t < ps@.len() ==> #[trigger] ps@[t] < self.node_names().len(),
        ensures
            views(res@) == names_of(self.node_names(), ps@),
    {
        let mut out: Vec<String> = Vec::new();
        let mut t: usize = 0;
        while t < ps.len()
            invariant
                t <= ps@.len(),
                forall|q: int| 0 <= q < ps@.len() ==> #[trigger] ps@[q] < self.node_names().len(),
                views(out@) == names_of(self.node_names(), ps@.take(t as int)),
            decreases ps@.len() - t,
        {
            let ghost before = out@;
            out.push(self.names[ps[t]].clone());
            proof {
                assert(ps@.take(t + 1) =~= ps@.take(t as int).push(ps@[t as int]));
                assert(views(out@) =~= views(before).push(self.node_names()[ps@[t as int] as int]));
                assert(views(out@) =~= names_of(self.node_names(), ps@.take(t + 1)));
            }
            t = t + 1;
        }
        assert(ps@.take(ps@.len() as int) =~= ps@);
        out
    }

    /// The names of the flagged nodes, in name order.
    fn impacted_names(&self, flags: &Vec<bool>, Ghost(keys): Ghost<Seq<Seq<char>>>) -> (res: Vec<String>)
        requires
            flags@.len() == self.node_names().len(),
            forall|i: int| #![trigger flags@[i]] 0 <= i < flags@.len() ==> (flags@[i] <==> impacted_node(self.graph(), self.node_names(), keys, i)),
        ensures
            sorted_strict(views(res@)),
            forall|x: Seq<char>| views(res@).contains(x) <==> exists|i: int| impacted_node(self.graph(), self.node_names(), keys, i) && self.node_names()[i] == x,
    {
        proof {
            use_type_invariant(self);
        }
        let ps = flagged_positions(flags);
        let res = self.names_at_positions(&ps);
        proof {
            let names = self.node_names();
            lemma_increasing_names(names, ps@);
            assert forall|x: Seq<char>| views(res@).contains(x) <==> exists|i: int| impacted_node(self.graph(), names, keys, i) && names[i] == x by {
                if views(res@).contains(x) {
                    let t = choose|t: int| 0 <= t < ps@.len() && names[ps@[t] as int] == x;
                    assert(ps@.contains(ps@[t]));
                    assert(flags@[ps@[t] as int]);
                }
                if exists|i: int| impacted_node(self.graph(), names, keys, i) && names[i] == x {
                    let i = choose|i: int| impacted_node(self.graph(), names, keys, i) && names[i] == x;
                    assert(flags@[i]);
                    assert(ps@.contains(i as usize));
                    let t = choose|t: int| 0 <= t < ps@.len() && ps@[t] == i as usize;
                    assert(names[ps@[t] as int] == x);
                }
            }
        }
        res
    }

    /// For each node that depends on a flagged node, the flagged nodes it
    /// depends on.
    fn triggered_by(&self, flags: &Vec<bool>, Ghost(keys): Ghost<Seq<Seq<char>>>) -> (res: Vec<(String, Vec<String>)>)
        requires
            flags@.len() == self.node_names().len(),
            forall|i: int| #![trigger flags@[i]] 0 <= i < flags@.len() ==> (flags@[i] <==> impacted_node(self.graph(), self.node_names(), keys, i)),
        ensures
            sorted_strict(key_names(res@)),
            forall|k: int| 0 <= k < res@.len() ==> self.node_names().contains(#[trigger] res@[k].0@),
            forall|k: int, d: int|
                #![trigger res@[k], self.node_names()[d]]
                0 <= k < res@.len() && 0 <= d < self.node_names().len() && self.node_names()[d] == res@[k].0@
                    ==> triggers_of(self.graph(), self.node_names(), keys, d, views(res@[k].1@)),
            forall|d: int, c: int|
                0 <= d < self.node_names().len() && impacted_node(self.graph(), self.node_names(), keys, c)
                    && #[trigger] edge(self.graph(), d, c) ==> key_names(res@).contains(self.node_names()[d]),
    {
        proof {
            use_type_invariant(self);
        }
        let ghost names = self.node_names();
        let ghost g = self.graph();
        let n = self.names.len();
        let mut out: Vec<(String, Vec<String>)> = Vec::new();
        let ghost mut outpos: Seq<usize> = Seq::empty();
        let mut di: usize = 0;
        while di < n
            invariant
                names == self.node_names(),
                g == self.graph(),
                n == names.len(),
                g.len() == n,
                self.deps@.len() == n,
                forall|q: int| 0 <= q < n ==> #[trigger] self.deps@[q]@ == g[q],
                adj_in_range(g),
                sorted_strict(names),
                names.len() == flags@.len(),
                di <= n,
                forall|q: int| #![trigger flags@[q]] 0 <= q < flags@.len() ==> (flags@[q] <==> impacted_node(g, names, keys, q)),
                outpos.len() == out@.len(),
                increasing(outpos),
                forall|t: int| 0 <= t < outpos.len() ==> #[trigger] outpos[t] < di,
                key_names(out@) == names_of(names, outpos),
                forall|k: int|
                    0 <= k < out@.len() ==> triggers_of(g, names, keys, outpos[k] as int, views(#[trigger] out@[k].1@)),
                forall|q: int, c: int|
                    0 <= q < di && impacted_node(g, names, keys, c) && #[trigger] edge(g, q, c) ==> outpos.contains(q as usize),
            decreases n - di,
        {
            let ps = flagged_among(flags, &self.deps[di]);
            if ps.len() > 0 {
                let srcs = self.names_at_positions(&ps);
                let ghost before = out@;
                out.push((self.names[di].clone(), srcs));
                proof {
                    assert(key_names(out@) =~= key_names(before).push(names[di as int]));
                    lemma_increasing_names(names, ps@);
                    let last = out@.len() - 1;
                    assert forall|x: Seq<char>| views(out@[last].1@).contains(x) <==> exists|c: int|
                        impacted_node(g, names, keys, c) && #[trigger] edge(g, di as int, c) && names[c] == x by {
                        if views(out@[last].1@).contains(x) {
                            let t = choose|t: int| 0 <= t < ps@.len() && names[ps@[t] as int] == x;
                            assert(ps@.contains(ps@[t]));
                            assert(flags@[ps@[t] as int]);
                            assert(self.deps@[di as int]@.contains(ps@[t]));
                            assert(edge(g, di as int, ps@[t] as int));
                        }
                        if exists|c: int| impacted_node(g, names, keys, c) && #[trigger] edge(g, di as int, c) && names[c] == x {
                            let c = choose|c: int| impacted_node(g, names, keys, c) && #[trigger] edge(g, di as int, c) && names[c] == x;
                            assert(flags@[c]);
                            assert(ps@.contains(c as usize));
                            let t = choose|t: int| 0 <= t < ps@.len() && ps@[t] == c as usize;
                            assert(names[ps@[t] as int] == x);
                        }
                    }
                    assert(triggers_of(g, names, keys, di as int, views(out@[last].1@)));
                    let op2 = outpos.push(di);
                    assert(key_names(out@) =~= names_of(names, op2));
                    assert forall|k: int| 0 <= k < out@.len() implies triggers_of(g, names, keys, op2[k] as int, views(#[trigger] out@[k].1@)) by {
                        if k < before.len() {
                            assert(out@[k] == before[k]);
                        }
                    }
                    assert forall|q: int, c: int| 0 <= q < di + 1 && impacted_node(g, names, keys, c) && #[trigger] edge(g, q, c) implies op2.contains(q as usize) by {
                        if q < di {
                            let w = choose|w: int| 0 <= w < outpos.len() && outpos[w] == q as usize;
                            assert(op2[w] == q as usize);
                        } else {
                            assert(op2[outpos.len() as int] == di);
                        }
                    }
                    outpos = op2;
                }
            } else {
                proof {
                    assert forall|q: int, c: int| 0 <= q < di + 1 && impacted_node(g, names, keys, c) && #[trigger] edge(g, q, c) implies outpos.contains(q as usize) by {
                        if q == di {
                            assert(flags@[c]);
                            assert(self.deps@[di as int]@.contains(c as usize));
                            assert(ps@.contains(c as usize));
                        }
                    }
                }
            }
            di = di + 1;
        }
        proof {
            lemma_increasing_names(names, outpos);
            assert forall|k: int| 0 <= k < out@.len() implies names.contains(#[trigger] out@[k].0@) by {
                assert(key_names(out@)[k] == names_of(names, outpos)[k]);
                assert(key_names(out@)[k] == out@[k].0@);
                assert(names[outpos[k] as int] == out@[k].0@);
            }
            assert forall|k: int, d: int|
                #![trigger out@[k], names[d]]
                0 <= k < out@.len() && 0 <= d < names.len() && names[d] == out@[k].0@
                    implies triggers_of(g, names, keys, d, views(out@[k].1@)) by {
                assert(key_names(out@)[k] == names_of(names, outpos)[k]);
                assert(key_names(out@)[k] == out@[k].0@);
                assert(names[outpos[k] as int] == out@[k].0@);
                crate::config::lemma_sorted_index_order(names, d, outpos[k] as int);
            }
            assert forall|d: int, c: int|
                0 <= d < names.len() && impacted_node(g, names, keys, c) && #[trigger] edge(g, d, c) implies key_names(out@).contains(names[d]) by {
                let w = choose|w: int| 0 <= w < outpos.len() && outpos[w] == d as usize;
                assert(key_names(out@)[w] == names[d]);
            }
        }
        out
    }

    /// The flagged nodes, each after the flagged nodes it depends on.
    fn execution_order(&self, flags: &Vec<bool>, Ghost(keys): Ghost<Seq<Seq<char>>>) -> (res: Vec<usize>)
        requires
            flags@.len() == self.node_names().len(),
        ensures
            res@.no_duplicates(),
            forall|t: int| 0 <= t < res@.len() ==> #[trigger] res@[t] < flags@.len(),
            forall|i: int| 0 <= i < flags@.len() ==> (#[trigger] flags@[i] <==> res@.contains(i as usize)),
            forall|a: int, j: int|
                0 <= a < res@.len() && #[trigger] edge(self.graph(), res@[a] as int, j) && flags@[j] ==> exists|b: int|
                    0 <= b < a && res@[b] == j as usize,
            res@ == dfs_order(self.graph(), flags@, flags@.len() as int),
    {
        proof {
            use_type_invariant(self);
        }
        let n = self.names.len();
        let mut visited: Vec<bool> = Vec::new();
        let mut k: usize = 0;
        while k < n
            invariant
                k <= n,
                visited@.len() == k,
                forall|q: int| 0 <= q < k ==> !#[trigger] visited@[q],
            decreases n - k,
        {
            visited.push(false);
            k = k + 1;
        }
        let mut order: Vec<usize> = Vec::new();
        let mut i: usize = 0;
        while i < n
            invariant
                n == self.node_names().len(),
                n == flags@.len(),
                i <= n,
                order_inv(self.graph(), flags@, visited@, order@, Seq::empty()),
                forall|q: int| 0 <= q < i && #[trigger] flags@[q] ==> order@.contains(q as usize),
                order@ == dfs_order(self.graph(), flags@, i as int),
            decreases n - i,
        {
            if flags[i] {
                self.visit_for_order(i, flags, &mut visited, &mut order, Ghost(Seq::empty()));
            }
            i = i + 1;
        }
        order
    }

    /// Depth-first visit of node `i`: its flagged dependencies are placed
    /// first, then `i`.
    fn visit_for_order(
        &self,
        i: usize,
        flags: &Vec<bool>,
        visited: &mut Vec<bool>,
        order: &mut Vec<usize>,
        Ghost(stack): Ghost<Seq<int>>,
    )
        requires
            flags@.len() == self.node_names().len(),
            order_inv(self.graph(), flags@, old(visited)@, old(order)@, stack),
            i < flags@.len(),
            flags@[i as int],
            stack.len() > 0 ==> edge(self.graph(), stack.last(), i as int),
        ensures
            order_inv(self.graph(), flags@, final(visited)@, final(order)@, stack),
            old(order)@ == final(order)@.take(old(order)@.len() as int),
            old(order)@.len() <= final(order)@.len(),
            final(order)@.contains(i),
            final(order)@ == dfs_visit(self.graph(), flags@, old(order)@, i, (self.graph().len() - stack.len()) as nat),
        decreases self.node_names().len() - stack.len(),
    {
        proof {
            use_type_invariant(self);
        }
        let ghost g = self.graph();
        if visited[i] {
            proof {
                if stack.contains(i as int) {
                    let k = choose|k: int| 0 <= k < stack.len() && stack[k] == i as int;
                    lemma_back_edge_cycle(g, stack, k);
                    assert(is_cycle(g, stack.subrange(k, stack.len() as int).push(stack[k])));
                    assert(false);
                }
                assert(order@.take(order@.len() as int) =~= order@);
            }
            return;
        }
        let ghost st2 = stack.push(i as int);
        let ghost old_order = order@;
        let ghost old_visited = visited@;
        visited.set(i, true);
        proof {
            lemma_order_enter(g, flags@, old_visited, order@, stack, i);
            lemma_distinct_bounded_ints(st2, g.len() as int);
        }
        let row = &self.deps[i];
        let mut t: usize = 0;
        while t < row.len()
            invariant
                g == self.graph(),
                g.len() == flags@.len(),
                flags@.len() == self.node_names().len(),
                self.deps@.len() == g.len(),
                i < g.len(),
                row@ == g[i as int],
                adj_in_range(g),
                st2 == stack.push(i as int),
                st2.len() <= g.len(),
                order_inv(g, flags@, visited@, order@, st2),
                old_order == order@.take(old_order.len() as int),
                old_order.len() <= order@.len(),
                t <= row.len(),
                forall|q: int| 0 <= q < t && #[trigger] flags@[row@[q] as int] ==> order@.contains(row@[q]),
                order@ == dfs_visit_deps(g, flags@, old_order, i, t as int, (g.len() - st2.len()) as nat),
            decreases row.len() - t,
        {
            let j = row[t];
            if flags[j] {
                let ghost before = order@;
                proof {
                    assert(g[i as int].contains(j));
                    assert(st2.last() == i as int);
                }
                self.visit_for_order(j, flags, visited, order, Ghost(st2));
                proof {
                    assert forall|q: int| 0 <= q < t + 1 && #[trigger] flags@[row@[q] as int] implies order@.contains(row@[q]) by {
                        if q < t {
                            let w = choose|w: int| 0 <= w < before.len() && before[w] == row@[q];
                            assert(order@.take(before.len() as int)[w] == order@[w]);
                        }
                    }
                    assert forall|w: int| 0 <= w < old_order.len() implies old_order[w] == order@[w] by {
                        assert(before[w] == old_order[w]);
                        assert(order@.take(before.len() as int)[w] == order@[w]);
                    }
                    assert(old_order =~= order@.take(old_order.len() as int));
                }
            }
            t = t + 1;
        }
        let ghost before = order@;
        order.push(i);
        proof {
            lemma_order_leave(g, flags@, visited@, before, stack, i);
            assert(order@[order@.len() - 1] == i);
            assert(old_order =~= order@.take(old_order.len() as int));
        }
    }
}

/// The names at the given positions.
pub open spec fn names_of(names: Seq<Seq<char>>, ps: Seq<usize>) -> Seq<Seq<char>> {
    ps.map_values(|p: usize| names[p as int])
}

/// Strictly increasing positions.
pub open spec fn increasing(ps: Seq<usize>) -> bool {
    forall|a: int, b: int| 0 <= a < b < ps.len() ==> ps[a] < ps[b]
}

/// Increasing positions into sorted names give sorted names.
proof fn lemma_increasing_names(names: Seq<Seq<char>>, ps: Seq<usize>)
    requires
        sorted_strict(names),
        increasing(ps),
        forall|t: int| 0 <= t < ps.len() ==> #[trigger] ps[t] < names.len(),
    ensures
        sorted_strict(names_of(names, ps)),
        forall|x: Seq<char>|
            #[trigger] names_of(names, ps).contains(x) <==> exists|t: int|
                0 <= t < ps.len() && names[ps[t] as int] == x,
{
    let m = names_of(names, ps);
    assert forall|a: int, b: int| 0 <= a < b < m.len() implies #[trigger] seq_less(m[a], m[b]) by {
        assert(ps[a] < ps[b]);
        assert(seq_less(names[ps[a] as int], names[ps[b] as int]));
    }
    assert forall|x: Seq<char>| m.contains(x) <==> exists|t: int| 0 <= t < ps.len() && names[ps[t] as int] == x by {
        if exists|t: int| 0 <= t < ps.len() && names[ps[t] as int] == x {
            let t = choose|t: int| 0 <= t < ps.len() && names[ps[t] as int] == x;
            assert(m[t] == x);
        }
    }
}

/// The flagged positions, in increasing order.
fn flagged_positions(flags: &Vec<bool>) -> (res: Vec<usize>)
    ensures
        increasing(res@),
        forall|t: int| 0 <= t < res@.len() ==> #[trigger] res@[t] < flags@.len(),
        forall|x: usize| (x as int) < flags@.len() ==> (#[trigger] res@.contains(x) <==> flags@[x as int]),
{
    let mut out: Vec<usize> = Vec::new();
    let mut i: usize = 0;
    let n = flags.len();
    while i < n
        invariant
            n == flags@.len(),
            i <= n,
            increasing(out@),
            forall|t: int| 0 <= t < out@.len() ==> #[trigger] out@[t] < i,
            forall|x: usize| (x as int) < flags@.len() ==> (#[trigger] out@.contains(x) <==> x < i && flags@[x as int]),
        decreases n - i,
    {
        let ghost before = out@;
        if flags[i] {
            out.push(i);
            proof {
                assert(out@[before.len() as int] == i);
                assert forall|x: usize| (x as int) < flags@.len() implies (#[trigger] out@.contains(x) <==> x < i + 1 && flags@[x as int]) by {
                    if x == i {
                        assert(out@[before.len() as int] == x);
                    } else {
                        if out@.contains(x) {
                            let w = choose|w: int| 0 <= w < out@.len() && out@[w] == x;
                            assert(w < before.len());
                            assert(before[w] == x);
                            assert(before.contains(x));
                        }
                        if x < i && flags@[x as int] {
                            assert(before.contains(x));
                            let w = choose|w: int| 0 <= w < before.len() && before[w] == x;
                            assert(out@[w] == x);
                        }
                    }
                }
            }
        } else {
            proof {
                assert forall|x: usize| (x as int) < flags@.len() implies (#[trigger] out@.contains(x) <==> x < i + 1 && flags@[x as int]) by {
                    if out@.contains(x) {
                        let w = choose|w: int| 0 <= w < out@.len() && out@[w] == x;
                        assert(out@[w] < i);
                    }
                }
            }
        }
        i = i + 1;
    }
    out
}

/// The flagged positions that `row` lists, in increasing order.
fn flagged_among(flags: &Vec<bool>, row: &Vec<usize>) -> (res: Vec<usize>)
    ensures
        increasing(res@),
        forall|t: int| 0 <= t < res@.len() ==> #[trigger] res@[t] < flags@.len(),
        forall|x: usize| (x as int) < flags@.len() ==> (#[trigger] res@.contains(x) <==> flags@[x as int] && row@.contains(x)),
{
    let mut out: Vec<usize> = Vec::new();
    let mut i: usize = 0;
    let n = flags.len();
    while i < n
        invariant
            n == flags@.len(),
            i <= n,
            increasing(out@),
            forall|t: int| 0 <= t < out@.len() ==> #[trigger] out@[t] < i,
            forall|x: usize| (x as int) < flags@.len() ==> (#[trigger] out@.contains(x) <==> x < i && flags@[x as int] && row@.contains(x)),
        decreases n - i,
    {
        let ghost before = out@;
        if flags[i] && contains_position(row, i) {
            out.push(i);
            proof {
                assert(out@[before.len() as int] == i);
                assert forall|x: usize| (x as int) < flags@.len() implies (#[trigger] out@.contains(x) <==> x < i + 1 && flags@[x as int] && row@.contains(x)) by {
                    if x == i {
                        assert(out@[before.len() as int] == x);
                    } else {
                        if out@.contains(x) {
                            let w = choose|w: int| 0 <= w < out@.len() && out@[w] == x;
                            assert(w < before.len());
                            assert(before[w] == x);
                            assert(before.contains(x));
                        }
                        if x < i && flags@[x as int] && row@.contains(x) {
                            assert(before.contains(x));
                            let w = choose|w: int| 0 <= w < before.len() && before[w] == x;
                            assert(out@[w] == x);
                        }
                    }
                }
            }
        } else {
            proof {
                assert forall|x: usize| (x as int) < flags@.len() implies (#[trigger] out@.contains(x) <==> x < i + 1 && flags@[x as int] && row@.contains(x)) by {
                    if out@.contains(x) {
                        let w = choose|w: int| 0 <= w < out@.len() && out@[w] == x;
                        assert(out@[w] < i);
                    }
                }
            }
        }
        i = i + 1;
    }
    out
}

/// The search queue: distinct positions, exactly the flagged nodes, each
/// impacted.
pub open spec fn queue_inv(g: Seq<Seq<usize>>, names: Seq<Seq<char>>, keys: Seq<Seq<char>>, flags: Seq<bool>, queue: Seq<usize>) -> bool {
    &&& names.len() <= usize::MAX
    &&& flags.len() == names.len()
    &&& queue.no_duplicates()
    &&& forall|t: int| 0 <= t < queue.len() ==> #[trigger] queue[t] < names.len()
    &&& forall|x: int| 0 <= x < flags.len() ==> (#[trigger] flags[x] <==> queue.contains(x as usize))
    &&& forall|t: int| 0 <= t < queue.len() ==> impacted_node(g, names, keys, #[trigger] queue[t] as int)
}

proof fn lemma_queue_push(g: Seq<Seq<usize>>, names: Seq<Seq<char>>, keys: Seq<Seq<char>>, flags: Seq<bool>, queue: Seq<usize>, x: usize)
    requires
        names.len() <= usize::MAX,
        queue_inv(g, names, keys, flags, queue),
        x < names.len(),
        !flags[x as int],
        impacted_node(g, names, keys, x as int),
    ensures
        queue_inv(g, names, keys, flags.update(x as int, true), queue.push(x)),
{
    let f2 = flags.update(x as int, true);
    let q2 = queue.push(x);
    assert(!queue.contains(x));
    assert forall|y: int| 0 <= y < f2.len() implies (#[trigger] f2[y] <==> q2.contains(y as usize)) by {
        if y != x {
            if queue.contains(y as usize) {
                let w = choose|w: int| 0 <= w < queue.len() && queue[w] == y as usize;
                assert(q2[w] == y as usize);
            }
            if q2.contains(y as usize) {
                let w = choose|w: int| 0 <= w < q2.len() && q2[w] == y as usize;
                assert(w < queue.len());
                assert(queue[w] == y as usize);
            }
        } else {
            assert(q2[queue.len() as int] == x);
        }
    }
    assert(q2.no_duplicates()) by {
        assert forall|a: int, b: int| 0 <= a < q2.len() && 0 <= b < q2.len() && a != b implies q2[a] != q2[b] by {
            if a < queue.len() && b < queue.len() {
                assert(queue[a] != queue[b]);
            } else if a < queue.len() {
                assert(queue.contains(queue[a]));
            } else if b < queue.len() {
                assert(queue.contains(queue[b]));
            }
        }
    }
    assert forall|t: int| 0 <= t < q2.len() implies impacted_node(g, names, keys, #[trigger] q2[t] as int) by {
        if t < queue.len() {
            assert(q2[t] == queue[t]);
        }
    }
}

/// The state of the ordering search: `order` holds the finished nodes,
/// dependencies first; `stack` the nodes being visited, as a walk.
pub open spec fn order_inv(g: Seq<Seq<usize>>, flags: Seq<bool>, visited: Seq<bool>, order: Seq<usize>, stack: Seq<int>) -> bool {
    &&& g.len() <= usize::MAX
    &&& flags.len() == g.len()
    &&& visited.len() == g.len()
    &&& adj_in_range(g)
    &&& acyclic(g)
    &&& order.no_duplicates()
    &&& stack.no_duplicates()
    &&& forall|t: int| 0 <= t < order.len() ==> #[trigger] order[t] < g.len() && flags[order[t] as int]
    &&& forall|t: int| 0 <= t < stack.len() ==> 0 <= #[trigger] stack[t] < g.len() && flags[stack[t]]
    &&& forall|k: int| 0 <= k < g.len() ==> (#[trigger] visited[k] <==> (order.contains(k as usize) || stack.contains(k)))
    &&& forall|k: int| 0 <= k < g.len() ==> !(order.contains(k as usize) && #[trigger] stack.contains(k))
    &&& stack.len() > 0 ==> is_walk(g, stack)
    &&& forall|a: int, j: int|
        0 <= a < order.len() && #[trigger] edge(g, order[a] as int, j) && flags[j] ==> exists|b: int| 0 <= b < a && order[b] == j as usize
}

proof fn lemma_order_enter(g: Seq<Seq<usize>>, flags: Seq<bool>, visited: Seq<bool>, order: Seq<usize>, stack: Seq<int>, i: usize)
    requires
        order_inv(g, flags, visited, order, stack),
        i < g.len(),
        flags[i as int],
        !visited[i as int],
        stack.len() > 0 ==> edge(g, stack.last(), i as int),
    ensures
        order_inv(g, flags, visited.update(i as int, true), order, stack.push(i as int)),
{
    let v2 = visited.update(i as int, true);
    let s2 = stack.push(i as int);
    assert(!stack.contains(i as int));
    assert(!order.contains(i));
    assert forall|k: int| 0 <= k < g.len() implies (#[trigger] v2[k] <==> (order.contains(k as usize) || s2.contains(k))) by {
        if k != i {
            if stack.contains(k) {
                let w = choose|w: int| 0 <= w < stack.len() && stack[w] == k;
                assert(s2[w] == k);
            }
            if s2.contains(k) {
                let w = choose|w: int| 0 <= w < s2.len() && s2[w] == k;
                assert(w < stack.len());
                assert(stack[w] == k);
            }
        } else {
            assert(s2[stack.len() as int] == k);
        }
    }
    assert forall|k: int| 0 <= k < g.len() implies !(order.contains(k as usize) && #[trigger] s2.contains(k)) by {
        if s2.contains(k) && k != i {
            let w = choose|w: int| 0 <= w < s2.len() && s2[w] == k;
            assert(w < stack.len());
            assert(stack.contains(k));
        }
    }
    assert(s2.no_duplicates()) by {
        assert forall|a: int, b: int| 0 <= a < s2.len() && 0 <= b < s2.len() && a != b implies s2[a] != s2[b] by {
            if a < stack.len() && b < stack.len() {
                assert(stack[a] != stack[b]);
            } else if a < stack.len() {
                assert(stack.contains(stack[a]));
            } else if b < stack.len() {
                assert(stack.contains(stack[b]));
            }
        }
    }
    if stack.len() > 0 {
        lemma_walk_push(g, stack, i as int);
    } else {
        assert(is_walk(g, s2));
    }
    assert forall|t: int| 0 <= t < s2.len() implies 0 <= #[trigger] s2[t] < g.len() && flags[s2[t]] by {
        if t < stack.len() {
            assert(s2[t] == stack[t]);
        }
    }
}

proof fn lemma_order_leave(g: Seq<Seq<usize>>, flags: Seq<bool>, visited: Seq<bool>, order: Seq<usize>, stack: Seq<int>, i: usize)
    requires
        order_inv(g, flags, visited, order, stack.push(i as int)),
        i < g.len(),
        forall|j: int| #[trigger] edge(g, i as int, j) && flags[j] ==> order.contains(j as usize),
    ensures
        order_inv(g, flags, visited, order.push(i), stack),
{
    let s2 = stack.push(i as int);
    let o2 = order.push(i);
    assert(s2[stack.len() as int] == i as int);
    assert(s2.contains(i as int));
    assert(!order.contains(i));
    assert(!stack.contains(i as int)) by {
        if stack.contains(i as int) {
            let w = choose|w: int| 0 <= w < stack.len() && stack[w] == i as int;
            assert(s2[w] == s2[stack.len() as int]);
        }
    }
    assert forall|t: int| 0 <= t < stack.len() implies 0 <= #[trigger] stack[t] < g.len() && flags[stack[t]] by {
        assert(s2[t] == stack[t]);
    }
    assert(stack.no_duplicates()) by {
        assert forall|a: int, b: int| 0 <= a < stack.len() && 0 <= b < stack.len() && a != b implies stack[a] != stack[b] by {
            assert(s2[a] == stack[a] && s2[b] == stack[b]);
        }
    }
    assert forall|k: int| 0 <= k < g.len() implies (#[trigger] visited[k] <==> (o2.contains(k as usize) || stack.contains(k))) by {
        if k != i {
            if o2.contains(k as usize) {
                let w = choose|w: int| 0 <= w < o2.len() && o2[w] == k as usize;
                assert(w < order.len());
                assert(order[w] == k as usize);
            }
            if order.contains(k as usize) {
                let w = choose|w: int| 0 <= w < order.len() && order[w] == k as usize;
                assert(o2[w] == k as usize);
            }
            if s2.contains(k) {
                let w = choose|w: int| 0 <= w < s2.len() && s2[w] == k;
                assert(w < stack.len());
                assert(stack[w] == k);
            }
            if stack.contains(k) {
                let w = choose|w: int| 0 <= w < stack.len() && stack[w] == k;
                assert(s2[w] == k);
            }
        } else {
            assert(o2[order.len() as int] == i);
        }
    }
    assert forall|k: int| 0 <= k < g.len() implies !(o2.contains(k as usize) && #[trigger] stack.contains(k)) by {
        if stack.contains(k) {
            let w = choose|w: int| 0 <= w < stack.len() && stack[w] == k;
            assert(s2[w] == k);
            assert(s2.contains(k));
            if o2.contains(k as usize) {
                let w2 = choose|w2: int| 0 <= w2 < o2.len() && o2[w2] == k as usize;
                if w2 < order.len() {
                    assert(order[w2] == k as usize);
                } else {
                    assert(k == i as int);
                }
            }
        }
    }
    assert(o2.no_duplicates()) by {
        assert forall|a: int, b: int| 0 <= a < o2.len() && 0 <= b < o2.len() && a != b implies o2[a] != o2[b] by {
            if a < order.len() && b < order.len() {
                assert(order[a] != order[b]);
            } else if a < order.len() {
                assert(order.contains(order[a]));
            } else if b < order.len() {
                assert(order.contains(order[b]));
            }
        }
    }
    assert forall|a: int, j: int|
        0 <= a < o2.len() && #[trigger] edge(g, o2[a] as int, j) && flags[j] implies exists|b: int| 0 <= b < a && o2[b] == j as usize by {
        if a < order.len() {
            assert(o2[a] == order[a]);
            let b = choose|b: int| 0 <= b < a && order[b] == j as usize;
            assert(o2[b] == j as usize);
        } else {
            assert(o2[a] == i);
            assert(order.contains(j as usize));
            let b = choose|b: int| 0 <= b < order.len() && order[b] == j as usize;
            assert(o2[b] == j as usize);
        }
    }
    if stack.len() > 0 {
        assert forall|t: int| #![trigger stack[t]] 0 <= t < stack.len() - 1 implies edge(g, stack[t], stack[t + 1]) by {
            assert(s2[t] == stack[t] && s2[t + 1] == stack[t + 1]);
            assert(edge(g, s2[t], s2[t + 1]));
        }
    }
    assert forall|t: int| 0 <= t < o2.len() implies #[trigger] o2[t] < g.len() && flags[o2[t] as int] by {
        if t < order.len() {
            assert(o2[t] == order[t]);
        }
    }
}

/// Builds the glob set of one node's patterns.
fn compile_globs(name: &String, patterns: &Vec<String>) -> (res: Result<PathGlobSet, PlanError>)
    requires
        forall|k: int| 0 <= k < patterns@.len() ==> glob_compiles(#[trigger] patterns@[k]@),
    ensures
        res is Ok <==> glob_set_builds(views(patterns@)),
        res matches Ok(s) ==> set_sources(s.set) == views(patterns@),
        res matches Err(e) ==> e matches PlanError::GlobSetFailed { node } && node@ == name@,
{
    let mut builder = new_glob_set_builder();
    let mut k: usize = 0;
    while k < patterns.len()
        invariant
            k <= patterns@.len(),
            forall|q: int| 0 <= q < patterns@.len() ==> glob_compiles(#[trigger] patterns@[q]@),
            crate::glob::builder_sources(builder.builder) == views(patterns@.take(k as int)),
        decreases patterns@.len() - k,
    {
        match build_glob(patterns[k].as_str()) {
            Ok(glob) => {
                add_glob(&mut builder, glob);
                assert(views(patterns@.take(k + 1)) =~= views(patterns@.take(k as int)).push(patterns@[k as int]@));
            },
            Err(_) => {
                assert(false);
                return Err(PlanError::GlobSetFailed { node: name.clone() });
            },
        }
        k = k + 1;
    }
    assert(patterns@.take(patterns@.len() as int) =~= patterns@);
    match build_glob_set(&builder) {
        Ok(set) => Ok(set),
        Err(_) => Err(PlanError::GlobSetFailed { node: name.clone() }),
    }
}

/// A copy of a list of positions.
fn copy_positions(v: &Vec<usize>) -> (res: Vec<usize>)
    ensures
        res@ == v@,
{
    let mut out: Vec<usize> = Vec::new();
    let mut k: usize = 0;
    while k < v.len()
        invariant
            k <= v@.len(),
            out@ == v@.take(k as int),
        decreases v@.len() - k,
    {
        out.push(v[k]);
        assert(v@.take(k + 1) =~= v@.take(k as int).push(v@[k as int]));
        k = k + 1;
    }
    assert(v@.take(v@.len() as int) =~= v@);
    out
}

/// Whether `row` lists position `x`.
fn contains_position(row: &Vec<usize>, x: usize) -> (res: bool)
    ensures
        res == row@.contains(x),
{
    let mut k: usize = 0;
    while k < row.len()
        invariant
            k <= row@.len(),
            forall|q: int| 0 <= q < k ==> row@[q] != x,
        decreases row@.len() - k,
    {
        if row[k] == x {
            return true;
        }
        k = k + 1;
    }
    false
}

/// For each node, the nodes that depend on it, in increasing order.
fn compute_dependents(deps: &Vec<Vec<usize>>, Ghost(g): Ghost<Seq<Seq<usize>>>) -> (res: Vec<Vec<usize>>)
    requires
        g.len() == deps@.len(),
        forall|q: int| 0 <= q < g.len() ==> #[trigger] deps@[q]@ == g[q],
        adj_in_range(g),
    ensures
        res@.len() == g.len(),
        forall|j: int| 0 <= j < g.len() ==> lists_dependents(g, j, #[trigger] res@[j]@),
{
    let n = deps.len();
    let mut out: Vec<Vec<usize>> = Vec::new();
    let mut j: usize = 0;
    while j < n
        invariant
            n == g.len(),
            g.len() == deps@.len(),
            forall|q: int| 0 <= q < g.len() ==> #[trigger] deps@[q]@ == g[q],
            j <= n,
            out@.len() == j,
            forall|q: int| 0 <= q < j ==> lists_dependents(g, q, #[trigger] out@[q]@),
        decreases n - j,
    {
        let mut row: Vec<usize> = Vec::new();
        let mut i: usize = 0;
        while i < n
            invariant
                n == g.len(),
                g.len() == deps@.len(),
                forall|q: int| 0 <= q < g.len() ==> #[trigger] deps@[q]@ == g[q],
                j < n,
                i <= n,
                forall|a: int, b: int| 0 <= a < b < row@.len() ==> row@[a] < row@[b],
                forall|t: int| 0 <= t < row@.len() ==> #[trigger] row@[t] < i,
                forall|x: int| 0 <= x < g.len() ==> (row@.contains(x as usize) <==> x < i && #[trigger] edge(g, x, j as int)),
            decreases n - i,
        {
            if contains_position(&deps[i], j) {
                let ghost before = row@;
                row.push(i);
                proof {
                    assert forall|x: int| 0 <= x < g.len() implies (row@.contains(x as usize) <==> x < i + 1 && #[trigger] edge(g, x, j as int)) by {
                        if x != i {
                            if before.contains(x as usize) {
                                let w = choose|w: int| 0 <= w < before.len() && before[w] == x as usize;
                                assert(row@[w] == x as usize);
                            }
                            if row@.contains(x as usize) {
                                let w = choose|w: int| 0 <= w < row@.len() && row@[w] == x as usize;
                                assert(w < before.len());
                                assert(before[w] == x as usize);
                            }
                        } else {
                            assert(row@[before.len() as int] == i);
                        }
                    }
                }
            } else {
                proof {
                    assert forall|x: int| 0 <= x < g.len() implies (row@.contains(x as usize) <==> x < i + 1 && #[trigger] edge(g, x, j as int)) by {
                        if x == i {
                            if row@.contains(x as usize) {
                                let w = choose|w: int| 0 <= w < row@.len() && row@[w] == x as usize;
                            }
                        }
                    }
                }
            }
            i = i + 1;
        }
        out.push(row);
        j = j + 1;
    }
    out
}

impl PlanError {
    /// The error as text.
    pub fn message(&self) -> (res: String)
        ensures
            match *self {
                PlanError::GlobSetFailed { node } => res@ == "failed to compile glob set for node '"@ + node@ + "'"@,
            },
    {
        match self {
            PlanError::GlobSetFailed { node } => {
                let mut s = String::from_str("failed to compile glob set for node '");
                s.append(node.as_str());
                s.append("'");
                s
            },
        }
    }
}

/// Law: in the execution order of a plan of a valid configuration, a node
/// comes after every node it depends on that also runs.
pub proof fn law_dependencies_run_first(entries: Seq<(String, Node)>, plan: ImpactPlan, a: int, b: int)
    requires
        crate::config::config_wf(entries),
        entries.len() <= usize::MAX,
        expansion(dep_graph(entries), entry_names(entries), key_names(plan.direct_matches@), plan),
        0 <= a < plan.execution_order@.len(),
        0 <= b < plan.execution_order@.len(),
        views(crate::config::entries_map(entries)[plan.execution_order@[a]@].depends_on@).contains(plan.execution_order@[b]@),
    ensures
        b < a,
{
    let g = dep_graph(entries);
    let names = entry_names(entries);
    let keys = key_names(plan.direct_matches@);
    let order = views(plan.execution_order@);
    crate::config::lemma_entries_map_sorted(entries);
    crate::config::lemma_dep_graph_facts(entries);
    assert(order[a] == plan.execution_order@[a]@);
    assert(order[b] == plan.execution_order@[b]@);
    assert(order.contains(order[a]));
    assert(order.contains(order[b]));
    let i = choose|i: int| impacted_node(g, names, keys, i) && names[i] == order[a];
    let j = choose|j: int| impacted_node(g, names, keys, j) && names[j] == order[b];
    assert(names[i] == entries[i].0@);
    assert(crate::config::entries_map(entries).contains_key(entries[i].0@));
    assert(names[j] == entries[j].0@);
    assert(edge(g, i, j));
    let k2 = choose|k2: int| 0 <= k2 < a && order[k2] == names[j];
    assert(order[k2] == order[b]);
}

/// Law: the impacted nodes are the fewest that the plan could impact: any
/// set of names that holds every directly matched node, and every node that
/// depends on a node of the set, holds every impacted node.
pub proof fn law_impact_is_least_closed(entries: Seq<(String, Node)>, plan: ImpactPlan, s: Set<Seq<char>>, x: Seq<char>)
    requires
        crate::config::config_wf(entries),
        entries.len() <= usize::MAX,
        expansion(dep_graph(entries), entry_names(entries), key_names(plan.direct_matches@), plan),
        forall|k: int| 0 <= k < plan.direct_matches@.len() ==> s.contains(#[trigger] plan.direct_matches@[k].0@),
        forall|i: int, j: int|
            0 <= i < entries.len() && 0 <= j < entries.len() && #[trigger] views(entries[i].1.depends_on@).contains(
                entries[j].0@,
            ) && s.contains(entries[j].0@) ==> s.contains(entries[i].0@),
        views(plan.impacted@).contains(x),
    ensures
        s.contains(x),
{
    let g = dep_graph(entries);
    let names = entry_names(entries);
    let keys = key_names(plan.direct_matches@);
    crate::config::lemma_dep_graph_facts(entries);
    let i = choose|i: int| impacted_node(g, names, keys, i) && names[i] == x;
    let j = choose|j: int| seeded(names, keys, j) && #[trigger] reaches(g, i, j);
    let holds = |y: int| 0 <= y < names.len() && s.contains(names[y]);
    assert(holds(j)) by {
        let k = choose|k: int| 0 <= k < keys.len() && keys[k] == names[j];
        assert(keys[k] == plan.direct_matches@[k].0@);
    }
    assert forall|d: int, c: int| holds(c) && #[trigger] edge(g, d, c) implies holds(d) by {
        assert(names[c] == entries[c].0@);
        assert(names[d] == entries[d].0@);
        assert(views(entries[d].1.depends_on@).contains(entries[c].0@));
    }
    lemma_closed_holds_reach(g, holds, i, j);
}

/// Law: impact flows downstream: a node that depends on an impacted node is
/// impacted too.
pub proof fn law_impact_flows_downstream(entries: Seq<(String, Node)>, plan: ImpactPlan, i: int, j: int)
    requires
        crate::config::config_wf(entries),
        entries.len() <= usize::MAX,
        expansion(dep_graph(entries), entry_names(entries), key_names(plan.direct_matches@), plan),
        0 <= i < entries.len(),
        0 <= j < entries.len(),
        views(entries[i].1.depends_on@).contains(entries[j].0@),
        views(plan.impacted@).contains(entries[j].0@),
    ensures
        views(plan.impacted@).contains(entries[i].0@),
{
    let g = dep_graph(entries);
    let names = entry_names(entries);
    let keys = key_names(plan.direct_matches@);
    crate::config::lemma_dep_graph_facts(entries);
    let c = choose|c: int| impacted_node(g, names, keys, c) && names[c] == entries[j].0@;
    assert(names[j] == entries[j].0@);
    crate::config::lemma_sorted_index_order(names, c, j);
    assert(edge(g, i, j));
    let m = choose|m: int| seeded(names, keys, m) && #[trigger] reaches(g, j, m);
    lemma_reaches_prepend(g, i, j, m);
    assert(impacted_node(g, names, keys, i));
    assert(names[i] == entries[i].0@);
}

/// Each entry of the direct matches among the first `m` nodes is a node
/// with the files it matches, none of them empty; and every node some file
/// matches has an entry.
proof fn lemma_direct_upto_entries(names: Seq<Seq<char>>, pats: Seq<Seq<Seq<char>>>, files: Seq<Seq<char>>, m: int)
    requires
        0 <= m <= names.len(),
    ensures
        forall|t: int|
            0 <= t < direct_upto(names, pats, files, m).len() ==> exists|d: int|
                0 <= d < m && names[d] == #[trigger] direct_upto(names, pats, files, m)[t].0
                    && direct_upto(names, pats, files, m)[t].1 == files.filter(matches_any(pats[d]))
                    && files.filter(matches_any(pats[d])).len() > 0,
        forall|d: int|
            0 <= d < m && #[trigger] files.filter(matches_any(pats[d])).len() > 0 ==> exists|t: int|
                0 <= t < direct_upto(names, pats, files, m).len() && direct_upto(names, pats, files, m)[t].0 == names[d],
    decreases m,
{
    if m > 0 {
        lemma_direct_upto_entries(names, pats, files, m - 1);
        let prev = direct_upto(names, pats, files, m - 1);
        let cur = direct_upto(names, pats, files, m);
        assert forall|t: int| 0 <= t < cur.len() implies exists|d: int|
            0 <= d < m && names[d] == #[trigger] cur[t].0 && cur[t].1 == files.filter(matches_any(pats[d]))
                && files.filter(matches_any(pats[d])).len() > 0 by {
            if t < prev.len() {
                assert(cur[t] == prev[t]);
                let d = choose|d: int|
                    0 <= d < m - 1 && names[d] == #[trigger] prev[t].0 && prev[t].1 == files.filter(matches_any(pats[d]))
                        && files.filter(matches_any(pats[d])).len() > 0;
                assert(names[d] == cur[t].0);
            } else {
                assert(names[m - 1] == cur[t].0);
            }
        }
        assert forall|d: int| 0 <= d < m && #[trigger] files.filter(matches_any(pats[d])).len() > 0 implies exists|t: int|
            0 <= t < cur.len() && cur[t].0 == names[d] by {
            if d < m - 1 {
                let t = choose|t: int| 0 <= t < prev.len() && prev[t].0 == names[d];
                assert(cur[t] == prev[t]);
            } else {
                assert(cur[prev.len() as int].0 == names[d]);
            }
        }
    }
}

/// Law: the direct matches of a plan hold, for each node that some changed
/// file matches, and for no other node, exactly the changed files that some
/// pattern of the node matches, in the order of the changed files.
pub proof fn law_direct_matches_are_matching_files(p: Planner, files: Seq<Seq<char>>, res: ImpactPlan, d: int)
    requires
        planned(p, files, res),
        0 <= d < p.node_names().len(),
    ensures
        key_names(res.direct_matches@).contains(p.node_names()[d]) <==> exists|f: Seq<char>|
            views(res.changed_files@).contains(f) && #[trigger] any_glob_matches(p.patterns()[d], f),
        forall|k: int|
            0 <= k < res.direct_matches@.len() && #[trigger] res.direct_matches@[k].0@ == p.node_names()[d] ==> forall|f: Seq<char>|
                #![trigger views(res.direct_matches@[k].1@).contains(f)]
                views(res.direct_matches@[k].1@).contains(f) <==> views(res.changed_files@).contains(f)
                    && any_glob_matches(p.patterns()[d], f),
        forall|k: int|
            0 <= k < res.direct_matches@.len() && #[trigger] res.direct_matches@[k].0@ == p.node_names()[d] ==> views(
                res.direct_matches@[k].1@,
            ) == views(res.changed_files@).filter(|f: Seq<char>| any_glob_matches(p.patterns()[d], f)),
{
    let names = p.node_names();
    let pats = p.patterns();
    let cf = views(res.changed_files@);
    let n = names.len() as int;
    let du = direct_upto(names, pats, cf, n);
    let dm = res.direct_matches@;
    let pred = matches_any(pats[d]);
    lemma_direct_upto_entries(names, pats, cf, n);
    cf.filter_lemma(pred);
    assert(pred == (|f: Seq<char>| any_glob_matches(pats[d], f)));
    assert(entry_views(dm) == du);
    assert forall|k: int| 0 <= k < dm.len() && #[trigger] dm[k].0@ == names[d] implies views(dm[k].1@) == cf.filter(pred) by {
        assert(du[k] == entry_views(dm)[k]);
        let d2 = choose|d2: int|
            0 <= d2 < n && names[d2] == #[trigger] du[k].0 && du[k].1 == cf.filter(matches_any(pats[d2]))
                && cf.filter(matches_any(pats[d2])).len() > 0;
        crate::config::lemma_sorted_index_order(names, d, d2);
    }
    assert forall|k: int| 0 <= k < dm.len() && #[trigger] dm[k].0@ == names[d] implies forall|f: Seq<char>|
        #![trigger views(dm[k].1@).contains(f)]
        views(dm[k].1@).contains(f) <==> cf.contains(f) && any_glob_matches(pats[d], f) by {
        assert forall|f: Seq<char>| views(dm[k].1@).contains(f) <==> cf.contains(f) && any_glob_matches(pats[d], f) by {
            if views(dm[k].1@).contains(f) {
                cf.lemma_filter_contains_rev(pred, f);
                let i = choose|i: int| 0 <= i < cf.filter(pred).len() && cf.filter(pred)[i] == f;
                assert(pred(cf.filter(pred)[i]));
            }
            if cf.contains(f) && any_glob_matches(pats[d], f) {
                let i = choose|i: int| 0 <= i < cf.len() && cf[i] == f;
                assert(pred(cf[i]));
            }
        }
    }
    if key_names(dm).contains(names[d]) {
        let k = choose|k: int| 0 <= k < key_names(dm).len() && key_names(dm)[k] == names[d];
        assert(dm[k].0@ == names[d]);
        assert(du[k] == entry_views(dm)[k]);
        let d2 = choose|d2: int|
            0 <= d2 < n && names[d2] == #[trigger] du[k].0 && du[k].1 == cf.filter(matches_any(pats[d2]))
                && cf.filter(matches_any(pats[d2])).len() > 0;
        crate::config::lemma_sorted_index_order(names, d, d2);
        let f = cf.filter(pred)[0];
        assert(pred(f));
        cf.lemma_filter_contains_rev(pred, f);
        assert(cf.filter(pred).contains(f));
    }
    if exists|f: Seq<char>| cf.contains(f) && #[trigger] any_glob_matches(pats[d], f) {
        let f = choose|f: Seq<char>| cf.contains(f) && #[trigger] any_glob_matches(pats[d], f);
        let i = choose|i: int| 0 <= i < cf.len() && cf[i] == f;
        assert(pred(cf[i]));
        assert(cf.filter(pred).contains(f));
        assert(cf.filter(pred).len() > 0);
        let t = choose|t: int| 0 <= t < du.len() && du[t].0 == names[d];
        assert(du[t] == entry_views(dm)[t]);
        assert(key_names(dm)[t] == dm[t].0@);
    }
}

/// Law: a plan depends only on which files changed: two plans of one
/// planner, for lists that hold the same files in any order and with any
/// repetitions, are the same plan.
pub proof fn law_plan_depends_on_changed_set(p: Planner, files1: Seq<Seq<char>>, files2: Seq<Seq<char>>, r1: ImpactPlan, r2: ImpactPlan)
    requires
        planned(p, files1, r1),
        planned(p, files2, r2),
        files1.to_set() == files2.to_set(),
    ensures
        views(r1.changed_files@) == views(r2.changed_files@),
        entry_views(r1.direct_matches@) == entry_views(r2.direct_matches@),
        views(r1.impacted@) == views(r2.impacted@),
        entry_views(r1.triggered_by@) == entry_views(r2.triggered_by@),
        views(r1.execution_order@) == views(r2.execution_order@),
{
    let g = p.graph();
    let names = p.node_names();
    let c1 = views(r1.changed_files@);
    let c2 = views(r2.changed_files@);
    assert forall|x: Seq<char>| c1.contains(x) <==> c2.contains(x) by {
        assert(c1.to_set().contains(x) == c1.contains(x));
        assert(c2.to_set().contains(x) == c2.contains(x));
    }
    lemma_sorted_strict_unique(c1, c2);
    let keys = key_names(r1.direct_matches@);
    assert(key_names(r2.direct_matches@) =~= keys) by {
        assert(entry_views(r1.direct_matches@).len() == entry_views(r2.direct_matches@).len());
        assert forall|k: int| 0 <= k < keys.len() implies key_names(r2.direct_matches@)[k] == keys[k] by {
            assert(entry_views(r1.direct_matches@)[k].0 == keys[k]);
            assert(entry_views(r2.direct_matches@)[k].0 == key_names(r2.direct_matches@)[k]);
        }
    }
    lemma_sorted_strict_unique(views(r1.impacted@), views(r2.impacted@));
    let tb1 = r1.triggered_by@;
    let tb2 = r2.triggered_by@;
    assert forall|x: Seq<char>| key_names(tb1).contains(x) <==> key_names(tb2).contains(x) by {
        lemma_trigger_keys(g, names, keys, r1, x);
        lemma_trigger_keys(g, names, keys, r2, x);
    }
    lemma_sorted_strict_unique(key_names(tb1), key_names(tb2));
    assert(entry_views(tb1) =~= entry_views(tb2)) by {
        assert forall|k: int| 0 <= k < tb1.len() implies entry_views(tb1)[k] == entry_views(tb2)[k] by {
            assert(key_names(tb1)[k] == tb1[k].0@);
            assert(key_names(tb2)[k] == tb2[k].0@);
            assert(names.contains(tb1[k].0@));
            let d = choose|d: int| 0 <= d < names.len() && names[d] == tb1[k].0@;
            assert(triggers_of(g, names, keys, d, views(tb1[k].1@)));
            assert(triggers_of(g, names, keys, d, views(tb2[k].1@)));
            lemma_sorted_strict_unique(views(tb1[k].1@), views(tb2[k].1@));
        }
    }
}

/// The nodes that `triggered_by` lists are those that depend on an
/// impacted node.
proof fn lemma_trigger_keys(g: Seq<Seq<usize>>, names: Seq<Seq<char>>, keys: Seq<Seq<char>>, r: ImpactPlan, x: Seq<char>)
    requires
        expansion(g, names, keys, r),
    ensures
        key_names(r.triggered_by@).contains(x) <==> exists|d: int, c: int|
            0 <= d < names.len() && impacted_node(g, names, keys, c) && #[trigger] edge(g, d, c) && names[d] == x,
{
    let tb = r.triggered_by@;
    if key_names(tb).contains(x) {
        let k = choose|k: int| 0 <= k < key_names(tb).len() && key_names(tb)[k] == x;
        assert(names.contains(tb[k].0@));
        let d = choose|d: int| 0 <= d < names.len() && names[d] == tb[k].0@;
        let s = views(tb[k].1@);
        assert(triggers_of(g, names, keys, d, s));
        assert(s.contains(s[0]));
    }
}

} // verus!
