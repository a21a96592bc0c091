//! The dependency-graph configuration: named nodes, each with path
//! patterns, the nodes it depends on and the command to run, and the rules
//! that a configuration must satisfy.
use vstd::prelude::*;

use crate::deps::{
    acyclic, adj_in_range, edge, finished_before, ints, is_cycle, is_walk, lemma_back_edge_cycle,
    lemma_distinct_bounded, lemma_distinct_bounded_ints, lemma_finished_acyclic, lemma_reaches_prepend,
    lemma_reaches_self, reaches,
};
use crate::glob::{build_glob, glob_compiles};
use crate::text::{
    blank, is_blank, lemma_less_irreflexive, lemma_less_total, lemma_less_transitive,
    compare_strs, join_strings, joined, listed_before, seq_less, sorted_strict, str_eq, views, Order3,
};

verus! {

/// One node of the graph.
#[derive(Debug, Clone)]
pub struct Node {
    /// Glob patterns of the files that impact this node.
    pub paths: Vec<String>,
    /// Names of the nodes this node depends on.
    pub depends_on: Vec<String>,
    /// The command to run, as an argument vector.
    pub command: Vec<String>,
}

/// A configuration as read from YAML, before validation: the nodes listed
/// under a top-level `nodes:` key and the nodes given as direct top-level
/// keys. A name that occurs twice in one list takes its last node.
pub struct RawConfig {
    pub nodes: Vec<(String, Node)>,
    pub direct_nodes: Vec<(String, Node)>,
}

/// A validated configuration. Its nodes are sorted by name.
pub struct Config {
    nodes: Vec<(String, Node)>,
    adj: Vec<Vec<usize>>,
}

/// Why a configuration was rejected.
#[derive(Debug)]
pub enum ConfigError {
    MixedNodeStyles,
    NoNodes,
    EmptyNodeName,
    EmptyCommand { node: String },
    EmptyArgument { node: String },
    EmptyPathPattern { node: String },
    InvalidGlob { node: String, pattern: String },
    UnknownDependency { node: String, dependency: String },
    DuplicateDependency { node: String, dependency: String },
    DependencyCycle { cycle: Vec<String> },
}

// ------------------------------------------------------------------
// Entries sorted by name
// ------------------------------------------------------------------

/// The names of a list of named nodes.
pub open spec fn entry_names(s: Seq<(String, Node)>) -> Seq<Seq<char>> {
    s.map_values(|e: (String, Node)| e.0@)
}

/// The map that inserting the entries one after the other builds: a name
/// given twice maps to its last node.
pub open spec fn entries_map(s: Seq<(String, Node)>) -> Map<Seq<char>, Node>
    decreases s.len(),
{
    if s.len() == 0 {
        Map::empty()
    } else {
        entries_map(s.drop_last()).insert(s.last().0@, s.last().1)
    }
}

/// In a strictly sorted list of names, the order of two names is the
/// order of their positions.
pub proof fn lemma_sorted_index_order(names: Seq<Seq<char>>, i: int, j: int)
    requires
        sorted_strict(names),
        0 <= i < names.len(),
        0 <= j < names.len(),
    ensures
        seq_less(names[i], names[j]) <==> i < j,
        names[i] == names[j] <==> i == j,
{
    if i < j {
        assert(seq_less(names[i], names[j]));
        lemma_less_total(names[i], names[j]);
        lemma_less_irreflexive(names[i]);
    } else if j < i {
        assert(seq_less(names[j], names[i]));
        lemma_less_total(names[i], names[j]);
        lemma_less_irreflexive(names[i]);
    } else {
        lemma_less_irreflexive(names[i]);
    }
}

/// In a strictly sorted list of names, a name is found at its position.
pub proof fn lemma_index_of_sorted(names: Seq<Seq<char>>, i: int)
    requires
        sorted_strict(names),
        0 <= i < names.len(),
    ensures
        names.index_of(names[i]) == i,
{
    assert(names.contains(names[i]));
    let j = names.index_of(names[i]);
    lemma_sorted_index_order(names, i, j);
}

/// For entries sorted by name, the map holds exactly the listed names, each
/// with its node.
pub proof fn lemma_entries_map_sorted(s: Seq<(String, Node)>)
    requires
        sorted_strict(entry_names(s)),
    ensures
        forall|i: int|
            0 <= i < s.len() ==> #[trigger] entries_map(s).contains_key(s[i].0@) && entries_map(
                s,
            )[s[i].0@] == s[i].1,
        forall|n: Seq<char>| #[trigger]
            entries_map(s).contains_key(n) ==> entry_names(s).contains(n),
    decreases s.len(),
{
    if s.len() > 0 {
        let t = s.drop_last();
        assert(entry_names(t) =~= entry_names(s).drop_last());
        lemma_entries_map_sorted(t);
        assert forall|i: int| 0 <= i < s.len() implies #[trigger] entries_map(s).contains_key(
            s[i].0@,
        ) && entries_map(s)[s[i].0@] == s[i].1 by {
            if i < s.len() - 1 {
                assert(entry_names(s)[i] == s[i].0@);
                assert(entry_names(s)[s.len() - 1] == s.last().0@);
                lemma_sorted_index_order(entry_names(s), i, s.len() - 1);
                assert(t[i] == s[i]);
                assert(entries_map(t).contains_key(t[i].0@));
            }
        }
        assert forall|n: Seq<char>| #[trigger] entries_map(s).contains_key(n) implies entry_names(
            s,
        ).contains(n) by {
            if n != s.last().0@ {
                assert(entries_map(t).contains_key(n));
                let k = choose|k: int| 0 <= k < entry_names(t).len() && entry_names(t)[k] == n;
                assert(entry_names(s)[k] == n);
            } else {
                assert(entry_names(s)[s.len() - 1] == n);
            }
        }
    }
}

/// Two name-sorted entry lists with the same map are equal.
proof fn lemma_entries_map_ext(s: Seq<(String, Node)>, m: Map<Seq<char>, Node>)
    requires
        sorted_strict(entry_names(s)),
        forall|i: int| 0 <= i < s.len() ==> #[trigger] m.contains_key(s[i].0@) && m[s[i].0@] == s[i].1,
        forall|n: Seq<char>| #[trigger] m.contains_key(n) ==> entry_names(s).contains(n),
    ensures
        entries_map(s) == m,
{
    lemma_entries_map_sorted(s);
    assert(entries_map(s) =~= m) by {
        assert forall|n: Seq<char>| #[trigger] m.contains_key(n) implies entries_map(s).contains_key(
            n,
        ) && entries_map(s)[n] == m[n] by {
            let k = choose|k: int| 0 <= k < entry_names(s).len() && entry_names(s)[k] == n;
            assert(s[k].0@ == n);
        }
        assert forall|n: Seq<char>| #[trigger] entries_map(s).contains_key(n) implies m.contains_key(
            n,
        ) by {
            let k = choose|k: int| 0 <= k < entry_names(s).len() && entry_names(s)[k] == n;
            assert(s[k].0@ == n);
        }
    }
}

/// Adds a named node to a list sorted by name; a node of the same name is
/// replaced (as `BTreeMap::insert` replaces it).
fn insert_entry(entries: &mut Vec<(String, Node)>, name: String, node: Node)
    requires
        sorted_strict(entry_names(old(entries)@)),
    ensures
        sorted_strict(entry_names(final(entries)@)),
        entries_map(final(entries)@) == entries_map(old(entries)@).insert(name@, node),
{
    let ghost old_s = entries@;
    let ghost names = entry_names(old_s);
    proof {
        lemma_entries_map_sorted(old_s);
    }
    let mut i: usize = 0;
    while i < entries.len()
        invariant
            entries@ == old_s,
            names == entry_names(old_s),
            sorted_strict(names),
            i <= entries.len(),
            forall|k: int| 0 <= k < i ==> seq_less(#[trigger] names[k], name@),
        ensures
            i <= entries.len(),
            forall|k: int| 0 <= k < i ==> seq_less(#[trigger] names[k], name@),
            i < entries.len() ==> !seq_less(names[i as int], name@),
        decreases entries.len() - i,
    {
        match compare_strs(entries[i].0.as_str(), name.as_str()) {
            Order3::Less => {},
            _ => {
                break;
            },
        }
        i = i + 1;
    }
    let ghost m = entries_map(old_s).insert(name@, node);
    if i < entries.len() && str_eq(entries[i].0.as_str(), name.as_str()) {
        assert(names[i as int] == name@);
        entries.set(i, (name, node));
        proof {
            let s = entries@;
            assert(entry_names(s) =~= names.update(i as int, name@));
            assert(entry_names(s) =~= names);
            assert forall|k: int| 0 <= k < s.len() implies #[trigger] m.contains_key(s[k].0@) && m[s[k].0@]
                == s[k].1 by {
                if k != i {
                    assert(s[k] == old_s[k]);
                    assert(names[k] == old_s[k].0@);
                    lemma_sorted_index_order(names, k, i as int);
                    assert(entries_map(old_s).contains_key(old_s[k].0@));
                }
            }
            assert forall|n: Seq<char>| #[trigger] m.contains_key(n) implies entry_names(s).contains(
                n,
            ) by {
                if n != name@ {
                    assert(entries_map(old_s).contains_key(n));
                }
            }
            lemma_entries_map_ext(s, m);
        }
        return;
    }
    proof {
        assert forall|k: int| i <= k < names.len() implies seq_less(name@, #[trigger] names[k]) by {
            lemma_less_total(name@, names[i as int]);
            if k > i as int {
                assert(seq_less(names[i as int], names[k]));
                lemma_less_transitive(name@, names[i as int], names[k]);
            }
        }
    }
    entries.insert(i, (name, node));
    proof {
        let s = entries@;
        let nn = entry_names(s);
        assert(nn =~= names.insert(i as int, name@));
        assert forall|a: int, b: int| 0 <= a < b < nn.len() implies #[trigger] seq_less(
            nn[a],
            nn[b],
        ) by {
            if a < i && b > i {
                lemma_less_transitive(nn[a], name@, nn[b]);
            } else if a > i {
                assert(nn[a] == names[a - 1]);
                assert(nn[b] == names[b - 1]);
            }
        }
        assert forall|k: int| 0 <= k < s.len() implies #[trigger] m.contains_key(s[k].0@) && m[s[k].0@]
            == s[k].1 by {
            if k < i {
                assert(s[k] == old_s[k]);
                assert(names[k] == old_s[k].0@);
                lemma_less_irreflexive(name@);
                assert(entries_map(old_s).contains_key(old_s[k].0@));
            } else if k > i {
                assert(s[k] == old_s[k - 1]);
                assert(names[k - 1] == old_s[k - 1].0@);
                lemma_less_irreflexive(name@);
                assert(entries_map(old_s).contains_key(old_s[k - 1].0@));
            }
        }
        assert forall|n: Seq<char>| #[trigger] m.contains_key(n) implies entry_names(s).contains(n) by {
            if n != name@ {
                assert(entries_map(old_s).contains_key(n));
                let k = choose|k: int| 0 <= k < names.len() && names[k] == n;
                if k < i {
                    assert(nn[k] == n);
                } else {
                    assert(nn[k + 1] == n);
                }
            } else {
                assert(nn[i as int] == n);
            }
        }
        lemma_entries_map_ext(s, m);
    }
}

/// The entries sorted by name, later entries replacing earlier ones of the
/// same name.
fn collect_entries(entries: Vec<(String, Node)>) -> (res: Vec<(String, Node)>)
    ensures
        sorted_strict(entry_names(res@)),
        entries_map(res@) == entries_map(entries@),
{
    let mut out: Vec<(String, Node)> = Vec::new();
    let ghost all = entries@;
    assert(entry_names(out@) =~= Seq::<Seq<char>>::empty());
    for e in it: entries
        invariant
            all == it.seq(),
            sorted_strict(entry_names(out@)),
            entries_map(out@) == entries_map(all.take(it.index() as int)),
    {
        let ghost k = it.index();
        let (name, node) = e;
        insert_entry(&mut out, name, node);
        proof {
            assert(all.take(k + 1).drop_last() =~= all.take(k as int));
        }
    }
    assert(all.take(all.len() as int) =~= all);
    out
}

// ------------------------------------------------------------------
// What a valid configuration is
// ------------------------------------------------------------------

/// A path pattern is usable when it is not blank and compiles as a glob.
pub open spec fn pattern_ok(p: Seq<char>) -> bool {
    !is_blank(p) && glob_compiles(p)
}

/// The checks of a node's own fields: a command with at least one
/// argument, no blank argument, and usable path patterns.
pub open spec fn node_ok(node: Node) -> bool {
    &&& node.command.len() > 0
    &&& forall|k: int| 0 <= k < node.command.len() ==> !is_blank(#[trigger] node.command@[k]@)
    &&& forall|k: int| 0 <= k < node.paths.len() ==> pattern_ok(#[trigger] node.paths@[k]@)
}

/// The checks of a named node: a name that is not blank, and `node_ok`.
pub open spec fn entry_ok(name: Seq<char>, node: Node) -> bool {
    !is_blank(name) && node_ok(node)
}

/// The error reported for a node that fails `node_ok`: the first failing
/// check, in the order command, arguments, patterns; it names the node.
pub open spec fn node_error(e: ConfigError, name: Seq<char>, node: Node) -> bool {
    if node.command.len() == 0 {
        e matches ConfigError::EmptyCommand { node: n } && n@ == name
    } else if exists|k: int| 0 <= k < node.command.len() && is_blank(#[trigger] node.command@[k]@) {
        e matches ConfigError::EmptyArgument { node: n } && n@ == name
    } else {
        exists|k: int|
            #![trigger node.paths@[k]]
            0 <= k < node.paths.len() && !pattern_ok(node.paths@[k]@) && (forall|j: int|
                0 <= j < k ==> pattern_ok(#[trigger] node.paths@[j]@)) && if is_blank(
                node.paths@[k]@,
            ) {
                e matches ConfigError::EmptyPathPattern { node: n } && n@ == name
            } else {
                e matches ConfigError::InvalidGlob { node: n, pattern: p } && n@ == name && p@
                    == node.paths@[k]@
            }
    }
}

/// The error reported for a named node that fails `entry_ok`: a blank name
/// first, then the error of `node_error`.
pub open spec fn entry_error(e: ConfigError, name: Seq<char>, node: Node) -> bool {
    if is_blank(name) {
        e is EmptyNodeName
    } else {
        node_error(e, name, node)
    }
}

/// The `k`-th dependency of `node` names no node of `m`, or repeats an
/// earlier dependency.
pub open spec fn dep_fault_at(m: Map<Seq<char>, Node>, node: Node, k: int) -> bool {
    ||| !m.contains_key(node.depends_on@[k]@)
    ||| exists|j: int| 0 <= j < k && node.depends_on@[j]@ == node.depends_on@[k]@
}

/// Every dependency of `node` names a node of `m`, and none is repeated.
pub open spec fn deps_ok(m: Map<Seq<char>, Node>, node: Node) -> bool {
    forall|k: int| 0 <= k < node.depends_on.len() ==> !#[trigger] dep_fault_at(m, node, k)
}

/// The error reported for a node whose dependencies fail `deps_ok`: the
/// first faulty dependency, unknown before repeated.
pub open spec fn dep_error(e: ConfigError, m: Map<Seq<char>, Node>, name: Seq<char>, node: Node) -> bool {
    exists|k: int|
        0 <= k < node.depends_on.len() && #[trigger] dep_fault_at(m, node, k) && (forall|j: int|
            0 <= j < k ==> !#[trigger] dep_fault_at(m, node, j)) && if !m.contains_key(
            node.depends_on@[k]@,
        ) {
            e matches ConfigError::UnknownDependency { node: n, dependency: d } && n@ == name && d@
                == node.depends_on@[k]@
        } else {
            e matches ConfigError::DuplicateDependency { node: n, dependency: d } && n@ == name && d@
                == node.depends_on@[k]@
        }
}

/// A cycle of names: each depends on the next, and the last is the first.
pub open spec fn is_name_cycle(m: Map<Seq<char>, Node>, c: Seq<Seq<char>>) -> bool {
    &&& c.len() >= 2
    &&& c[0] == c.last()
    &&& forall|t: int| 0 <= t < c.len() ==> m.contains_key(#[trigger] c[t])
    &&& forall|t: int|
        #![trigger c[t]]
        0 <= t < c.len() - 1 ==> views(m[c[t]].depends_on@).contains(c[t + 1])
}

/// `n` fails `entry_ok`, and every smaller name passes it.
pub open spec fn first_node_fault(m: Map<Seq<char>, Node>, n: Seq<char>) -> bool {
    &&& m.contains_key(n)
    &&& !entry_ok(n, m[n])
    &&& forall|n2: Seq<char>| #[trigger] m.contains_key(n2) && seq_less(n2, n) ==> entry_ok(n2, m[n2])
}

/// `n` fails `deps_ok`, and every smaller name passes it.
pub open spec fn first_dep_fault(m: Map<Seq<char>, Node>, n: Seq<char>) -> bool {
    &&& m.contains_key(n)
    &&& !deps_ok(m, m[n])
    &&& forall|n2: Seq<char>| #[trigger] m.contains_key(n2) && seq_less(n2, n) ==> deps_ok(m, m[n2])
}

/// The outcome of validating the nodes `m`, checked in name order: node
/// checks first, then dependencies, then cycles.
pub open spec fn validation_outcome(m: Map<Seq<char>, Node>, res: Result<Config, ConfigError>) -> bool {
    if exists|n: Seq<char>| #[trigger] m.contains_key(n) && !entry_ok(n, m[n]) {
        res matches Err(e) && exists|n: Seq<char>| #[trigger] first_node_fault(m, n) && entry_error(e, n, m[n])
    } else if exists|n: Seq<char>| #[trigger] m.contains_key(n) && !deps_ok(m, m[n]) {
        res matches Err(e) && exists|n: Seq<char>| #[trigger] first_dep_fault(m, n) && dep_error(e, m, n, m[n])
    } else if exists|c: Seq<Seq<char>>| #[trigger] is_name_cycle(m, c) {
        res matches Err(ConfigError::DependencyCycle { cycle }) && is_name_cycle(m, views(cycle@))
            && exists|s: Seq<(String, Node)>|
                #[trigger] entries_map(s) == m && sorted_strict(entry_names(s)) && reported_cycle(s, views(cycle@))
    } else {
        res matches Ok(config) && entries_map(config@) == m
    }
}

/// The nodes that a raw configuration selects: the `nodes:` list when it
/// has any node, the direct keys otherwise.
pub open spec fn selected_nodes(raw: RawConfig) -> Seq<(String, Node)> {
    if raw.nodes.len() > 0 {
        raw.nodes@
    } else {
        raw.direct_nodes@
    }
}

/// The dependency graph of name-sorted entries: node `i` depends on the
/// positions of the names its `depends_on` lists, in that order.
pub open spec fn dep_graph(s: Seq<(String, Node)>) -> Seq<Seq<usize>> {
    Seq::new(
        s.len(),
        |i: int|
            Seq::new(
                s[i].1.depends_on@.len(),
                |t: int| entry_names(s).index_of(s[i].1.depends_on@[t]@) as usize,
            ),
    )
}

/// A valid configuration: nodes sorted by name, each passing the node and
/// dependency checks, and no dependency cycle.
pub open spec fn config_wf(s: Seq<(String, Node)>) -> bool {
    &&& sorted_strict(entry_names(s))
    &&& forall|i: int| 0 <= i < s.len() ==> entry_ok(#[trigger] s[i].0@, s[i].1)
    &&& forall|i: int| 0 <= i < s.len() ==> deps_ok(entries_map(s), #[trigger] s[i].1)
    &&& acyclic(dep_graph(s))
    &&& adj_in_range(dep_graph(s))
}

impl View for Config {
    type V = Seq<(String, Node)>;

    closed spec fn view(&self) -> Seq<(String, Node)> {
        self.nodes@
    }
}

impl Config {
    #[verifier::type_invariant]
    spec fn inv(self) -> bool {
        &&& config_wf(self.nodes@)
        &&& self.adj@.len() == self.nodes@.len()
        &&& forall|i: int| 0 <= i < self.adj@.len() ==> #[trigger] self.adj@[i]@ == dep_graph(self.nodes@)[i]
    }

    /// The nodes, sorted by name.
    pub fn nodes(&self) -> (res: &Vec<(String, Node)>)
        ensures
            res@ == self@,
            config_wf(self@),
    {
        proof {
            use_type_invariant(self);
        }
        &self.nodes
    }

    /// For each node, in name order, the positions of its dependencies.
    pub(crate) fn dependency_positions(&self) -> (res: &Vec<Vec<usize>>)
        ensures
            res@.len() == self@.len(),
            forall|i: int| 0 <= i < res@.len() ==> #[trigger] res@[i]@ == dep_graph(self@)[i],
    {
        proof {
            use_type_invariant(self);
        }
        &self.adj
    }

    /// The node of the given name.
    pub fn node(&self, name: &str) -> (res: Option<&Node>)
        ensures
            match res {
                Some(n) => exists|i: int|
                    0 <= i < self@.len() && self@[i].0@ == name@ && *n == #[trigger] self@[i].1,
                None => !entry_names(self@).contains(name@),
            },
    {
        proof {
            use_type_invariant(self);
        }
        match find_entry(&self.nodes, name) {
            Some(i) => {
                assert(self@[i as int] == self.nodes@[i as int]);
                Some(&self.nodes[i].1)
            },
            None => None,
        }
    }

    /// Validates a raw configuration.
    #[verifier::loop_isolation(false)]
    pub fn from_raw(raw: RawConfig) -> (res: Result<Config, ConfigError>)
        ensures
            raw.nodes.len() > 0 && raw.direct_nodes.len() > 0 ==> res is Err && res->Err_0
                is MixedNodeStyles,
            !(raw.nodes.len() > 0 && raw.direct_nodes.len() > 0) && selected_nodes(raw).len() == 0
                ==> res is Err && res->Err_0 is NoNodes,
            !(raw.nodes.len() > 0 && raw.direct_nodes.len() > 0) && selected_nodes(raw).len() > 0
                ==> validation_outcome(entries_map(selected_nodes(raw)), res),
    {
        let ghost sel = selected_nodes(raw);
        let selected = match select_nodes(raw) {
            Ok(v) => v,
            Err(e) => {
                return Err(e);
            },
        };
        if selected.len() == 0 {
            return Err(ConfigError::NoNodes);
        }
        let nodes = collect_entries(selected);
        let ghost m = entries_map(sel);
        let ghost names = entry_names(nodes@);
        proof {
            lemma_entries_map_sorted(nodes@);
            assert forall|k: int| 0 <= k < nodes@.len() implies #[trigger] m.contains_key(nodes@[k].0@) && m[nodes@[k].0@] == nodes@[k].1 by {
                assert(entries_map(nodes@).contains_key(nodes@[k].0@));
            }
            assert forall|n: Seq<char>| #[trigger] m.contains_key(n) implies names.contains(n) by {
                assert(entries_map(nodes@).contains_key(n));
            }
        }
        let mut i: usize = 0;
        while i < nodes.len()
            invariant
                i <= nodes.len(),
                forall|k: int| 0 <= k < i ==> entry_ok(#[trigger] nodes@[k].0@, nodes@[k].1),
            decreases nodes.len() - i,
        {
            let r = match validate_node_name(nodes[i].0.as_str()) {
                Ok(()) => validate_node(&nodes[i].0, &nodes[i].1),
                Err(e) => Err(e),
            };
            if let Err(e) = r {
                proof {
                    let n = nodes@[i as int].0@;
                    assert(names[i as int] == n);
                    assert(m.contains_key(n));
                    assert forall|n2: Seq<char>| #[trigger] m.contains_key(n2) && seq_less(n2, n) implies entry_ok(n2, m[n2]) by {
                        let k = choose|k: int| 0 <= k < names.len() && names[k] == n2;
                        lemma_sorted_index_order(names, k, i as int);
                        assert(m.contains_key(nodes@[k].0@));
                    }
                    assert(first_node_fault(m, n));
                    assert(entry_error(e, n, m[n]));
                }
                return Err(e);
            }
            i = i + 1;
        }
        proof {
            assert forall|n: Seq<char>| #[trigger] m.contains_key(n) implies entry_ok(n, m[n]) by {
                let k = choose|k: int| 0 <= k < names.len() && names[k] == n;
                assert(nodes@[k].0@ == n);
                assert(m.contains_key(nodes@[k].0@));
            }
        }
        let adj = match resolve_dependencies(&nodes) {
            Ok(a) => a,
            Err(e) => {
                proof {
                    let k = choose|k: int|
                        0 <= k < nodes@.len() && !deps_ok(entries_map(nodes@), #[trigger] nodes@[k].1)
                            && (forall|j: int| 0 <= j < k ==> deps_ok(entries_map(nodes@), #[trigger] nodes@[j].1))
                            && dep_error(e, entries_map(nodes@), nodes@[k].0@, nodes@[k].1);
                    let n = nodes@[k].0@;
                    assert(m.contains_key(n));
                    assert forall|n2: Seq<char>| #[trigger] m.contains_key(n2) && seq_less(n2, n) implies deps_ok(m, m[n2]) by {
                        let q = choose|q: int| 0 <= q < names.len() && names[q] == n2;
                        lemma_sorted_index_order(names, q, k);
                        assert(m.contains_key(nodes@[q].0@));
                    }
                    assert(first_dep_fault(m, n));
                }
                return Err(e);
            },
        };
        proof {
            assert forall|n: Seq<char>| #[trigger] m.contains_key(n) implies deps_ok(m, m[n]) by {
                let k = choose|k: int| 0 <= k < names.len() && names[k] == n;
                assert(nodes@[k].0@ == n);
                assert(m.contains_key(nodes@[k].0@));
            }
            lemma_dep_graph_facts(nodes@);
        }
        match validate_acyclic(&nodes, &adj) {
            Ok(()) => {},
            Err(cycle) => {
                return Err(ConfigError::DependencyCycle { cycle });
            },
        }
        proof {
            assert forall|c: Seq<Seq<char>>| !#[trigger] is_name_cycle(m, c) by {
                lemma_name_cycle_to_index(nodes@, c);
            }
        }
        Ok(Config { nodes, adj })
    }
}

// ------------------------------------------------------------------
// Checks
// ------------------------------------------------------------------

fn select_nodes(raw: RawConfig) -> (res: Result<Vec<(String, Node)>, ConfigError>)
    ensures
        raw.nodes.len() > 0 && raw.direct_nodes.len() > 0 ==> res is Err && res->Err_0
            is MixedNodeStyles,
        !(raw.nodes.len() > 0 && raw.direct_nodes.len() > 0) ==> res is Ok && res->Ok_0@
            == selected_nodes(raw),
{
    let RawConfig { nodes, direct_nodes } = raw;
    if nodes.len() > 0 && direct_nodes.len() > 0 {
        Err(ConfigError::MixedNodeStyles)
    } else if nodes.len() > 0 {
        Ok(nodes)
    } else {
        Ok(direct_nodes)
    }
}

fn validate_node_name(name: &str) -> (res: Result<(), ConfigError>)
    ensures
        res is Ok <==> !is_blank(name@),
        res matches Err(e) ==> e is EmptyNodeName,
{
    if blank(name) {
        return Err(ConfigError::EmptyNodeName);
    }
    Ok(())
}

/// The checks of `node_ok`, reporting the first failure under the node's
/// name.
fn validate_node(name: &String, node: &Node) -> (res: Result<(), ConfigError>)
    ensures
        res is Ok <==> node_ok(*node),
        res matches Err(e) ==> node_error(e, name@, *node),
{
    if node.command.len() == 0 {
        return Err(ConfigError::EmptyCommand { node: name.clone() });
    }
    let mut k: usize = 0;
    while k < node.command.len()
        invariant
            k <= node.command.len(),
            node.command.len() > 0,
            forall|j: int| 0 <= j < k ==> !is_blank(#[trigger] node.command@[j]@),
        decreases node.command.len() - k,
    {
        if blank(node.command[k].as_str()) {
            assert(is_blank(node.command@[k as int]@));
            return Err(ConfigError::EmptyArgument { node: name.clone() });
        }
        k = k + 1;
    }
    let mut k: usize = 0;
    while k < node.paths.len()
        invariant
            k <= node.paths.len(),
            node.command.len() > 0,
            forall|j: int| 0 <= j < node.command.len() ==> !is_blank(#[trigger] node.command@[j]@),
            forall|j: int| 0 <= j < k ==> pattern_ok(#[trigger] node.paths@[j]@),
        decreases node.paths.len() - k,
    {
        let pattern = &node.paths[k];
        if blank(pattern.as_str()) {
            proof {
                assert(!pattern_ok(node.paths@[k as int]@));
            }
            return Err(ConfigError::EmptyPathPattern { node: name.clone() });
        }
        match build_glob(pattern.as_str()) {
            Ok(_) => {},
            Err(_) => {
                proof {
                    assert(!pattern_ok(node.paths@[k as int]@));
                }
                return Err(ConfigError::InvalidGlob { node: name.clone(), pattern: pattern.clone() });
            },
        }
        k = k + 1;
    }
    Ok(())
}

/// The position of the entry of the given name.
fn find_entry(entries: &Vec<(String, Node)>, name: &str) -> (res: Option<usize>)
    ensures
        match res {
            Some(i) => i < entries.len() && entries@[i as int].0@ == name@,
            None => !entry_names(entries@).contains(name@),
        },
{
    let mut i: usize = 0;
    while i < entries.len()
        invariant
            i <= entries.len(),
            forall|k: int| 0 <= k < i ==> entries@[k].0@ != name@,
        decreases entries.len() - i,
    {
        if str_eq(entries[i].0.as_str(), name) {
            return Some(i);
        }
        i = i + 1;
    }
    proof {
        if entry_names(entries@).contains(name@) {
            let k = choose|k: int| 0 <= k < entry_names(entries@).len() && entry_names(entries@)[k] == name@;
            assert(entries@[k].0@ == name@);
        }
    }
    None
}

/// Checks that every dependency names a node and that no node lists a
/// dependency twice, and resolves each dependency to its node's position.
fn resolve_dependencies(nodes: &Vec<(String, Node)>) -> (res: Result<Vec<Vec<usize>>, ConfigError>)
    requires
        sorted_strict(entry_names(nodes@)),
    ensures
        match res {
            Ok(adj) => {
                &&& forall|i: int| 0 <= i < nodes@.len() ==> deps_ok(entries_map(nodes@), #[trigger] nodes@[i].1)
                &&& adj@.len() == nodes@.len()
                &&& forall|i: int| 0 <= i < adj@.len() ==> #[trigger] adj@[i]@ == dep_graph(nodes@)[i]
            },
            Err(e) => exists|i: int|
                0 <= i < nodes@.len() && !deps_ok(entries_map(nodes@), #[trigger] nodes@[i].1)
                    && (forall|j: int| 0 <= j < i ==> deps_ok(entries_map(nodes@), #[trigger] nodes@[j].1))
                    && dep_error(e, entries_map(nodes@), nodes@[i].0@, nodes@[i].1),
        },
{
    let ghost m = entries_map(nodes@);
    let ghost names = entry_names(nodes@);
    proof {
        lemma_entries_map_sorted(nodes@);
    }
    let mut adj: Vec<Vec<usize>> = Vec::new();
    let mut i: usize = 0;
    while i < nodes.len()
        invariant
            i <= nodes.len(),
            m == entries_map(nodes@),
            names == entry_names(nodes@),
            sorted_strict(names),
            forall|k: int| 0 <= k < nodes@.len() ==> #[trigger] m.contains_key(nodes@[k].0@) && m[nodes@[k].0@] == nodes@[k].1,
            forall|n: Seq<char>| #[trigger] m.contains_key(n) ==> names.contains(n),
            adj@.len() == i,
            forall|k: int| 0 <= k < i ==> deps_ok(m, #[trigger] nodes@[k].1),
            forall|k: int| 0 <= k < i ==> #[trigger] adj@[k]@ == dep_graph(nodes@)[k],
        decreases nodes.len() - i,
    {
        let deps = &nodes[i].1.depends_on;
        let mut row: Vec<usize> = Vec::new();
        let mut k: usize = 0;
        while k < deps.len()
            invariant
                k <= deps.len(),
                deps == nodes@[i as int].1.depends_on,
                i < nodes.len(),
                m == entries_map(nodes@),
                names == entry_names(nodes@),
                sorted_strict(names),
                forall|q: int| 0 <= q < nodes@.len() ==> #[trigger] m.contains_key(nodes@[q].0@) && m[nodes@[q].0@] == nodes@[q].1,
                forall|n: Seq<char>| #[trigger] m.contains_key(n) ==> names.contains(n),
                forall|q: int| 0 <= q < i ==> deps_ok(m, #[trigger] nodes@[q].1),
                row@.len() == k,
                forall|j: int| 0 <= j < k ==> !#[trigger] dep_fault_at(m, nodes@[i as int].1, j),
                forall|j: int| 0 <= j < k ==> #[trigger] row@[j] == dep_graph(nodes@)[i as int][j],
            decreases deps.len() - k,
        {
            let dep = &deps[k];
            let ghost node = nodes@[i as int].1;
            match find_entry(nodes, dep.as_str()) {
                None => {
                    proof {
                        if m.contains_key(dep@) {
                            assert(names.contains(dep@));
                        }
                        assert(dep_fault_at(m, node, k as int));
                    }
                    let e = ConfigError::UnknownDependency { node: nodes[i].0.clone(), dependency: dep.clone() };
                    proof {
                        assert(dep_error(e, m, nodes@[i as int].0@, node));
                    }
                    return Err(e);
                },
                Some(pos) => {
                    proof {
                        assert(m.contains_key(nodes@[pos as int].0@));
                    }
                    if listed_before(deps, k, dep.as_str()) {
                        proof {
                            assert(dep_fault_at(m, node, k as int));
                        }
                        let e = ConfigError::DuplicateDependency { node: nodes[i].0.clone(), dependency: dep.clone() };
                        proof {
                            assert(dep_error(e, m, nodes@[i as int].0@, node));
                        }
                        return Err(e);
                    }
                    proof {
                        assert(!dep_fault_at(m, node, k as int));
                        assert(names[pos as int] == dep@);
                        lemma_index_of_sorted(names, pos as int);
                    }
                    row.push(pos);
                },
            }
            k = k + 1;
        }
        proof {
            assert(row@ =~= dep_graph(nodes@)[i as int]);
        }
        adj.push(row);
        i = i + 1;
    }
    Ok(adj)
}

// ------------------------------------------------------------------
// Cycle detection
// ------------------------------------------------------------------

#[derive(Clone, Copy, Debug, PartialEq, Eq, Structural)]
enum VisitState {
    Visiting,
    Visited,
}

/// The state of a depth-first search: the nodes on `stack` are being
/// visited and form a walk; the nodes of `finish` are done, listed so that
/// dependencies come first.
spec fn dfs_inv(g: Seq<Seq<usize>>, states: Seq<Option<VisitState>>, stack: Seq<usize>, finish: Seq<int>) -> bool {
    &&& states.len() == g.len()
    &&& forall|k: int| 0 <= k < g.len() ==> (#[trigger] states[k] == Some(VisitState::Visiting) <==> stack.contains(k as usize))
    &&& forall|k: int| 0 <= k < g.len() ==> (#[trigger] states[k] == Some(VisitState::Visited) <==> finish.contains(k))
    &&& forall|t: int| 0 <= t < stack.len() ==> #[trigger] stack[t] < g.len()
    &&& stack.no_duplicates()
    &&& stack.len() > 0 ==> is_walk(g, ints(stack))
    &&& forall|t: int| 0 <= t < finish.len() ==> 0 <= #[trigger] finish[t] < g.len()
    &&& finish.no_duplicates()
    &&& finished_before(g, finish)
}

/// Where a depth-first cycle search stands: the nodes finished so far,
/// each after its dependencies, or the cycle it met.
pub enum CycleSearch {
    Done(Seq<int>),
    Found(Seq<int>),
}

/// Depth-first cycle search from node `i`, with `fin` finished and `path`
/// the nodes being visited. A finished node is skipped; a node on the
/// path closes a cycle, reported as the path from that node on, followed
/// by it again; any other node is visited through its dependencies in the
/// order they are listed, then finished. `fuel` bounds the depth.
pub open spec fn cycle_visit(g: Seq<Seq<usize>>, fin: Seq<int>, path: Seq<int>, i: int, fuel: nat) -> CycleSearch
    decreases fuel, 0int, 0int,
{
    if fin.contains(i) {
        CycleSearch::Done(fin)
    } else if path.contains(i) {
        CycleSearch::Found(path.subrange(path.index_of(i), path.len() as int).push(i))
    } else if fuel == 0 {
        CycleSearch::Done(fin)
    } else {
        match cycle_visit_deps(g, fin, path.push(i), i, g[i].len() as int, (fuel - 1) as nat) {
            CycleSearch::Done(f) => CycleSearch::Done(f.push(i)),
            CycleSearch::Found(c) => CycleSearch::Found(c),
        }
    }
}

/// The cycle search through the first `t` dependencies of node `i`, one
/// after the other, stopping at the first cycle met.
pub open spec fn cycle_visit_deps(g: Seq<Seq<usize>>, fin: Seq<int>, path: Seq<int>, i: int, t: int, fuel: nat) -> CycleSearch
    decreases fuel, 1int, t,
{
    if t <= 0 {
        CycleSearch::Done(fin)
    } else {
        match cycle_visit_deps(g, fin, path, i, t - 1, fuel) {
            CycleSearch::Done(f) => cycle_visit(g, f, path, g[i][t - 1] as int, fuel),
            CycleSearch::Found(c) => CycleSearch::Found(c),
        }
    }
}

/// The cycle search started from each of the first `k` nodes in order.
pub open spec fn cycle_search(g: Seq<Seq<usize>>, k: int) -> CycleSearch
    decreases k,
{
    if k <= 0 {
        CycleSearch::Done(Seq::empty())
    } else {
        match cycle_search(g, k - 1) {
            CycleSearch::Done(f) => cycle_visit(g, f, Seq::empty(), k - 1, g.len()),
            CycleSearch::Found(c) => CycleSearch::Found(c),
        }
    }
}

/// The cycle that the search over the name-sorted entries `s` reports, by
/// name.
pub open spec fn reported_cycle(s: Seq<(String, Node)>, cycle: Seq<Seq<char>>) -> bool {
    cycle_search(dep_graph(s), s.len() as int) matches CycleSearch::Found(p) && cycle == names_at(s, p)
}

/// Once the search through dependencies met a cycle, it reports that cycle.
proof fn lemma_found_persists(g: Seq<Seq<usize>>, fin: Seq<int>, path: Seq<int>, i: int, t: int, t2: int, fuel: nat, c: Seq<int>)
    requires
        t <= t2,
        cycle_visit_deps(g, fin, path, i, t, fuel) == CycleSearch::Found(c),
    ensures
        cycle_visit_deps(g, fin, path, i, t2, fuel) == CycleSearch::Found(c),
    decreases t2 - t,
{
    if t < t2 {
        lemma_found_persists(g, fin, path, i, t, t2 - 1, fuel, c);
    }
}

/// Once the search over the nodes met a cycle, it reports that cycle.
proof fn lemma_search_found_persists(g: Seq<Seq<usize>>, k: int, k2: int, c: Seq<int>)
    requires
        k <= k2,
        cycle_search(g, k) == CycleSearch::Found(c),
    ensures
        cycle_search(g, k2) == CycleSearch::Found(c),
    decreases k2 - k,
{
    if k < k2 {
        lemma_search_found_persists(g, k, k2 - 1, c);
    }
}

/// Every dependency of a finished node is finished.
pub open spec fn closed_under_deps(g: Seq<Seq<usize>>, fin: Seq<int>) -> bool {
    forall|a: int, j: int| 0 <= a < fin.len() && #[trigger] edge(g, fin[a], j) ==> fin.contains(j)
}

/// What a cycle visit starts from: finished nodes closed under
/// dependencies, and a path of distinct nodes, none of them finished.
pub open spec fn visit_start(g: Seq<Seq<usize>>, fin: Seq<int>, path: Seq<int>) -> bool {
    &&& g.len() <= usize::MAX
    &&& adj_in_range(g)
    &&& closed_under_deps(g, fin)
    &&& path.no_duplicates()
    &&& path.len() <= g.len()
    &&& forall|t: int| 0 <= t < path.len() ==> 0 <= #[trigger] path[t] < g.len()
    &&& forall|x: int| !(fin.contains(x) && path.contains(x))
}

/// `f` keeps `fin` as its beginning.
pub open spec fn extends(fin: Seq<int>, f: Seq<int>) -> bool {
    fin.len() <= f.len() && f.take(fin.len() as int) == fin
}

proof fn lemma_extends_contains(fin: Seq<int>, f: Seq<int>, x: int)
    requires
        extends(fin, f),
        fin.contains(x),
    ensures
        f.contains(x),
{
    let w = choose|w: int| 0 <= w < fin.len() && fin[w] == x;
    assert(f.take(fin.len() as int)[w] == f[w]);
}

/// Whatever a finished node reaches is finished, when the finished nodes
/// are closed under dependencies.
proof fn lemma_closed_reach(g: Seq<Seq<usize>>, fin: Seq<int>, i: int, j: int)
    requires
        closed_under_deps(g, fin),
        fin.contains(i),
        reaches(g, i, j),
    ensures
        fin.contains(j),
{
    let p = choose|p: Seq<int>| is_walk(g, p) && p[0] == i && p.last() == j;
    lemma_closed_walk(g, fin, p, p.len() - 1);
}

proof fn lemma_closed_walk(g: Seq<Seq<usize>>, fin: Seq<int>, p: Seq<int>, u: int)
    requires
        closed_under_deps(g, fin),
        is_walk(g, p),
        fin.contains(p[0]),
        0 <= u < p.len(),
    ensures
        fin.contains(p[u]),
    decreases u,
{
    if u > 0 {
        lemma_closed_walk(g, fin, p, u - 1);
        assert(edge(g, p[u - 1], p[u]));
        let a = choose|a: int| 0 <= a < fin.len() && fin[a] == p[u - 1];
        assert(edge(g, fin[a], p[u]));
    }
}

/// A node reaches another node through one of its dependencies, or is it.
proof fn lemma_reach_split(g: Seq<Seq<usize>>, i: int, j: int)
    requires
        g.len() <= usize::MAX,
        reaches(g, i, j),
        i != j,
    ensures
        exists|q: int| 0 <= q < g[i].len() && reaches(g, #[trigger] g[i][q] as int, j),
{
    let p = choose|p: Seq<int>| is_walk(g, p) && p[0] == i && p.last() == j;
    assert(p.len() >= 2);
    assert(edge(g, p[0], p[1]));
    assert(0 <= p[1] < g.len());
    assert(g[i].contains(p[1] as usize));
    let q = choose|q: int| 0 <= q < g[i].len() && g[i][q] == p[1] as usize;
    assert(g[i][q] as int == p[1]);
    let r = p.drop_first();
    assert forall|t: int| #![trigger r[t]] 0 <= t < r.len() - 1 implies edge(g, r[t], r[t + 1]) by {
        assert(r[t] == p[t + 1] && r[t + 1] == p[t + 2]);
    }
    assert(is_walk(g, r));
    assert(r[0] == g[i][q] as int);
    assert(r.last() == j);
}

/// Pushing a node not on a path of distinct nodes gives distinct nodes.
proof fn lemma_push_distinct(g: Seq<Seq<usize>>, path: Seq<int>, i: int)
    requires
        path.no_duplicates(),
        forall|t: int| 0 <= t < path.len() ==> 0 <= #[trigger] path[t] < g.len(),
        !path.contains(i),
        0 <= i < g.len(),
    ensures
        path.push(i).no_duplicates(),
        forall|t: int| 0 <= t < path.push(i).len() ==> 0 <= #[trigger] path.push(i)[t] < g.len(),
{
    let p2 = path.push(i);
    assert forall|a: int, b: int| 0 <= a < p2.len() && 0 <= b < p2.len() && a != b implies p2[a] != p2[b] by {
        if a < path.len() && b < path.len() {
            assert(path[a] != path[b]);
        } else if a < path.len() {
            assert(path.contains(path[a]));
        } else if b < path.len() {
            assert(path.contains(path[b]));
        }
    }
    assert forall|t: int| 0 <= t < p2.len() implies 0 <= #[trigger] p2[t] < g.len() by {
        if t < path.len() {
            assert(p2[t] == path[t]);
        }
    }
}

/// A cycle visit that ends without a cycle: it keeps the nodes finished
/// before, finishes everything `i` reaches and nothing else, and leaves the
/// finished nodes closed and apart from the path.
proof fn lemma_visit_done(g: Seq<Seq<usize>>, fin: Seq<int>, path: Seq<int>, i: int, fuel: nat, f: Seq<int>)
    requires
        visit_start(g, fin, path),
        0 <= i < g.len(),
        fuel == g.len() - path.len(),
        cycle_visit(g, fin, path, i, fuel) == CycleSearch::Done(f),
    ensures
        extends(fin, f),
        forall|j: int| #[trigger] reaches(g, i, j) ==> f.contains(j),
        forall|t: int| fin.len() <= t < f.len() ==> reaches(g, i, #[trigger] f[t]),
        visit_start(g, f, path),
    decreases fuel, 0int, 0int,
{
    assert(fin.take(fin.len() as int) =~= fin);
    if fin.contains(i) {
        assert forall|j: int| #[trigger] reaches(g, i, j) implies f.contains(j) by {
            lemma_closed_reach(g, fin, i, j);
        }
    } else if path.contains(i) {
    } else if fuel == 0 {
        let p2 = path.push(i);
        lemma_push_distinct(g, path, i);
        lemma_distinct_bounded_ints(p2, g.len() as int);
    } else {
        let p2 = path.push(i);
        let n = g[i].len() as int;
        let inner = cycle_visit_deps(g, fin, p2, i, n, (fuel - 1) as nat);
        let f0 = inner->Done_0;
        assert(inner is Done);
        assert(f == f0.push(i));
        lemma_push_distinct(g, path, i);
        lemma_distinct_bounded_ints(p2, g.len() as int);
        assert forall|x: int| !(fin.contains(x) && p2.contains(x)) by {
            if p2.contains(x) && x != i {
                let w = choose|w: int| 0 <= w < p2.len() && p2[w] == x;
                assert(path[w] == x);
            }
        }
        assert(visit_start(g, fin, p2));
        lemma_deps_done(g, fin, p2, i, n, (fuel - 1) as nat, f0);
        assert(p2.contains(i)) by {
            assert(p2[path.len() as int] == i);
        }
        assert(!f0.contains(i));
        assert(extends(fin, f)) by {
            assert forall|w: int| 0 <= w < fin.len() implies f.take(fin.len() as int)[w] == fin[w] by {
                assert(f0.take(fin.len() as int)[w] == fin[w]);
            }
            assert(f.take(fin.len() as int) =~= fin);
        }
        assert forall|j: int| #[trigger] reaches(g, i, j) implies f.contains(j) by {
            if j == i {
                assert(f[f0.len() as int] == i);
            } else {
                lemma_reach_split(g, i, j);
                let q = choose|q: int| 0 <= q < g[i].len() && reaches(g, #[trigger] g[i][q] as int, j);
                assert(f0.contains(j));
                let w = choose|w: int| 0 <= w < f0.len() && f0[w] == j;
                assert(f[w] == j);
            }
        }
        assert forall|t: int| fin.len() <= t < f.len() implies reaches(g, i, #[trigger] f[t]) by {
            if t < f0.len() {
                assert(f[t] == f0[t]);
                let q = choose|q: int| 0 <= q < n && reaches(g, #[trigger] g[i][q] as int, f0[t]);
                assert(g[i].contains(g[i][q]));
                lemma_reaches_prepend(g, i, g[i][q] as int, f0[t]);
            } else {
                lemma_reaches_self(g, i);
            }
        }
        assert(closed_under_deps(g, f)) by {
            assert forall|a: int, j: int| 0 <= a < f.len() && #[trigger] edge(g, f[a], j) implies f.contains(j) by {
                if a < f0.len() {
                    assert(f[a] == f0[a]);
                    assert(f0.contains(j));
                } else {
                    assert(f[a] == i);
                    let q = choose|q: int| 0 <= q < g[i].len() && g[i][q] == j as usize;
                    lemma_reaches_self(g, j);
                    assert(g[i][q] as int == j);
                    assert(reaches(g, g[i][q] as int, j));
                    assert(f0.contains(j));
                }
                let w = choose|w: int| 0 <= w < f0.len() && f0[w] == j;
                assert(f[w] == j);
            }
        }
        assert forall|x: int| !(f.contains(x) && path.contains(x)) by {
            if f.contains(x) && path.contains(x) {
                let w = choose|w: int| 0 <= w < f.len() && f[w] == x;
                let v = choose|v: int| 0 <= v < path.len() && path[v] == x;
                assert(p2[v] == x);
                assert(p2.contains(x));
                if w < f0.len() {
                    assert(f0[w] == x);
                    assert(f0.contains(x));
                    assert(!(f0.contains(x) && p2.contains(x)));
                } else {
                    assert(x == i);
                }
            }
        }
    }
}

/// The cycle search through the first `t` dependencies of `i`, ending
/// without a cycle: it keeps the nodes finished before and finishes
/// everything those dependencies reach, and only that.
proof fn lemma_deps_done(g: Seq<Seq<usize>>, fin: Seq<int>, path: Seq<int>, i: int, t: int, fuel: nat, f: Seq<int>)
    requires
        visit_start(g, fin, path),
        0 <= i < g.len(),
        0 <= t <= g[i].len(),
        fuel == g.len() - path.len(),
        cycle_visit_deps(g, fin, path, i, t, fuel) == CycleSearch::Done(f),
    ensures
        extends(fin, f),
        forall|q: int, j: int| 0 <= q < t && #[trigger] reaches(g, g[i][q] as int, j) ==> f.contains(j),
        forall|u: int| #![trigger f[u]] fin.len() <= u < f.len() ==> exists|q: int| 0 <= q < t && reaches(g, #[trigger] g[i][q] as int, f[u]),
        visit_start(g, f, path),
    decreases fuel, 1int, t,
{
    assert(fin.take(fin.len() as int) =~= fin);
    if t > 0 {
        let prev = cycle_visit_deps(g, fin, path, i, t - 1, fuel);
        assert(prev is Done);
        let f1 = prev->Done_0;
        lemma_deps_done(g, fin, path, i, t - 1, fuel, f1);
        let c = g[i][t - 1] as int;
        assert(g[i][t - 1] < g.len());
        lemma_visit_done(g, f1, path, c, fuel, f);
        assert(extends(fin, f)) by {
            assert forall|w: int| 0 <= w < fin.len() implies f.take(fin.len() as int)[w] == fin[w] by {
                assert(f1.take(fin.len() as int)[w] == fin[w]);
                assert(f.take(f1.len() as int)[w] == f1[w]);
            }
            assert(f.take(fin.len() as int) =~= fin);
        }
        assert forall|q: int, j: int| 0 <= q < t && #[trigger] reaches(g, g[i][q] as int, j) implies f.contains(j) by {
            if q < t - 1 {
                lemma_extends_contains(f1, f, j);
            }
        }
        assert forall|u: int| #![trigger f[u]] fin.len() <= u < f.len() implies exists|q: int| 0 <= q < t && reaches(g, #[trigger] g[i][q] as int, f[u]) by {
            if u < f1.len() {
                assert(f.take(f1.len() as int)[u] == f1[u]);
                let q = choose|q: int| 0 <= q < t - 1 && reaches(g, #[trigger] g[i][q] as int, f1[u]);
                assert(reaches(g, g[i][q] as int, f[u]));
            } else {
                assert(reaches(g, g[i][t - 1] as int, f[u]));
            }
        }
    }
}

/// Law: a cycle visit of node `i` that ends without meeting a cycle keeps
/// the nodes finished before it in place, finishes every node that `i`
/// reaches through its dependencies (`i` included), and finishes no other
/// node; the path it started from is left as it was. It starts from
/// finished nodes closed under dependencies and a path of distinct nodes
/// none of which is finished, as the search does.
pub proof fn law_cycle_visit_finishes_reachable(g: Seq<Seq<usize>>, fin: Seq<int>, path: Seq<int>, i: int, f: Seq<int>)
    requires
        visit_start(g, fin, path),
        0 <= i < g.len(),
        cycle_visit(g, fin, path, i, (g.len() - path.len()) as nat) == CycleSearch::Done(f),
    ensures
        extends(fin, f),
        forall|j: int| #[trigger] reaches(g, i, j) ==> f.contains(j),
        forall|t: int| fin.len() <= t < f.len() ==> reaches(g, i, #[trigger] f[t]),
        closed_under_deps(g, f),
{
    lemma_visit_done(g, fin, path, i, (g.len() - path.len()) as nat, f);
}

/// The names at the given positions.
pub open spec fn names_at(s: Seq<(String, Node)>, p: Seq<int>) -> Seq<Seq<char>> {
    p.map_values(|x: int| s[x].0@)
}

/// Facts about the dependency graph of checked entries.
pub proof fn lemma_dep_graph_facts(s: Seq<(String, Node)>)
    requires
        s.len() <= usize::MAX,
        sorted_strict(entry_names(s)),
        forall|i: int| 0 <= i < s.len() ==> deps_ok(entries_map(s), #[trigger] s[i].1),
    ensures
        adj_in_range(dep_graph(s)),
        forall|i: int, j: int|
            0 <= i < s.len() && 0 <= j < s.len() ==> (#[trigger] edge(dep_graph(s), i, j) <==> views(
                s[i].1.depends_on@,
            ).contains(s[j].0@)),
{
    let g = dep_graph(s);
    let names = entry_names(s);
    lemma_entries_map_sorted(s);
    assert forall|i: int, t: int| 0 <= i < g.len() && 0 <= t < g[i].len() implies #[trigger] g[i][t] < g.len() by {
        let d = s[i].1.depends_on@[t]@;
        assert(!dep_fault_at(entries_map(s), s[i].1, t));
        assert(names.contains(d));
    }
    assert forall|i: int, j: int| 0 <= i < s.len() && 0 <= j < s.len() implies (#[trigger] edge(g, i, j) <==> views(
        s[i].1.depends_on@,
    ).contains(s[j].0@)) by {
        let deps = s[i].1.depends_on@;
        if edge(g, i, j) {
            let t = choose|t: int| 0 <= t < g[i].len() && g[i][t] == j as usize;
            let d = deps[t]@;
            assert(!dep_fault_at(entries_map(s), s[i].1, t));
            assert(names.contains(d));
            assert(names[names.index_of(d)] == d);
            assert(views(deps)[t] == d);
        }
        if views(deps).contains(s[j].0@) {
            let t = choose|t: int| 0 <= t < views(deps).len() && views(deps)[t] == s[j].0@;
            assert(names[j] == s[j].0@);
            lemma_index_of_sorted(names, j);
            assert(g[i][t] == j as usize);
        }
    }
}

/// A cycle of positions names a cycle of names.
proof fn lemma_index_cycle_to_names(s: Seq<(String, Node)>, p: Seq<int>)
    requires
        s.len() <= usize::MAX,
        sorted_strict(entry_names(s)),
        forall|i: int| 0 <= i < s.len() ==> deps_ok(entries_map(s), #[trigger] s[i].1),
        is_cycle(dep_graph(s), p),
    ensures
        is_name_cycle(entries_map(s), names_at(s, p)),
{
    lemma_dep_graph_facts(s);
    lemma_entries_map_sorted(s);
    let m = entries_map(s);
    let c = names_at(s, p);
    assert forall|t: int| 0 <= t < c.len() implies m.contains_key(#[trigger] c[t]) by {
        assert(0 <= p[t] < s.len());
    }
    assert forall|t: int| #![trigger c[t]] 0 <= t < c.len() - 1 implies views(m[c[t]].depends_on@).contains(c[t + 1]) by {
        assert(edge(dep_graph(s), p[t], p[t + 1]));
        assert(0 <= p[t] < s.len());
    }
}

/// With no cycle of positions there is no cycle of names.
proof fn lemma_name_cycle_to_index(s: Seq<(String, Node)>, c: Seq<Seq<char>>)
    requires
        s.len() <= usize::MAX,
        sorted_strict(entry_names(s)),
        forall|i: int| 0 <= i < s.len() ==> deps_ok(entries_map(s), #[trigger] s[i].1),
        acyclic(dep_graph(s)),
    ensures
        !is_name_cycle(entries_map(s), c),
{
    if is_name_cycle(entries_map(s), c) {
        lemma_dep_graph_facts(s);
        lemma_entries_map_sorted(s);
        let names = entry_names(s);
        let m = entries_map(s);
        let p = c.map_values(|x: Seq<char>| names.index_of(x));
        assert forall|t: int| 0 <= t < c.len() implies #[trigger] names.contains(c[t]) && names[p[t]] == c[t] && 0 <= p[t] < s.len() by {
            assert(m.contains_key(c[t]));
        }
        assert forall|t: int| #![trigger p[t]] 0 <= t < p.len() - 1 implies edge(dep_graph(s), p[t], p[t + 1]) by {
            assert(names.contains(c[t]));
            assert(names.contains(c[t + 1]));
            assert(names[p[t]] == c[t]);
            assert(names[p[t + 1]] == c[t + 1]);
            assert(s[p[t]].0@ == c[t]);
            assert(m[c[t]] == s[p[t]].1);
        }
        assert forall|t: int| 0 <= t < p.len() implies 0 <= #[trigger] p[t] < dep_graph(s).len() by {
            assert(names.contains(c[t]));
        }
        assert(is_cycle(dep_graph(s), p));
    }
}

/// Depth-first search from node `i`; reports the first cycle it meets.
fn visit_for_cycle(
    i: usize,
    nodes: &Vec<(String, Node)>,
    adj: &Vec<Vec<usize>>,
    states: &mut Vec<Option<VisitState>>,
    stack: &mut Vec<usize>,
    Ghost(g): Ghost<Seq<Seq<usize>>>,
    Ghost(finish): Ghost<Seq<int>>,
) -> (res: (Result<(), Vec<String>>, Ghost<Seq<int>>))
    requires
        g == dep_graph(nodes@),
        adj_in_range(g),
        adj@.len() == g.len(),
        forall|k: int| 0 <= k < g.len() ==> #[trigger] adj@[k]@ == g[k],
        nodes@.len() == g.len(),
        g.len() <= usize::MAX,
        dfs_inv(g, old(states)@, old(stack)@, finish),
        i < g.len(),
        old(stack)@.len() > 0 ==> edge(g, old(stack)@.last() as int, i as int),
    ensures
        match res.0 {
            Ok(()) => {
                &&& dfs_inv(g, final(states)@, final(stack)@, res.1@)
                &&& final(stack)@ == old(stack)@
                &&& res.1@.contains(i as int)
                &&& finish == res.1@.take(finish.len() as int)
                &&& finish.len() <= res.1@.len()
            },
            Err(cycle) => exists|p: Seq<int>| is_cycle(g, p) && views(cycle@) == names_at(nodes@, p),
        },
        match res.0 {
            Ok(()) => cycle_visit(g, finish, ints(old(stack)@), i as int, (g.len() - old(stack)@.len()) as nat)
                == CycleSearch::Done(res.1@),
            Err(cycle) => cycle_visit(g, finish, ints(old(stack)@), i as int, (g.len() - old(stack)@.len()) as nat)
                matches CycleSearch::Found(p) && views(cycle@) == names_at(nodes@, p),
        },
    decreases g.len() - old(stack)@.len(),
{
    match states[i] {
        Some(VisitState::Visited) => {
            assert(finish.take(finish.len() as int) =~= finish);
            assert(finish.contains(i as int));
            return (Ok(()), Ghost(finish));
        },
        Some(VisitState::Visiting) => {
            let mut start: usize = 0;
            while start < stack.len() && stack[start] != i
                invariant
                    start <= stack.len(),
                    forall|t: int| 0 <= t < start ==> stack@[t] != i,
                decreases stack.len() - start,
            {
                start = start + 1;
            }
            assert(stack@.contains(i));
            assert(start < stack.len());
            let mut cycle: Vec<String> = Vec::new();
            let mut t: usize = start;
            while t < stack.len()
                invariant
                    start <= t <= stack.len(),
                    forall|q: int| 0 <= q < stack@.len() ==> #[trigger] stack@[q] < g.len(),
                    nodes@.len() == g.len(),
                    cycle@.len() == t - start,
                    forall|q: int| 0 <= q < cycle@.len() ==> #[trigger] cycle@[q]@ == nodes@[stack@[start + q] as int].0@,
                decreases stack.len() - t,
            {
                let x = stack[t];
                cycle.push(nodes[x].0.clone());
                t = t + 1;
            }
            cycle.push(nodes[i].0.clone());
            proof {
                let p = ints(stack@);
                assert(p[start as int] == i as int);
                assert(p.last() == stack@.last() as int);
                lemma_back_edge_cycle(g, p, start as int);
                let c = p.subrange(start as int, p.len() as int).push(p[start as int]);
                assert(!finish.contains(i as int));
                assert(p.contains(i as int));
                let k = p.index_of(i as int);
                assert(p[k] == i as int);
                assert(stack@[k] == stack@[start as int]);
                assert(k == start as int);
                assert forall|q: int| 0 <= q < c.len() implies #[trigger] views(cycle@)[q] == names_at(nodes@, c)[q] by {
                    if q < c.len() - 1 {
                        assert(c[q] == stack@[start + q] as int);
                    }
                }
                assert(views(cycle@) =~= names_at(nodes@, c));
            }
            return (Err(cycle), Ghost(finish));
        },
        None => {},
    }
    proof {
        assert(!stack@.contains(i));
        assert(forall|t: int| 0 <= t < stack@.len() ==> #[trigger] stack@[t] < g.len());
        lemma_distinct_bounded(stack@.push(i), g.len() as int);
    }
    let ghost old_stack = stack@;
    let ghost old_states = states@;
    states.set(i, Some(VisitState::Visiting));
    stack.push(i);
    proof {
        assert(ints(stack@) =~= ints(old_stack).push(i as int));
        if old_stack.len() > 0 {
            crate::deps::lemma_walk_push(g, ints(old_stack), i as int);
            assert(ints(old_stack).last() == old_stack.last() as int);
        } else {
            assert(is_walk(g, ints(stack@)));
        }
        assert forall|k: int| 0 <= k < g.len() implies (#[trigger] states@[k] == Some(VisitState::Visiting) <==> stack@.contains(k as usize)) by {
            if k == i {
                assert(stack@[old_stack.len() as int] == i);
            } else {
                assert(states@[k] == old_states[k]);
                if old_stack.contains(k as usize) {
                    let w = choose|w: int| 0 <= w < old_stack.len() && old_stack[w] == k as usize;
                    assert(stack@[w] == k as usize);
                }
                if stack@.contains(k as usize) {
                    let w = choose|w: int| 0 <= w < stack@.len() && stack@[w] == k as usize;
                    assert(stack@[old_stack.len() as int] == i);
                    assert(w < old_stack.len());
                    assert(old_stack[w] == k as usize);
                }
            }
        }
        assert forall|k: int| 0 <= k < g.len() implies (#[trigger] states@[k] == Some(VisitState::Visited) <==> finish.contains(k)) by {
            if k == i {
                assert(old_states[k] == None::<VisitState>);
            } else {
                assert(states@[k] == old_states[k]);
            }
        }
        assert(stack@.no_duplicates()) by {
            assert forall|a: int, b: int| 0 <= a < stack@.len() && 0 <= b < stack@.len() && a != b implies stack@[a] != stack@[b] by {
                if a < old_stack.len() && b < old_stack.len() {
                    assert(old_stack[a] != old_stack[b]);
                } else if a < old_stack.len() {
                    assert(old_stack.contains(old_stack[a]));
                } else if b < old_stack.len() {
                    assert(old_stack.contains(old_stack[b]));
                }
            }
        }
        assert(dfs_inv(g, states@, stack@, finish));
    }
    let ghost mut fin = finish;
    let deps = &adj[i];
    let mut t: usize = 0;
    while t < deps.len()
        invariant
            g == dep_graph(nodes@),
            adj_in_range(g),
            adj@.len() == g.len(),
            forall|k: int| 0 <= k < g.len() ==> #[trigger] adj@[k]@ == g[k],
            nodes@.len() == g.len(),
            g.len() <= usize::MAX,
            i < g.len(),
            deps@ == g[i as int],
            t <= deps.len(),
            dfs_inv(g, states@, stack@, fin),
            stack@ == old_stack.push(i),
            old_stack == old(stack)@,
            old_stack.len() + 1 <= g.len(),
            !old_stack.contains(i),
            finish == fin.take(finish.len() as int),
            finish.len() <= fin.len(),
            forall|q: int| 0 <= q < t ==> fin.contains(#[trigger] deps@[q] as int),
            cycle_visit_deps(g, finish, ints(stack@), i as int, t as int, (g.len() - stack@.len()) as nat)
                == CycleSearch::Done(fin),
        decreases deps.len() - t,
    {
        let j = deps[t];
        proof {
            assert(g[i as int].contains(j));
            assert(stack@.last() == i);
        }
        let ghost st2 = stack@;
        let ghost pre_states = states@;
        let (r, Ghost(f2)) = visit_for_cycle(j, nodes, adj, states, stack, Ghost(g), Ghost(fin));
        match r {
            Err(c) => {
                proof {
                    let fuel = (g.len() - st2.len()) as nat;
                    let p = choose|p: Seq<int>|
                        cycle_visit(g, fin, ints(st2), j as int, fuel) == CycleSearch::Found(p)
                            && views(c@) == names_at(nodes@, p);
                    assert(g[i as int][t as int] == j);
                    assert(cycle_visit_deps(g, finish, ints(st2), i as int, t + 1, fuel) == CycleSearch::Found(p));
                    lemma_found_persists(g, finish, ints(st2), i as int, t + 1, g[i as int].len() as int, fuel, p);
                    assert(!finish.contains(i as int)) by {
                        assert(st2[old_stack.len() as int] == i);
                        assert(st2.contains(i));
                        assert(pre_states[i as int] == Some(VisitState::Visiting));
                        assert(!fin.contains(i as int));
                        if finish.contains(i as int) {
                            let w = choose|w: int| 0 <= w < finish.len() && finish[w] == i as int;
                            assert(fin[w] == finish[w]);
                        }
                    }
                    assert(!ints(old_stack).contains(i as int)) by {
                        if ints(old_stack).contains(i as int) {
                            let w = choose|w: int| 0 <= w < ints(old_stack).len() && ints(old_stack)[w] == i as int;
                            assert(old_stack[w] == i);
                        }
                    }
                    assert(ints(old_stack).push(i as int) == ints(st2));
                }
                return (Err(c), Ghost(f2));
            },
            Ok(()) => {
                proof {
                    assert forall|q: int| 0 <= q < t + 1 implies f2.contains(#[trigger] deps@[q] as int) by {
                        if q < t {
                            let w = choose|w: int| 0 <= w < fin.len() && fin[w] == deps@[q] as int;
                            assert(f2[w] == fin[w]);
                        }
                    }
                    assert(finish =~= f2.take(finish.len() as int)) by {
                        assert forall|w: int| 0 <= w < finish.len() implies finish[w] == f2[w] by {
                            assert(fin[w] == f2[w]);
                        }
                    }
                    fin = f2;
                }
            },
        }
        t = t + 1;
    }
    proof {
        assert(stack@[stack@.len() - 1] == i);
        assert(stack@.contains(i));
        assert(states@[i as int] == Some(VisitState::Visiting));
        assert(!fin.contains(i as int));
    }
    let ghost mid_states = states@;
    stack.pop();
    states.set(i, Some(VisitState::Visited));
    proof {
        assert(stack@ =~= old_stack);
        let f3 = fin.push(i as int);
        assert forall|a: int, j: int| 0 <= a < f3.len() && #[trigger] edge(g, f3[a], j) implies exists|b: int| 0 <= b < a && f3[b] == j by {
            if a < fin.len() {
                assert(f3[a] == fin[a]);
                assert(edge(g, fin[a], j));
                let b = choose|b: int| 0 <= b < a && fin[b] == j;
                assert(f3[b] == j);
            } else {
                assert(f3[a] == i as int);
                let q = choose|q: int| 0 <= q < g[i as int].len() && g[i as int][q] == j as usize;
                assert(fin.contains(deps@[q] as int));
                assert(deps@[q] as int == j);
                let b = choose|b: int| 0 <= b < fin.len() && fin[b] == deps@[q] as int;
                assert(f3[b] == j);
            }
        }
        assert forall|k: int| 0 <= k < g.len() implies (#[trigger] states@[k] == Some(VisitState::Visited) <==> f3.contains(k)) by {
            if k != i {
                assert(states@[k] == mid_states[k]);
                if f3.contains(k) {
                    let w = choose|w: int| 0 <= w < f3.len() && f3[w] == k;
                    assert(fin[w] == k);
                }
                if fin.contains(k) {
                    let w = choose|w: int| 0 <= w < fin.len() && fin[w] == k;
                    assert(f3[w] == k);
                }
            } else {
                assert(f3[f3.len() - 1] == k);
            }
        }
        assert forall|k: int| 0 <= k < g.len() implies (#[trigger] states@[k] == Some(VisitState::Visiting) <==> stack@.contains(k as usize)) by {
            if k == i {
                assert(!old_stack.contains(i));
            } else {
                assert(states@[k] == mid_states[k]);
                if old_stack.contains(k as usize) {
                    let w = choose|w: int| 0 <= w < old_stack.len() && old_stack[w] == k as usize;
                    assert(old_stack.push(i)[w] == k as usize);
                }
                if old_stack.push(i).contains(k as usize) {
                    let w = choose|w: int| 0 <= w < old_stack.len() + 1 && old_stack.push(i)[w] == k as usize;
                    assert(w < old_stack.len());
                }
            }
        }
        assert(finish =~= f3.take(finish.len() as int));
        assert(f3.no_duplicates()) by {
            assert forall|a: int, b: int| 0 <= a < f3.len() && 0 <= b < f3.len() && a != b implies f3[a] != f3[b] by {
                if a < fin.len() && b < fin.len() {
                    assert(fin[a] != fin[b]);
                } else if a < fin.len() {
                    assert(fin.contains(fin[a]));
                } else if b < fin.len() {
                    assert(fin.contains(fin[b]));
                }
            }
        }
        assert(f3[f3.len() - 1] == i as int);
        assert(dfs_inv(g, states@, stack@, f3));
        assert(!finish.contains(i as int));
        assert(!ints(old_stack).contains(i as int)) by {
            if ints(old_stack).contains(i as int) {
                let w = choose|w: int| 0 <= w < ints(old_stack).len() && ints(old_stack)[w] == i as int;
                assert(old_stack[w] == i);
            }
        }
        assert(ints(old_stack).push(i as int) == ints(old_stack.push(i)));
        fin = f3;
    }
    (Ok(()), Ghost(fin))
}

/// Checks that the dependency graph has no cycle; reports one otherwise.
fn validate_acyclic(nodes: &Vec<(String, Node)>, adj: &Vec<Vec<usize>>) -> (res: Result<(), Vec<String>>)
    requires
        sorted_strict(entry_names(nodes@)),
        forall|i: int| 0 <= i < nodes@.len() ==> deps_ok(entries_map(nodes@), #[trigger] nodes@[i].1),
        adj@.len() == nodes@.len(),
        forall|i: int| 0 <= i < adj@.len() ==> #[trigger] adj@[i]@ == dep_graph(nodes@)[i],
    ensures
        match res {
            Ok(()) => acyclic(dep_graph(nodes@)),
            Err(cycle) => is_name_cycle(entries_map(nodes@), views(cycle@)) && reported_cycle(nodes@, views(cycle@)),
        },
{
    let ghost g = dep_graph(nodes@);
    let n = nodes.len();
    proof {
        lemma_dep_graph_facts(nodes@);
    }
    let mut states: Vec<Option<VisitState>> = Vec::new();
    let mut k: usize = 0;
    while k < n
        invariant
            k <= n,
            states@.len() == k,
            forall|q: int| 0 <= q < k ==> #[trigger] states@[q] == None::<VisitState>,
        decreases n - k,
    {
        states.push(None);
        k = k + 1;
    }
    let mut stack: Vec<usize> = Vec::new();
    let ghost mut fin: Seq<int> = Seq::empty();
    let mut i: usize = 0;
    while i < n
        invariant
            n == nodes@.len(),
            g == dep_graph(nodes@),
            adj_in_range(g),
            g.len() == n,
            adj@.len() == g.len(),
            forall|q: int| 0 <= q < g.len() ==> #[trigger] adj@[q]@ == g[q],
            sorted_strict(entry_names(nodes@)),
            forall|q: int| 0 <= q < nodes@.len() ==> deps_ok(entries_map(nodes@), #[trigger] nodes@[q].1),
            i <= n,
            dfs_inv(g, states@, stack@, fin),
            stack@.len() == 0,
            forall|q: int| 0 <= q < i ==> fin.contains(q),
            cycle_search(g, i as int) == CycleSearch::Done(fin),
        decreases n - i,
    {
        assert(ints(stack@) =~= Seq::<int>::empty());
        let (r, Ghost(f2)) = visit_for_cycle(i, nodes, adj, &mut states, &mut stack, Ghost(g), Ghost(fin));
        match r {
            Err(cycle) => {
                proof {
                    let p = choose|p: Seq<int>| is_cycle(g, p) && views(cycle@) == names_at(nodes@, p);
                    lemma_index_cycle_to_names(nodes@, p);
                    let c = choose|c: Seq<int>|
                        cycle_visit(g, fin, Seq::empty(), i as int, g.len()) == CycleSearch::Found(c)
                            && views(cycle@) == names_at(nodes@, c);
                    assert(cycle_search(g, i + 1) == CycleSearch::Found(c));
                    lemma_search_found_persists(g, i + 1, n as int, c);
                }
                return Err(cycle);
            },
            Ok(()) => {
                proof {
                    assert(cycle_search(g, i + 1) == CycleSearch::Done(f2));
                    assert forall|q: int| 0 <= q < i + 1 implies f2.contains(q) by {
                        if q < i {
                            assert(fin.contains(q));
                            let w = choose|w: int| 0 <= w < fin.len() && fin[w] == q;
                            assert(f2.take(fin.len() as int)[w] == f2[w]);
                            assert(f2[w] == fin[w]);
                        }
                    }
                    fin = f2;
                }
            },
        }
        i = i + 1;
    }
    proof {
        lemma_finished_acyclic(g, fin);
    }
    Ok(())
}

/// The text of a configuration error.
pub open spec fn config_error_text(e: ConfigError) -> Seq<char> {
    match e {
        ConfigError::MixedNodeStyles => "use either top-level 'nodes:' or direct node keys, not both"@,
        ConfigError::NoNodes => "config must define at least one node"@,
        ConfigError::EmptyNodeName => "node name cannot be empty"@,
        ConfigError::EmptyCommand { node } => "node '"@ + node@ + "' command cannot be empty"@,
        ConfigError::EmptyArgument { node } => "node '"@ + node@ + "' command contains an empty argument"@,
        ConfigError::EmptyPathPattern { node } => "node '"@ + node@ + "' contains an empty path pattern"@,
        ConfigError::InvalidGlob { node, pattern } => "node '"@ + node@ + "' has invalid glob '"@ + pattern@ + "'"@,
        ConfigError::UnknownDependency { node, dependency } => "node '"@ + node@ + "' depends on unknown node '"@ + dependency@ + "'"@,
        ConfigError::DuplicateDependency { node, dependency } => "node '"@ + node@ + "' depends on '"@ + dependency@ + "' more than once"@,
        ConfigError::DependencyCycle { cycle } => "dependency cycle detected: "@ + joined(views(cycle@), " -> "@),
    }
}

impl ConfigError {
    /// The error as text.
    pub fn message(&self) -> (res: String)
        ensures
            res@ == config_error_text(*self),
    {
        match self {
            ConfigError::MixedNodeStyles => String::from_str("use either top-level 'nodes:' or direct node keys, not both"),
            ConfigError::NoNodes => String::from_str("config must define at least one node"),
            ConfigError::EmptyNodeName => String::from_str("node name cannot be empty"),
            ConfigError::EmptyCommand { node } => quoted_node_text(node, "' command cannot be empty"),
            ConfigError::EmptyArgument { node } => quoted_node_text(node, "' command contains an empty argument"),
            ConfigError::EmptyPathPattern { node } => quoted_node_text(node, "' contains an empty path pattern"),
            ConfigError::InvalidGlob { node, pattern } => {
                let mut s = quoted_node_text(node, "' has invalid glob '");
                s.append(pattern.as_str());
                s.append("'");
                s
            },
            ConfigError::UnknownDependency { node, dependency } => {
                let mut s = quoted_node_text(node, "' depends on unknown node '");
                s.append(dependency.as_str());
                s.append("'");
                s
            },
            ConfigError::DuplicateDependency { node, dependency } => {
                let mut s = quoted_node_text(node, "' depends on '");
                s.append(dependency.as_str());
                s.append("' more than once");
                s
            },
            ConfigError::DependencyCycle { cycle } => {
                let mut s = String::from_str("dependency cycle detected: ");
                let path = join_strings(cycle, " -> ");
                s.append(path.as_str());
                s
            },
        }
    }
}

/// `node '` + the node's name + `rest`.
fn quoted_node_text(node: &String, rest: &str) -> (res: String)
    ensures
        res@ == "node '"@ + node@ + rest@,
{
    let mut s = String::from_str("node '");
    s.append(node.as_str());
    s.append(rest);
    s
}

/// Law: once a raw configuration is accepted, the node the configuration
/// holds under a name is the last node the raw configuration listed under
/// that name, and every name it holds was listed.
pub proof fn law_accepted_nodes_are_listed(config: Config, raw: RawConfig, name: Seq<char>)
    requires
        !(raw.nodes.len() > 0 && raw.direct_nodes.len() > 0),
        selected_nodes(raw).len() > 0,
        validation_outcome(entries_map(selected_nodes(raw)), Ok(config)),
        config_wf(config@),
    ensures
        entry_names(config@).contains(name) <==> entries_map(selected_nodes(raw)).contains_key(name),
        forall|i: int|
            0 <= i < config@.len() && #[trigger] config@[i].0@ == name ==> config@[i].1 == entries_map(selected_nodes(raw))[name],
{
    let m = entries_map(selected_nodes(raw));
    assert(entries_map(config@) == m);
    lemma_entries_map_sorted(config@);
    if m.contains_key(name) {
        assert(entries_map(config@).contains_key(name));
    }
    if entry_names(config@).contains(name) {
        let k = choose|k: int| 0 <= k < entry_names(config@).len() && entry_names(config@)[k] == name;
        assert(entries_map(config@).contains_key(config@[k].0@));
    }
    assert forall|i: int| 0 <= i < config@.len() && #[trigger] config@[i].0@ == name implies config@[i].1 == m[name] by {
        assert(entries_map(config@).contains_key(config@[i].0@));
    }
}

/// Law: validation accepts the nodes `m` exactly when every name is not
/// blank and every node passes its own checks, every dependency names a
/// node of `m` and none is listed twice, and no dependency cycle exists;
/// and a cycle it rejects is a cycle of `m`, each name depending on the
/// next and the last name being the first.
pub proof fn law_accepted_exactly_when_valid(m: Map<Seq<char>, Node>, res: Result<Config, ConfigError>)
    requires
        validation_outcome(m, res),
    ensures
        res is Ok <==> {
            &&& forall|n: Seq<char>| #[trigger] m.contains_key(n) ==> entry_ok(n, m[n]) && deps_ok(m, m[n])
            &&& forall|c: Seq<Seq<char>>| !#[trigger] is_name_cycle(m, c)
        },
        res matches Err(ConfigError::DependencyCycle { cycle }) ==> is_name_cycle(m, views(cycle@)),
{
    if exists|n: Seq<char>| #[trigger] m.contains_key(n) && !entry_ok(n, m[n]) {
        let e = res->Err_0;
        let n = choose|n: Seq<char>| #[trigger] first_node_fault(m, n) && entry_error(e, n, m[n]);
        if is_blank(n) {
            assert(e is EmptyNodeName);
        } else if m[n].command.len() == 0 {
        } else if exists|k: int| 0 <= k < m[n].command.len() && is_blank(#[trigger] m[n].command@[k]@) {
        } else {
            let k = choose|k: int|
                #![trigger m[n].paths@[k]]
                0 <= k < m[n].paths.len() && !pattern_ok(m[n].paths@[k]@) && (forall|j: int|
                    0 <= j < k ==> pattern_ok(#[trigger] m[n].paths@[j]@)) && if is_blank(
                    m[n].paths@[k]@,
                ) {
                    e matches ConfigError::EmptyPathPattern { node: x } && x@ == n
                } else {
                    e matches ConfigError::InvalidGlob { node: x, pattern: p } && x@ == n && p@
                        == m[n].paths@[k]@
                };
        }
    } else if exists|n: Seq<char>| #[trigger] m.contains_key(n) && !deps_ok(m, m[n]) {
        let e = res->Err_0;
        let n = choose|n: Seq<char>| #[trigger] first_dep_fault(m, n) && dep_error(e, m, n, m[n]);
        let k = choose|k: int|
            0 <= k < m[n].depends_on.len() && #[trigger] dep_fault_at(m, m[n], k) && (forall|j: int|
                0 <= j < k ==> !#[trigger] dep_fault_at(m, m[n], j)) && if !m.contains_key(
                m[n].depends_on@[k]@,
            ) {
                e matches ConfigError::UnknownDependency { node: x, dependency: d } && x@ == n && d@
                    == m[n].depends_on@[k]@
            } else {
                e matches ConfigError::DuplicateDependency { node: x, dependency: d } && x@ == n && d@
                    == m[n].depends_on@[k]@
            };
    }
}

} // verus!
