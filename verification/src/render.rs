//! Text views of a configuration and of an impact plan: a node list, a
//! plan summary, and `tree`-style drawings.
use vstd::prelude::*;

use crate::config::{entries_map, entry_names, lemma_entries_map_sorted, Config, Node};
use crate::graph::{key_names, ImpactPlan};
use crate::runner::{command_text, display_command};
use crate::text::{push_char, views};

verus! {

// ------------------------------------------------------------------
// Lists
// ------------------------------------------------------------------

/// One indented line per item.
pub open spec fn item_lines(items: Seq<Seq<char>>) -> Seq<char>
    decreases items.len(),
{
    if items.len() == 0 {
        Seq::empty()
    } else {
        (item_lines(items.drop_last()) + "  "@ + items.last()).push('\n')
    }
}

/// The lines of a list, or `none` for an empty one.
pub open spec fn items_text(items: Seq<Seq<char>>) -> Seq<char> {
    if items.len() == 0 {
        "  none\n"@
    } else {
        item_lines(items)
    }
}

fn push_items(output: &mut String, items: &Vec<String>)
    ensures
        final(output)@ == old(output)@ + items_text(views(items@)),
{
    if items.len() == 0 {
        output.append("  none\n");
        return;
    }
    let ghost start = output@;
    let mut i: usize = 0;
    while i < items.len()
        invariant
            i <= items@.len(),
            output@ == start + item_lines(views(items@.take(i as int))),
        decreases items@.len() - i,
    {
        output.append("  ");
        output.append(items[i].as_str());
        push_char(output, '\n');
        proof {
            let t = views(items@.take(i + 1));
            assert(t.drop_last() =~= views(items@.take(i as int)));
        }
        i = i + 1;
    }
    assert(items@.take(items@.len() as int) =~= items@);
}

/// The node list: one line per node, its name and its command.
pub open spec fn node_list_text(entries: Seq<(String, Node)>) -> Seq<char>
    decreases entries.len(),
{
    if entries.len() == 0 {
        Seq::empty()
    } else {
        (node_list_text(entries.drop_last()) + entries.last().0@ + ": "@ + command_text(
            views(entries.last().1.command@),
        )).push('\n')
    }
}

/// Lists the configured nodes with their commands, in name order.
pub fn render_node_list(config: &Config) -> (res: String)
    ensures
        res@ == node_list_text(config@),
{
    let nodes = config.nodes();
    let mut output = String::new();
    let mut i: usize = 0;
    while i < nodes.len()
        invariant
            i <= nodes@.len(),
            output@ == node_list_text(nodes@.take(i as int)),
        decreases nodes@.len() - i,
    {
        let (name, node) = &nodes[i];
        output.append(name.as_str());
        output.append(": ");
        let cmd = display_command(node.command.as_slice());
        output.append(cmd.as_str());
        push_char(&mut output, '\n');
        proof {
            assert(nodes@.take(i + 1).drop_last() =~= nodes@.take(i as int));
        }
        i = i + 1;
    }
    assert(nodes@.take(nodes@.len() as int) =~= nodes@);
    output
}

/// The command shown for a named node of the configuration.
pub open spec fn named_command(entries: Seq<(String, Node)>, name: Seq<char>) -> Seq<char> {
    command_text(views(entries_map(entries)[name].command@))
}

/// The execution-order lines: each node with its command.
pub open spec fn order_lines(entries: Seq<(String, Node)>, names: Seq<Seq<char>>) -> Seq<char>
    decreases names.len(),
{
    if names.len() == 0 {
        Seq::empty()
    } else {
        (order_lines(entries, names.drop_last()) + "  "@ + names.last() + ": "@ + named_command(
            entries,
            names.last(),
        )).push('\n')
    }
}

/// Law: the execution-order lines of a list of names are the lines of each
/// name, one after the other; the line of a name is the name followed by
/// the command of the configured node of that name.
pub proof fn law_order_lines(entries: Seq<(String, Node)>, a: Seq<Seq<char>>, b: Seq<Seq<char>>, n: Seq<char>)
    ensures
        order_lines(entries, a + b) == order_lines(entries, a) + order_lines(entries, b),
        order_lines(entries, seq![n]) == ("  "@ + n + ": "@ + command_text(
            views(entries_map(entries)[n].command@),
        )).push('\n'),
    decreases b.len(),
{
    assert(seq![n].drop_last() =~= Seq::<Seq<char>>::empty());
    assert(order_lines(entries, Seq::<Seq<char>>::empty()) =~= Seq::<char>::empty());
    if b.len() == 0 {
        assert(a + b =~= a);
        assert(order_lines(entries, a) + order_lines(entries, b) =~= order_lines(entries, a));
    } else {
        law_order_lines(entries, a, b.drop_last(), n);
        assert((a + b).drop_last() =~= a + b.drop_last());
        assert((a + b).last() == b.last());
        let la = order_lines(entries, a);
        let lb = order_lines(entries, b.drop_last());
        let tail = "  "@ + b.last() + ": "@ + named_command(entries, b.last());
        assert(((la + lb) + tail).push('\n') =~= la + (lb + tail).push('\n'));
    }
}

/// Law: the lines of a list of items are the lines of each item, one after
/// the other; an item's line is the item, indented by two spaces.
pub proof fn law_item_lines(a: Seq<Seq<char>>, b: Seq<Seq<char>>, x: Seq<char>)
    ensures
        item_lines(a + b) == item_lines(a) + item_lines(b),
        item_lines(seq![x]) == ("  "@ + x).push('\n'),
    decreases b.len(),
{
    assert(seq![x].drop_last() =~= Seq::<Seq<char>>::empty());
    assert(item_lines(Seq::<Seq<char>>::empty()) =~= Seq::<char>::empty());
    if b.len() == 0 {
        assert(a + b =~= a);
        assert(item_lines(a) + item_lines(b) =~= item_lines(a));
    } else {
        law_item_lines(a, b.drop_last(), x);
        assert((a + b).drop_last() =~= a + b.drop_last());
        assert((a + b).last() == b.last());
        let la = item_lines(a);
        let lb = item_lines(b.drop_last());
        assert(((la + lb) + "  "@ + b.last()).push('\n') =~= la + (lb + "  "@ + b.last()).push('\n'));
    }
}

/// Law: the node list of entries is the list of each part, one after the
/// other; a node's line is its name followed by its own command.
pub proof fn law_node_list(a: Seq<(String, Node)>, b: Seq<(String, Node)>, e: (String, Node))
    ensures
        node_list_text(a + b) == node_list_text(a) + node_list_text(b),
        node_list_text(seq![e]) == (e.0@ + ": "@ + command_text(views(e.1.command@))).push('\n'),
    decreases b.len(),
{
    assert(seq![e].drop_last() =~= Seq::<(String, Node)>::empty());
    assert(node_list_text(Seq::<(String, Node)>::empty()) =~= Seq::<char>::empty());
    if b.len() == 0 {
        assert(a + b =~= a);
        assert(node_list_text(a) + node_list_text(b) =~= node_list_text(a));
    } else {
        law_node_list(a, b.drop_last(), e);
        assert((a + b).drop_last() =~= a + b.drop_last());
        assert((a + b).last() == b.last());
        let la = node_list_text(a);
        let lb = node_list_text(b.drop_last());
        let tail = b.last().0@ + ": "@ + command_text(views(b.last().1.command@));
        assert(((la + lb) + tail).push('\n') =~= la + (lb + tail).push('\n'));
        assert((la + lb + b.last().0@ + ": "@ + command_text(views(b.last().1.command@))) =~= (la + lb) + tail);
        assert((lb + b.last().0@ + ": "@ + command_text(views(b.last().1.command@))) =~= lb + tail);
    }
}

/// The plan summary printed by `plan` and `run`.
pub open spec fn plan_text(entries: Seq<(String, Node)>, plan: ImpactPlan) -> Seq<char> {
    let order = views(plan.execution_order@);
    "Changed files:\n"@ + items_text(views(plan.changed_files@)) + "\nDirect impact:\n"@ + items_text(
        key_names(plan.direct_matches@),
    ) + "\nExpanded impact:\n"@ + items_text(views(plan.impacted@)) + "\nExecution order:\n"@ + if order.len()
        == 0 {
        "  none\n"@
    } else {
        order_lines(entries, order)
    }
}

/// The node of a configured name.
pub(crate) fn node_of<'a>(config: &'a Config, name: &str) -> (res: &'a Node)
    requires
        entry_names(config@).contains(name@),
    ensures
        *res == entries_map(config@)[name@],
{
    let nodes = config.nodes();
    proof {
        lemma_entries_map_sorted(config@);
    }
    match config.node(name) {
        Some(n) => {
            proof {
                let i = choose|i: int| 0 <= i < config@.len() && config@[i].0@ == name@ && *n == #[trigger] config@[i].1;
                assert(entries_map(config@).contains_key(config@[i].0@));
            }
            n
        },
        None => {
            proof {
                assert(false);
            }
            &nodes[0].1
        },
    }
}

/// Summarizes a plan: changed files, direct and expanded impact, and the
/// commands in execution order.
pub fn render_plan(config: &Config, plan: &ImpactPlan) -> (res: String)
    requires
        forall|k: int| 0 <= k < plan.execution_order@.len() ==> entry_names(config@).contains(#[trigger] plan.execution_order@[k]@),
    ensures
        res@ == plan_text(config@, *plan),
{
    let mut output = String::new();
    output.append("Changed files:\n");
    push_items(&mut output, &plan.changed_files);
    output.append("\nDirect impact:\n");
    let direct = entry_keys(&plan.direct_matches);
    push_items(&mut output, &direct);
    output.append("\nExpanded impact:\n");
    push_items(&mut output, &plan.impacted);
    output.append("\nExecution order:\n");
    let ghost start = output@;
    let order = &plan.execution_order;
    if order.len() == 0 {
        output.append("  none\n");
    } else {
        let mut i: usize = 0;
        while i < order.len()
            invariant
                i <= order@.len(),
                order == plan.execution_order,
                forall|k: int| 0 <= k < plan.execution_order@.len() ==> entry_names(config@).contains(#[trigger] plan.execution_order@[k]@),
                output@ == start + order_lines(config@, views(order@.take(i as int))),
            decreases order@.len() - i,
        {
            let name = &order[i];
            let node = node_of(config, name.as_str());
            output.append("  ");
            output.append(name.as_str());
            output.append(": ");
            let cmd = display_command(node.command.as_slice());
            output.append(cmd.as_str());
            push_char(&mut output, '\n');
            proof {
                let t = views(order@.take(i + 1));
                assert(t.drop_last() =~= views(order@.take(i as int)));
                assert(t.last() == name@);
            }
            i = i + 1;
        }
        assert(order@.take(order@.len() as int) =~= order@);
    }
    output
}

/// The names of named entries.
fn entry_keys(entries: &Vec<(String, Vec<String>)>) -> (res: Vec<String>)
    ensures
        views(res@) == key_names(entries@),
{
    let mut out: Vec<String> = Vec::new();
    let mut i: usize = 0;
    while i < entries.len()
        invariant
            i <= entries@.len(),
            views(out@) == key_names(entries@.take(i as int)),
        decreases entries@.len() - i,
    {
        out.push(entries[i].0.clone());
        proof {
            assert(key_names(entries@.take(i + 1)) =~= key_names(entries@.take(i as int)).push(entries@[i as int].0@));
            assert(views(out@) =~= key_names(entries@.take(i + 1)));
        }
        i = i + 1;
    }
    assert(entries@.take(entries@.len() as int) =~= entries@);
    out
}


// ------------------------------------------------------------------
// Trees
// ------------------------------------------------------------------

/// A drawn tree: a label over child trees.
pub struct TreeShape {
    pub label: Seq<char>,
    pub children: Seq<TreeShape>,
}

/// A tree with a label and no children.
pub open spec fn leaf_shape(label: Seq<char>) -> TreeShape {
    TreeShape { label, children: Seq::empty() }
}

/// A tree with a label over the given children.
pub open spec fn branch_shape(label: Seq<char>, children: Seq<TreeShape>) -> TreeShape {
    TreeShape { label, children }
}

/// One leaf per label, in order.
pub open spec fn leaf_shapes(labels: Seq<Seq<char>>) -> Seq<TreeShape> {
    labels.map_values(|l: Seq<char>| leaf_shape(l))
}

/// The lines of a child tree: its label after `prefix` and a branch mark,
/// then its own children one level deeper.
pub open spec fn child_text(t: TreeShape, prefix: Seq<char>, is_last: bool) -> Seq<char>
    decreases t, 1int, 0int,
{
    (prefix + (if is_last {
        "`-- "@
    } else {
        "|-- "@
    }) + t.label).push('\n') + children_text(
        t,
        0,
        prefix + if is_last {
            "    "@
        } else {
            "|   "@
        },
    )
}

/// The lines of the children of `t` from the `k`-th on.
pub open spec fn children_text(t: TreeShape, k: int, prefix: Seq<char>) -> Seq<char>
    decreases t, 0int, t.children.len() - k,
{
    if k < 0 || k >= t.children.len() {
        Seq::empty()
    } else {
        child_text(t.children[k], prefix, k == t.children.len() - 1) + children_text(t, k + 1, prefix)
    }
}

/// A whole tree: the root label, then its children.
pub open spec fn tree_text(root: TreeShape) -> Seq<char> {
    root.label.push('\n') + children_text(root, 0, Seq::empty())
}

struct TreeNode {
    label: String,
    children: Vec<TreeNode>,
}

spec fn shape(n: TreeNode) -> TreeShape
    decreases n,
{
    TreeShape {
        label: n.label@,
        children: Seq::new(
            n.children@.len(),
            |i: int|
                if 0 <= i < n.children@.len() {
                    shape(n.children@[i])
                } else {
                    leaf_shape(Seq::empty())
                },
        ),
    }
}

spec fn shapes(v: Seq<TreeNode>) -> Seq<TreeShape> {
    Seq::new(v.len(), |i: int| shape(v[i]))
}

proof fn lemma_shape(n: TreeNode)
    ensures
        shape(n).label == n.label@,
        shape(n).children == shapes(n.children@),
{
    assert(shape(n).children =~= shapes(n.children@));
}

impl TreeNode {
    fn leaf(label: String) -> (res: TreeNode)
        ensures
            shape(res) == leaf_shape(label@),
    {
        let res = TreeNode { label, children: Vec::new() };
        proof {
            lemma_shape(res);
            assert(shape(res).children =~= Seq::<TreeShape>::empty());
        }
        res
    }

    fn branch(label: String, children: Vec<TreeNode>) -> (res: TreeNode)
        ensures
            shape(res) == branch_shape(label@, shapes(children@)),
    {
        let res = TreeNode { label, children };
        proof {
            lemma_shape(res);
        }
        res
    }
}

/// Leaves labelled with the given strings.
fn leaves(labels: &Vec<String>) -> (res: Vec<TreeNode>)
    ensures
        shapes(res@) == leaf_shapes(views(labels@)),
{
    let mut out: Vec<TreeNode> = Vec::new();
    let mut i: usize = 0;
    while i < labels.len()
        invariant
            i <= labels@.len(),
            shapes(out@) == leaf_shapes(views(labels@.take(i as int))),
        decreases labels@.len() - i,
    {
        let ghost before = out@;
        out.push(TreeNode::leaf(labels[i].clone()));
        proof {
            assert(shapes(out@) =~= shapes(before).push(leaf_shape(labels@[i as int]@)));
            assert(leaf_shapes(views(labels@.take(i + 1))) =~= leaf_shapes(views(labels@.take(i as int))).push(leaf_shape(labels@[i as int]@)));
        }
        i = i + 1;
    }
    assert(labels@.take(labels@.len() as int) =~= labels@);
    out
}

fn render_tree(root: &TreeNode) -> (res: String)
    ensures
        res@ == tree_text(shape(*root)),
{
    proof {
        lemma_shape(*root);
    }
    let mut output = String::new();
    output.append(root.label.as_str());
    push_char(&mut output, '\n');
    let ghost t = shape(*root);
    let ghost start = output@;
    let n = root.children.len();
    let mut i: usize = 0;
    while i < n
        invariant
            n == root.children@.len(),
            t == shape(*root),
            t.children == shapes(root.children@),
            i <= n,
            output@ + children_text(t, i as int, Seq::empty()) == start + children_text(t, 0, Seq::empty()),
        decreases n - i,
    {
        let ghost before = output@;
        render_tree_child(&root.children[i], "", i + 1 == n, &mut output);
        proof {
            reveal_strlit("");
            assert(""@ =~= Seq::<char>::empty());
            assert(children_text(t, i as int, Seq::empty()) == child_text(t.children[i as int], Seq::empty(), i == n - 1) + children_text(t, i + 1, Seq::empty()));
            assert(output@ + children_text(t, i + 1, Seq::empty()) =~= before + children_text(t, i as int, Seq::empty()));
        }
        i = i + 1;
    }
    assert(output@ =~= start + children_text(t, 0, Seq::empty()));
    output
}

fn render_tree_child(node: &TreeNode, prefix: &str, is_last: bool, output: &mut String)
    ensures
        final(output)@ == old(output)@ + child_text(shape(*node), prefix@, is_last),
    decreases *node,
{
    proof {
        lemma_shape(*node);
    }
    let ghost t = shape(*node);
    let ghost start = output@;
    output.append(prefix);
    output.append(if is_last { "`-- " } else { "|-- " });
    output.append(node.label.as_str());
    push_char(output, '\n');
    let mut child_prefix = String::from_str(prefix);
    child_prefix.append(if is_last { "    " } else { "|   " });
    let ghost head = output@;
    let n = node.children.len();
    let mut i: usize = 0;
    while i < n
        invariant
            n == node.children@.len(),
            t == shape(*node),
            t.children == shapes(node.children@),
            i <= n,
            output@ + children_text(t, i as int, child_prefix@) == head + children_text(t, 0, child_prefix@),
        decreases n - i,
    {
        let ghost before = output@;
        proof {
            assert(decreases_to!(*node => node.children@[i as int]));
        }
        render_tree_child(&node.children[i], child_prefix.as_str(), i + 1 == n, output);
        proof {
            assert(children_text(t, i as int, child_prefix@) == child_text(t.children[i as int], child_prefix@, i == n - 1) + children_text(t, i + 1, child_prefix@));
            assert(output@ + children_text(t, i + 1, child_prefix@) =~= before + children_text(t, i as int, child_prefix@));
        }
        i = i + 1;
    }
    assert(output@ =~= start + child_text(t, prefix@, is_last));
}

/// The tree of one configured node: its paths, its dependencies and its
/// command.
pub open spec fn config_node_shape(name: Seq<char>, node: Node) -> TreeShape {
    let paths = if node.paths.len() > 0 {
        seq![branch_shape("paths"@, leaf_shapes(views(node.paths@)))]
    } else {
        Seq::empty()
    };
    let deps = if node.depends_on.len() > 0 {
        seq![branch_shape("depends_on"@, leaf_shapes(views(node.depends_on@)))]
    } else {
        Seq::empty()
    };
    branch_shape(name, (paths + deps).push(leaf_shape("command: "@ + command_text(views(node.command@)))))
}

/// The tree of the whole configuration.
pub open spec fn config_tree_shape(entries: Seq<(String, Node)>) -> TreeShape {
    branch_shape("git-impact.yaml"@, entries.map_values(|e: (String, Node)| config_node_shape(e.0@, e.1)))
}

fn render_config_node(name: &String, node: &Node) -> (res: TreeNode)
    ensures
        shape(res) == config_node_shape(name@, *node),
{
    let mut children: Vec<TreeNode> = Vec::new();
    let ghost mut expect: Seq<TreeShape> = Seq::empty();
    assert(shapes(children@) =~= expect);
    if node.paths.len() > 0 {
        children.push(TreeNode::branch(String::from_str("paths"), leaves(&node.paths)));
        proof {
            expect = seq![branch_shape("paths"@, leaf_shapes(views(node.paths@)))];
            assert(shapes(children@) =~= expect);
        }
    }
    if node.depends_on.len() > 0 {
        let ghost before = children@;
        children.push(TreeNode::branch(String::from_str("depends_on"), leaves(&node.depends_on)));
        proof {
            expect = expect + seq![branch_shape("depends_on"@, leaf_shapes(views(node.depends_on@)))];
            assert(shapes(children@) =~= shapes(before).push(branch_shape("depends_on"@, leaf_shapes(views(node.depends_on@)))));
            assert(shapes(children@) =~= expect);
        }
    }
    assert(shapes(children@) == expect);
    let mut label = String::from_str("command: ");
    let cmd = display_command(node.command.as_slice());
    label.append(cmd.as_str());
    let ghost before = children@;
    children.push(TreeNode::leaf(label));
    proof {
        assert(shapes(children@) =~= shapes(before).push(leaf_shape("command: "@ + command_text(views(node.command@)))));
        let paths = if node.paths.len() > 0 {
            seq![branch_shape("paths"@, leaf_shapes(views(node.paths@)))]
        } else {
            Seq::empty()
        };
        let deps = if node.depends_on.len() > 0 {
            seq![branch_shape("depends_on"@, leaf_shapes(views(node.depends_on@)))]
        } else {
            Seq::empty()
        };
        assert(expect =~= paths + deps);
    }
    TreeNode::branch(name.clone(), children)
}

/// Draws the configured dependency graph: each node with its paths,
/// dependencies and command.
pub fn render_config_tree(config: &Config) -> (res: String)
    ensures
        res@ == tree_text(config_tree_shape(config@)),
{
    let nodes = config.nodes();
    let mut children: Vec<TreeNode> = Vec::new();
    let mut i: usize = 0;
    while i < nodes.len()
        invariant
            i <= nodes@.len(),
            shapes(children@) == nodes@.take(i as int).map_values(|e: (String, Node)| config_node_shape(e.0@, e.1)),
        decreases nodes@.len() - i,
    {
        let ghost before = children@;
        children.push(render_config_node(&nodes[i].0, &nodes[i].1));
        proof {
            assert(shapes(children@) =~= shapes(before).push(config_node_shape(nodes@[i as int].0@, nodes@[i as int].1)));
            assert(nodes@.take(i + 1).map_values(|e: (String, Node)| config_node_shape(e.0@, e.1)) =~= nodes@.take(i as int).map_values(|e: (String, Node)| config_node_shape(e.0@, e.1)).push(config_node_shape(nodes@[i as int].0@, nodes@[i as int].1)));
        }
        i = i + 1;
    }
    assert(nodes@.take(nodes@.len() as int) =~= nodes@);
    let root = TreeNode::branch(String::from_str("git-impact.yaml"), children);
    render_tree(&root)
}

// ------------------------------------------------------------------
// The impact tree
// ------------------------------------------------------------------

/// The names the expansion tree can show: the direct matches and the
/// nodes impacted through dependencies.
pub open spec fn shown_names(plan: ImpactPlan) -> Set<Seq<char>> {
    key_names(plan.direct_matches@).to_set().union(key_names(plan.triggered_by@).to_set())
}

/// How many showable names are not shown yet.
pub open spec fn unshown(plan: ImpactPlan, rendered: Set<Seq<char>>) -> nat {
    shown_names(plan).difference(rendered).len()
}

/// Showing more names leaves no more showable names unshown, and showing
/// a showable name not shown before leaves fewer.
pub proof fn lemma_unshown(plan: ImpactPlan, r: Set<Seq<char>>, r2: Set<Seq<char>>, name: Seq<char>)
    requires
        r.subset_of(r2),
    ensures
        unshown(plan, r2) <= unshown(plan, r),
        shown_names(plan).contains(name) && !r.contains(name) && r2.contains(name) ==> unshown(plan, r2) < unshown(plan, r),
{
    let k = shown_names(plan);
    vstd::seq_lib::seq_to_set_is_finite(key_names(plan.direct_matches@));
    vstd::seq_lib::seq_to_set_is_finite(key_names(plan.triggered_by@));
    assert(k.finite());
    let d = k.difference(r);
    let d2 = k.difference(r2);
    assert(d.finite());
    assert(d2.subset_of(d));
    vstd::set_lib::lemma_len_subset(d2, d);
    if k.contains(name) && !r.contains(name) && r2.contains(name) {
        assert(d.contains(name));
        assert(d2.subset_of(d.remove(name)));
        vstd::set_lib::lemma_len_subset(d2, d.remove(name));
    }
}

/// The files a node matched directly, from the first entry of its name.
pub open spec fn lookup(entries: Seq<(String, Vec<String>)>, name: Seq<char>) -> Option<Seq<Seq<char>>>
    decreases entries.len(),
{
    if entries.len() == 0 {
        None
    } else if entries[0].0@ == name {
        Some(views(entries[0].1@))
    } else {
        lookup(entries.drop_first(), name)
    }
}

/// The tree of `name` in the impact expansion, and the names shown once it
/// is drawn: a name shown before is drawn as a leaf; otherwise its matched
/// files, its command, and the nodes it triggered follow.
pub open spec fn expansion_node(
    entries: Seq<(String, Node)>,
    plan: ImpactPlan,
    name: Seq<char>,
    rendered: Set<Seq<char>>,
) -> (TreeShape, Set<Seq<char>>)
    decreases unshown(plan, rendered), 0int, 0int,
{
    if rendered.contains(name) || !shown_names(plan).contains(name) {
        (leaf_shape(name + " [already shown]"@), rendered)
    } else {
        let r1 = rendered.insert(name);
        proof {
            lemma_unshown(plan, rendered, r1, name);
        }
        let down = expansion_children(entries, plan, name, 0, r1);
        let matched = match lookup(plan.direct_matches@, name) {
            Some(files) => seq![branch_shape("matched files"@, leaf_shapes(files))],
            None => Seq::empty(),
        };
        let cmd = leaf_shape("command: "@ + named_command(entries, name));
        let tail = if down.0.len() > 0 {
            seq![branch_shape("downstream"@, down.0)]
        } else {
            Seq::empty()
        };
        let tag = if lookup(plan.direct_matches@, name) is Some {
            "direct"@
        } else {
            "impacted"@
        };
        (branch_shape(name + " ["@ + tag + "]"@, matched.push(cmd) + tail), down.1)
    }
}

/// The trees of the nodes that `name` triggered, from the `k`-th entry of
/// `triggered_by` on.
pub open spec fn expansion_children(
    entries: Seq<(String, Node)>,
    plan: ImpactPlan,
    name: Seq<char>,
    k: int,
    rendered: Set<Seq<char>>,
) -> (Seq<TreeShape>, Set<Seq<char>>)
    decreases unshown(plan, rendered), 1int, plan.triggered_by@.len() - k,
{
    let tb = plan.triggered_by@;
    if k < 0 || k >= tb.len() {
        (Seq::empty(), rendered)
    } else if views(tb[k].1@).contains(name) {
        let node = expansion_node(entries, plan, tb[k].0@, rendered);
        proof {
            lemma_unshown(plan, rendered, rendered.union(node.1), name);
        }
        let rest = expansion_children(entries, plan, name, k + 1, rendered.union(node.1));
        (seq![node.0] + rest.0, rest.1)
    } else {
        expansion_children(entries, plan, name, k + 1, rendered)
    }
}

/// The expansion trees of the direct matches from the `k`-th on.
pub open spec fn expansion_roots(
    entries: Seq<(String, Node)>,
    plan: ImpactPlan,
    k: int,
    rendered: Set<Seq<char>>,
) -> Seq<TreeShape>
    decreases plan.direct_matches@.len() - k,
{
    let dm = plan.direct_matches@;
    if k < 0 || k >= dm.len() {
        Seq::empty()
    } else {
        let node = expansion_node(entries, plan, dm[k].0@, rendered);
        seq![node.0] + expansion_roots(entries, plan, k + 1, rendered.union(node.1))
    }
}

/// The execution-order leaves: each node with its command.
pub open spec fn order_shapes(entries: Seq<(String, Node)>, names: Seq<Seq<char>>) -> Seq<TreeShape> {
    names.map_values(|n: Seq<char>| leaf_shape(n + ": "@ + named_command(entries, n)))
}

/// The impact tree printed by `tree`.
pub open spec fn impact_tree_shape(entries: Seq<(String, Node)>, plan: ImpactPlan) -> TreeShape {
    branch_shape(
        "git-impact"@,
        seq![
            branch_shape("changed files"@, leaf_shapes(views(plan.changed_files@))),
            branch_shape("impact expansion"@, expansion_roots(entries, plan, 0, Set::empty())),
            branch_shape("execution order"@, order_shapes(entries, views(plan.execution_order@))),
        ],
    )
}

/// Every name that a plan mentions is a configured node.
pub open spec fn plan_names_configured(entries: Seq<(String, Node)>, plan: ImpactPlan) -> bool {
    &&& forall|k: int| 0 <= k < plan.direct_matches@.len() ==> entry_names(entries).contains(#[trigger] plan.direct_matches@[k].0@)
    &&& forall|k: int| 0 <= k < plan.triggered_by@.len() ==> entry_names(entries).contains(#[trigger] plan.triggered_by@[k].0@)
    &&& forall|k: int| 0 <= k < plan.execution_order@.len() ==> entry_names(entries).contains(#[trigger] plan.execution_order@[k]@)
}

/// The position of the first entry of the given name.
fn find_entry_named(entries: &Vec<(String, Vec<String>)>, name: &str) -> (res: Option<usize>)
    ensures
        match res {
            Some(k) => k < entries@.len() && lookup(entries@, name@) == Some(views(entries@[k as int].1@)),
            None => lookup(entries@, name@) is None,
        },
{
    let mut k: usize = 0;
    assert(entries@.skip(0) =~= entries@);
    while k < entries.len()
        invariant
            k <= entries@.len(),
            lookup(entries@, name@) == lookup(entries@.skip(k as int), name@),
        decreases entries@.len() - k,
    {
        let ghost rest = entries@.skip(k as int);
        if crate::text::str_eq(entries[k].0.as_str(), name) {
            assert(rest[0] == entries@[k as int]);
            return Some(k);
        }
        assert(rest.drop_first() =~= entries@.skip(k + 1));
        k = k + 1;
    }
    assert(entries@.skip(k as int) =~= Seq::<(String, Vec<String>)>::empty());
    None
}

/// Draws node `name` of the expansion and, below it, what it triggered.
fn render_expansion_node(config: &Config, plan: &ImpactPlan, name: &str, rendered: &mut Vec<String>) -> (res: TreeNode)
    requires
        plan_names_configured(config@, *plan),
        shown_names(*plan).contains(name@),
    ensures
        (shape(res), views(final(rendered)@).to_set()) == expansion_node(config@, *plan, name@, views(old(rendered)@).to_set()),
        views(old(rendered)@).to_set().subset_of(views(final(rendered)@).to_set()),
    decreases unshown(*plan, views(old(rendered)@).to_set()),
{
    let ghost r0 = views(rendered@).to_set();
    if crate::text::listed_before(rendered, rendered.len(), name) {
        let mut label = String::from_str(name);
        label.append(" [already shown]");
        proof {
            let w = choose|q: int| 0 <= q < rendered@.len() && rendered@[q]@ == name@;
            assert(views(rendered@)[w] == name@);
            assert(r0.contains(name@));
        }
        return TreeNode::leaf(label);
    }
    proof {
        if r0.contains(name@) {
            let w = choose|q: int| 0 <= q < views(rendered@).len() && views(rendered@)[q] == name@;
            assert(rendered@[w]@ == name@);
        }
    }
    let ghost before_push = rendered@;
    rendered.push(String::from_str(name));
    proof {
        assert(views(rendered@) =~= views(before_push).push(name@));
        views(before_push).lemma_push_to_set_commute(name@);
    }
    let ghost r1 = views(rendered@).to_set();
    assert(r1 == r0.insert(name@));
    proof {
        lemma_unshown(*plan, r0, r1, name@);
    }
    let node = node_of_shown(config, plan, name);
    let mut children: Vec<TreeNode> = Vec::new();
    let direct = find_entry_named(&plan.direct_matches, name);
    match direct {
        Some(k) => {
            children.push(TreeNode::branch(String::from_str("matched files"), leaves(&plan.direct_matches[k].1)));
        },
        None => {},
    }
    let mut label = String::from_str("command: ");
    let cmd = display_command(node.command.as_slice());
    label.append(cmd.as_str());
    children.push(TreeNode::leaf(label));
    let ghost head = shapes(children@);
    let tb = &plan.triggered_by;
    let mut downstream: Vec<TreeNode> = Vec::new();
    let mut k: usize = 0;
    while k < tb.len()
        invariant
            tb == plan.triggered_by,
            plan_names_configured(config@, *plan),
            k <= tb@.len(),
            r1 == r0.insert(name@),
            r0 == views(old(rendered)@).to_set(),
            shown_names(*plan).contains(name@),
            !r0.contains(name@),
            r1.subset_of(views(rendered@).to_set()),
            expansion_children(config@, *plan, name@, 0, r1) == (
                shapes(downstream@) + expansion_children(config@, *plan, name@, k as int, views(rendered@).to_set()).0,
                expansion_children(config@, *plan, name@, k as int, views(rendered@).to_set()).1,
            ),
        decreases tb@.len() - k,
    {
        let ghost rk = views(rendered@).to_set();
        if crate::text::listed_before(&tb[k].1, tb[k].1.len(), name) {
            proof {
                let w = choose|q: int| 0 <= q < tb@[k as int].1@.len() && tb@[k as int].1@[q]@ == name@;
                assert(views(tb@[k as int].1@)[w] == name@);
                assert(r0.subset_of(r1));
                assert(r0.subset_of(rk));
                assert(rk.contains(name@));
                lemma_unshown(*plan, r0, rk, name@);
                assert(shown_names(*plan).contains(tb@[k as int].0@)) by {
                    assert(key_names(tb@)[k as int] == tb@[k as int].0@);
                }
            }
            let ghost before = downstream@;
            let child = render_expansion_node(config, plan, tb[k].0.as_str(), rendered);
            downstream.push(child);
            proof {
                let rk2 = views(rendered@).to_set();
                assert(rk.union(rk2) =~= rk2);
                assert(shapes(downstream@) =~= shapes(before).push(shape(child)));
                let e = expansion_children(config@, *plan, name@, k as int, rk);
                assert(e.0 == seq![shape(child)] + expansion_children(config@, *plan, name@, k + 1, rk2).0);
                assert(shapes(downstream@) + expansion_children(config@, *plan, name@, k + 1, rk2).0 =~= shapes(before) + e.0);
            }
        } else {
            proof {
                if views(tb@[k as int].1@).contains(name@) {
                    let w = choose|q: int| 0 <= q < views(tb@[k as int].1@).len() && views(tb@[k as int].1@)[q] == name@;
                    assert(tb@[k as int].1@[w]@ == name@);
                }
            }
        }
        k = k + 1;
    }
    let ghost down_shapes = shapes(downstream@);
    if downstream.len() > 0 {
        children.push(TreeNode::branch(String::from_str("downstream"), downstream));
    }
    let mut label = String::from_str(name);
    label.append(" [");
    label.append(if direct.is_some() { "direct" } else { "impacted" });
    label.append("]");
    let res = TreeNode::branch(label, children);
    proof {
        let e = expansion_node(config@, *plan, name@, r0);
        let matched = match lookup(plan.direct_matches@, name@) {
            Some(files) => seq![branch_shape("matched files"@, leaf_shapes(files))],
            None => Seq::empty(),
        };
        let cmd_shape = leaf_shape("command: "@ + named_command(config@, name@));
        assert(head =~= matched.push(cmd_shape));
        let tail = if down_shapes.len() > 0 {
            seq![branch_shape("downstream"@, down_shapes)]
        } else {
            Seq::empty()
        };
        assert(shapes(children@) =~= head + tail);
        assert(down_shapes =~= expansion_children(config@, *plan, name@, 0, r1).0);
    }
    res
}

/// The node of a name that a plan shows.
fn node_of_shown<'a>(config: &'a Config, plan: &ImpactPlan, name: &str) -> (res: &'a Node)
    requires
        plan_names_configured(config@, *plan),
        shown_names(*plan).contains(name@),
    ensures
        *res == entries_map(config@)[name@],
{
    proof {
        if key_names(plan.direct_matches@).to_set().contains(name@) {
            let k = choose|k: int| 0 <= k < key_names(plan.direct_matches@).len() && key_names(plan.direct_matches@)[k] == name@;
            assert(entry_names(config@).contains(plan.direct_matches@[k].0@));
        } else {
            let k = choose|k: int| 0 <= k < key_names(plan.triggered_by@).len() && key_names(plan.triggered_by@)[k] == name@;
            assert(entry_names(config@).contains(plan.triggered_by@[k].0@));
        }
    }
    node_of(config, name)
}

/// Draws the impact of a plan: the changed files, the expansion from each
/// direct match through the nodes it triggered, and the execution order.
pub fn render_impact_tree(config: &Config, plan: &ImpactPlan) -> (res: String)
    requires
        plan_names_configured(config@, *plan),
    ensures
        res@ == tree_text(impact_tree_shape(config@, *plan)),
{
    let mut children: Vec<TreeNode> = Vec::new();
    children.push(TreeNode::branch(String::from_str("changed files"), leaves(&plan.changed_files)));
    // expansion roots
    let mut roots: Vec<TreeNode> = Vec::new();
    let mut rendered: Vec<String> = Vec::new();
    let dm = &plan.direct_matches;
    let mut k: usize = 0;
    assert(views(rendered@).to_set() =~= Set::<Seq<char>>::empty());
    while k < dm.len()
        invariant
            dm == plan.direct_matches,
            plan_names_configured(config@, *plan),
            k <= dm@.len(),
            expansion_roots(config@, *plan, 0, Set::empty()) == shapes(roots@) + expansion_roots(config@, *plan, k as int, views(rendered@).to_set()),
        decreases dm@.len() - k,
    {
        let ghost rk = views(rendered@).to_set();
        proof {
            assert(key_names(dm@)[k as int] == dm@[k as int].0@);
            assert(shown_names(*plan).contains(dm@[k as int].0@));
        }
        let ghost before = roots@;
        let node = render_expansion_node(config, plan, dm[k].0.as_str(), &mut rendered);
        roots.push(node);
        proof {
            let rk2 = views(rendered@).to_set();
            assert(rk.union(rk2) =~= rk2);
            assert(shapes(roots@) =~= shapes(before).push(shape(node)));
            assert(shapes(roots@) + expansion_roots(config@, *plan, k + 1, rk2) =~= shapes(before) + expansion_roots(config@, *plan, k as int, rk));
        }
        k = k + 1;
    }
    assert(shapes(roots@) =~= expansion_roots(config@, *plan, 0, Set::empty()));
    children.push(TreeNode::branch(String::from_str("impact expansion"), roots));
    // execution order
    let order = &plan.execution_order;
    let mut steps: Vec<TreeNode> = Vec::new();
    let mut i: usize = 0;
    while i < order.len()
        invariant
            order == plan.execution_order,
            plan_names_configured(config@, *plan),
            i <= order@.len(),
            shapes(steps@) == order_shapes(config@, views(order@.take(i as int))),
        decreases order@.len() - i,
    {
        let name = &order[i];
        let node = node_of(config, name.as_str());
        let mut label = name.clone();
        label.append(": ");
        let cmd = display_command(node.command.as_slice());
        label.append(cmd.as_str());
        let ghost before = steps@;
        let ghost lv = label@;
        steps.push(TreeNode::leaf(label));
        proof {
            assert(lv == name@ + ": "@ + named_command(config@, name@));
            assert(shapes(steps@) =~= shapes(before).push(leaf_shape(lv)));
            assert(views(order@.take(i + 1)) =~= views(order@.take(i as int)).push(name@));
            assert(shapes(steps@) =~= order_shapes(config@, views(order@.take(i + 1))));
        }
        i = i + 1;
    }
    assert(order@.take(order@.len() as int) =~= order@);
    children.push(TreeNode::branch(String::from_str("execution order"), steps));
    let root = TreeNode::branch(String::from_str("git-impact"), children);
    proof {
        assert(shapes(children@) =~= impact_tree_shape(config@, *plan).children);
    }
    render_tree(&root)
}

/// The label of a name drawn in the impact expansion: `[direct]` for a
/// direct match, `[impacted]` for a node reached through a dependency.
pub open spec fn expansion_label(plan: ImpactPlan, name: Seq<char>) -> Seq<char> {
    name + (if lookup(plan.direct_matches@, name) is Some {
        " [direct]"@
    } else {
        " [impacted]"@
    })
}

/// Drawing a node of the expansion only adds showable names to those shown.
proof fn lemma_expansion_node_grows(
    entries: Seq<(String, Node)>,
    plan: ImpactPlan,
    name: Seq<char>,
    rendered: Set<Seq<char>>,
)
    ensures
        rendered.subset_of(expansion_node(entries, plan, name, rendered).1),
        expansion_node(entries, plan, name, rendered).1.subset_of(rendered.union(shown_names(plan))),
    decreases unshown(plan, rendered), 0int, 0int,
{
    if !(rendered.contains(name) || !shown_names(plan).contains(name)) {
        let r1 = rendered.insert(name);
        lemma_unshown(plan, rendered, r1, name);
        lemma_expansion_children_grow(entries, plan, name, 0, r1);
    }
}

/// Drawing the nodes triggered by `name` only adds showable names to those
/// shown.
proof fn lemma_expansion_children_grow(
    entries: Seq<(String, Node)>,
    plan: ImpactPlan,
    name: Seq<char>,
    k: int,
    rendered: Set<Seq<char>>,
)
    ensures
        rendered.subset_of(expansion_children(entries, plan, name, k, rendered).1),
        expansion_children(entries, plan, name, k, rendered).1.subset_of(rendered.union(shown_names(plan))),
    decreases unshown(plan, rendered), 1int, plan.triggered_by@.len() - k,
{
    let tb = plan.triggered_by@;
    if 0 <= k < tb.len() {
        if views(tb[k].1@).contains(name) {
            let node = expansion_node(entries, plan, tb[k].0@, rendered);
            lemma_expansion_node_grows(entries, plan, tb[k].0@, rendered);
            let r2 = rendered.union(node.1);
            lemma_unshown(plan, rendered, r2, name);
            lemma_expansion_children_grow(entries, plan, name, k + 1, r2);
        } else {
            lemma_expansion_children_grow(entries, plan, name, k + 1, rendered);
        }
    }
}

/// Law: in the impact expansion, a node reached while its name is not yet
/// shown is drawn with its label, `[direct]` for a direct match and
/// `[impacted]` otherwise, and its name is shown from then on; a node
/// reached once its name is shown is drawn as `name [already shown]` with
/// nothing below it. Drawing adds to the shown names only names that the
/// direct matches or `triggered_by` hold, and never removes one, so each
/// name is labelled at most once.
pub proof fn law_impact_tree_labels(
    entries: Seq<(String, Node)>,
    plan: ImpactPlan,
    name: Seq<char>,
    rendered: Set<Seq<char>>,
)
    ensures
        rendered.contains(name) ==> expansion_node(entries, plan, name, rendered) == (
            leaf_shape(name + " [already shown]"@),
            rendered,
        ),
        !rendered.contains(name) && shown_names(plan).contains(name) ==> {
            &&& expansion_node(entries, plan, name, rendered).0.label == expansion_label(plan, name)
            &&& expansion_node(entries, plan, name, rendered).1.contains(name)
        },
        rendered.subset_of(expansion_node(entries, plan, name, rendered).1),
        expansion_node(entries, plan, name, rendered).1.subset_of(rendered.union(shown_names(plan))),
{
    lemma_expansion_node_grows(entries, plan, name, rendered);
    if !rendered.contains(name) && shown_names(plan).contains(name) {
        let r1 = rendered.insert(name);
        lemma_unshown(plan, rendered, r1, name);
        lemma_expansion_children_grow(entries, plan, name, 0, r1);
        let res = expansion_node(entries, plan, name, rendered);
        let tag = if lookup(plan.direct_matches@, name) is Some {
            "direct"@
        } else {
            "impacted"@
        };
        reveal_strlit(" [");
        reveal_strlit("]");
        reveal_strlit("direct");
        reveal_strlit("impacted");
        reveal_strlit(" [direct]");
        reveal_strlit(" [impacted]");
        assert(name + " ["@ + tag + "]"@ =~= expansion_label(plan, name));
    }
}

/// Law: the configuration tree has one subtree per node, in name order;
/// each is labelled with the node's name and lists, in this order, a
/// `paths` branch with one leaf per pattern when there is any pattern, a
/// `depends_on` branch with one leaf per dependency when there is any
/// dependency, and last the command line.
pub proof fn law_config_tree_shape(entries: Seq<(String, Node)>, i: int)
    requires
        0 <= i < entries.len(),
    ensures
        config_tree_shape(entries).children.len() == entries.len(),
        ({
            let t = config_tree_shape(entries).children[i];
            let node = entries[i].1;
            let np: int = if node.paths.len() > 0 { 1 } else { 0 };
            let nd: int = if node.depends_on.len() > 0 { 1 } else { 0 };
            &&& t.label == entries[i].0@
            &&& t.children.len() == np + nd + 1
            &&& node.paths.len() > 0 ==> t.children[0] == branch_shape("paths"@, leaf_shapes(views(node.paths@)))
            &&& node.depends_on.len() > 0 ==> t.children[np] == branch_shape(
                "depends_on"@,
                leaf_shapes(views(node.depends_on@)),
            )
            &&& t.children[np + nd] == leaf_shape("command: "@ + command_text(views(node.command@)))
        }),
{
    assert(config_tree_shape(entries).children[i] == config_node_shape(entries[i].0@, entries[i].1));
}

/// The lookup of a name finds the files of its first entry, and nothing
/// for a name no entry has.
proof fn lemma_lookup_first(entries: Seq<(String, Vec<String>)>, name: Seq<char>, k: int)
    requires
        -1 <= k < entries.len(),
        k >= 0 ==> entries[k].0@ == name,
        forall|j: int| 0 <= j < entries.len() && (k < 0 || j < k) ==> #[trigger] entries[j].0@ != name,
    ensures
        k >= 0 ==> lookup(entries, name) == Some(views(entries[k].1@)),
        k < 0 ==> lookup(entries, name) is None,
    decreases entries.len(),
{
    if entries.len() > 0 && k != 0 {
        let t = entries.drop_first();
        assert forall|j: int| 0 <= j < t.len() && (k - 1 < 0 || j < k - 1) implies #[trigger] t[j].0@ != name by {
            assert(t[j] == entries[j + 1]);
        }
        if k > 0 {
            assert(t[k - 1] == entries[k]);
            lemma_lookup_first(t, name, k - 1);
        } else {
            assert(entries[0].0@ != name);
            lemma_lookup_first(t, name, -1);
        }
    }
}

/// Law: in the impact expansion, a node drawn for the first time lists
/// under `matched files` exactly the files of its entry in the direct
/// matches, in order, one leaf each; a node with no such entry has no
/// `matched files` branch, and its command comes first.
pub proof fn law_expansion_matched_files(
    entries: Seq<(String, Node)>,
    plan: ImpactPlan,
    name: Seq<char>,
    rendered: Set<Seq<char>>,
    k: int,
)
    requires
        !rendered.contains(name),
        shown_names(plan).contains(name),
        -1 <= k < plan.direct_matches@.len(),
        k >= 0 ==> plan.direct_matches@[k].0@ == name,
        forall|j: int|
            0 <= j < plan.direct_matches@.len() && (k < 0 || j < k) ==> #[trigger] plan.direct_matches@[j].0@ != name,
    ensures
        k >= 0 ==> expansion_node(entries, plan, name, rendered).0.children[0] == branch_shape(
            "matched files"@,
            views(plan.direct_matches@[k].1@).map_values(|f: Seq<char>| leaf_shape(f)),
        ),
        k < 0 ==> expansion_node(entries, plan, name, rendered).0.children[0] == leaf_shape(
            "command: "@ + command_text(views(entries_map(entries)[name].command@)),
        ),
{
    lemma_lookup_first(plan.direct_matches@, name, k);
}

/// The entries of `triggered_by` from the `k`-th on that list `name` among
/// the nodes that triggered them.
pub open spec fn triggered_from(plan: ImpactPlan, name: Seq<char>, k: int) -> Seq<(String, Vec<String>)> {
    plan.triggered_by@.subrange(k, plan.triggered_by@.len() as int).filter(
        |e: (String, Vec<String>)| views(e.1@).contains(name),
    )
}

/// A drawn node's label: its name, then one of the three tags.
pub open spec fn labelled(label: Seq<char>, name: Seq<char>) -> bool {
    ||| label == name + " [already shown]"@
    ||| label == name + " [direct]"@
    ||| label == name + " [impacted]"@
}

/// Law: below a node of the impact expansion, the trees drawn for what it
/// triggered are one per entry of `triggered_by` that lists the node among
/// its sources, in the order of `triggered_by`, each labelled with that
/// entry's name.
pub proof fn law_expansion_children(
    entries: Seq<(String, Node)>,
    plan: ImpactPlan,
    name: Seq<char>,
    k: int,
    rendered: Set<Seq<char>>,
)
    requires
        0 <= k <= plan.triggered_by@.len(),
    ensures
        expansion_children(entries, plan, name, k, rendered).0.len() == triggered_from(plan, name, k).len(),
        forall|i: int|
            0 <= i < triggered_from(plan, name, k).len() ==> labelled(
                #[trigger] expansion_children(entries, plan, name, k, rendered).0[i].label,
                triggered_from(plan, name, k)[i].0@,
            ),
    decreases unshown(plan, rendered), plan.triggered_by@.len() - k,
{
    let tb = plan.triggered_by@;
    let pred = |e: (String, Vec<String>)| views(e.1@).contains(name);
    if k == tb.len() {
        assert(tb.subrange(k, tb.len() as int) =~= Seq::<(String, Vec<String>)>::empty());
        assert(Seq::<(String, Vec<String>)>::empty().filter(pred) =~= Seq::<(String, Vec<String>)>::empty()) by {
            reveal(Seq::filter);
        }
    } else {
        let rest_seq = tb.subrange(k + 1, tb.len() as int);
        assert(tb.subrange(k, tb.len() as int) =~= seq![tb[k]] + rest_seq);
        Seq::filter_distributes_over_add(seq![tb[k]], rest_seq, pred);
        assert(seq![tb[k]].filter(pred) =~= if pred(tb[k]) { seq![tb[k]] } else { Seq::empty() }) by {
            reveal(Seq::filter);
            assert(seq![tb[k]].drop_last() =~= Seq::<(String, Vec<String>)>::empty());
            assert(Seq::<(String, Vec<String>)>::empty().filter(pred) =~= Seq::<(String, Vec<String>)>::empty());
        }
        let sel = triggered_from(plan, name, k);
        let sel_rest = triggered_from(plan, name, k + 1);
        if views(tb[k].1@).contains(name) {
            let node = expansion_node(entries, plan, tb[k].0@, rendered);
            let r2 = rendered.union(node.1);
            lemma_unshown(plan, rendered, r2, name);
            law_expansion_children(entries, plan, name, k + 1, r2);
            lemma_node_label(entries, plan, tb[k].0@, rendered);
            let ch = expansion_children(entries, plan, name, k, rendered).0;
            let rest = expansion_children(entries, plan, name, k + 1, r2).0;
            assert(ch == seq![node.0] + rest);
            assert(sel =~= seq![tb[k]] + sel_rest);
            assert forall|i: int| 0 <= i < sel.len() implies labelled(#[trigger] ch[i].label, sel[i].0@) by {
                if i > 0 {
                    assert(ch[i] == rest[i - 1]);
                    assert(sel[i] == sel_rest[i - 1]);
                }
            }
        } else {
            law_expansion_children(entries, plan, name, k + 1, rendered);
            assert(sel =~= sel_rest);
        }
    }
}

/// A node of the expansion is labelled with its name.
proof fn lemma_node_label(entries: Seq<(String, Node)>, plan: ImpactPlan, name: Seq<char>, rendered: Set<Seq<char>>)
    ensures
        labelled(expansion_node(entries, plan, name, rendered).0.label, name),
{
    if !(rendered.contains(name) || !shown_names(plan).contains(name)) {
        let tag = if lookup(plan.direct_matches@, name) is Some {
            "direct"@
        } else {
            "impacted"@
        };
        reveal_strlit(" [");
        reveal_strlit("]");
        reveal_strlit("direct");
        reveal_strlit("impacted");
        reveal_strlit(" [direct]");
        reveal_strlit(" [impacted]");
        if lookup(plan.direct_matches@, name) is Some {
            assert(name + " ["@ + tag + "]"@ =~= name + " [direct]"@);
        } else {
            assert(name + " ["@ + tag + "]"@ =~= name + " [impacted]"@);
        }
    }
}

} // verus!
