# git-impact

Plans which commands to run for the files changed in Git: the files are
matched against the path patterns of a graph of nodes, the impact is
expanded to every node that depends on a matched node, and the commands
of the impacted nodes run with each node after the nodes it depends on.

## Layout

- `src/`: the verified library.
  - `config`: the node graph, the rules a configuration must satisfy and
    the order in which violations are reported, including the cycle that
    the depth-first check finds.
  - `graph`: direct matches, downstream expansion and the depth-first
    execution order.
  - `render`: the node list, the plan summary and the tree drawings.
  - `runner`: command display and the steps of a (dry) run.
  - `init`: the patterns and node that `init` writes.
  - `git`: reading the output of `git diff`, `git ls-files` and
    `git rev-parse`.
  - `glob`: the `globset` calls, behind trusted wrappers.
  - `text`, `deps`: name order, sorted name sets, whitespace, lines,
    walks and cycles.
  - `agent`: the agent setup prompt.
- `app/`: the command line: arguments, YAML, files, Git and child
  processes.
- `tests/`: tests of the library.

## Collections keyed by name

Nodes, direct matches, triggers and impacted names are kept in vectors
sorted by name, with that order (and the absence of repeats) stated as an
invariant or in the contracts, rather than in `String`-keyed `BTreeMap`,
`BTreeSet`, `HashMap` or `HashSet` values. The declared forms of those maps
were not tried: with a `String` key Verus proves little of what such a
map holds, while a sorted vector lets every contract say which names it
holds and in which order.
