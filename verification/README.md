# gdsl

Graph data structures and graph algorithms, written in Verus and proved
against their contracts.

Nodes are identified by keys. A node owns its key, its value and two
adjacency lists of `(neighbour key, edge value)` pairs (outbound and
inbound); a graph owns its nodes. Searches and traversals run on a
`Snapshot` of a graph: the node keys and, for each node, the edges that may
be followed from it (forwards, backwards, or both ways).

Modules:

- `adjacent`: adjacency lists of a node.
- `digraph`, `ungraph`: directed and undirected graphs and their nodes.
- `dinode`, `binode`, `unnode`: graphs of self-contained nodes with a
  node-level search object.
- `search`: the search engine (breadth first, depth first, priority first)
  and path reconstruction.
- `graph_search`: search objects that keep their edge tree, and paths.
- `traverse`: breadth-first traversals steered by an explorer callback,
  sequential or with each level examined in parallel.
- `order`: pre-order, post-order and level-order listings.
- `scc`: strongly connected components.
- `flow`: flow networks and the Edmonds-Karp maximum flow.
- `heap`: a min-heap.
- `graph_node`, `graph_traverse`: index-based nodes and edges with lock
  flags, and step-by-step traversals that close the nodes they reach.
- `laws`: properties relating the operations to one another.

What the contracts establish, besides what each call returns:

- A search only follows edges of the snapshot its filter accepts, and the
  path it reports is a walk from its start to its target. A search that
  expands every edge of a node (all but the first-edge depth-first one)
  and stops without its target leaves no walk to the target along edges
  the filter never refuses.
- With distinct keys, a path a search reports passes no node twice (a
  cycle none but its start), and the node listings of `order` hold every
  node a walk from the root reaches along edges the filter never refuses.
- The strongly connected components list every node exactly once.
- A breadth-first traversal that ends without finishing has settled every
  edge leaving the nodes it reached; the path backtracked from one that
  finishes repeats no node.
- Edmonds-Karp stops only when no walk through edges with residual
  capacity leads from source to target, and some set of nodes holding the
  source but not the target then has every edge leaving it saturated. It
  keeps the flow balanced at every other node, and no other balanced flow
  of the same network moves more from source to target. A second run
  pushes nothing.
- A breadth-first search that reaches its target (from a start with no
  edge back to itself) leaves no shorter walk to it; a breadth-first
  traversal finishes at no greater depth than any walk to that node; the
  level-order listing comes by non-decreasing distance.
- A priority search expands, each time, a node of least (or greatest)
  rank among those reached and not yet expanded: when a node is taken,
  every node reached by then that ranks strictly before it has been
  expanded (`priority_ordered`).
- The pre-order listing reaches each node from the latest listed node that
  still has an edge to a node not listed (`pre_ordered`).
- Two nodes share a strongly connected component only if each reaches the
  other, and a node is left alone only if no cycle through it stays among
  the nodes not yet assigned.
- Disconnecting an undirected node removes the connection on both sides;
  isolating a node removes every record of it from the graph.
- A last-in first-out depth-first search expands, each time, the node
  reached last among those not expanded yet (`stack_ordered`), and both it
  and the priority searches record every edge of a node they expanded to a
  node not reached yet (`groups_complete`).
- A breadth-first traversal explores each level in full before an edge
  leaves the next (`levels_explored`), and its last edge follows in its
  source's list only edges already dealt with (`finish_prefix`).
- The orphans are exactly the roots that are also leaves.
