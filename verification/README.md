# rdf_glance

The verified core of RDF Glance, a viewer for RDF graphs: its string
indexes, node records, namespace prefixes, binary project format, and the
graph algorithms behind its layouts. The library's own functions in `src/`
carry contracts that Verus proves. The calls into outside crates (string
interning, indexed and bidirectional maps, varints, byte order, zlib,
random numbers) go through small `#[verifier::external_body]` wrappers
whose contracts Verus believes without proof; each one's doc comment says
what it claims of the outside function.

- `src/string_indexer.rs`: interned strings (`StringIndexer`) and the
  literal text cache (`StringCache`).
- `src/nobject.rs`: nodes with their types, literal properties and
  references; the node cache (nodes by IRI, numbered in insertion order)
  and the string tables of the loaded data.
- `src/rdfwrap.rs`: how each parsed triple enters the node cache and the
  tables (types, references with their reverse references, literals by
  language filter), and gathering one node from a list of triples; laws:
  references stay mirrored, node indexes never change.
- `src/table_view.rs`: the index behind the type table: counts over all
  nodes, each type's instances, property and reference statistics and
  reverse reference counts, the types ordered by instance count, and the
  type rows sorted by a count column.
- `src/prefix_manager.rs`: the one-to-one table of namespace prefixes;
  shortening and expanding IRIs.
- `src/persistency/`: the project file: header, typed blocks, varints,
  length-prefixed strings, zlib-compressed payloads, and the readers and
  writers of each block, with round-trip laws; whole projects are
  written and read in `src/persistency/project.rs`, with a law that a
  stored project reads back.
- `src/layoutalg/circular.rs`: connected components (union-find),
  neighbour lists, random depth-first search orders and order crossover
  for the circular layout.
- `src/layoutalg/depth_first.rs`: the depth-first pre-order over given
  neighbour lists, stated exactly.
- `src/layoutalg/multipartite.rs`: ordering of node groups and of the nodes
  within them.
- `src/layoutalg/ortho/`: the orthogonal edge router: the breadth-first
  search for routes through the routing graph (finding every reachable
  box) and their reduction to channel changes, route ordering (acyclic
  order graph and topological sort), legs of routes per channel, their
  stacking order, and slot assignment.
- `src/support/sorted_vec.rs`: a set kept as a strictly ascending vector.
- `src/ui/`: the list of recent project files and the query dialog state.

`app/` is a small command line program around the library: it reads a
project file, reports what it holds and its type table, orders its nodes
on a circle (the search that compares orders by a floating point cost
lives there), and can write the project back.

`tests/` exercises the library on concrete values.
