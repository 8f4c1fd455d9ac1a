# owl2_reasoner

An OWL 2 reasoning support library whose logic is written in Verus and
proved against its contracts.

## Layout

- `src/` — the verified library: the ontology model (IRIs, entities, class
  expressions, axioms), the N-Triples, RDF/XML and OWL/XML readers, the
  compact binary ontology format, class-hierarchy indexes (bitset closure,
  topological and linear ancestor computation, GRAIL interval labels,
  on-demand reachability), profile detection, reasoner routing, and the
  decision logic of the speculative tableaux search (branch expansion,
  nogood stores, result collection).
- `tests/` — tests of the library on concrete values.
- `app/` — the command-line program and what cannot be verified: file and
  environment access, the OWL/XML event feed from `quick-xml`, the global
  allocator that tracks memory, and the floating-point ontology
  characteristics and meta-reasoner.

## Verifying

Each function in `src/` carries `requires`/`ensures` clauses; laws that
relate several functions are public proof functions beside them. Calls into
outside crates (`rio_xml`, `rio_api`, `oxiri`, `rand`, `num_cpus`) and a few
std functions go through small trusted wrappers whose contracts say what the
outside code is documented to do.
