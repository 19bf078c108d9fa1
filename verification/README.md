# photonsim

A simulator of photonic circuits that keeps track of which wave packets can no longer be
told apart. Pair sources, delay lines, 2x2 components and single-photon detectors are nodes;
each runs on its own, takes batches of wave packets in and hands batches on. The joint state
of packets is an *island of interaction*: a list of operators and of the packets in flight.
Islands live in a ring of cells that all nodes share, and are merged where packets meet.

The library under `src/` is written in Verus. What it computes is stated in the contracts of
its functions and proved.

- `types`, `util`: handles that wrap, batch limits, an open-addressing set of numbers
- `concurrency`: identifiers, operators and islands, the registry of cell states, the
  interaction store with what workers take from it and give back, and the laws of that store
- `nodes`: wave packets and batches, ports, the pairing of packets of two ports, the four
  kinds of node, the events that a node is told, and the laws on which packets interact, what
  a cluster is, where a batch may end and what a node does in its run
- `collapser`: drawing the detector outcomes of an island, when the course of its photons comes
  to an end, and the laws on which islands have an outcome and on how photons and clicks are
  counted
- `parquet`: merging time tags of several detectors into one ordered stream, and the chunks
  and files that it is written in, and the laws of that stream

`tests/` runs the library. `app/` is the program around it: threads and channels, matrices and
other floating-point numbers, and files.
