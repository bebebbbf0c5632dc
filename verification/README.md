# lib: verified core of a high-quality backward-reference search

This crate holds the integer logic of the "Zopfli" backward-reference search
of a Brotli encoder, written in Verus with its contracts proved:

- `node`: the per-position nodes of the shortest-path search, tracing the
  cheapest path back, turning it into commands, distance shortcuts and the
  distance cache at a node;
- `command`: insert/copy length codes, command codes, distance prefix codes
  and command construction;
- `backward_match`: matches packed in 64 bits;
- `matcher`: hashing, match lengths, the short-range and static-dictionary
  parts of the match search, and joining a block to the previous one;
- `queue`: the queue of the most promising start positions;
- `update`: the candidate commands tried from a position, and node
  evaluation;
- `histogram`: literal, command and distance histograms of a command list;
- `zopfli`: the decision steps of the search loops and of the two search
  passes over a block.

Costs are single-precision values; the library stores them as bit patterns
and leaves the arithmetic on them to `app/`, which also runs the search loops
against a binary-tree hasher, a static dictionary and a literal cost
estimator supplied by the caller.
