# jdc_core

Machine-neutral decompiler core. A front-end turns bytecode into a graph of
basic blocks and, per block, statements, operand-stack values and a terminal;
this crate turns that into a tree of nested Java regions.

- `types` - field and method descriptors, generic signatures
- `typeutil` - pure helpers over types
- `var` - the variable table
- `ir` - expressions, statements and block results
- `cfg` - blocks, edges and exception ranges
- `structure` - dominators, post-dominators, reachability, try groups and the
  structuring walk

Every executable function carries a contract, except the one that reads the
clock, of which nothing can be claimed. The contracts are proved with Verus; a
few small wrappers around the standard library are believed, and each says what
is claimed of it.
`structure::model` and `structure::branch` say what the walk computes;
`structure::walk` and `structure::sides` compute it; `structure::laws` states
what holds of every walk; `structure::sample` structures a small method with every
kind of terminal.

A walk is bounded by its depth, by a visit budget and by a wall-clock deadline.
Past any of them it is a jump to its entry. The contracts fix every region in
which no walk was cut by the clock; where one was, they still fix the shape of
the loops, switches and try regions around it, the region names only blocks and
try groups of the method, and no budget grows.
