# lpc_lpir

The intermediate representation of the LightPlayer compiler, written in
Verus: types, values, instructions, blocks, functions and modules, a text
format with its parser and printer, control-flow and dominance analyses, an
IR verifier, builders, and a float-to-fixed16x16 pass.

Every function under `src/` carries a contract that Verus proves, but for
two small trusted wrappers around `std` (`Vec::capacity` and `String::push`),
whose contracts are taken as given.

## Layout

- `src/types.rs`, `value.rs`, `entity.rs`, `entity_map.rs`, `sourceloc.rs`,
  `signature.rs`, `block.rs`, `condcodes.rs`, `trapcode.rs`: the basic
  entities and their maps.
- `src/dfg/`: instruction data, opcodes and the data flow graph.
- `src/layout/`: block and instruction order, as linked lists checked
  against an abstract view; `inverse.rs` holds the edits that undo each
  other.
- `src/function.rs`, `module.rs`, `inst.rs`: functions, modules and the
  structured instruction form.
- `src/text.rs`, `printer.rs`: the text of values, instructions and
  functions.
- `src/parser/`: the text format, from characters to checked functions and
  modules; `lexer.rs` also proves that the parser reads back the names and
  numbers the printer writes.
- `src/analysis/`: control flow graph and dominator tree; `paths.rs`
  defines dominance by paths (every path from the entry passes through the
  dominator) and proves it a preorder whose strict dominators of a block
  are ordered, which the tree is built from.
- `src/ir_verifier/`: the IR verifier, check by check; `report.rs` gives
  the text of its errors.
- `src/builder/`: function, block, insert and replace builders.
- `src/transform/`: the float-to-fixed16x16 pass; the fixed-point value of
  a float constant is computed by a function the caller hands in.
- `app/lib.rs`: the float arithmetic (float to fixed16x16 and back) and the
  pass driven with it.
- `tests/`: the tests.
