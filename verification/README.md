# meno

A small compiler front end, verified with Verus.

- `src/lexer.rs` turns source text into tokens and fills the identifier table.
- `src/parser.rs` is a recursive-descent parser from tokens to the syntax tree
  of `src/ast.rs`; the grammar is stated as spec functions.
- `src/ir.rs` lowers the syntax tree to a three-address intermediate
  representation with virtual registers, labels and jumps, and prints it.
- `src/front_laws.rs` and `src/ir_laws.rs` prove properties that hold for
  every input: identifiers are numbered in order and parsed programs only
  name entries of the identifier table; the run of blanks between tokens
  does not matter; programs joined by `;` parse to the joined statements;
  lowered code defines each label once,
  every jump lands on a label of the same code, and only freshly allocated
  registers are written.
- `src/ir_order.rs` proves more of lowered code: jumps only go forward;
  each conditional gives one conditional jump, one jump and two labels;
  without unary operators, every register is written before it is read and
  the register of an expression statement is new; each binary instruction's
  register is written by no other instruction.
- `src/text.rs` builds the text of numbers, labels and names.
- `app/main.rs` reads a source file, lexes and parses it, and prints the tree.
