# Context-free grammar analysis, verified with Verus

`src/context_free_grammar.rs` holds grammars over any symbol types that
implement `ItemTrait`, and computes, for every nonterminal, whether it derives
the empty string and its FIRST set. Both are specified as least fixed points
(`is_nullable`, `in_first`): a nonterminal is nullable, or a terminal is in
its FIRST set, exactly when a finite derivation shows it. The public proof
functions there state how the two tables relate to each other and to the
productions.

`src/context_free_grammar/slr.rs` holds the pieces of an SLR(1) parser:
LR(0) items, the automaton of items with its transitions, the deterministic
automaton built from it, and parser configurations with shift and reduce.
These pieces are unfinished, and their contracts say what they do today:

- epsilon transitions of the item automaton are only ever added to entries
  that already exist, and none does, so `Lr0ItemNfa::new` records none;
  `Dfa::get_item_group` still computes the epsilon closure over whatever
  epsilon table the automaton holds;
- transitions of the deterministic automaton are only collected for symbols
  that already have an entry, so it has a single state, the epsilon closure
  of the items that begin a derivation of the start symbol, and no
  transition;
- `try_reduce` compares the stack starting one place above its top, so it
  only accepts productions with an empty body.

Contracts assume that `==` on the symbol types is equality and that `clone`
copies (`symbol_laws`). The tests under `tests/` exercise the library on
concrete grammars.
