# compiler

The lexical front end of the NineScript compiler, written in Verus.

- `src/location.rs`: source locations, their moves, and how they are shown.
- `src/lexer/`: a plain tokenizer over a sequence of characters.
- `src/source.rs`: preparation of the source (markers before function heads
  and tuple-unpacking targets, tabs widened to spaces).
- `src/scanner/`: the indentation-aware lexer whose tokens the grammar reads;
  `model.rs` states what one step does, `laws.rs` proves what every step keeps.
- `src/text.rs`: character classes, digits and the string helpers they share.
- `app/`: the syntax tree (which holds `f64` literals), and iterator adapters
  over both lexers.
