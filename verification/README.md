# bitfield

A verified expander for bitfield declarations such as

    pub Header, version: 3, pub flags: [1; 5], length: 16

Fields lie one after the other, most significant bit first, in an array of bytes. A field of one
bit is a `bool`; longer fields, up to 64 bits, are the smallest unsigned integers that hold them.
Every field gets a getter `get_name` and a setter `set_name`.

- `src/token.rs`, `src/grammar.rs`, `src/parser.rs`: reading declarations, with errors and recovery
- `src/spelling.rs`: which tokens spell a declaration, and laws of reading them
- `src/types.rs`, `src/field.rs`, `src/items.rs`, `src/expand.rs`: generating code
- `src/ast.rs`, `src/semantics.rs`: generated code and what it computes
- `src/bits.rs`, `src/access.rs`, `src/layout.rs`: bits, reading and writing them, field positions
- `src/laws.rs`: what the accessors of a declaration do together
- `app/`: the compiler plugin that offers the macro `bitfield!`; it needs the compiler's own crates
  `syntax`, `rustc` and `rustc_plugin`
