# ahola

The toolchain of the Ahola scripting language, as a verified library.

- `src/lexer.rs` reads source text line by line into tokens.
- `src/compiler.rs` turns tokens into bytecode and fills a symbol table
  (`src/symbols.rs`).
- `src/optimizer.rs` drops stores to slots that nothing reads.
- `src/vm.rs` runs one instruction at a time on the machine's memory and hands
  back what the instruction asks of the world (printing, files, databases).
- `src/numbers.rs` holds the big integers of the language as decimal text and
  leaves reading, adding and writing them to num-bigint.

`app/` is the `yeah run <file>` command: it reads the file, evaluates the
math functions (on floating point), and carries out the effects that the
machine asks for, with sled for the databases.
