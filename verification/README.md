# simple-decompiler

A decompiler from x86 and x86-64 binaries (ELF and PE) to C. The decompiler is a Verus library;
a small command-line program stands around it.

## Steps

1. Load a binary: sections, symbols, imports and entry point.
2. Find functions, from symbols, the entry point and the targets of calls.
3. Disassemble each function.
4. Lift its instructions to an intermediate representation: virtual registers and basic blocks.
5. Analyse the control flow: flow graph, dominator tree, loops.
6. Write structured C.

## Layout

    src/binary/     ELF and PE files, lookup of bytes and symbols
    src/x86/        instructions as plain values, and decoding
    src/disasm/     discovery and disassembly of functions
    src/ir/         the intermediate representation, and lifting
    src/analysis/   flow graph, reverse post-order, dominators, loops
    src/codegen/    C code
    src/pipeline.rs listing, selection and decompilation of functions
    src/text.rs     numbers and substrings as text
    src/finite.rs, src/listing.rs, src/sorted.rs
                    facts about finite sets, lists of keys and ascending lists
    tests/          tests of the library
    app/            the command line

## What is proved, and what is trusted

Every function states what it returns over mathematical models: a binary as sequences of sections
and symbols, a flow graph as a set of edges, C code as a sequence of characters. Files are parsed by
`goblin` and machine code is decoded by `iced-x86`; what they return is named, not described, and
the wrappers around them, in `src/binary/load.rs` and `src/x86/decode.rs`, say what is taken from
them on trust. `Cargo.toml` asks `log` for its features `max_level_info` and
`release_max_level_info`: some debug messages of `goblin` add up numbers of a file that can
overflow, and so no build holds them. All that follows is proved against those names.

Besides the contracts the library states laws, among them:

- the functions found are those of symbols, entry point and calls (`disasm::model`), and the
  instructions of a function hold every target of a jump or branch that lies in a section
  (`disasm::targets`);
- the blocks of a lifted function have distinct numbers and exactly one terminator each, and the
  first of them holds the code at the start of the function (`ir::blocks`);
- no register of a lifted function is assigned twice, and the names of one machine register give
  one value (`ir::single`); each register that is read has a number below the counter
  (`ir::reads`);
- in the reverse post-order an edge goes forward unless its target leads back to its source
  (`analysis::forward`);
- the nodes above a block in the dominator tree are exactly its dominators (`analysis::dom`);
- the header of a loop dominates the loop (`analysis::loops`), and the innermost loop of a block
  lies inside every other loop with that block (`analysis::nesting`);
- the C text holds each block that can be reached exactly once, and no other block; every `goto` has
  exactly one label, and every `continue` and `break` stands in a loop (`codegen::complete`,
  `codegen::reached`); so it is in the lines of the text (`codegen::printed`);
- control passes through the C text as it passes through the blocks: behind each block it goes on
  with the block that the terminator names, whatever the conditions say (`codegen::flow`,
  `codegen::faithful`);
- the C text is determined by the binary and the selection alone, whatever the order in which hash
  maps are walked (`codegen::determined`).

## Usage

    decomp -l input_binary                  list the functions found
    decomp input_binary                     decompile all functions
    decomp -f add -f factorial input_binary decompile some functions, by name or address
    decomp -o output.c input_binary         write to a file
    decomp -v input_binary                  say more
