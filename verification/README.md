# mucas

A compressor whose compressed form is a program. A small virtual machine with
ten instructions (literals, back references, transforms, loops, macro calls,
references to shared blocks, deflated literals, table scans and their fields,
halt) runs the program and yields the data. The compressor parses the data,
looks for periodic blocks, repeated blocks, delimited tables, JSON records and
arithmetic sequences, and keeps a rewriting only where it makes the program
shorter. Programs are kept in containers, and many files in archives.

The library is written in Verus. Its contracts state what every program does and
that whatever is compressed comes back byte for byte.

## Layout

- `src/machine.rs`, `src/vm.rs`: the machine as mathematics, and the interpreter
  that is proved to follow it. `src/guarantees.rs` states what holds of every
  run: the output only grows and stays bounded, a loop is its body run as often,
  a halt ends the program, and transforms undo each other.
- `src/leb.rs`, `src/tokens.rs`, `src/builder.rs`: byte codes of numbers and
  instructions, and that they read back.
- `src/lz.rs`: the parse into literals and back references.
- `src/synth/`: the rewritings. `draft.rs` states what a step is and proves that
  steps keep the output and shorten the program; `rewrite.rs` applies the one
  that gains most until none is left that gains and shortens; `guarantees.rs`
  proves that its result is determined, that a second pass changes nothing, and
  what disabled rewritings leave alone; `refs.rs` refers to shared blocks.
- `src/sched.rs`, `src/pipeline.rs`: telling kinds of data apart, and choosing
  the smaller of two programs.
- `src/format.rs`, `src/archive.rs`: the container of one program and the archive
  of many files. `src/archive_guarantees.rs` states what holds over several calls
  and that packing is determined.
- `src/consensus.rs`, `src/consensus_builder.rs`: shared blocks and how they are
  found.
- `src/text.rs`: numbers in the messages of errors.
- `src/judge.rs`: the questions of statistics that callers answer. Contracts name
  the answers and say what follows from each; that data comes back holds whatever
  the answers are.
- `src/deflate.rs`: the zlib codec, which is relied on and not proved.
- `app/`: the command line, with files, progress bars and floating point.

## What is relied on

The codec of `flate2` gives back what it was given, and its streams depend on
the data and the level alone. `String::from_utf8` accepts valid UTF-8 and
nothing else. Each is stated where it is called.
