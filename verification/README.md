# pe_parser

A reader of 64-bit PE images that disassembles their code into basic blocks,
written in Verus: the library under `src/` is verified, and `app/` is the
command line around it.

Given an image, the parser checks its headers, records its model, word size,
entry point and image base, and explores its code from the entry point and the
exported functions: it sweeps each place linearly into a basic block (until an
instruction that ends a block, or until no more code can be read), queues the
targets of direct calls, both ways of conditional branches and the targets of
jumps, and explores each address once.

Layout of `src/`:

- `disassember.rs`: instructions and the x86 decoder (iced-x86 behind trusted wrappers).
- `base_block.rs`: basic blocks, their size, containment and splitting.
- `segment.rs`: code segments and reads from them.
- `image.rs`: what the parser reads of an image, once, through pelite (behind
  trusted wrappers): the header fields, the sections with their data, and the
  export table.
- `exploration.rs`: the model of an exploration (linear sweeps, the places a block
  leads to, one exploration step) and the laws about it: what a finished
  exploration has explored (`lemma_targets_explored`), how a split divides a
  block (`lemma_split_sizes`), that blocks stay filed under their start
  (`lemma_placed_keys`), that exploring a place twice changes nothing
  (`lemma_walk_again`), and that an exploration is deterministic
  (`lemma_step_deterministic`, `lemma_outcome_unique`).
- `parser.rs`: the exploration context and the parser.
- `object.rs`, `text.rs`: what is learnt of an image, and its text.

`app/main.rs` reads the file named on the command line and prints what the
parser learns of it.
