# rdc

A desk calculator in the manner of `dc`: reverse-polish notation over
fixed-point numbers of unlimited precision (integers from `num-bigint`).

- `src/num.rs` — `BigNum`, an integer kept as two's-complement bytes; its
  arithmetic is done by `num_bigint` behind small trusted wrappers.
- `src/fixed.rs` — `Fixed`, a number `value / 10^precision`: arithmetic,
  comparison, parsing and printing in bases 2 to 16, each stated over the
  mathematical model `Dec`.
- `src/memory.rs` — the value stack, the 256 registers and the settings.
- `src/eval.rs` — evaluation of scripts one command at a time
  (`Machine::step`), specified by `step_spec`.
- `src/laws.rs` — properties proved for all inputs.
- `app/main.rs` — the program: a line editor loop or scripts from the
  command line; it performs the output and error reports that each step
  asks for.
