# l_system_rs

Lindenmayer systems with verified string rewriting.

- `src/` is verified with Verus:
  - `rule`, `system`: production rules and deterministic L-systems (rewriting,
    iteration, symbol counts), with laws such as "rewriting a concatenation
    rewrites each part" and "the Fibonacci system's generations concatenate".
  - `expr`, `parametric`: the grammar of parametric successor strings
    (modules, parameter expressions, `$N` placeholders).
  - `stochastic`: the xorshift64 generator behind stochastic rule selection.
  - `turtle`: the command that each symbol gives the turtle.
- `app/` holds what works on floating point numbers: stochastic and
  parametric L-systems and the turtle's geometry, built on the library.
- `tests/` runs the library on concrete inputs.
