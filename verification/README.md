# rustuna

Hyperparameter optimisation: studies, trials, samplers and the multi-objective machinery
behind them, with the decisions verified by Verus.

- `src/` is the library. It stores and compares numbers, and does not compute with them beyond
  converting integers and scaling them by powers of two: a `Float` is the bit pattern of a
  64-bit floating-point number. What a study, a trial or a storage holds is stated over
  mathematical maps and sequences; each operation says what it changes and on which inputs it
  fails, and why.
- `app/` is what stands around it: studies shared between threads, floating-point
  arithmetic (volumes, densities, scaled parameters), the clock, and the Python module.
- `tests/` runs the library, with small drivers for the arithmetic.

Where the arithmetic takes part in an algorithm, the library holds the algorithm as a plan
or as steps, and takes the computed numbers as arguments: see `multi_objective::hssp` for a
greedy selection by volumes, `importance` for a comparison of densities, `tpe` and `nsgaii`
for samplers.

Properties that relate several operations are public proof functions whose names begin with
`law_`.
