# lang_const_empirical

An empirical search for the constant `C(ε)` in Lang's conjecture on linear
forms in two logarithms, `Λ = b1·log α1 + b2·log α2`.

`src/` is the verified library (Verus):

- `point`: a sampled point `(b1, b2)`, its height `B = max(|b1|, |b2|)` and
  the order key of `|Λ|`; the choice of `b2` between the two roundings of
  `b1·(−log α1 / log α2)`.
- `frontier`: the Pareto frontier of points (no other point is both lower and
  smaller), the points of smallest `|Λ|`, and the laws that let each chunk of
  `b1` values be filtered on its own.
- `natural`, `convergents`: natural numbers of any size and the convergents
  `p_k / q_k` of a continued fraction, with `p_k q_{k-1} − p_{k-1} q_k = ±1`.
- `regimes`: the runs of `ε` over which one frontier point dictates `C(ε)`,
  found through a map keyed by the coefficients `(b1, b2)` packed into one integer.
- `pending`: the `b1` values a (resumed) run still has to sample.
- `filename`: the names of a run's files.

The size `|Λ|` is a non-negative binary64 value; the library holds its IEEE-754
bit pattern, which orders non-negative values as the values themselves
(`+∞` is `0x7ff0_0000_0000_0000`, NaN lies above it).

`app/main.rs` is the program: argument handling and prompts, expression
evaluation, the multi-precision floating-point work (through `rug`), the
parallel loops, the JSON output and the plots.
