# rumba_core

Verified building blocks for simplifying mixed boolean-arithmetic (MBA)
expressions over 64-bit words, written in Verus.

- `expr`, `semantics`: the expression tree and its value under an assignment.
- `parser`, `program`: reading expressions and straight-line programs from text.
- `canonical*`, `prettify*`, `render`: normal forms and printing, each shown to
  keep the value.
- `factorized_section`, `section_value`, `graph_compile`, `graph_value`: the
  section graphs of two-variable sources; a compiled graph is proved to
  describe its source.
- `one_base*`, `fsc_frontend`, `candidate`, `install_value`: certifying and
  installing smaller replacements.
- `linear_add`: the linear certificate for sums whose product graph is too large.
- `expr_tables`, `cache`, `names`, `bimap`: sampling comparisons, caches and
  variable naming.

`tests/` holds the executable tests; every function in `src/` is verified.
