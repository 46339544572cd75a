# Basalt

A vectorized SQL query engine whose behaviour is stated in contracts and proved
with Verus.

```
src/
  types/          data types, values, schemas, coercion of operand types
  float64, float_text, natural, text
                  IEEE 754 doubles on their bits, and exact decimal conversion
  array, batch, compute, scalar, lexsort
                  columns, batches of columns, and the kernels over them
  expr/           bound expressions: types, nullability, evaluation on a row
  sql/            tokens, syntax trees, lexer, parser
  plan/           binding: names to columns, explicit casts, output schema
  logical_plan/   logical plans and their builder
  optimizer/      rewrite rules, estimates, costs, join order
  pruning/        skipping data by its statistics
  physical_expr/  expressions over batches
  physical_plan/  operators, the planner, spilled batches
tests/            tests of the library
app/              files, clocks and the floating-point unit
```

Every function of `src/` states what it returns for every input that it
accepts. Public proof functions state what holds of several functions together:
that optimizer rules keep the value of expressions and the rows of the plans
they rewrite, that skipped data holds no matching row, that a spilled batch is
read back as it was written, that join orders cover every relation, and more.

Doubles are held as their bits. Additions, products and quotients are rounded
as IEEE 754 says, by integer arithmetic that is proved against the exact result.
