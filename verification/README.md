# velin_core

Verified core of the Velin scripting language: the value model, built-ins and
expression evaluator, the expression compiler with constant folding and the
program builder around it, register bytecode with its validator and the
execution metadata precomputed for validated programs, and the static checks
run over compiled programs (control-flow graph, definite assignment, type
flow). Contracts are stated over
mathematical models and proved with Verus.

- `src/`: the library (every function verified).
- `tests/`: behaviour tests run against the compiled library.
- `app/`: the command-line front end (argument handling and I/O).
