# RustCAD

Parametric modelling from sketches, with a verified core.

The library in `src/` holds the data structures, algorithms and rules. It is
written in Verus: every function states what it does, and Verus proves it.

- `slots`, `ids`: storage under stable, generation-based keys
- `expr`, `arith`: formulas with a meaning over the real numbers
- `sketch`, `constraint`, `lowering`, `dimension`, `query`, `measure`: 2D
  sketches, their constraints as equations with exact derivatives, dimensions,
  questions about constraints, snapping and picking
- `solver`: the damped least squares solver and the degrees of freedom
- `union_find`, `rings`, `profiles`: closed profiles of a sketch
- `geometry`, `mesh`: plans for solids, triangle meshes, binary STL
- `document`, `rebuild`, `persist`: the history of features, its rebuild, and
  the file format
- `session`, `input`, `drawing`, `editor`, `panels`, `scene`: the interactive
  part, from state and input to the next state and what is shown
- `text`: numbers as text

The library does not compute with floating point numbers itself. It builds
formulas, whose meaning it proves, and hands them to functions of the caller:
one that evaluates a formula, one that compares two numbers, one that factorizes
a matrix, one that builds a solid. A contract then says which formulas are
evaluated and what is decided by the answers.

The program in `app/` supplies these functions in double precision, with
`nalgebra` for the matrices and `truck` for the solids, and adds the window, the
graphics and the files.

`tests/` runs the library with functions like these, written out in each file.
