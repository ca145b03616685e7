# conix

A conic quadratic solver whose integer and combinatorial core is proved
correct against its specifications.

`src/` is the proved library:

- `status`, `settings`: solver status, update classes (a join semilattice with
  its laws), engine choice and the final status decision.
- `csc`, `assembly`: compressed sparse column matrices; building them from
  triplets, permuting a symmetric upper triangle, selecting rows. Canonical
  matrices with the same entries are equal.
- `perm`: permutations, their inverses, and the round-trip laws.
- `amd`: the minimum-degree fill-reducing ordering, specified over the
  elimination graph.
- `ldl`: the symbolic LDL' analysis (elimination tree, column counts of L,
  row patterns of L).
- `cones`: the cone catalogue and the product cone with its offsets.
- `kkt`: assembly of the KKT matrix patterns and the maps that locate every
  data entry in them.
- `workspace`: the problem type and its validation.

`app/` holds the floating-point numerics (factorization values, cone
projections, the iterative engines, scaling) and the C and Python bindings,
built on the library's verified types and functions.

`tests/` exercises the library on concrete inputs.
