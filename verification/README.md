# mork_uni_join

A unification-aware conjunctive join over MORK-style terms, written in Verus and proved
against its contracts.

Terms are symbols, variables and expressions, stored as a prefix-free byte encoding in which
variables are De Bruijn levels, so alpha-equivalent terms encode to the same bytes. On top of
that the library has:

- `term`, `parse`: the term model, the encoder and decoder, and an S-expression reader;
- `subst`, `unify`, `mgu`: substitutions, a backtrackable unifier with an occurs check, and
  the existence of most general unifiers;
- `oracle`: the nested-loop matcher whose answers define what every join must return;
- `wcojoin`, `unijoin`, `join`: the worst-case-optimal leapfrog join, its unification
  variant, and `uni_join`, which routes a query to one of them by whether a data variable
  reaches a join position; `agreement` proves when their answers equal the matcher's;
- `trie`, `trie_join`: a byte trie with a zipper and a subterm cursor, and the join that
  descends it with data-side capture;
- `antiunify`: least general generalization;
- `semiring`, `scored`, `quantale`, `string_fuzzy`: scored (fuzzy) matching over semirings;
- `zorder`, `randgen`, `corpus`, `prolog`: a Z-order index, generators, the query corpus,
  and the Prolog program text that states the same queries.

`src/` is the verified library; `tests/` holds the executable tests; `app/` runs an external
Prolog system on the same queries and is not verified.

What the proofs cover, and what they do not:

- The trie joins (`trie_unify_join`, `equality_join`, `unify_join_z`, `unify_join_z_opts`)
  are verified free of panics and overflow; the reading of stored subterms they rest on is
  proved exact (every stored subterm is read, and nothing else); the search restores its
  substitution and only adds answers. Of the answers, completeness over ground facts is
  proved: every answer of the matcher is found, with or without capture (and exactness for a
  query with no patterns or no facts). Completeness is also proved over facts with wildcards
  that capture ground structured subterms of the patterns, with capture on (with it off, such
  answers are not owed). Captures of subterms that still hold unbound query variables (as
  in `(r (a $p) b), (r (b) $p)` over `(r $d b), (r a b)`, where `(a $p)` is captured before
  `$p` is bound, giving `$p = b`), soundness (that nothing else is found), agreement with the
  leapfrog join on facts with variables, and the equality join being a subset of the capture
  join are checked by the tests only.
- Scored matching (`match_cost`, `eval_cost`) has its scores proved for an exact leaf (where
  it is unification and the scores count derivations) and, for `match_cost`, for any leaf on
  patterns that meet no variable twice; with a tolerant leaf on other inputs only the tests
  check the scores. `Tropical` and `Count` saturate at the bounds of their machine integers.
