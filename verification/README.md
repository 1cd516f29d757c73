# simplex

A linear programming solver with machine-checked contracts, written in
[Verus](https://github.com/verus-lang/verus). It minimises a linear objective over variables with
limits under linear equations and inequalities, by the bounded simplex method on sparse LU factors.

The library is generic over the numbers it computes with (`scalar::Scalar`). The contracts say
which operations a result comes from, in which order, so they hold of rounding arithmetic as well:
the factors are those of one elimination that a spec function describes, a solution is what the
sweeps through the factors give, a step is the one that the rules of choice name.

Over arithmetic that does not round (`scalar::exact`; `rational::Rational` is such a type), and
where no number on the way overflows, the library also proves what the results mean:

- the factors multiply to the chosen columns, and the solutions solve their systems, each of which
  has one solution only (`lu`, `solve`, `unique`);
- with a threshold above zero and up to one, no entry of the lower factor is larger than one over
  the threshold, and columns that cannot be factored are linearly dependent (`lu`, `singular`);
- the inverse is one from both sides, and the inverse of the inverse is the matrix (`invert`);
- a program has one first vertex, and constraints without variables that hold leave no trace in it,
  however many there are (`fixed`, `blank`);
- every vertex lies on the constraints, with reduced costs and an objective value that belong to it,
  from the first vertex on, through steps and edits (`vertex`, `steps`, `first`, `renewed`,
  `handover`, `edited`);
- the squared norms of the columns that are brought up to date are those that a calculation from
  scratch gives, from the first vertex on, through both phases and through every edit (`norms`,
  `normed`);
- the bases that the method comes to have independent columns, so with a threshold above zero and up
  to one no step ends for want of factors (`regular`);
- the last vertex of an optimization or an edit misses its limits by no more than what the tolerance
  adds up to on the way; where no difference is lost in the tolerance, as without tolerance none is,
  it is within them (`feasible`, `drift`, `limits`, `outcome`);
- no point that meets the constraints and limits is worth more than the last vertex of an
  optimization, but for the tolerance times its distance; where no reduced cost is lost in the
  tolerance at the end, none is worth more at all (`optimum`, `outcome`);
- in terms of the program that was put in, with the same provisos: the solution is feasible, no
  feasible point has a smaller objective, a program that is refused or called infeasible has no
  feasible point, and one that is called unbounded has, whatever it starts from, points with an
  objective as small as one likes that are as feasible as the vertex where that was found
  (`program`);
- the verdicts "infeasible" and "unbounded" are right in the same sense, also after edits
  (`handover`, `feasible`, `dual`, `limits`, `outcome`);
- a variable that is set keeps its value until it is unset; setting one more variable, or one more
  constraint, does not make the best value better; a variable that is set and unset again leads back
  to the best value, which does not depend on the way to it (`edits`, `outcome`);
- any sequence of edits leads from optimum to optimum (`calls`);
- cuts spare the integer points and take away the vertex (`cuts`).

Layout: `src/` is the verified library, `tests/` runs it on concrete values, `app/` offers it over
`f64` and the matrices of the `sprs` crate. The calls into `sprs` that the library itself makes are
in `src/outside.rs`.
