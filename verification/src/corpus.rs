//! The genuine-unification differential corpus.
//!
//! Every case here is a conjunctive query whose answer set depends on something a ground
//! set-join cannot do: a data-side variable capturing a query subterm, a coreferent data
//! variable forcing two query positions equal, an occurs failure that must yield nothing, or a
//! non-ground answer, with ground controls and an empty case beside them.

use vstd::prelude::*;

verus! {

/// A conjunctive-query case. `patterns` share a variable scope (a repeated `$y` is the same
/// query variable, i.e. a join); each `facts` entry is parsed in its own scope (its variables
/// are renamed apart). `proj` names the variables a ground projection of the answers reports.
pub struct Case {
    pub name: &'static str,
    pub patterns: &'static [&'static str],
    pub facts: &'static [&'static str],
    pub proj: &'static [&'static str],
}

/// The texts of a list of strings.
pub open spec fn texts(s: &[&str]) -> Seq<Seq<char>> {
    s@.map_values(|x: &str| x@)
}

/// The full corpus, grouped by what it exercises: each case's name, patterns, facts and
/// projected variables, in order.
pub fn cases() -> (r: Vec<Case>)
    ensures
        r@.len() == 14,
        forall|i: int| 0 <= i < r@.len() ==> #[trigger] r@[i].patterns@.len() >= 1,
        r@[0].name@ == "capture query constant"@,
        texts(r@[0].patterns) == seq!["(rel $x b)"@],
        texts(r@[0].facts) == seq!["(rel a $w)"@],
        texts(r@[0].proj) == seq!["x"@],
        r@[1].name@ == "capture nonground compound, p fixed by join"@,
        texts(r@[1].patterns) == seq!["(r (a $p) b)"@, "(r (b) $p)"@],
        texts(r@[1].facts) == seq!["(r $d b)"@, "(r a b)"@],
        texts(r@[1].proj) == seq!["p"@],
        r@[2].name@ == "capture (f x), x grounded by join"@,
        texts(r@[2].patterns) == seq!["(r (f $x) $y)"@, "(s $x)"@],
        texts(r@[2].facts) == seq!["(r $d b)"@, "(s c)"@],
        texts(r@[2].proj) == seq!["x"@, "y"@],
        r@[3].name@ == "function-type unification both sides"@,
        texts(r@[3].patterns) == seq!["(: ($f) A)"@, "(: $f (-> A))"@],
        texts(r@[3].facts) == seq!["(: (f) A)"@, "(: f (-> A))"@],
        texts(r@[3].proj) == seq!["f"@],
        r@[4].name@ == "coreferent fact forces join equal"@,
        texts(r@[4].patterns) == seq!["(e $x $y)"@, "(e $y $z)"@],
        texts(r@[4].facts) == seq!["(e $u $u)"@, "(e a b)"@, "(e b c)"@],
        texts(r@[4].proj) == seq!["x"@, "z"@],
        r@[5].name@ == "flat data coref, nonground answer"@,
        texts(r@[5].patterns) == seq!["(e $x $y)"@],
        texts(r@[5].facts) == seq!["(e $u $u)"@],
        texts(r@[5].proj) == seq!["x"@, "y"@],
        r@[6].name@ == "ground and wildcard at same position"@,
        texts(r@[6].patterns) == seq!["(p $x)"@, "(q $x)"@],
        texts(r@[6].facts) == seq!["(p a)"@, "(p b)"@, "(q a)"@, "(q $w)"@],
        texts(r@[6].proj) == seq!["x"@],
        r@[7].name@ == "occurs via data coref yields nothing"@,
        texts(r@[7].patterns) == seq!["(e $x (f $x))"@],
        texts(r@[7].facts) == seq!["(e $w $w)"@],
        texts(r@[7].proj) == seq!["x"@],
        r@[8].name@ == "indirect occurs across join yields nothing"@,
        texts(r@[8].patterns) == seq!["(p $x $y)"@, "(p $y (s $x))"@],
        texts(r@[8].facts) == seq!["(p $u $u)"@],
        texts(r@[8].proj) == seq!["x"@, "y"@],
        r@[9].name@ == "polymorphic application typing"@,
        texts(r@[9].patterns) == seq!["(: $fn (-> $arg $res))"@, "(: $x $arg)"@],
        texts(r@[9].facts) == seq!["(: v0 t0)"@, "(: f0 (-> t0 t1))"@, "(: id (-> $a $a))"@],
        texts(r@[9].proj) == seq!["fn"@, "arg"@, "res"@, "x"@],
        r@[10].name@ == "schematic at join position, nested"@,
        texts(r@[10].patterns) == seq!["(r (($x $x) b) a)"@, "(r $y $x)"@],
        texts(r@[10].facts) == seq!["(r $m (a b))"@, "(r c b)"@, "(r $n (a))"@, "(r $p $q)"@, "(r (b (b)) (a))"@],
        texts(r@[10].proj) == seq!["x"@, "y"@],
        r@[11].name@ == "ground triangle"@,
        texts(r@[11].patterns) == seq!["(e $x $y)"@, "(e $y $z)"@, "(e $x $z)"@],
        texts(r@[11].facts) == seq!["(e a b)"@, "(e a c)"@, "(e b c)"@, "(e b d)"@],
        texts(r@[11].proj) == seq!["x"@, "y"@, "z"@],
        r@[12].name@ == "ground path of length two"@,
        texts(r@[12].patterns) == seq!["(edge $x $y)"@, "(edge $y $z)"@],
        texts(r@[12].facts) == seq!["(edge a b)"@, "(edge b d)"@, "(edge a c)"@, "(edge c d)"@],
        texts(r@[12].proj) == seq!["x"@, "y"@, "z"@],
        r@[13].name@ == "empty: no fact has equal arguments"@,
        texts(r@[13].patterns) == seq!["(edge $x $x)"@],
        texts(r@[13].facts) == seq!["(edge a b)"@, "(edge b c)"@],
        texts(r@[13].proj) == seq!["x"@],
{
    let mut v: Vec<Case> = Vec::new();
    v.push(Case {
        name: "capture query constant",
        patterns: &["(rel $x b)"],
        facts: &["(rel a $w)"],
        proj: &["x"],
    });
    v.push(Case {
        name: "capture nonground compound, p fixed by join",
        patterns: &["(r (a $p) b)", "(r (b) $p)"],
        facts: &["(r $d b)", "(r a b)"],
        proj: &["p"],
    });
    v.push(Case {
        name: "capture (f x), x grounded by join",
        patterns: &["(r (f $x) $y)", "(s $x)"],
        facts: &["(r $d b)", "(s c)"],
        proj: &["x", "y"],
    });
    v.push(Case {
        name: "function-type unification both sides",
        patterns: &["(: ($f) A)", "(: $f (-> A))"],
        facts: &["(: (f) A)", "(: f (-> A))"],
        proj: &["f"],
    });
    v.push(Case {
        name: "coreferent fact forces join equal",
        patterns: &["(e $x $y)", "(e $y $z)"],
        facts: &["(e $u $u)", "(e a b)", "(e b c)"],
        proj: &["x", "z"],
    });
    v.push(Case {
        name: "flat data coref, nonground answer",
        patterns: &["(e $x $y)"],
        facts: &["(e $u $u)"],
        proj: &["x", "y"],
    });
    v.push(Case {
        name: "ground and wildcard at same position",
        patterns: &["(p $x)", "(q $x)"],
        facts: &["(p a)", "(p b)", "(q a)", "(q $w)"],
        proj: &["x"],
    });
    v.push(Case {
        name: "occurs via data coref yields nothing",
        patterns: &["(e $x (f $x))"],
        facts: &["(e $w $w)"],
        proj: &["x"],
    });
    v.push(Case {
        name: "indirect occurs across join yields nothing",
        patterns: &["(p $x $y)", "(p $y (s $x))"],
        facts: &["(p $u $u)"],
        proj: &["x", "y"],
    });
    v.push(Case {
        name: "polymorphic application typing",
        patterns: &["(: $fn (-> $arg $res))", "(: $x $arg)"],
        facts: &["(: v0 t0)", "(: f0 (-> t0 t1))", "(: id (-> $a $a))"],
        proj: &["fn", "arg", "res", "x"],
    });
    v.push(Case {
        name: "schematic at join position, nested",
        patterns: &["(r (($x $x) b) a)", "(r $y $x)"],
        facts: &["(r $m (a b))", "(r c b)", "(r $n (a))", "(r $p $q)", "(r (b (b)) (a))"],
        proj: &["x", "y"],
    });
    v.push(Case {
        name: "ground triangle",
        patterns: &["(e $x $y)", "(e $y $z)", "(e $x $z)"],
        facts: &["(e a b)", "(e a c)", "(e b c)", "(e b d)"],
        proj: &["x", "y", "z"],
    });
    v.push(Case {
        name: "ground path of length two",
        patterns: &["(edge $x $y)", "(edge $y $z)"],
        facts: &["(edge a b)", "(edge b d)", "(edge a c)", "(edge c d)"],
        proj: &["x", "y", "z"],
    });
    v.push(Case {
        name: "empty: no fact has equal arguments",
        patterns: &["(edge $x $x)"],
        facts: &["(edge a b)", "(edge b c)"],
        proj: &["x"],
    });
    v
}

} // verus!
