//! The rendering for an independent oracle: SWI-Prolog with `occurs_check`.
//!
//! A query pattern becomes a goal `fact(<pattern>)`, a stored fact becomes
//! `assertz(fact(<fact>))` (its variables fresh per use, the rename-apart), shared query
//! variables across goals are the join, and `set_prolog_flag(occurs_check, true)` makes
//! resolution sound. Answers are full tuples over the query variables, canonicalized by
//! `numbervars/3` so two answers that differ only by renaming leftover variables collapse to
//! one, matching the De Bruijn canonical form of the answer keys.

use vstd::prelude::*;
use crate::term::{Term, TermV, views, lemma_view_app, vec_position};
use crate::text::{decimal, push_decimal, push_str, push_chars, str_chars, chars_to_string};
use crate::oracle::Conj;

verus! {

/// The shared comparison rendering: symbols verbatim, variables as `_<level>`, expressions as
/// `(a b ...)`.
pub open spec fn canon_text(t: TermV) -> Seq<char>
    decreases t, 1nat,
{
    match t {
        TermV::Sym(s) => s,
        TermV::Var(v) => seq!['_'] + decimal(v as nat),
        TermV::App(a) => seq!['('] + canon_seq(a, true) + seq![')'],
    }
}

pub open spec fn canon_seq(a: Seq<TermV>, first: bool) -> Seq<char>
    decreases a, 0nat,
{
    if a.len() == 0 {
        seq![]
    } else {
        (if first { seq![] } else { seq![' '] }) + canon_text(a[0]) + canon_seq(a.subrange(1, a.len() as int), false)
    }
}

/// Render a canonical (De Bruijn) answer tuple to the shared comparison string: symbols
/// verbatim, variables as `_<level>`, expressions as `(a b ...)`.
pub fn canon(t: &Term) -> (r: String)
    ensures
        r@ == canon_text(t@),
{
    let mut out: Vec<char> = Vec::new();
    write_canon(t, &mut out);
    proof {
        assert(out@ =~= canon_text(t@));
    }
    chars_to_string(&out)
}

fn write_canon(t: &Term, out: &mut Vec<char>)
    ensures
        final(out)@ == old(out)@ + canon_text(t@),
    decreases t,
{
    match t {
        Term::Sym(s) => {
            let cs = str_chars(s.as_str());
            push_chars(out, &cs);
        }
        Term::Var(v) => {
            out.push('_');
            push_decimal(out, *v);
            proof {
                assert(out@ =~= old(out)@ + (seq!['_'] + decimal(*v as nat)));
            }
        }
        Term::App(a) => {
            proof {
                lemma_view_app(*a);
            }
            let ghost va = views(a@);
            let ghost target = old(out)@ + canon_text(t@);
            out.push('(');
            proof {
                assert(va.subrange(0, va.len() as int) =~= va);
                assert(out@ + canon_seq(va, true) + seq![')'] =~= target);
            }
            let mut i: usize = 0;
            #[verifier::loop_isolation(false)]
            while i < a.len()
                invariant
                    i <= a.len(),
                    out@ + canon_seq(va.subrange(i as int, va.len() as int), i == 0) + seq![')'] == target,
                decreases a.len() - i,
            {
                let ghost r = va.subrange(i as int, va.len() as int);
                let ghost o = out@;
                proof {
                    assert(decreases_to!(a@ => a@[i as int]));
                    assert(r[0] == a@[i as int]@);
                    assert(r.subrange(1, r.len() as int) =~= va.subrange(i + 1, va.len() as int));
                }
                if i > 0 {
                    out.push(' ');
                }
                write_canon(&a[i], out);
                i += 1;
                proof {
                    let sep: Seq<char> = if i - 1 == 0 { seq![] } else { seq![' '] };
                    assert(out@ == o + sep + canon_text(r[0]));
                    assert(out@ + canon_seq(va.subrange(i as int, va.len() as int), false) + seq![')'] =~=
                        o + canon_seq(r, i - 1 == 0) + seq![')']);
                }
            }
            out.push(')');
            proof {
                assert(va.subrange(va.len() as int, va.len() as int) =~= Seq::<TermV>::empty());
                assert(out@ =~= target);
            }
        }
    }
}

/// How variables are named in the Prolog source: query variables by their position among the
/// query variables (`_Q<k>`), the variables of fact `j` by fact and id (`_F<j>_<id>`).
pub enum Naming {
    Query,
    Fact(usize),
}

/// The position of the first occurrence of `x` in `s`.
pub open spec fn first_pos(s: Seq<u32>, x: u32) -> int
    decreases s.len(),
{
    if s.len() == 0 {
        0
    } else if s[0] == x {
        0
    } else {
        1 + first_pos(s.subrange(1, s.len() as int), x)
    }
}

proof fn lemma_first_pos(s: Seq<u32>, x: u32, i: int)
    requires
        0 <= i < s.len(),
        s[i] == x,
        forall|j: int| 0 <= j < i ==> s[j] != x,
    ensures
        first_pos(s, x) == i,
    decreases s.len(),
{
    if i > 0 {
        let r = s.subrange(1, s.len() as int);
        lemma_first_pos(r, x, i - 1);
    }
}

/// The name a variable gets (`qv` are the query variables).
pub open spec fn var_name(n: Naming, qv: Seq<u32>, id: u32) -> Seq<char> {
    match n {
        Naming::Query => seq!['_', 'Q'] + decimal(first_pos(qv, id) as nat),
        Naming::Fact(j) => seq!['_', 'F'] + decimal(j as nat) + seq!['_'] + decimal(id as nat),
    }
}

/// Every variable this naming is asked for has a name.
pub open spec fn names_all(n: Naming, qv: Seq<u32>, t: TermV) -> bool {
    match n {
        Naming::Query => forall|v: u32| crate::term::fv(t).contains(v) ==> qv.contains(v),
        Naming::Fact(_) => true,
    }
}

/// A symbol's characters with `'` and `\` escaped.
pub open spec fn escaped(s: Seq<char>) -> Seq<char>
    decreases s.len(),
{
    if s.len() == 0 {
        seq![]
    } else {
        escaped(s.drop_last()) + (if s.last() == '\'' || s.last() == '\\' { seq!['\\', s.last()] } else { seq![s.last()] })
    }
}

/// The Prolog source of a term: symbols are quoted atoms, variables are named by `n`, an
/// expression `(s0 .. sn)` is `'$a'(s0, .., sn)` and the empty expression the atom `'$nil'`.
pub open spec fn pl_text(t: TermV, n: Naming, qv: Seq<u32>) -> Seq<char>
    decreases t, 1nat,
{
    match t {
        TermV::Sym(s) => seq!['\''] + escaped(s) + seq!['\''],
        TermV::Var(v) => var_name(n, qv, v),
        TermV::App(a) => if a.len() == 0 {
            seq!['\'', '$', 'n', 'i', 'l', '\'']
        } else {
            seq!['\'', '$', 'a', '\'', '('] + pl_seq(a, n, qv, true) + seq![')']
        },
    }
}

pub open spec fn pl_seq(a: Seq<TermV>, n: Naming, qv: Seq<u32>, first: bool) -> Seq<char>
    decreases a, 0nat,
{
    if a.len() == 0 {
        seq![]
    } else {
        (if first { seq![] } else { seq![','] }) + pl_text(a[0], n, qv) + pl_seq(a.subrange(1, a.len() as int), n, qv, false)
    }
}

fn push_var_name(out: &mut Vec<char>, n: &Naming, qv: &Vec<u32>, id: u32)
    requires
        (*n) is Query ==> qv@.contains(id),
    ensures
        final(out)@ == old(out)@ + var_name(*n, qv@, id),
{
    match n {
        Naming::Query => {
            let k = match vec_position(qv, id) {
                Some(k) => k,
                None => {
                    proof {
                        assert(false);
                    }
                    0
                }
            };
            proof {
                lemma_first_pos(qv@, id, k as int);
            }
            out.push('_');
            out.push('Q');
            push_decimal_usize(out, k);
            proof {
                assert(out@ =~= old(out)@ + var_name(*n, qv@, id));
            }
        }
        Naming::Fact(j) => {
            out.push('_');
            out.push('F');
            push_decimal_usize(out, *j);
            out.push('_');
            push_decimal(out, id);
            proof {
                assert(out@ =~= old(out)@ + var_name(*n, qv@, id));
            }
        }
    }
}

fn push_decimal_usize(out: &mut Vec<char>, n: usize)
    ensures
        final(out)@ == old(out)@ + decimal(n as nat),
    decreases n,
{
    if n < 10 {
        out.push(crate::text::digit(n as u32));
        proof {
            assert(decimal(n as nat) =~= seq![crate::text::digit_char(n as nat)]);
        }
    } else {
        push_decimal_usize(out, n / 10);
        out.push(crate::text::digit((n % 10) as u32));
        proof {
            assert(decimal(n as nat) == decimal((n / 10) as nat).push(crate::text::digit_char((n % 10) as nat)));
        }
    }
}

/// Render a term to Prolog source into `out`.
fn to_prolog(t: &Term, name: &Naming, qv: &Vec<u32>, out: &mut Vec<char>)
    requires
        names_all(*name, qv@, t@),
    ensures
        final(out)@ == old(out)@ + pl_text(t@, *name, qv@),
    decreases t,
{
    match t {
        Term::Sym(s) => {
            let ghost o = out@;
            out.push('\'');
            let cs = str_chars(s.as_str());
            let mut i: usize = 0;
            while i < cs.len()
                invariant
                    i <= cs@.len(),
                    out@ == o + seq!['\''] + escaped(cs@.take(i as int)),
                decreases cs.len() - i,
            {
                let c = cs[i];
                if c == '\'' || c == '\\' {
                    out.push('\\');
                }
                out.push(c);
                proof {
                    assert(cs@.take(i + 1).drop_last() =~= cs@.take(i as int));
                    assert(out@ =~= o + seq!['\''] + escaped(cs@.take(i + 1)));
                }
                i += 1;
            }
            out.push('\'');
            proof {
                assert(cs@.take(cs@.len() as int) =~= cs@);
                assert(out@ =~= o + pl_text(t@, *name, qv@));
            }
        }
        Term::Var(id) => {
            proof {
                assert(crate::term::fv(t@).contains(*id));
            }
            push_var_name(out, name, qv, *id);
        }
        Term::App(a) => {
            proof {
                lemma_view_app(*a);
            }
            let ghost va = views(a@);
            let ghost o = out@;
            if a.len() == 0 {
                out.push('\'');
                out.push('$');
                out.push('n');
                out.push('i');
                out.push('l');
                out.push('\'');
                proof {
                    assert(out@ =~= o + pl_text(t@, *name, qv@));
                }
            } else {
                let ghost target = o + pl_text(t@, *name, qv@);
                out.push('\'');
                out.push('$');
                out.push('a');
                out.push('\'');
                out.push('(');
                proof {
                    assert(va.subrange(0, va.len() as int) =~= va);
                    assert(out@ + pl_seq(va, *name, qv@, true) + seq![')'] =~= target);
                    crate::term::lemma_fv_all(va, va.len());
                }
                let mut i: usize = 0;
                #[verifier::loop_isolation(false)]
                while i < a.len()
                    invariant
                        i <= a.len(),
                        out@ + pl_seq(va.subrange(i as int, va.len() as int), *name, qv@, i == 0) + seq![')'] == target,
                    decreases a.len() - i,
                {
                    let ghost r = va.subrange(i as int, va.len() as int);
                    let ghost o2 = out@;
                    proof {
                        assert(decreases_to!(a@ => a@[i as int]));
                        assert(r[0] == a@[i as int]@);
                        assert(r.subrange(1, r.len() as int) =~= va.subrange(i + 1, va.len() as int));
                        assert forall|v: u32| crate::term::fv(a@[i as int]@).contains(v) implies (*name is Query ==> qv@.contains(v)) by {
                            assert(crate::term::fv(va[i as int]).contains(v));
                            assert(crate::term::fv_all(va, va.len()).contains(v));
                        }
                    }
                    if i > 0 {
                        out.push(',');
                    }
                    to_prolog(&a[i], name, qv, out);
                    i += 1;
                    proof {
                        let sep: Seq<char> = if i - 1 == 0 { seq![] } else { seq![','] };
                        assert(out@ == o2 + sep + pl_text(r[0], *name, qv@));
                        assert(out@ + pl_seq(va.subrange(i as int, va.len() as int), *name, qv@, false) + seq![')'] =~=
                            o2 + pl_seq(r, *name, qv@, i - 1 == 0) + seq![')']);
                    }
                }
                out.push(')');
                proof {
                    assert(va.subrange(va.len() as int, va.len() as int) =~= Seq::<TermV>::empty());
                    assert(out@ =~= target);
                }
            }
        }
    }
}

/// The `assertz` lines of the first `k` facts.
pub open spec fn asserts_text(facts: Seq<TermV>, k: nat) -> Seq<char>
    decreases k,
{
    if k == 0 || k > facts.len() {
        seq![]
    } else {
        asserts_text(facts, (k - 1) as nat) + "    assertz(fact("@ + pl_text(facts[k - 1], Naming::Fact((k - 1) as usize), seq![])
            + ")),\n"@
    }
}

/// The goals of the first `k` patterns, comma separated.
pub open spec fn goals_text(pats: Seq<TermV>, qv: Seq<u32>, k: nat) -> Seq<char>
    decreases k,
{
    if k == 0 || k > pats.len() {
        seq![]
    } else {
        goals_text(pats, qv, (k - 1) as nat) + (if k > 1 { ", "@ } else { seq![] }) + "fact("@ + pl_text(pats[k - 1], Naming::Query, qv)
            + seq![')']
    }
}

/// The first `k` query-variable names, comma separated.
pub open spec fn qnames(k: nat) -> Seq<char>
    decreases k,
{
    if k == 0 {
        seq![]
    } else {
        qnames((k - 1) as nat) + (if k > 1 { seq![','] } else { seq![] }) + seq!['_', 'Q'] + decimal((k - 1) as nat)
    }
}

/// The output wrapper: the tuple of query-variable bindings.
pub open spec fn outw_text(n: nat) -> Seq<char> {
    if n == 0 {
        "'$nil'"@
    } else {
        "'$a'("@ + qnames(n) + seq![')']
    }
}

/// The complete SWI-Prolog program for one conjunctive query over one fact set.
pub open spec fn program_text(pats: Seq<TermV>, qv: Seq<u32>, facts: Seq<TermV>) -> Seq<char> {
    PROLOG_HEAD@ + asserts_text(facts, facts.len()) + "    true"@ + PROLOG_MAIN@ + goals_text(pats, qv, pats.len())
        + PROLOG_COPY@ + outw_text(qv.len()) + PROLOG_TAIL@
}

pub const PROLOG_HEAD: &'static str = ":- set_prolog_flag(occurs_check, true).\n:- dynamic fact/1.\n\nrender_canon(T) :- ( T = '$VAR'(N) -> format(\"_~w\", [N])\n; T == '$nil' -> ( write('('), write(')') )\n; (compound(T), functor(T, '$a', _)) -> ( T =.. [_|As], write('('), render_args(As), write(')') )\n; atom(T) -> write(T)\n; write(T) ).\nrender_args([]).\nrender_args([A]) :- !, render_canon(A).\nrender_args([A|As]) :- render_canon(A), write(' '), render_args(As).\n\nsetup :-\n";

pub const PROLOG_MAIN: &'static str = ".\n\nmain :- setup,\n    findall(Out, ( ";

pub const PROLOG_COPY: &'static str = ", copy_term(";

pub const PROLOG_TAIL: &'static str = ", Out), numbervars(Out, 0, _) ), L0),\n    sort(L0, L),\n    forall(member(M, L), (render_canon(M), nl)).\n\n:- ( catch(main, E, (format(user_error, \"PROLOG_ERROR: ~q~n\", [E]), true)) -> true ; true ), halt.\n";

/// The goals of the first `m` patterns start the goals of the first `k`.
proof fn lemma_goals_prefix(pats: Seq<TermV>, qv: Seq<u32>, m: nat, k: nat)
    requires
        m <= k <= pats.len(),
    ensures
        goals_text(pats, qv, m).len() <= goals_text(pats, qv, k).len(),
        goals_text(pats, qv, k).take(goals_text(pats, qv, m).len() as int) == goals_text(pats, qv, m),
    decreases k,
{
    if m < k {
        lemma_goals_prefix(pats, qv, m, (k - 1) as nat);
        let y = (if k > 1 { ", "@ } else { seq![] }) + "fact("@ + pl_text(pats[k - 1], Naming::Query, qv) + seq![')'];
        assert(goals_text(pats, qv, k) == goals_text(pats, qv, (k - 1) as nat) + y);
        assert(goals_text(pats, qv, k).take(goals_text(pats, qv, m).len() as int)
            =~= goals_text(pats, qv, (k - 1) as nat).take(goals_text(pats, qv, m).len() as int));
    } else {
        assert(goals_text(pats, qv, k).take(goals_text(pats, qv, m).len() as int) =~= goals_text(pats, qv, m));
    }
}

/// The findall goal is the conjunction of the patterns' `fact/1` goals: for every pattern but
/// the last, the program holds that pattern's goal, then the conjunction operator `, `, then
/// the next pattern's goal.
pub proof fn law_goals_conjoined(pats: Seq<TermV>, qv: Seq<u32>, facts: Seq<TermV>, i: int)
    requires
        0 <= i,
        i + 1 < pats.len(),
    ensures
        ({
            let pt = program_text(pats, qv, facts);
            let mid = seq!['f', 'a', 'c', 't', '('] + pl_text(pats[i], Naming::Query, qv) + seq![')', ',', ' ', 'f', 'a', 'c', 't', '(']
                + pl_text(pats[i + 1], Naming::Query, qv) + seq![')'];
            exists|j: int| 0 <= j && j + mid.len() <= pt.len() && #[trigger] pt.subrange(j, j + mid.len()) == mid
        }),
{
    reveal_strlit(", ");
    reveal_strlit("fact(");
    let n = pats.len();
    lemma_goals_prefix(pats, qv, (i + 2) as nat, n);
    let gn = goals_text(pats, qv, n);
    let g2 = goals_text(pats, qv, (i + 2) as nat);
    let x = gn.subrange(g2.len() as int, gn.len() as int);
    assert(gn =~= g2 + x);
    let g0 = goals_text(pats, qv, i as nat);
    let s0: Seq<char> = if i + 1 > 1 { ", "@ } else { seq![] };
    let mid = seq!['f', 'a', 'c', 't', '('] + pl_text(pats[i], Naming::Query, qv) + seq![')', ',', ' ', 'f', 'a', 'c', 't', '(']
        + pl_text(pats[i + 1], Naming::Query, qv) + seq![')'];
    assert(goals_text(pats, qv, (i + 1) as nat) == g0 + s0 + "fact("@ + pl_text(pats[i], Naming::Query, qv) + seq![')']);
    assert(goals_text(pats, qv, (i + 2) as nat) == goals_text(pats, qv, (i + 1) as nat) + ", "@ + "fact("@
        + pl_text(pats[i + 1], Naming::Query, qv) + seq![')']);
    assert(goals_text(pats, qv, (i + 2) as nat) =~= g0 + s0 + mid);
    let a = PROLOG_HEAD@ + asserts_text(facts, facts.len()) + "    true"@ + PROLOG_MAIN@ + g0 + s0;
    let b = x + PROLOG_COPY@ + outw_text(qv.len()) + PROLOG_TAIL@;
    let pt = program_text(pats, qv, facts);
    assert(pt =~= a + mid + b);
    assert(pt.subrange(a.len() as int, (a.len() + mid.len()) as int) =~= mid);
}

/// Build the complete SWI-Prolog program for one conjunctive query over one fact set.
pub fn program(q: &Conj, space: &[Term]) -> (r: String)
    requires
        forall|i: int| 0 <= i < q.patterns@.len() ==> #[trigger] names_all(Naming::Query, q.query_vars@, q.patterns@[i]@),
    ensures
        r@ == program_text(views(q.patterns@), q.query_vars@, views(space@)),
{
    let ghost pats = views(q.patterns@);
    let ghost facts = views(space@);
    let ghost qv = q.query_vars@;
    let empty: Vec<u32> = Vec::new();
    let mut out: Vec<char> = Vec::new();
    push_str(&mut out, PROLOG_HEAD);
    let ghost o = out@;
    let mut j: usize = 0;
    while j < space.len()
        invariant
            j <= space@.len(),
            facts == views(space@),
            empty@ == Seq::<u32>::empty(),
            out@ == o + asserts_text(facts, j as nat),
        decreases space.len() - j,
    {
        push_str(&mut out, "    assertz(fact(");
        let name = Naming::Fact(j);
        to_prolog(&space[j], &name, &empty, &mut out);
        push_str(&mut out, ")),\n");
        proof {
            assert(facts[j as int] == space@[j as int]@);
        }
        j += 1;
    }
    push_str(&mut out, "    true");
    push_str(&mut out, PROLOG_MAIN);
    let ghost o2 = out@;
    let mut i: usize = 0;
    while i < q.patterns.len()
        invariant
            i <= q.patterns@.len(),
            pats == views(q.patterns@),
            qv == q.query_vars@,
            forall|k: int| 0 <= k < q.patterns@.len() ==> #[trigger] names_all(Naming::Query, q.query_vars@, q.patterns@[k]@),
            out@ == o2 + goals_text(pats, qv, i as nat),
        decreases q.patterns.len() - i,
    {
        if i > 0 {
            push_str(&mut out, ", ");
        }
        push_str(&mut out, "fact(");
        let name = Naming::Query;
        to_prolog(&q.patterns[i], &name, &q.query_vars, &mut out);
        out.push(')');
        proof {
            assert(pats[i as int] == q.patterns@[i as int]@);
            if i > 0 {
                assert(out@ =~= o2 + goals_text(pats, qv, (i + 1) as nat));
            } else {
                assert(out@ =~= o2 + goals_text(pats, qv, (i + 1) as nat));
            }
        }
        i += 1;
    }
    push_str(&mut out, PROLOG_COPY);
    let ghost o3 = out@;
    if q.query_vars.len() == 0 {
        push_str(&mut out, "'$nil'");
    } else {
        push_str(&mut out, "'$a'(");
        let ghost o4 = out@;
        let mut k: usize = 0;
        while k < q.query_vars.len()
            invariant
                k <= q.query_vars@.len(),
                out@ == o4 + qnames(k as nat),
            decreases q.query_vars.len() - k,
        {
            if k > 0 {
                out.push(',');
            }
            out.push('_');
            out.push('Q');
            push_decimal_usize(&mut out, k);
            proof {
                assert(out@ =~= o4 + qnames((k + 1) as nat));
            }
            k += 1;
        }
        out.push(')');
    }
    proof {
        assert(out@ =~= o3 + outw_text(qv.len()));
    }
    push_str(&mut out, PROLOG_TAIL);
    proof {
        assert(out@ =~= program_text(pats, qv, facts));
    }
    chars_to_string(&out)
}

} // verus!
