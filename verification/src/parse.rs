//! A tiny S-expression reader, so tests and demos read like `.mm2`.
//!   symbols:  foo   :   ->
//!   variables: $x   (interned per scope; same name => same id)
//!   tuples:   (a b (c $x))

use vstd::prelude::*;
use crate::term::{Term, TermV, views, lemma_view_app};
use crate::text::{str_chars, chars_to_string};

verus! {

/// Unicode `White_Space`, the set `char::is_whitespace` tests.
pub open spec fn is_ws(c: char) -> bool {
    let u = c as u32;
    ||| 0x09 <= u <= 0x0D
    ||| u == 0x20
    ||| u == 0x85
    ||| u == 0xA0
    ||| u == 0x1680
    ||| 0x2000 <= u <= 0x200A
    ||| u == 0x2028
    ||| u == 0x2029
    ||| u == 0x202F
    ||| u == 0x205F
    ||| u == 0x3000
}

/// Whether `c` is Unicode whitespace.
pub fn is_whitespace(c: char) -> (b: bool)
    ensures
        b == is_ws(c),
{
    let u = c as u32;
    (0x09 <= u && u <= 0x0D) || u == 0x20 || u == 0x85 || u == 0xA0 || u == 0x1680
        || (0x2000 <= u && u <= 0x200A) || u == 0x2028 || u == 0x2029 || u == 0x202F
        || u == 0x205F || u == 0x3000
}

pub open spec fn flush(toks: Seq<Seq<char>>, cur: Seq<char>) -> Seq<Seq<char>> {
    if cur.len() > 0 { toks.push(cur) } else { toks }
}

/// One character of the tokenizer: parentheses are tokens of their own, whitespace separates,
/// anything else extends the current token.
pub open spec fn tok_step(st: (Seq<Seq<char>>, Seq<char>), c: char) -> (Seq<Seq<char>>, Seq<char>) {
    if c == '(' || c == ')' {
        (flush(st.0, st.1).push(seq![c]), seq![])
    } else if is_ws(c) {
        (flush(st.0, st.1), seq![])
    } else {
        (st.0, st.1.push(c))
    }
}

pub open spec fn tok_fold(cs: Seq<char>) -> (Seq<Seq<char>>, Seq<char>)
    decreases cs.len(),
{
    if cs.len() == 0 {
        (seq![], seq![])
    } else {
        tok_step(tok_fold(cs.drop_last()), cs.last())
    }
}

/// The tokens of a string.
pub open spec fn tokens(cs: Seq<char>) -> Seq<Seq<char>> {
    let st = tok_fold(cs);
    flush(st.0, st.1)
}

/// Two strings that differ only where one has a separating character and the other a space
/// tokenize alike from the start up to any point.
proof fn lemma_tok_fold_ws(a: Seq<char>, b: Seq<char>, k: int)
    requires
        a.len() == b.len(),
        0 <= k <= a.len(),
        forall|j: int| 0 <= j < a.len() && a[j] != b[j] ==> is_ws(a[j]) && b[j] == ' ',
    ensures
        tok_fold(a.take(k)) == tok_fold(b.take(k)),
    decreases k,
{
    if k > 0 {
        lemma_tok_fold_ws(a, b, k - 1);
        assert(a.take(k).drop_last() =~= a.take(k - 1));
        assert(b.take(k).drop_last() =~= b.take(k - 1));
        assert(a.take(k).last() == a[k - 1]);
        assert(b.take(k).last() == b[k - 1]);
    }
}

/// Whitespace of every kind separates tokens alike: replacing any Unicode `White_Space`
/// character (tab, line feed, vertical tab, form feed, carriage return, space, next line,
/// no-break space, ogham mark, the en quad to hair space block, line and paragraph
/// separators, narrow no-break space, medium mathematical space, ideographic space) of a
/// string by a space changes neither its tokens nor whether and how it parses.
pub proof fn law_whitespace_separates(s: Seq<char>, i: int, c: char, sc: Seq<(Seq<char>, u32)>)
    requires
        0 <= i < s.len(),
        c == '\t' || c == '\n' || c == '\u{0B}' || c == '\u{0C}' || c == '\r' || c == ' ' || c == '\u{85}'
            || c == '\u{A0}' || c == '\u{1680}' || (0x2000 <= (c as u32) && (c as u32) <= 0x200A) || c == '\u{2028}'
            || c == '\u{2029}' || c == '\u{202F}' || c == '\u{205F}' || c == '\u{3000}',
    ensures
        tokens(s.update(i, c)) == tokens(s.update(i, ' ')),
        parses_with(s.update(i, c), sc) == parses_with(s.update(i, ' '), sc),
        parsed_with(s.update(i, c), sc) == parsed_with(s.update(i, ' '), sc),
{
    let a = s.update(i, c);
    let b = s.update(i, ' ');
    assert(is_ws(c));
    lemma_tok_fold_ws(a, b, a.len() as int);
    assert(a.take(a.len() as int) =~= a);
    assert(b.take(b.len() as int) =~= b);
}

pub open spec fn deep(v: Seq<Vec<char>>) -> Seq<Seq<char>> {
    Seq::new(v.len(), |i: int| v[i]@)
}

/// The names of a scope, in the order they were added.
pub open spec fn scope_names(sc: Seq<(Seq<char>, u32)>) -> Seq<Seq<char>> {
    sc.map_values(|e: (Seq<char>, u32)| e.0)
}

/// Parse one term from `toks` at `pos` under the variable scope `sc` (each name with its id):
/// a name in scope is its id; a new name gets the scope's size as its id and joins the scope.
/// `None` is where the reader cannot proceed.
pub open spec fn p_one(toks: Seq<Seq<char>>, pos: int, sc: Seq<(Seq<char>, u32)>) -> Option<(TermV, int, Seq<(Seq<char>, u32)>)>
    decreases toks.len() - pos, 1nat,
{
    if pos < 0 || pos >= toks.len() {
        None
    } else {
        let tok = toks[pos];
        if tok == seq!['('] {
            match p_list(toks, pos + 1, sc) {
                Some((ts, p, sc2)) => Some((TermV::App(ts), p, sc2)),
                None => None,
            }
        } else if tok.len() >= 1 && tok[0] == '$' {
            let name = tok.subrange(1, tok.len() as int);
            if scope_names(sc).contains(name) {
                Some((TermV::Var(sc[scope_names(sc).index_of(name)].1), pos + 1, sc))
            } else {
                Some((TermV::Var(sc.len() as u32), pos + 1, sc.push((name, sc.len() as u32))))
            }
        } else {
            Some((TermV::Sym(tok), pos + 1, sc))
        }
    }
}

/// Parse terms up to and including the closing `)`.
pub open spec fn p_list(toks: Seq<Seq<char>>, pos: int, sc: Seq<(Seq<char>, u32)>) -> Option<(Seq<TermV>, int, Seq<(Seq<char>, u32)>)>
    decreases toks.len() - pos, 2nat,
{
    if pos < 0 || pos >= toks.len() {
        None
    } else if toks[pos] == seq![')'] {
        Some((seq![], pos + 1, sc))
    } else {
        match p_one(toks, pos, sc) {
            Some((t, p, sc2)) => if p <= pos || p > toks.len() {
                None
            } else {
                match p_list(toks, p, sc2) {
                    Some((ts, p2, sc3)) => Some((seq![t] + ts, p2, sc3)),
                    None => None,
                }
            },
            None => None,
        }
    }
}

/// `s` is exactly one S-expression under the scope `sc`.
pub open spec fn parses_with(s: Seq<char>, sc: Seq<(Seq<char>, u32)>) -> bool {
    p_one(tokens(s), 0, sc) matches Some((_, p, _)) && p == tokens(s).len()
}

pub open spec fn parsed_with(s: Seq<char>, sc: Seq<(Seq<char>, u32)>) -> (TermV, Seq<(Seq<char>, u32)>) {
    let r = p_one(tokens(s), 0, sc)->Some_0;
    (r.0, r.2)
}

pub proof fn lemma_p_bounds(toks: Seq<Seq<char>>, pos: int, sc: Seq<(Seq<char>, u32)>)
    ensures
        p_one(toks, pos, sc) matches Some((_, p, _)) ==> pos < p <= toks.len(),
        p_list(toks, pos, sc) matches Some((_, p, _)) ==> pos < p <= toks.len(),
    decreases toks.len() - pos,
{
    if 0 <= pos < toks.len() {
        let tok = toks[pos];
        if tok == seq!['('] {
            lemma_p_bounds(toks, pos + 1, sc);
        }
        if toks[pos] != seq![')'] {
            match p_one(toks, pos, sc) {
                Some((t, p, sc2)) => {
                    if pos < p <= toks.len() {
                        lemma_p_bounds(toks, p, sc2);
                    }
                }
                None => {}
            }
        }
    }
}

/// A variable scope: each name seen so far with its id.
#[derive(Debug)]
pub struct Scope {
    names: Vec<Vec<char>>,
    ids: Vec<u32>,
}

impl View for Scope {
    type V = Seq<(Seq<char>, u32)>;

    closed spec fn view(&self) -> Seq<(Seq<char>, u32)> {
        Seq::new(self.names@.len(), |i: int| (self.names@[i]@, self.ids@[i]))
    }
}

impl Scope {
    #[verifier::type_invariant]
    spec fn inv(&self) -> bool {
        &&& deep(self.names@).no_duplicates()
        &&& self.names@.len() == self.ids@.len()
    }

    proof fn lemma_names(&self)
        requires
            self.inv(),
        ensures
            scope_names(self@) == deep(self.names@),
            scope_names(self@).no_duplicates(),
            self@.len() == self.names@.len(),
    {
        assert(scope_names(self@) =~= deep(self.names@));
    }

    /// An empty scope.
    pub fn new() -> (s: Scope)
        ensures
            s@ == Seq::<(Seq<char>, u32)>::empty(),
    {
        let s = Scope { names: Vec::new(), ids: Vec::new() };
        proof {
            assert(s@ =~= Seq::<(Seq<char>, u32)>::empty());
            assert(deep(s.names@) =~= Seq::<Seq<char>>::empty());
        }
        s
    }

    /// The ids of the names in scope, in the order the names were added.
    pub fn values(&self) -> (v: Vec<u32>)
        ensures
            v@ == self@.map_values(|e: (Seq<char>, u32)| e.1),
    {
        proof {
            use_type_invariant(self);
        }
        let mut v: Vec<u32> = Vec::new();
        let mut i: usize = 0;
        while i < self.ids.len()
            invariant
                i <= self.ids@.len(),
                self.names@.len() == self.ids@.len(),
                v@ == self@.map_values(|e: (Seq<char>, u32)| e.1).take(i as int),
            decreases self.ids.len() - i,
        {
            v.push(self.ids[i]);
            i += 1;
            proof {
                assert(v@ =~= self@.map_values(|e: (Seq<char>, u32)| e.1).take(i as int));
            }
        }
        proof {
            assert(self@.map_values(|e: (Seq<char>, u32)| e.1).take(i as int) =~= self@.map_values(|e: (Seq<char>, u32)| e.1));
        }
        v
    }

    /// The number of names in scope.
    pub fn len(&self) -> (n: usize)
        ensures
            n == self@.len(),
    {
        proof {
            use_type_invariant(self);
        }
        self.names.len()
    }

    /// Where `name` is in the scope, if it is.
    fn find(&self, name: &Vec<char>) -> (r: Option<usize>)
        ensures
            r is None <==> !scope_names(self@).contains(name@),
            r matches Some(i) ==> i == scope_names(self@).index_of(name@) && i < self@.len(),
    {
        proof {
            use_type_invariant(self);
            self.lemma_names();
        }
        let mut i: usize = 0;
        while i < self.names.len()
            invariant
                i <= self.names@.len(),
                scope_names(self@) == deep(self.names@),
                scope_names(self@).no_duplicates(),
                self@.len() == self.names@.len(),
                forall|j: int| 0 <= j < i ==> scope_names(self@)[j] != name@,
            decreases self.names.len() - i,
        {
            if chars_eq(&self.names[i], name) {
                proof {
                    let ns = scope_names(self@);
                    assert(ns[i as int] == name@);
                    assert(ns.contains(name@));
                    let k = ns.index_of(name@);
                    assert(0 <= k < ns.len() && ns[k] == name@);
                    assert(k >= i);
                }
                return Some(i);
            }
            i += 1;
        }
        None
    }

    /// Add `name` at the end with id `id`; the name is not yet in scope.
    fn push_name(&mut self, name: Vec<char>, id: u32)
        requires
            !scope_names(old(self)@).contains(name@),
        ensures
            final(self)@ == old(self)@.push((name@, id)),
    {
        proof {
            use_type_invariant(&*self);
            self.lemma_names();
        }
        let ghost before = deep(self.names@);
        let ghost v0 = self@;
        let mut tmp = Scope::new();
        std::mem::swap(&mut tmp, self);
        let Scope { mut names, mut ids } = tmp;
        names.push(name);
        ids.push(id);
        proof {
            assert(deep(names@) =~= before.push(name@));
            assert(deep(names@).no_duplicates()) by {
                assert forall|x: int, y: int| 0 <= x < deep(names@).len() && 0 <= y < deep(names@).len() && x != y
                    implies deep(names@)[x] != deep(names@)[y] by {
                    if x < before.len() && y < before.len() {
                        assert(before[x] != before[y]);
                    } else if x < before.len() {
                        assert(before.contains(before[x]));
                    } else {
                        assert(before.contains(before[y]));
                    }
                }
            }
        }
        *self = Scope { names, ids };
        proof {
            assert(self@ =~= v0.push((name@, id)));
        }
    }

    /// The id of `name`, adding it with the scope's size as its id if absent.
    fn intern(&mut self, name: Vec<char>) -> (id: u32)
        ensures
            scope_names(old(self)@).contains(name@) ==> final(self)@ == old(self)@
                && id == old(self)@[scope_names(old(self)@).index_of(name@)].1,
            !scope_names(old(self)@).contains(name@) ==> final(self)@ == old(self)@.push((name@, old(self)@.len() as u32))
                && id == old(self)@.len() as u32,
    {
        proof {
            use_type_invariant(&*self);
        }
        match self.find(&name) {
            Some(i) => self.ids[i],
            None => {
                let n = self.names.len() as u32;
                self.push_name(name, n);
                n
            },
        }
    }

    /// Give `name` the id `id`: a name already in scope keeps its place and takes the new id, a
    /// new name is added at the end.
    pub fn insert(&mut self, name: &str, id: u32)
        ensures
            scope_names(old(self)@).contains(name@) ==> final(self)@
                == old(self)@.update(scope_names(old(self)@).index_of(name@), (name@, id)),
            !scope_names(old(self)@).contains(name@) ==> final(self)@ == old(self)@.push((name@, id)),
    {
        proof {
            use_type_invariant(&*self);
        }
        let chars = str_chars(name);
        match self.find(&chars) {
            Some(i) => {
                let ghost v0 = self@;
                proof {
                    self.lemma_names();
                }
                let mut tmp = Scope::new();
                std::mem::swap(&mut tmp, self);
                let Scope { names, mut ids } = tmp;
                ids.set(i, id);
                *self = Scope { names, ids };
                proof {
                    assert(scope_names(v0)[i as int] == name@);
                    assert(self@ =~= v0.update(i as int, (name@, id)));
                }
            },
            None => {
                self.push_name(chars, id);
            },
        }
    }
}

fn copy_chars(a: &Vec<char>) -> (r: Vec<char>)
    ensures
        r@ == a@,
{
    let mut r: Vec<char> = Vec::new();
    let mut i: usize = 0;
    while i < a.len()
        invariant
            i <= a@.len(),
            r@ == a@.take(i as int),
        decreases a.len() - i,
    {
        r.push(a[i]);
        i += 1;
        proof {
            assert(r@ =~= a@.take(i as int));
        }
    }
    proof {
        assert(a@.take(a@.len() as int) =~= a@);
    }
    r
}

impl Clone for Scope {
    fn clone(&self) -> (r: Scope)
        ensures
            r@ == self@,
    {
        proof {
            use_type_invariant(self);
        }
        let mut names: Vec<Vec<char>> = Vec::new();
        let mut i: usize = 0;
        while i < self.names.len()
            invariant
                i <= self.names@.len(),
                names@.len() == i,
                deep(names@) == deep(self.names@).take(i as int),
            decreases self.names.len() - i,
        {
            let c = copy_chars(&self.names[i]);
            let ghost before = names@;
            names.push(c);
            i += 1;
            proof {
                assert forall|k: int| 0 <= k < i implies deep(names@)[k] == deep(self.names@).take(i as int)[k] by {
                    if k < i - 1 {
                        assert(names@[k] == before[k]);
                        assert(deep(before)[k] == deep(self.names@).take(i - 1)[k]);
                    }
                }
                assert(deep(names@) =~= deep(self.names@).take(i as int));
            }
        }
        proof {
            assert(deep(self.names@).take(self.names@.len() as int) =~= deep(self.names@));
            assert(deep(names@) == deep(self.names@));
        }
        let ids = self.ids.clone();
        let r = Scope { names, ids };
        proof {
            assert forall|k: int| 0 <= k < r.names@.len() implies r.names@[k]@ == self.names@[k]@ by {
                assert(deep(r.names@)[k] == deep(self.names@)[k]);
            }
            assert(r@ =~= self@);
        }
        r
    }
}

fn chars_eq(a: &Vec<char>, b: &Vec<char>) -> (r: bool)
    ensures
        r == (a@ == b@),
{
    if a.len() != b.len() {
        return false;
    }
    let mut i: usize = 0;
    while i < a.len()
        invariant
            i <= a@.len(),
            a@.len() == b@.len(),
            forall|j: int| 0 <= j < i ==> a@[j] == b@[j],
        decreases a.len() - i,
    {
        if a[i] != b[i] {
            return false;
        }
        i += 1;
    }
    proof {
        assert(a@ =~= b@);
    }
    true
}


fn tokenize(s: &str) -> (toks: Vec<Vec<char>>)
    ensures
        deep(toks@) == tokens(s@),
{
    let cs = str_chars(s);
    let mut toks: Vec<Vec<char>> = Vec::new();
    let mut cur: Vec<char> = Vec::new();
    let mut i: usize = 0;
    proof {
        assert(cs@.take(0) =~= Seq::<char>::empty());
        assert(deep(toks@) =~= Seq::<Seq<char>>::empty());
    }
    while i < cs.len()
        invariant
            i <= cs@.len(),
            cs@ == s@,
            (deep(toks@), cur@) == tok_fold(cs@.take(i as int)),
        decreases cs.len() - i,
    {
        let c = cs[i];
        let ghost t0 = toks@;
        let ghost c0 = cur@;
        proof {
            assert(cs@.take(i + 1).drop_last() =~= cs@.take(i as int));
            assert(cs@.take(i + 1).last() == c);
        }
        if c == '(' || c == ')' {
            if cur.len() > 0 {
                toks.push(cur);
                cur = Vec::new();
            }
            let mut t: Vec<char> = Vec::new();
            t.push(c);
            toks.push(t);
            proof {
                assert(deep(toks@) =~= flush(deep(t0), c0).push(seq![c]));
                assert(cur@ =~= Seq::<char>::empty());
            }
        } else if is_whitespace(c) {
            if cur.len() > 0 {
                toks.push(cur);
                cur = Vec::new();
            }
            proof {
                assert(deep(toks@) =~= flush(deep(t0), c0));
                assert(cur@ =~= Seq::<char>::empty());
            }
        } else {
            cur.push(c);
            proof {
                assert(deep(toks@) =~= deep(t0));
            }
        }
        i += 1;
    }
    proof {
        assert(cs@.take(cs@.len() as int) =~= cs@);
    }
    let ghost t0 = toks@;
    let ghost c0 = cur@;
    if cur.len() > 0 {
        toks.push(cur);
    }
    proof {
        assert(deep(toks@) =~= flush(deep(t0), c0));
    }
    toks
}

fn is_single(tok: &Vec<char>, c: char) -> (b: bool)
    ensures
        b == (tok@ == seq![c]),
{
    if tok.len() == 1 && tok[0] == c {
        proof {
            assert(tok@ =~= seq![c]);
        }
        true
    } else {
        false
    }
}

fn parse_one(toks: &Vec<Vec<char>>, pos: &mut usize, scope: &mut Scope) -> (t: Term)
    requires
        p_one(deep(toks@), *old(pos) as int, old(scope)@) is Some,
    ensures
        p_one(deep(toks@), *old(pos) as int, old(scope)@) == Some((t@, *final(pos) as int, final(scope)@)),
    decreases toks@.len() - *old(pos),
{
    let ghost dt = deep(toks@);
    let ghost p0 = *pos as int;
    proof {
        lemma_p_bounds(dt, p0, scope@);
    }
    let ntoks = toks.len();
    let tok = &toks[*pos];
    proof {
        assert(dt[p0] == tok@);
        assert(p0 < toks@.len());
        assert(toks@.len() <= usize::MAX);
    }
    *pos += 1;
    if is_single(tok, '(') {
        let ghost full = p_list(dt, p0 + 1, scope@)->Some_0;
        let mut args: Vec<Term> = Vec::new();
        proof {
            lemma_p_bounds(dt, *pos as int, scope@);
        }
        while !is_single(&toks[*pos], ')')
            invariant
                *pos < toks@.len(),
                toks@.len() <= usize::MAX,
                p0 < *pos,
                p0 == *old(pos),
                dt == deep(toks@),
                p_list(dt, p0 + 1, old(scope)@) == Some(full),
                p_list(dt, *pos as int, scope@) matches Some((rest, pf, sf)) &&
                    views(args@) + rest == full.0 && pf == full.1 && sf == full.2,
            decreases toks@.len() - *pos,
        {
            let ghost pj = *pos as int;
            let ghost sj = scope@;
            proof {
                lemma_p_bounds(dt, pj, sj);
                assert(dt[pj] == toks@[pj]@);
            }
            let t = parse_one(toks, pos, scope);
            let ghost before = args@;
            args.push(t);
            proof {
                let (rest, pf, sf) = p_list(dt, pj, sj)->Some_0;
                let (rest2, pf2, sf2) = p_list(dt, *pos as int, scope@)->Some_0;
                assert(rest == seq![t@] + rest2);
                assert(views(args@) =~= views(before).push(t@));
                assert(views(args@) + rest2 =~= views(before) + rest);
                lemma_p_bounds(dt, *pos as int, scope@);
            }
        }
        proof {
            assert(dt[*pos as int] == toks@[*pos as int]@);
            assert(views(args@) =~= full.0);
        }
        *pos += 1;
        proof {
            lemma_view_app(args);
        }
        Term::App(args)
    } else if tok.len() >= 1 && tok[0] == '$' {
        let mut name: Vec<char> = Vec::new();
        let mut k: usize = 1;
        while k < tok.len()
            invariant
                1 <= k <= tok@.len(),
                name@ == tok@.subrange(1, k as int),
            decreases tok.len() - k,
        {
            name.push(tok[k]);
            k += 1;
            proof {
                assert(name@ =~= tok@.subrange(1, k as int));
            }
        }
        let id = scope.intern(name);
        Term::Var(id)
    } else {
        Term::Sym(chars_to_string(tok))
    }
}

/// Parse one S-expression. Variables are interned within this call: `$x` twice is the
/// same variable.
pub fn parse(s: &str) -> (t: Term)
    requires
        parses_with(s@, seq![]),
    ensures
        t@ == parsed_with(s@, seq![]).0,
{
    let toks = tokenize(s);
    let mut pos: usize = 0;
    let mut scope = Scope::new();
    proof {
        lemma_p_bounds(tokens(s@), 0, seq![]);
    }
    parse_one(&toks, &mut pos, &mut scope)
}

/// Parse one S-expression against a caller-owned variable scope, so the same `$name` keeps
/// the same id across calls.
pub fn parse_with_scope(s: &str, scope: &mut Scope) -> (t: Term)
    requires
        parses_with(s@, old(scope)@),
    ensures
        t@ == parsed_with(s@, old(scope)@).0,
        final(scope)@ == parsed_with(s@, old(scope)@).1,
{
    let toks = tokenize(s);
    let mut pos: usize = 0;
    proof {
        lemma_p_bounds(tokens(s@), 0, old(scope)@);
    }
    parse_one(&toks, &mut pos, scope)
}

/// Parse several strings in sequence, each under the scope the previous ones left.
pub open spec fn p_all(ss: Seq<Seq<char>>, sc: Seq<(Seq<char>, u32)>) -> Option<(Seq<TermV>, Seq<(Seq<char>, u32)>)>
    decreases ss.len(),
{
    if ss.len() == 0 {
        Some((seq![], sc))
    } else if parses_with(ss[0], sc) {
        let (t, sc2) = parsed_with(ss[0], sc);
        match p_all(ss.subrange(1, ss.len() as int), sc2) {
            Some((ts, sc3)) => Some((seq![t] + ts, sc3)),
            None => None,
        }
    } else {
        None
    }
}

pub open spec fn strs_view(strs: Seq<&str>) -> Seq<Seq<char>> {
    Seq::new(strs.len(), |i: int| strs[i]@)
}

/// Parse several S-expressions sharing one variable scope: `$f` in different strings is the
/// same variable.
pub fn parse_all(strs: &[&str]) -> (ts: Vec<Term>)
    requires
        p_all(strs_view(strs@), seq![]) is Some,
    ensures
        views(ts@) == p_all(strs_view(strs@), seq![])->Some_0.0,
{
    let ghost sv = strs_view(strs@);
    let ghost full = p_all(sv, seq![])->Some_0;
    let mut scope = Scope::new();
    let mut out: Vec<Term> = Vec::new();
    let mut i: usize = 0;
    proof {
        assert(sv.subrange(0, sv.len() as int) =~= sv);
    }
    while i < strs.len()
        invariant
            i <= strs@.len(),
            sv == strs_view(strs@),
            p_all(sv.subrange(i as int, sv.len() as int), scope@) matches Some((rest, sf)) &&
                views(out@) + rest == full.0,
        decreases strs.len() - i,
    {
        let ghost r = sv.subrange(i as int, sv.len() as int);
        proof {
            assert(r[0] == strs@[i as int]@);
            assert(r.subrange(1, r.len() as int) =~= sv.subrange(i + 1, sv.len() as int));
        }
        let t = parse_with_scope(strs[i], &mut scope);
        let ghost before = out@;
        out.push(t);
        i += 1;
        proof {
            assert(views(out@) =~= views(before).push(t@));
            let (rest2, sf2) = p_all(sv.subrange(i as int, sv.len() as int), scope@)->Some_0;
            assert(views(out@) + rest2 =~= views(before) + (seq![t@] + rest2));
        }
    }
    proof {
        assert(sv.subrange(sv.len() as int, sv.len() as int) =~= Seq::<Seq<char>>::empty());
        assert(views(out@) =~= full.0);
    }
    out
}
} // verus!
