use mork_uni_join::term::{parse, Term};

#[test]
fn ground_encoding_matches_mork_tags() {
    // (f a b): arity 3, then three length-1 symbols.
    let b = parse("(f a b)").encode();
    assert_eq!(
        b,
        vec![0x03, 0xC1, b'f', 0xC1, b'a', 0xC1, b'b'],
        "arity byte 0x03, SymbolSize(1)=0xC1 then the letter"
    );
}

#[test]
fn coreference_uses_newvar_then_varref() {
    assert_eq!(parse("($x $x)").encode(), vec![0x02, 0xC0, 0x80]);
    assert_eq!(parse("($x $y)").encode(), vec![0x02, 0xC0, 0xC0]);
}

#[test]
fn de_bruijn_collapses_alpha_equivalent_terms() {
    assert_eq!(parse("($x $x)").encode(), parse("($p $p)").encode());
    assert_ne!(parse("($x $x)").encode(), parse("($x $y)").encode());
}

#[test]
fn nested_expression_encoding() {
    let b = parse("(: ($f) A)").encode();
    assert_eq!(
        b,
        vec![0x03, 0xC1, b':', 0x01, 0xC0, 0xC1, b'A'],
        "arity3, sym ':', arity1+NewVar, sym 'A'"
    );
}

#[test]
fn roundtrip_decode_reencode_is_stable() {
    for s in [
        "(f a b)",
        "($x $x)",
        "($x $y)",
        "(: ($f) A)",
        "(Cons $x (Cons $y Nil))",
        "()",
        "(parent (mother Alice) $who)",
    ] {
        let bytes = parse(s).encode();
        let decoded = Term::decode(&bytes);
        assert_eq!(
            decoded.encode(),
            bytes,
            "decode then re-encode must reproduce the bytes for {s:?}"
        );
    }
}

#[test]
fn ground_and_vars_reported() {
    assert!(parse("(f a b)").is_ground());
    assert!(!parse("(f $x b)").is_ground());
    assert_eq!(parse("(f $x (g $y $x))").var_ids(), vec![0, 1]);
}

#[test]
fn rename_apart_shifts_ids_only() {
    let p = parse("(f $x $x)");
    let q = p.rename_apart(10);
    assert_eq!(q, Term::App(vec![Term::sym("f"), Term::Var(10), Term::Var(10)]));
    assert_eq!(p.encode(), q.encode());
}

#[test]
fn decode_reads_back_the_term_shape() {
    let t = Term::decode(&parse("(f $x (g $x))").encode());
    assert_eq!(t.to_string(), "(f $0 (g $0))");
    assert_eq!(Term::decode(&[0x00]), Term::App(vec![]));
}

#[test]
fn text_form_prints_symbols_variables_and_expressions() {
    assert_eq!(parse("(f a (g b))").to_string(), "(f a (g b))");
    assert_eq!(Term::Var(7).to_string(), "$7");
    assert_eq!(parse("()").to_string(), "()");
}

#[test]
fn encodable_and_shape_checks() {
    assert!(parse("(f a b)").is_encodable());
    let long = "x".repeat(64);
    assert!(!Term::sym(&long).is_well_shaped());
    assert!(!Term::App((0..65).map(Term::Var).collect()).is_encodable());
}

#[test]
fn structural_equality_of_terms() {
    assert!(parse("(f a $x)").eq_term(&parse("(f a $x)")));
    assert!(!parse("(f a $x)").eq_term(&Term::App(vec![Term::sym("f"), Term::sym("a"), Term::Var(1)])));
}

#[test]
fn injective_renaming_keeps_the_encoding() {
    assert_eq!(parse("(f $x (g $y $x) $z)").encode(), parse("(f $p (g $q $p) $r)").encode());
    assert_eq!(parse("($x $x)").encode(), parse("($p $p)").encode());
    assert_ne!(parse("($x $x)").encode(), parse("($x $y)").encode());
    assert_ne!(parse("(f $x $y)").encode(), parse("(f $y $y)").encode());
}
