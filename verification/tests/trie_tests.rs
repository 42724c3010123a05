use mork_uni_join::term::parse;
use mork_uni_join::trie::{is_complete, least_ge, ByteMask, ByteTrie, SubtermCursor, TrieZipper, NEWVAR_BYTE};

fn subterms_after(trie: &ByteTrie, prefix: &[u8]) -> Vec<Vec<u8>> {
    let mut z = TrieZipper::new(trie);
    for &b in prefix {
        assert!(z.descend_to_byte(b), "prefix not in trie");
    }
    let mut cur = SubtermCursor::new(z);
    let mut out = Vec::new();
    cur.first();
    while let Some(k) = cur.key() {
        out.push(k.to_vec());
        cur.next();
    }
    out
}

#[test]
fn cursor_enumerates_columns_in_order() {
    let facts = [parse("(e a b)"), parse("(e a c)"), parse("(e b d)")];
    let trie = ByteTrie::from_terms(&facts);
    let head = {
        let mut h = vec![0x03u8];
        h.extend(parse("e").encode());
        h
    };
    let col0 = subterms_after(&trie, &head);
    let a = parse("a").encode();
    let b = parse("b").encode();
    assert_eq!(col0, vec![a.clone(), b.clone()], "first column distinct values a,b");

    let mut head_a = head.clone();
    head_a.extend(&a);
    let col1 = subterms_after(&trie, &head_a);
    assert_eq!(col1, vec![b.clone(), parse("c").encode()], "second column after a: b,c");
}

#[test]
fn cursor_seek_finds_ge() {
    let facts = [parse("(r a)"), parse("(r c)"), parse("(r e)")];
    let trie = ByteTrie::from_terms(&facts);
    let head = {
        let mut h = vec![0x02u8];
        h.extend(parse("r").encode());
        h
    };
    let mut z = TrieZipper::new(&trie);
    for &b in &head {
        z.descend_to_byte(b);
    }
    let mut cur = SubtermCursor::new(z);
    cur.seek(&parse("b").encode());
    assert_eq!(cur.key(), Some(parse("c").encode().as_slice()), "seek b -> c");
    cur.seek(&parse("e").encode());
    assert_eq!(cur.key(), Some(parse("e").encode().as_slice()), "seek e -> e (exact)");
}

#[test]
fn wildcard_subterm_is_one_byte() {
    let facts = [parse("(r $w)")];
    let trie = ByteTrie::from_terms(&facts);
    let head = {
        let mut h = vec![0x02u8];
        h.extend(parse("r").encode());
        h
    };
    let cols = subterms_after(&trie, &head);
    assert_eq!(cols, vec![vec![NEWVAR_BYTE]], "stored var column is the NewVar byte");
}

#[test]
fn mask_search_finds_the_next_present_byte() {
    let mut t = ByteTrie::new();
    t.insert_bytes(&[3]);
    t.insert_bytes(&[70]);
    t.insert_bytes(&[200]);
    let z = TrieZipper::new(&t);
    let m = z.child_mask();
    assert!(m.has(70));
    assert!(!m.has(71));
    assert_eq!(least_ge(&m, 0), Some(3));
    assert_eq!(least_ge(&m, 4), Some(70));
    assert_eq!(m.next_bit(70), Some(200));
    assert_eq!(m.next_bit(200), None);
    assert_eq!(least_ge(&ByteMask::empty(), 0), None);
}

#[test]
fn completeness_of_byte_spans() {
    assert!(is_complete(&[0xC1, b'a']));
    assert!(!is_complete(&[0x02, 0xC0]));
    assert!(is_complete(&[0x02, 0xC0, 0x80]));
    assert!(!is_complete(&[]));
}

#[test]
fn every_encoding_spells_one_subterm() {
    for src in ["a", "$x", "()", "(f $x (g a) $x)", "(: ($f) (-> A))"] {
        let e = parse(src).encode();
        assert!(is_complete(&e), "{src}");
        for k in 0..e.len() {
            assert!(!is_complete(&e[..k]), "{src} prefix {k}");
        }
    }
}

#[test]
fn bytes_after_a_complete_subterm_are_not_one_subterm() {
    assert!(!is_complete(&[0xC0, 0xC0]));
    assert!(!is_complete(&[0xC1, b'a', 0x00]));
    assert!(!is_complete(&[0xC0, 0x01]));
}

#[test]
fn zipper_moves_down_and_up() {
    let t = ByteTrie::from_terms(&[parse("(f a)")]);
    let mut z = TrieZipper::new(&t);
    assert_eq!(z.depth(), 0);
    assert!(z.descend_to_byte(0x02));
    assert!(!z.descend_to_byte(0x03));
    assert_eq!(z.depth(), 1);
    z.ascend_byte();
    assert_eq!(z.depth(), 0);
}

#[test]
fn cursor_past_the_last_subterm_is_at_end() {
    let t = ByteTrie::from_terms(&[parse("a")]);
    let mut cur = SubtermCursor::new(TrieZipper::new(&t));
    assert!(cur.at_end());
    cur.first();
    assert_eq!(cur.key(), Some(parse("a").encode().as_slice()));
    cur.next();
    assert!(cur.at_end());
    assert_eq!(cur.key(), None);
}
