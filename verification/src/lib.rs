pub mod text;
pub mod term;
pub mod parse;
pub mod subst;
pub mod unify;
pub mod oracle;
pub mod mgu;
pub mod agreement;
pub mod semiring;
pub mod quantale;
pub mod string_fuzzy;
pub mod corpus;
pub mod prolog;
pub mod randgen;
pub mod antiunify;
pub mod scored;
pub mod wcojoin;
pub mod unijoin;
pub mod join;
pub mod trie;
pub mod trie_join;
pub mod zorder;
