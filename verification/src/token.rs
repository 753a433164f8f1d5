//! A lexed token: an optional lexeme payload together with the symbol that
//! names its syntactic category. Two tokens are compared by category alone.

use vstd::prelude::*;
use vstd::std_specs::cmp::PartialEqSpec;
use vstd::std_specs::cmp::PartialEqSpecImpl;

verus! {

#[derive(Clone, Copy)]
pub struct Token<TLex, TSyntax> {
    pub lex: Option<TLex>,
    pub t_type: TSyntax,
}

impl<TLex, TSyntax> Token<TLex, TSyntax> {
    pub fn new(lex: Option<TLex>, t_type: TSyntax) -> (r: Self)
        ensures
            r.lex == lex,
            r.t_type == t_type,
    {
        Self { lex, t_type }
    }
}

impl<TLex, TSyntax: PartialEq> PartialEqSpecImpl for Token<TLex, TSyntax> {
    open spec fn obeys_eq_spec() -> bool {
        TSyntax::obeys_eq_spec()
    }

    open spec fn eq_spec(&self, other: &Self) -> bool {
        self.t_type.eq_spec(&other.t_type)
    }
}

impl<TLex, TSyntax: PartialEq> PartialEq for Token<TLex, TSyntax> {
    fn eq(&self, other: &Self) -> (r: bool) {
        self.t_type.eq(&other.t_type)
    }

    fn ne(&self, other: &Self) -> (r: bool) {
        self.t_type.ne(&other.t_type)
    }
}

} // verus!
