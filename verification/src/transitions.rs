//! The predictive transition table: for every pair of a non-terminal and a
//! lookahead terminal, the candidate productions in declaration order. A
//! production stands in a cell exactly when the terminal is in its lookahead
//! set, which is read off FIRST of its leading symbol and, when epsilon is in
//! that FIRST set, FOLLOW of the leading non-terminal (or of the production's
//! input when the leading symbol is epsilon itself).

use vstd::prelude::*;
use crate::assoc::reflects_eq;
use crate::assoc::key_index;
use crate::assoc::has_key;
use crate::assoc::value_of;
use crate::assoc::lemma_key_index;
use crate::assoc::lemma_filter_push;
use crate::assoc::find_key;
use crate::assoc::vec_contains;
use crate::assoc::insert_all;
use crate::assoc::insert_all_except;
use crate::grammar::ContextFreeGrammar;
use crate::grammar::ContextFreeGrammarProduction;
use crate::first_follow::FirstFollowSymbols;
use crate::first_follow::first_keys_ok;
use crate::first_follow::first_sets_ok;
use crate::first_follow::first_terminal_pin;
use crate::first_follow::follow_keys_ok;
use crate::first_follow::follow_sets_ok;
use crate::first_follow::first_symbol_ok;
use crate::first_follow::follow_symbol_ok;
use crate::first_follow::lemma_production_symbol_kind;
use crate::first_follow::lemma_first_map_has_key;
use crate::first_follow::lemma_follow_map_has_key;

verus! {

/// Two rules with equal input and equal output symbols, position by position.
pub open spec fn prod_eqv<T>(
    p: ContextFreeGrammarProduction<T>,
    q: ContextFreeGrammarProduction<T>,
) -> bool {
    p.input == q.input && p.output@ == q.output@
}

pub open spec fn prods_eqv<T>(
    s1: Seq<ContextFreeGrammarProduction<T>>,
    s2: Seq<ContextFreeGrammarProduction<T>>,
) -> bool {
    &&& s1.len() == s2.len()
    &&& forall|e: int| 0 <= e < s1.len() ==> prod_eqv(#[trigger] s1[e], s2[e])
}

/// The lookahead set of a production, over the given FIRST and FOLLOW maps:
/// whether the terminal `t` selects this production.
pub open spec fn in_lookahead<T>(
    g: ContextFreeGrammar<T>,
    first_m: Seq<(T, Vec<T>)>,
    follow_m: Seq<(T, Vec<T>)>,
    p: ContextFreeGrammarProduction<T>,
    t: T,
) -> bool {
    let x = p.output@[0];
    let fx = value_of(first_m, x)@;
    if !fx.contains(g.epsilon_symbol) {
        fx.contains(t)
    } else {
        (fx.contains(t) && t != g.epsilon_symbol) || value_of(
            follow_m,
            if x == g.epsilon_symbol {
                p.input
            } else {
                x
            },
        )@.contains(t)
    }
}

pub struct RecursiveDescentParserTransitions<T> {
    pub table: Vec<(T, Vec<(T, Vec<ContextFreeGrammarProduction<T>>)>)>,
}

/// The table has one entry per non-terminal, in declaration order, each
/// holding one cell per terminal, in order.
pub open spec fn table_keys_ok<T>(
    g: ContextFreeGrammar<T>,
    tb: Seq<(T, Vec<(T, Vec<ContextFreeGrammarProduction<T>>)>)>,
) -> bool {
    &&& tb.len() == g.non_terminal_symbols_set@.len()
    &&& forall|i: int|
        0 <= i < tb.len() ==> (#[trigger] tb[i]).0 == g.non_terminal_symbols_set@[i]
    &&& forall|i: int|
        0 <= i < tb.len() ==> (#[trigger] tb[i]).1@.len() == g.terminal_symbols_set@.len()
    &&& forall|i: int, k: int|
        #![trigger tb[i].1@[k]]
        0 <= i < tb.len() && 0 <= k < tb[i].1@.len() ==> tb[i].1@[k].0
            == g.terminal_symbols_set@[k]
}

/// Every cell holds, in declaration order, the productions of its row's
/// non-terminal whose lookahead set has the cell's terminal.
pub open spec fn table_cells_ok<T>(
    g: ContextFreeGrammar<T>,
    first_m: Seq<(T, Vec<T>)>,
    follow_m: Seq<(T, Vec<T>)>,
    tb: Seq<(T, Vec<(T, Vec<ContextFreeGrammarProduction<T>>)>)>,
) -> bool {
    forall|i: int, k: int|
        #![trigger tb[i].1@[k]]
        0 <= i < tb.len() && 0 <= k < tb[i].1@.len() ==> prods_eqv(
            tb[i].1@[k].1@,
            value_of(g.productions@, tb[i].0)@.filter(
                |p: ContextFreeGrammarProduction<T>|
                    in_lookahead(g, first_m, follow_m, p, tb[i].1@[k].0),
            ),
        )
}

/// Table agreement: every production standing in the cell for a terminal
/// `t` has a leading symbol `X` such that `t` is in FIRST(`X`), or epsilon
/// is in FIRST(`X`) and `t` is in FOLLOW of the production's input when `X`
/// is epsilon, else in FOLLOW of `X`.
pub proof fn lemma_table_agreement<T>(
    g: ContextFreeGrammar<T>,
    first_m: Seq<(T, Vec<T>)>,
    follow_m: Seq<(T, Vec<T>)>,
    tb: Seq<(T, Vec<(T, Vec<ContextFreeGrammarProduction<T>>)>)>,
    i: int,
    k: int,
    e: int,
)
    requires
        table_cells_ok(g, first_m, follow_m, tb),
        0 <= i < tb.len(),
        0 <= k < tb[i].1@.len(),
        0 <= e < tb[i].1@[k].1@.len(),
    ensures
        ({
            let p = tb[i].1@[k].1@[e];
            let t = tb[i].1@[k].0;
            let fx = value_of(first_m, p.output@[0])@;
            fx.contains(t) || (fx.contains(g.epsilon_symbol) && value_of(
                follow_m,
                if p.output@[0] == g.epsilon_symbol {
                    p.input
                } else {
                    p.output@[0]
                },
            )@.contains(t))
        }),
{
    let t = tb[i].1@[k].0;
    let pred = |q: ContextFreeGrammarProduction<T>| in_lookahead(g, first_m, follow_m, q, t);
    let group = value_of(g.productions@, tb[i].0)@;
    let fil = group.filter(pred);
    assert(prods_eqv(tb[i].1@[k].1@, fil));
    let p = tb[i].1@[k].1@[e];
    assert(prod_eqv(p, fil[e]));
    group.lemma_filter_pred(pred, e);
    assert(in_lookahead(g, first_m, follow_m, fil[e], t));
    assert(fil[e].output@[0] == p.output@[0]);
    assert(fil[e].input == p.input);
}

impl<T: Copy + PartialEq> RecursiveDescentParserTransitions<T> {
    pub fn get_productions(&self, symbol_to_derive: &T, first_symbol: &T) -> (r: Option<
        &Vec<ContextFreeGrammarProduction<T>>,
    >)
        requires
            reflects_eq::<T>(),
        ensures
            match r {
                Some(ps) => {
                    &&& has_key(self.table@, *symbol_to_derive)
                    &&& has_key(value_of(self.table@, *symbol_to_derive)@, *first_symbol)
                    &&& ps@ == value_of(
                        value_of(self.table@, *symbol_to_derive)@,
                        *first_symbol,
                    )@
                },
                None => !has_key(self.table@, *symbol_to_derive) || !has_key(
                    value_of(self.table@, *symbol_to_derive)@,
                    *first_symbol,
                ),
            },
    {
        match find_key(&self.table, symbol_to_derive) {
            Some(i) => match find_key(&self.table[i].1, first_symbol) {
                Some(k) => Some(&self.table[i].1[k].1),
                None => None,
            },
            None => None,
        }
    }

    pub fn from(
        grammar: &ContextFreeGrammar<T>,
        first_follow_symbols: &FirstFollowSymbols<T>,
    ) -> (r: RecursiveDescentParserTransitions<T>)
        requires
            reflects_eq::<T>(),
            grammar.wf(),
            first_keys_ok(*grammar, first_follow_symbols.first_symbols@),
            first_sets_ok(*grammar, first_follow_symbols.first_symbols@),
            first_terminal_pin(*grammar, first_follow_symbols.first_symbols@),
            follow_keys_ok(*grammar, first_follow_symbols.follow_symbols@),
            follow_sets_ok(*grammar, first_follow_symbols.follow_symbols@),
        ensures
            table_keys_ok(*grammar, r.table@),
            table_cells_ok(
                *grammar,
                first_follow_symbols.first_symbols@,
                first_follow_symbols.follow_symbols@,
                r.table@,
            ),
    {
        Self::inner_from(grammar, first_follow_symbols)
    }

    fn inner_from(
        grammar: &ContextFreeGrammar<T>,
        first_follow_symbols: &FirstFollowSymbols<T>,
    ) -> (r: RecursiveDescentParserTransitions<T>)
        requires
            reflects_eq::<T>(),
            grammar.wf(),
            first_keys_ok(*grammar, first_follow_symbols.first_symbols@),
            first_sets_ok(*grammar, first_follow_symbols.first_symbols@),
            first_terminal_pin(*grammar, first_follow_symbols.first_symbols@),
            follow_keys_ok(*grammar, first_follow_symbols.follow_symbols@),
            follow_sets_ok(*grammar, first_follow_symbols.follow_symbols@),
        ensures
            table_keys_ok(*grammar, r.table@),
            table_cells_ok(
                *grammar,
                first_follow_symbols.first_symbols@,
                first_follow_symbols.follow_symbols@,
                r.table@,
            ),
    {
        let mut table = Self::inner_from_initial_table(grammar);
        Self::inner_from_process_productions(grammar, first_follow_symbols, &mut table);
        Self { table }
    }

    fn inner_from_initial_table(grammar: &ContextFreeGrammar<T>) -> (tb: Vec<
        (T, Vec<(T, Vec<ContextFreeGrammarProduction<T>>)>),
    >)
        requires
            grammar.wf(),
        ensures
            table_keys_ok(*grammar, tb@),
            forall|i: int, k: int|
                #![trigger tb@[i].1@[k]]
                0 <= i < tb@.len() && 0 <= k < tb@[i].1@.len() ==> tb@[i].1@[k].1@.len() == 0,
    {
        let nt_count = grammar.non_terminal_symbols_set.len();
        let t_count = grammar.terminal_symbols_set.len();
        let mut tb: Vec<(T, Vec<(T, Vec<ContextFreeGrammarProduction<T>>)>)> = Vec::new();
        let mut i: usize = 0;
        while i < nt_count
            invariant
                nt_count == grammar.non_terminal_symbols_set@.len(),
                t_count == grammar.terminal_symbols_set@.len(),
                i <= nt_count,
                tb@.len() == i,
                forall|a: int|
                    0 <= a < i ==> (#[trigger] tb@[a]).0 == grammar.non_terminal_symbols_set@[a],
                forall|a: int| 0 <= a < i ==> (#[trigger] tb@[a]).1@.len() == t_count,
                forall|a: int, k: int|
                    #![trigger tb@[a].1@[k]]
                    0 <= a < i && 0 <= k < t_count ==> tb@[a].1@[k].0
                        == grammar.terminal_symbols_set@[k] && tb@[a].1@[k].1@.len() == 0,
            decreases nt_count - i,
        {
            let mut row: Vec<(T, Vec<ContextFreeGrammarProduction<T>>)> = Vec::new();
            let mut k: usize = 0;
            while k < t_count
                invariant
                    t_count == grammar.terminal_symbols_set@.len(),
                    k <= t_count,
                    row@.len() == k,
                    forall|b: int|
                        0 <= b < k ==> (#[trigger] row@[b]).0 == grammar.terminal_symbols_set@[b]
                            && row@[b].1@.len() == 0,
                decreases t_count - k,
            {
                let empty: Vec<ContextFreeGrammarProduction<T>> = Vec::new();
                row.push((grammar.terminal_symbols_set[k], empty));
                k += 1;
            }
            tb.push((grammar.non_terminal_symbols_set[i], row));
            i += 1;
        }
        tb
    }

    fn inner_from_process_productions(
        grammar: &ContextFreeGrammar<T>,
        first_follow_symbols: &FirstFollowSymbols<T>,
        table: &mut Vec<(T, Vec<(T, Vec<ContextFreeGrammarProduction<T>>)>)>,
    )
        requires
            reflects_eq::<T>(),
            grammar.wf(),
            first_keys_ok(*grammar, first_follow_symbols.first_symbols@),
            first_sets_ok(*grammar, first_follow_symbols.first_symbols@),
            first_terminal_pin(*grammar, first_follow_symbols.first_symbols@),
            follow_keys_ok(*grammar, first_follow_symbols.follow_symbols@),
            follow_sets_ok(*grammar, first_follow_symbols.follow_symbols@),
            table_keys_ok(*grammar, old(table)@),
            forall|i: int, k: int|
                #![trigger old(table)@[i].1@[k]]
                0 <= i < old(table)@.len() && 0 <= k < old(table)@[i].1@.len() ==> old(
                    table,
                )@[i].1@[k].1@.len() == 0,
        ensures
            table_keys_ok(*grammar, final(table)@),
            table_cells_ok(
                *grammar,
                first_follow_symbols.first_symbols@,
                first_follow_symbols.follow_symbols@,
                final(table)@,
            ),
    {
        let ghost fm = first_follow_symbols.first_symbols@;
        let ghost gm = first_follow_symbols.follow_symbols@;
        let nt_count = grammar.non_terminal_symbols_set.len();
        let mut a: usize = 0;
        while a < nt_count
            invariant
                reflects_eq::<T>(),
                grammar.wf(),
                first_keys_ok(*grammar, fm),
                first_sets_ok(*grammar, fm),
                first_terminal_pin(*grammar, fm),
                follow_keys_ok(*grammar, gm),
                follow_sets_ok(*grammar, gm),
                fm == first_follow_symbols.first_symbols@,
                gm == first_follow_symbols.follow_symbols@,
                nt_count == grammar.non_terminal_symbols_set@.len(),
                a <= nt_count,
                table_keys_ok(*grammar, table@),
                forall|i: int, k: int|
                    #![trigger table@[i].1@[k]]
                    0 <= i < a && 0 <= k < table@[i].1@.len() ==> prods_eqv(
                        table@[i].1@[k].1@,
                        value_of(grammar.productions@, table@[i].0)@.filter(
                            |p: ContextFreeGrammarProduction<T>|
                                in_lookahead(*grammar, fm, gm, p, table@[i].1@[k].0),
                        ),
                    ),
                forall|i: int, k: int|
                    #![trigger table@[i].1@[k]]
                    a <= i < table@.len() && 0 <= k < table@[i].1@.len() ==> table@[i].1@[k].1@
                        .len() == 0,
            decreases nt_count - a,
        {
            let key = grammar.non_terminal_symbols_set[a];
            proof {
                assert(grammar.non_terminal_symbols_set@.contains(key));
                lemma_key_index(grammar.productions@, key);
            }
            let gi = match find_key(&grammar.productions, &key) {
                Some(gi) => gi,
                None => { proof { assert(false); } 0 },
            };
            let ghost group = value_of(grammar.productions@, key)@;
            let prods_len = grammar.productions[gi].1.len();
            let mut j: usize = 0;
            proof {
                assert forall|k: int|
                    0 <= k < table@[a as int].1@.len() implies prods_eqv(
                    table@[a as int].1@[k].1@,
                    group.take(0).filter(
                        |p: ContextFreeGrammarProduction<T>|
                            in_lookahead(*grammar, fm, gm, p, table@[a as int].1@[k].0),
                    ),
                ) by {
                    assert(group.take(0) =~= Seq::<
                        ContextFreeGrammarProduction<T>,
                    >::empty());
                    crate::assoc::lemma_filter_absent(
                        group.take(0),
                        |p: ContextFreeGrammarProduction<T>|
                            in_lookahead(*grammar, fm, gm, p, table@[a as int].1@[k].0),
                    );
                }
            }
            while j < prods_len
                invariant
                    reflects_eq::<T>(),
                    grammar.wf(),
                    first_keys_ok(*grammar, fm),
                    first_sets_ok(*grammar, fm),
                    first_terminal_pin(*grammar, fm),
                    follow_keys_ok(*grammar, gm),
                    follow_sets_ok(*grammar, gm),
                    fm == first_follow_symbols.first_symbols@,
                    gm == first_follow_symbols.follow_symbols@,
                    nt_count == grammar.non_terminal_symbols_set@.len(),
                    a < nt_count,
                    gi < grammar.productions@.len(),
                    grammar.productions@[gi as int].0 == key,
                    gi == key_index(grammar.productions@, key),
                    group == grammar.productions@[gi as int].1@,
                    prods_len == group.len(),
                    j <= prods_len,
                    table_keys_ok(*grammar, table@),
                    table@[a as int].0 == key,
                    forall|i: int, k: int|
                        #![trigger table@[i].1@[k]]
                        0 <= i < a && 0 <= k < table@[i].1@.len() ==> prods_eqv(
                            table@[i].1@[k].1@,
                            value_of(grammar.productions@, table@[i].0)@.filter(
                                |p: ContextFreeGrammarProduction<T>|
                                    in_lookahead(*grammar, fm, gm, p, table@[i].1@[k].0),
                            ),
                        ),
                    forall|k: int|
                        0 <= k < table@[a as int].1@.len() ==> prods_eqv(
                            (#[trigger] table@[a as int].1@[k]).1@,
                            group.take(j as int).filter(
                                |p: ContextFreeGrammarProduction<T>|
                                    in_lookahead(*grammar, fm, gm, p, table@[a as int].1@[k].0),
                            ),
                        ),
                    forall|i: int, k: int|
                        #![trigger table@[i].1@[k]]
                        a < i < table@.len() && 0 <= k < table@[i].1@.len() ==> table@[i].1@[k]
                            .1@.len() == 0,
                decreases prods_len - j,
            {
                let production_first_symbols = Self::inner_from_get_production_first_symbols(
                    grammar,
                    first_follow_symbols,
                    gi,
                    j,
                );
                let ghost before = table@;
                Self::inner_from_add_production(
                    grammar,
                    table,
                    a,
                    gi,
                    j,
                    &production_first_symbols,
                    Ghost(fm),
                    Ghost(gm),
                );
                proof {
                    let p = group[j as int];
                    assert(group.take(j + 1 as int) =~= group.take(j as int).push(p));
                    assert forall|k: int|
                        0 <= k < table@[a as int].1@.len() implies prods_eqv(
                        (#[trigger] table@[a as int].1@[k]).1@,
                        group.take(j + 1 as int).filter(
                            |q: ContextFreeGrammarProduction<T>|
                                in_lookahead(*grammar, fm, gm, q, table@[a as int].1@[k].0),
                        ),
                    ) by {
                        let predk = |q: ContextFreeGrammarProduction<T>|
                            in_lookahead(*grammar, fm, gm, q, table@[a as int].1@[k].0);
                        lemma_filter_push(group.take(j as int), predk, p);
                        let cell0 = before[a as int].1@[k].1@;
                        let cell1 = table@[a as int].1@[k].1@;
                        let fil0 = group.take(j as int).filter(predk);
                        assert(table@[a as int].1@[k].0 == before[a as int].1@[k].0);
                        assert(prods_eqv(cell0, fil0));
                        if predk(p) {
                            assert(cell1.len() == cell0.len() + 1);
                            assert(cell1.drop_last() == cell0);
                            assert(prod_eqv(cell1.last(), p));
                            assert forall|e: int|
                                0 <= e < cell1.len() implies prod_eqv(
                                #[trigger] cell1[e],
                                fil0.push(p)[e],
                            ) by {
                                if e < cell1.len() - 1 {
                                    assert(cell1[e] == cell1.drop_last()[e]);
                                    assert(fil0.push(p)[e] == fil0[e]);
                                } else {
                                    assert(cell1[e] == cell1.last());
                                    assert(fil0.push(p)[e] == p);
                                }
                            }
                        } else {
                            assert(cell1 == cell0);
                        }
                    }
                }
                j += 1;
            }
            proof {
                assert(group.take(prods_len as int) =~= group);
            }
            a += 1;
        }
        proof {
            assert forall|i: int, k: int|
                #![trigger final(table)@[i].1@[k]]
                0 <= i < final(table)@.len() && 0 <= k < final(table)@[i].1@.len()
                implies prods_eqv(
                final(table)@[i].1@[k].1@,
                value_of(grammar.productions@, final(table)@[i].0)@.filter(
                    |p: ContextFreeGrammarProduction<T>|
                        in_lookahead(*grammar, fm, gm, p, final(table)@[i].1@[k].0),
                ),
            ) by {}
        }
    }

    /// Appends clones of one production to every cell of row `a` whose
    /// terminal is in the production's lookahead set.
    fn inner_from_add_production(
        grammar: &ContextFreeGrammar<T>,
        table: &mut Vec<(T, Vec<(T, Vec<ContextFreeGrammarProduction<T>>)>)>,
        a: usize,
        gi: usize,
        j: usize,
        production_first_symbols: &Vec<T>,
        Ghost(fm): Ghost<Seq<(T, Vec<T>)>>,
        Ghost(gm): Ghost<Seq<(T, Vec<T>)>>,
    )
        requires
            reflects_eq::<T>(),
            grammar.wf(),
            table_keys_ok(*grammar, old(table)@),
            a < old(table)@.len(),
            gi < grammar.productions@.len(),
            grammar.productions@[gi as int].0 == old(table)@[a as int].0,
            j < grammar.productions@[gi as int].1@.len(),
            forall|x: int, y: int|
                0 <= x < y < production_first_symbols@.len() ==> production_first_symbols@[x]
                    != production_first_symbols@[y],
            forall|t: T|
                #[trigger] production_first_symbols@.contains(t) <==> in_lookahead(
                    *grammar,
                    fm,
                    gm,
                    grammar.productions@[gi as int].1@[j as int],
                    t,
                ),
            forall|t: T|
                #[trigger] production_first_symbols@.contains(t)
                    ==> grammar.terminal_symbols_set@.contains(t),
        ensures
            table_keys_ok(*grammar, final(table)@),
            final(table)@.len() == old(table)@.len(),
            forall|i: int| 0 <= i < final(table)@.len() && i != a ==> final(table)@[i] == old(
                table,
            )@[i],
            final(table)@[a as int].0 == old(table)@[a as int].0,
            forall|k: int|
                0 <= k < final(table)@[a as int].1@.len() ==> {
                    let cell0 = old(table)@[a as int].1@[k].1@;
                    let cell1 = (#[trigger] final(table)@[a as int].1@[k]).1@;
                    if in_lookahead(
                        *grammar,
                        fm,
                        gm,
                        grammar.productions@[gi as int].1@[j as int],
                        final(table)@[a as int].1@[k].0,
                    ) {
                        cell1.len() == cell0.len() + 1 && cell1.drop_last() == cell0
                            && prod_eqv(
                            cell1.last(),
                            grammar.productions@[gi as int].1@[j as int],
                        )
                    } else {
                        cell1 == cell0
                    }
                },
    {
        let n = production_first_symbols.len();
        let ghost tb0 = table@;
        let mut w: usize = 0;
        while w < n
            invariant
                reflects_eq::<T>(),
                grammar.wf(),
                n == production_first_symbols@.len(),
                w <= n,
                a < table@.len(),
                gi < grammar.productions@.len(),
                grammar.productions@[gi as int].0 == tb0[a as int].0,
                j < grammar.productions@[gi as int].1@.len(),
                forall|x: int, y: int|
                    0 <= x < y < production_first_symbols@.len() ==> production_first_symbols@[x]
                        != production_first_symbols@[y],
                forall|t: T|
                    #[trigger] production_first_symbols@.contains(t)
                        ==> grammar.terminal_symbols_set@.contains(t),
                tb0 == old(table)@,
                table_keys_ok(*grammar, table@),
                table@.len() == tb0.len(),
                forall|i: int| 0 <= i < table@.len() && i != a ==> table@[i] == tb0[i],
                table@[a as int].0 == tb0[a as int].0,
                table@[a as int].1@.len() == tb0[a as int].1@.len(),
                forall|k: int|
                    0 <= k < table@[a as int].1@.len() ==> {
                        let cell0 = tb0[a as int].1@[k].1@;
                        let cell1 = (#[trigger] table@[a as int].1@[k]).1@;
                        if production_first_symbols@.take(w as int).contains(
                            table@[a as int].1@[k].0,
                        ) {
                            cell1.len() == cell0.len() + 1 && cell1.drop_last() == cell0
                                && prod_eqv(
                                cell1.last(),
                                grammar.productions@[gi as int].1@[j as int],
                            )
                        } else {
                            cell1 == cell0
                        }
                    },
            decreases n - w,
        {
            let t = production_first_symbols[w];
            proof {
                lemma_key_index(table@[a as int].1@, t);
                if key_index(table@[a as int].1@, t) == -1 {
                    assert(production_first_symbols@.contains(t)) by {
                        assert(production_first_symbols@[w as int] == t);
                    }
                    let v = choose|v: int|
                        0 <= v < grammar.terminal_symbols_set@.len()
                            && grammar.terminal_symbols_set@[v] == t;
                    assert(table@[a as int].1@[v].0 == t);
                }
            }
            let ci = match find_key(&table[a].1, &t) {
                Some(ci) => ci,
                None => { proof { assert(false); } 0 },
            };
            let ghost pre = table@;
            let cloned = grammar.productions[gi].1[j].clone();
            table[a].1[ci].1.push(cloned);
            proof {
                let tk = production_first_symbols@.take(w + 1 as int);
                assert(tk.drop_last() =~= production_first_symbols@.take(w as int));
                assert(tk.last() == t);
                crate::assoc::lemma_push_contains(
                    production_first_symbols@.take(w as int),
                    t,
                );
                assert(tk =~= production_first_symbols@.take(w as int).push(t));
                // the touched cell held no copy of `t`'s mark yet: `t` was not
                // among the first `w` symbols, the list being duplicate-free
                assert(!production_first_symbols@.take(w as int).contains(t)) by {
                    if production_first_symbols@.take(w as int).contains(t) {
                        let x = choose|x: int|
                            0 <= x < w && production_first_symbols@.take(w as int)[x] == t;
                        assert(production_first_symbols@[x]
                            == production_first_symbols@[w as int]);
                    }
                }
                assert forall|k: int|
                    0 <= k < table@[a as int].1@.len() implies {
                    let cell0 = tb0[a as int].1@[k].1@;
                    let cell1 = (#[trigger] table@[a as int].1@[k]).1@;
                    if tk.contains(table@[a as int].1@[k].0) {
                        cell1.len() == cell0.len() + 1 && cell1.drop_last() == cell0
                            && prod_eqv(
                            cell1.last(),
                            grammar.productions@[gi as int].1@[j as int],
                        )
                    } else {
                        cell1 == cell0
                    }
                } by {
                    if k != ci {
                        assert(table@[a as int].1@[k] == pre[a as int].1@[k]);
                        if table@[a as int].1@[k].0 == t {
                            assert(pre[a as int].1@[ci as int].0 == t);
                            assert(table_keys_ok(*grammar, pre));
                            assert(pre[a as int].1@[k].0
                                == grammar.terminal_symbols_set@[k]);
                        }
                    } else {
                        assert(table@[a as int].1@[ci as int].1@ =~= pre[a as int].1@[
                            ci as int].1@.push(cloned));
                    }
                }
            }
            w += 1;
        }
        proof {
            assert(production_first_symbols@.take(n as int) =~= production_first_symbols@);
        }
    }

    /// The lookahead set of one production, as a duplicate-free vector of
    /// terminals.
    fn inner_from_get_production_first_symbols(
        grammar: &ContextFreeGrammar<T>,
        first_follow_symbols: &FirstFollowSymbols<T>,
        gi: usize,
        j: usize,
    ) -> (pfs: Vec<T>)
        requires
            reflects_eq::<T>(),
            grammar.wf(),
            first_keys_ok(*grammar, first_follow_symbols.first_symbols@),
            first_sets_ok(*grammar, first_follow_symbols.first_symbols@),
            first_terminal_pin(*grammar, first_follow_symbols.first_symbols@),
            follow_keys_ok(*grammar, first_follow_symbols.follow_symbols@),
            follow_sets_ok(*grammar, first_follow_symbols.follow_symbols@),
            gi < grammar.productions@.len(),
            j < grammar.productions@[gi as int].1@.len(),
        ensures
            forall|x: int, y: int| 0 <= x < y < pfs@.len() ==> pfs@[x] != pfs@[y],
            forall|t: T|
                #[trigger] pfs@.contains(t) <==> in_lookahead(
                    *grammar,
                    first_follow_symbols.first_symbols@,
                    first_follow_symbols.follow_symbols@,
                    grammar.productions@[gi as int].1@[j as int],
                    t,
                ),
            forall|t: T|
                #[trigger] pfs@.contains(t) ==> grammar.terminal_symbols_set@.contains(t),
    {
        let ghost fm = first_follow_symbols.first_symbols@;
        let ghost gm = first_follow_symbols.follow_symbols@;
        let ghost p = grammar.productions@[gi as int].1@[j as int];
        let symbol = grammar.productions[gi].1[j].output[0];
        proof {
            assert(grammar.productions@[gi as int].1@[j as int].output@[0] == symbol);
            lemma_production_symbol_kind(
                *grammar,
                gi as int,
                j as int,
                0,
            );
            lemma_first_map_has_key(*grammar, fm, symbol);
        }
        let fxi = match find_key(&first_follow_symbols.first_symbols, &symbol) {
            Some(fxi) => fxi,
            None => { proof { assert(false); } 0 },
        };
        let symbol_first_symbols = &first_follow_symbols.first_symbols[fxi].1;
        if vec_contains(symbol_first_symbols, grammar.get_epsilon_symbol()) {
            Self::inner_from_get_production_first_symbols_on_epsilon_first(
                grammar,
                first_follow_symbols,
                gi,
                j,
                fxi,
            )
        } else {
            let pfs = Self::inner_from_get_production_first_symbols_on_non_epsilon_first(
                symbol_first_symbols,
            );
            proof {
                assert forall|t: T| #[trigger]
                    pfs@.contains(t) implies grammar.terminal_symbols_set@.contains(t) by {
                    assert(fm[fxi as int].1@.contains(t));
                    assert(first_symbol_ok(*grammar, t));
                    assert(t != grammar.epsilon_symbol);
                }
            }
            pfs
        }
    }

    /// Lookahead when epsilon is in FIRST of the leading symbol: FIRST of
    /// that symbol without epsilon, joined with FOLLOW of the leading
    /// non-terminal, or of the production's input when the leading symbol is
    /// epsilon.
    fn inner_from_get_production_first_symbols_on_epsilon_first(
        grammar: &ContextFreeGrammar<T>,
        first_follow_symbols: &FirstFollowSymbols<T>,
        gi: usize,
        j: usize,
        fxi: usize,
    ) -> (pfs: Vec<T>)
        requires
            reflects_eq::<T>(),
            grammar.wf(),
            first_keys_ok(*grammar, first_follow_symbols.first_symbols@),
            first_sets_ok(*grammar, first_follow_symbols.first_symbols@),
            first_terminal_pin(*grammar, first_follow_symbols.first_symbols@),
            follow_keys_ok(*grammar, first_follow_symbols.follow_symbols@),
            follow_sets_ok(*grammar, first_follow_symbols.follow_symbols@),
            gi < grammar.productions@.len(),
            j < grammar.productions@[gi as int].1@.len(),
            fxi == key_index(
                first_follow_symbols.first_symbols@,
                grammar.productions@[gi as int].1@[j as int].output@[0],
            ),
            0 <= fxi < first_follow_symbols.first_symbols@.len(),
            first_follow_symbols.first_symbols@[fxi as int].1@.contains(
                grammar.epsilon_symbol,
            ),
        ensures
            forall|x: int, y: int| 0 <= x < y < pfs@.len() ==> pfs@[x] != pfs@[y],
            forall|t: T|
                #[trigger] pfs@.contains(t) <==> in_lookahead(
                    *grammar,
                    first_follow_symbols.first_symbols@,
                    first_follow_symbols.follow_symbols@,
                    grammar.productions@[gi as int].1@[j as int],
                    t,
                ),
            forall|t: T|
                #[trigger] pfs@.contains(t) ==> grammar.terminal_symbols_set@.contains(t),
    {
        let ghost fm = first_follow_symbols.first_symbols@;
        let ghost gm = first_follow_symbols.follow_symbols@;
        let ghost p = grammar.productions@[gi as int].1@[j as int];
        let symbol = grammar.productions[gi].1[j].output[0];
        proof {
            assert(p.output@[0] == symbol);
            assert(fm[fxi as int].0 == symbol) by {
                lemma_key_index(fm, symbol);
            }
        }
        let mut pfs: Vec<T> = Vec::new();
        insert_all_except(
            &mut pfs,
            &first_follow_symbols.first_symbols[fxi].1,
            grammar.get_epsilon_symbol(),
        );
        // pick the FOLLOW set of the production's input when the leading
        // symbol is epsilon, else of the leading symbol, which then is a
        // non-terminal
        let is_eps = grammar.get_epsilon_symbol().eq(&symbol);
        proof {
            if !is_eps {
                // epsilon in FIRST of a terminal would force the terminal to
                // be epsilon itself
                lemma_production_symbol_kind(
                    *grammar,
                    gi as int,
                    j as int,
                    0,
                );
                if !grammar.non_terminal_symbols_set@.contains(symbol) {
                    let w = choose|w: int|
                        0 <= w < grammar.terminal_symbols_set@.len()
                            && grammar.terminal_symbols_set@[w] == symbol;
                    let nt = grammar.non_terminal_symbols_set@.len() as int;
                    assert(fm[nt + w].0 == symbol);
                    lemma_key_index(fm, symbol);
                    assert forall|q: int| 0 <= q < fxi implies fm[q].0 != symbol by {}
                    assert(fxi == nt + w) by {
                        if fxi < nt {
                            assert(fm[fxi as int].0
                                == grammar.non_terminal_symbols_set@[fxi as int]);
                            assert(grammar.non_terminal_symbols_set@.contains(symbol)) by {
                                assert(grammar.non_terminal_symbols_set@[fxi as int]
                                    == symbol);
                            }
                        } else {
                            assert(fm[fxi as int].0
                                == grammar.terminal_symbols_set@[fxi - nt]);
                        }
                    }
                    assert(fm[fxi as int].1@ == seq![symbol]);
                    assert(fm[fxi as int].1@.contains(grammar.epsilon_symbol));
                    assert(seq![symbol][0] == symbol);
                    assert(symbol == grammar.epsilon_symbol);
                }
                assert(grammar.non_terminal_symbols_set@.contains(symbol));
                lemma_follow_map_has_key(*grammar, gm, symbol);
            } else {
                assert(grammar.non_terminal_symbols_set@.contains(
                    grammar.productions@[gi as int].0,
                )) by {
                    lemma_key_index(grammar.productions@, grammar.productions@[gi as int].0);
                    if key_index(grammar.productions@, grammar.productions@[gi as int].0)
                        == -1 {
                        assert(grammar.productions@[gi as int].0
                            != grammar.productions@[gi as int].0);
                    }
                }
                assert(p.input == grammar.productions@[gi as int].0);
                lemma_follow_map_has_key(*grammar, gm, p.input);
            }
        }
        let target_follow_index = if is_eps {
            match find_key(
                &first_follow_symbols.follow_symbols,
                &grammar.productions[gi].1[j].input,
            ) {
                Some(ti) => ti,
                None => { proof { assert(false); } 0 },
            }
        } else {
            match find_key(&first_follow_symbols.follow_symbols, &symbol) {
                Some(ti) => ti,
                None => { proof { assert(false); } 0 },
            }
        };
        insert_all(&mut pfs, &first_follow_symbols.follow_symbols[target_follow_index].1);
        proof {
            assert forall|t: T| #[trigger]
                pfs@.contains(t) implies grammar.terminal_symbols_set@.contains(t) by {
                if fm[fxi as int].1@.contains(t) && t != grammar.epsilon_symbol {
                    assert(first_symbol_ok(*grammar, t));
                } else {
                    assert(gm[target_follow_index as int].1@.contains(t));
                    assert(follow_symbol_ok(*grammar, t));
                }
            }
            assert forall|t: T| #[trigger]
                pfs@.contains(t) <==> in_lookahead(*grammar, fm, gm, p, t) by {
                assert(value_of(fm, symbol)@ == fm[fxi as int].1@);
                if pfs@.contains(t) {
                    if gm[target_follow_index as int].1@.contains(t) {
                        assert(follow_symbol_ok(*grammar, t));
                    }
                }
                if in_lookahead(*grammar, fm, gm, p, t) {
                    if !(fm[fxi as int].1@.contains(t) && t != grammar.epsilon_symbol) {
                        let target = if symbol == grammar.epsilon_symbol {
                            p.input
                        } else {
                            symbol
                        };
                        assert(value_of(gm, target)@.contains(t));
                        assert(gm[target_follow_index as int].0 == target) by {
                            lemma_key_index(gm, target);
                        }
                        assert(target_follow_index == key_index(gm, target)) by {
                            lemma_key_index(gm, target);
                        }
                    }
                }
            }
        }
        pfs
    }

    /// Lookahead when epsilon is not in FIRST of the leading symbol: exactly
    /// that FIRST set.
    fn inner_from_get_production_first_symbols_on_non_epsilon_first(
        symbol_first_symbols: &Vec<T>,
    ) -> (pfs: Vec<T>)
        requires
            reflects_eq::<T>(),
        ensures
            forall|x: int, y: int| 0 <= x < y < pfs@.len() ==> pfs@[x] != pfs@[y],
            forall|t: T| #[trigger] pfs@.contains(t) <==> symbol_first_symbols@.contains(t),
    {
        let mut pfs: Vec<T> = Vec::new();
        insert_all(&mut pfs, symbol_first_symbols);
        pfs
    }
}

} // verus!
