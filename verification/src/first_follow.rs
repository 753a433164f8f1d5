//! Fixed-point computation of the FIRST and FOLLOW symbol sets of a grammar.
//! The maps are association lists: the FIRST map carries one entry for every
//! non-terminal (in declaration order) followed by one for every terminal,
//! the FOLLOW map one entry for every non-terminal.

use vstd::prelude::*;
use crate::assoc::reflects_eq;
use crate::assoc::key_index;
use crate::assoc::has_key;
use crate::assoc::value_of;
use crate::assoc::lemma_key_index;
use crate::assoc::find_key;
use crate::assoc::vec_contains;
use crate::assoc::set_insert;
use crate::assoc::insert_all;
use crate::assoc::insert_all_except;
use crate::assoc::copy_vec;
use crate::assoc::lemma_distinct_subset_len;
use crate::assoc::total_vals_len;
use crate::assoc::lemma_total_vals_update;
use crate::assoc::lemma_total_vals_bound;
use crate::grammar::ContextFreeGrammar;
use crate::grammar::some_output_contains;
use crate::grammar::valid_production;

verus! {

pub type SymbolsMap<T> = Vec<(T, Vec<T>)>;

pub struct FirstFollowSymbols<T> {
    pub first_symbols: SymbolsMap<T>,
    pub follow_symbols: SymbolsMap<T>,
}

/// What a FIRST set may hold: terminals of the grammar, and its epsilon
/// symbol.
pub open spec fn first_symbol_ok<T>(g: ContextFreeGrammar<T>, y: T) -> bool {
    g.terminal_symbols_set@.contains(y) || y == g.epsilon_symbol
}

/// What a FOLLOW set may hold: terminals of the grammar, epsilon excluded.
pub open spec fn follow_symbol_ok<T>(g: ContextFreeGrammar<T>, y: T) -> bool {
    g.terminal_symbols_set@.contains(y) && y != g.epsilon_symbol
}

/// The FIRST map is keyed by the non-terminals, in order, then the terminals.
pub open spec fn first_keys_ok<T>(g: ContextFreeGrammar<T>, m: Seq<(T, Vec<T>)>) -> bool {
    let nt = g.non_terminal_symbols_set@.len() as int;
    &&& m.len() == nt + g.terminal_symbols_set@.len()
    &&& forall|i: int| 0 <= i < nt ==> (#[trigger] m[i]).0 == g.non_terminal_symbols_set@[i]
    &&& forall|i: int|
        nt <= i < m.len() ==> (#[trigger] m[i]).0 == g.terminal_symbols_set@[i - nt]
}

/// Every FIRST set is duplicate-free and holds only terminals or epsilon.
pub open spec fn first_sets_ok<T>(g: ContextFreeGrammar<T>, m: Seq<(T, Vec<T>)>) -> bool {
    &&& forall|i: int, a: int, b: int|
        #![trigger m[i].1@[a], m[i].1@[b]]
        0 <= i < m.len() && 0 <= a < b < m[i].1@.len() ==> m[i].1@[a] != m[i].1@[b]
    &&& forall|i: int, y: T|
        0 <= i < m.len() && #[trigger] m[i].1@.contains(y) ==> first_symbol_ok(g, y)
}

/// The FIRST set of a terminal is the singleton of that terminal.
pub open spec fn first_terminal_pin<T>(g: ContextFreeGrammar<T>, m: Seq<(T, Vec<T>)>) -> bool {
    let nt = g.non_terminal_symbols_set@.len() as int;
    forall|i: int| nt <= i < m.len() ==> (#[trigger] m[i]).1@ == seq![m[i].0]
}

/// The FIRST update rule of one production adds nothing: walking `out`, the
/// working FIRST set `cur` of the production's input already holds every
/// symbol the rule would contribute. Reaching past the last symbol demands
/// epsilon; a leading terminal must be present; the non-epsilon FIRST
/// symbols of a leading non-terminal must be present, and the walk goes on
/// behind it only when its FIRST set holds epsilon. An occurrence of the
/// input itself is walked over only when `cur` already holds epsilon.
pub open spec fn first_prod_stable<T>(
    g: ContextFreeGrammar<T>,
    m: Seq<(T, Vec<T>)>,
    input: T,
    cur: Seq<T>,
    out: Seq<T>,
) -> bool
    decreases out.len(),
{
    if out.len() == 0 {
        cur.contains(g.epsilon_symbol)
    } else {
        let x = out[0];
        if x == input {
            cur.contains(g.epsilon_symbol) ==> first_prod_stable(
                g,
                m,
                input,
                cur,
                out.drop_first(),
            )
        } else if g.non_terminal_symbols_set@.contains(x) {
            let fx = value_of(m, x)@;
            &&& (forall|y: T|
                fx.contains(y) && y != g.epsilon_symbol ==> #[trigger] cur.contains(y))
            &&& (fx.contains(g.epsilon_symbol) ==> first_prod_stable(
                g,
                m,
                input,
                cur,
                out.drop_first(),
            ))
        } else {
            cur.contains(x)
        }
    }
}

/// The whole FIRST map is a fixed point of the update rules: no production
/// contributes anything new to the FIRST set of its input.
pub open spec fn first_stable<T>(g: ContextFreeGrammar<T>, m: Seq<(T, Vec<T>)>) -> bool {
    forall|i: int, j: int|
        0 <= i < g.productions@.len() && 0 <= j < g.productions@[i].1@.len()
            ==> first_prod_stable(
            g,
            m,
            g.productions@[i].0,
            value_of(m, g.productions@[i].0)@,
            (#[trigger] g.productions@[i].1@[j]).output@,
        )
}

/// `sym` rewrites to the empty string within `n` derivation steps: it is
/// epsilon itself, or some rule for it has an output whose symbols all
/// derive the empty string in fewer steps.
pub open spec fn derives_epsilon<T>(g: ContextFreeGrammar<T>, sym: T, n: nat) -> bool
    decreases n, 0int, 0int,
{
    ||| sym == g.epsilon_symbol
    ||| (n > 0 && exists|i: int, j: int|
        0 <= i < g.productions@.len() && 0 <= j < g.productions@[i].1@.len() && (
        #[trigger] g.productions@[i].1@[j]).input == sym && all_derive_epsilon(
            g,
            g.productions@[i].1@[j].output@,
            (n - 1) as nat,
        ))
}

pub open spec fn all_derive_epsilon<T>(g: ContextFreeGrammar<T>, out: Seq<T>, n: nat) -> bool
    decreases n, 1int, out.len(),
{
    out.len() == 0 || (derives_epsilon(g, out[0], n) && all_derive_epsilon(
        g,
        out.drop_first(),
        n,
    ))
}

/// Deriving the empty string within `n` steps also does within any larger
/// budget.
pub proof fn lemma_derives_epsilon_mono<T>(g: ContextFreeGrammar<T>, sym: T, n1: nat, n2: nat)
    requires
        n1 <= n2,
        derives_epsilon(g, sym, n1),
    ensures
        derives_epsilon(g, sym, n2),
    decreases n1, 0int, 0int,
{
    if sym != g.epsilon_symbol {
        let (i, j) = choose|i: int, j: int|
            0 <= i < g.productions@.len() && 0 <= j < g.productions@[i].1@.len() && (
            #[trigger] g.productions@[i].1@[j]).input == sym && all_derive_epsilon(
                g,
                g.productions@[i].1@[j].output@,
                (n1 - 1) as nat,
            );
        lemma_all_derive_epsilon_mono(
            g,
            g.productions@[i].1@[j].output@,
            (n1 - 1) as nat,
            (n2 - 1) as nat,
        );
    }
}

pub proof fn lemma_all_derive_epsilon_mono<T>(
    g: ContextFreeGrammar<T>,
    out: Seq<T>,
    n1: nat,
    n2: nat,
)
    requires
        n1 <= n2,
        all_derive_epsilon(g, out, n1),
    ensures
        all_derive_epsilon(g, out, n2),
    decreases n1, 1int, out.len(),
{
    if out.len() > 0 {
        lemma_derives_epsilon_mono(g, out[0], n1, n2);
        lemma_all_derive_epsilon_mono(g, out.drop_first(), n1, n2);
    }
}

/// Extends a string of symbols that all derive the empty string by one more
/// such symbol.
pub proof fn lemma_all_derive_epsilon_push<T>(
    g: ContextFreeGrammar<T>,
    out: Seq<T>,
    x: T,
    n: nat,
)
    requires
        all_derive_epsilon(g, out, n),
        derives_epsilon(g, x, n),
    ensures
        all_derive_epsilon(g, out.push(x), n),
    decreases out.len(),
{
    if out.len() == 0 {
        assert(out.push(x)[0] == x);
        assert(out.push(x).drop_first() =~= Seq::<T>::empty());
        assert(all_derive_epsilon(g, Seq::<T>::empty(), n));
    } else {
        assert(out.push(x)[0] == out[0]);
        assert(out.push(x).drop_first() =~= out.drop_first().push(x));
        lemma_all_derive_epsilon_push(g, out.drop_first(), x, n);
    }
}

/// `sym` rewrites, within `n` steps, to a string of symbols that starts
/// with `t`: it is `t` itself, or some rule for it has an output that
/// derives a leading `t`.
pub open spec fn derives_leading<T>(g: ContextFreeGrammar<T>, sym: T, t: T, n: nat) -> bool
    decreases n, 0int, 0int,
{
    ||| sym == t
    ||| (n > 0 && exists|i: int, j: int|
        0 <= i < g.productions@.len() && 0 <= j < g.productions@[i].1@.len() && (
        #[trigger] g.productions@[i].1@[j]).input == sym && seq_derives_leading(
            g,
            g.productions@[i].1@[j].output@,
            t,
            (n - 1) as nat,
        ))
}

/// A string of symbols derives a leading `t`: its first symbol does, or its
/// first symbol derives the empty string and the rest derives a leading
/// `t`.
pub open spec fn seq_derives_leading<T>(
    g: ContextFreeGrammar<T>,
    out: Seq<T>,
    t: T,
    n: nat,
) -> bool
    decreases n, 1int, out.len(),
{
    out.len() > 0 && (derives_leading(g, out[0], t, n) || (derives_epsilon(g, out[0], n)
        && seq_derives_leading(g, out.drop_first(), t, n)))
}

pub proof fn lemma_derives_leading_mono<T>(
    g: ContextFreeGrammar<T>,
    sym: T,
    t: T,
    n1: nat,
    n2: nat,
)
    requires
        n1 <= n2,
        derives_leading(g, sym, t, n1),
    ensures
        derives_leading(g, sym, t, n2),
    decreases n1, 0int, 0int,
{
    if sym != t {
        let (i, j) = choose|i: int, j: int|
            0 <= i < g.productions@.len() && 0 <= j < g.productions@[i].1@.len() && (
            #[trigger] g.productions@[i].1@[j]).input == sym && seq_derives_leading(
                g,
                g.productions@[i].1@[j].output@,
                t,
                (n1 - 1) as nat,
            );
        lemma_seq_derives_leading_mono(
            g,
            g.productions@[i].1@[j].output@,
            t,
            (n1 - 1) as nat,
            (n2 - 1) as nat,
        );
    }
}

pub proof fn lemma_seq_derives_leading_mono<T>(
    g: ContextFreeGrammar<T>,
    out: Seq<T>,
    t: T,
    n1: nat,
    n2: nat,
)
    requires
        n1 <= n2,
        seq_derives_leading(g, out, t, n1),
    ensures
        seq_derives_leading(g, out, t, n2),
    decreases n1, 1int, out.len(),
{
    if derives_leading(g, out[0], t, n1) {
        lemma_derives_leading_mono(g, out[0], t, n1, n2);
    } else {
        lemma_derives_epsilon_mono(g, out[0], n1, n2);
        lemma_seq_derives_leading_mono(g, out.drop_first(), t, n1, n2);
    }
}

/// A string whose prefix derives the empty string and whose symbol at `i`
/// derives a leading `t` derives a leading `t` itself.
pub proof fn lemma_seq_leading_from_prefix<T>(
    g: ContextFreeGrammar<T>,
    out: Seq<T>,
    i: int,
    t: T,
    n: nat,
)
    requires
        0 <= i < out.len(),
        all_derive_epsilon(g, out.take(i), n),
        derives_leading(g, out[i], t, n),
    ensures
        seq_derives_leading(g, out, t, n),
    decreases i,
{
    if i == 0 {
    } else {
        assert(out.take(i)[0] == out[0]);
        assert(out.drop_first().take(i - 1) =~= out.take(i).drop_first());
        assert(out.drop_first()[i - 1] == out[i]);
        lemma_seq_leading_from_prefix(g, out.drop_first(), i - 1, t, n);
    }
}

/// Every map entry that holds a symbol other than epsilon belongs to a
/// symbol that derives a string led by it.
pub open spec fn first_t_sound<T>(g: ContextFreeGrammar<T>, m: Seq<(T, Vec<T>)>) -> bool {
    forall|i: int, y: T|
        0 <= i < m.len() && #[trigger] m[i].1@.contains(y) && y != g.epsilon_symbol ==> exists|
            n: nat,
        |
            derives_leading(g, m[i].0, y, n)
}

/// Every map entry that holds epsilon belongs to a symbol that derives the
/// empty string.
pub open spec fn first_eps_sound<T>(g: ContextFreeGrammar<T>, m: Seq<(T, Vec<T>)>) -> bool {
    forall|i: int|
        0 <= i < m.len() && #[trigger] m[i].1@.contains(g.epsilon_symbol) ==> exists|n: nat|
            derives_epsilon(g, m[i].0, n)
}

/// A symbol that derives the empty string is epsilon, or holds epsilon in
/// its FIRST set once the FIRST computation has reached a fixed point.
pub proof fn lemma_derives_epsilon_in_first<T>(
    g: ContextFreeGrammar<T>,
    m: Seq<(T, Vec<T>)>,
    sym: T,
    n: nat,
)
    requires
        g.wf(),
        first_stable(g, m),
        derives_epsilon(g, sym, n),
    ensures
        sym == g.epsilon_symbol || value_of(m, sym)@.contains(g.epsilon_symbol),
    decreases n, 0int, 0int,
{
    if sym != g.epsilon_symbol {
        let (i, j) = choose|i: int, j: int|
            0 <= i < g.productions@.len() && 0 <= j < g.productions@[i].1@.len() && (
            #[trigger] g.productions@[i].1@[j]).input == sym && all_derive_epsilon(
                g,
                g.productions@[i].1@[j].output@,
                (n - 1) as nat,
            );
        assert(g.productions@[i].0 == sym);
        assert(g.non_terminal_symbols_set@.contains(sym)) by {
            lemma_key_index(g.productions@, sym);
            if key_index(g.productions@, sym) == -1 {
                assert(g.productions@[i].0 != sym);
            }
            assert(has_key(g.productions@, sym));
        }
        assert(first_prod_stable(
            g,
            m,
            sym,
            value_of(m, sym)@,
            g.productions@[i].1@[j].output@,
        ));
        lemma_epsilon_walk(
            g,
            m,
            sym,
            value_of(m, sym)@,
            g.productions@[i].1@[j].output@,
            (n - 1) as nat,
        );
    }
}

/// The walk of one exhausted production whose symbols all derive the empty
/// string ends past the last symbol, so epsilon stands in the FIRST set of
/// the production's input.
proof fn lemma_epsilon_walk<T>(
    g: ContextFreeGrammar<T>,
    m: Seq<(T, Vec<T>)>,
    input: T,
    cur: Seq<T>,
    out: Seq<T>,
    n: nat,
)
    requires
        g.wf(),
        first_stable(g, m),
        g.non_terminal_symbols_set@.contains(input),
        cur == value_of(m, input)@,
        first_prod_stable(g, m, input, cur, out),
        all_derive_epsilon(g, out, n),
    ensures
        cur.contains(g.epsilon_symbol),
    decreases n, 1int, out.len(),
{
    assert forall|y: T| g.non_terminal_symbols_set@.contains(y) implies y != g.epsilon_symbol by {
        lemma_key_index(g.productions@, y);
        if g.non_terminal_symbols_set@.contains(y) {
            assert(has_key(g.productions@, y));
            let ki = key_index(g.productions@, y);
            assert(g.productions@[ki].0 == y);
        }
    }
    if out.len() > 0 {
        let x = out[0];
        assert(derives_epsilon(g, x, n));
        if x == input {
            lemma_derives_epsilon_in_first(g, m, input, n);
        } else if g.non_terminal_symbols_set@.contains(x) {
            lemma_derives_epsilon_in_first(g, m, x, n);
            assert(value_of(m, x)@.contains(g.epsilon_symbol));
            lemma_epsilon_walk(g, m, input, cur, out.drop_first(), n);
        } else {
            if x != g.epsilon_symbol {
                let (i2, j2) = choose|i2: int, j2: int|
                    0 <= i2 < g.productions@.len() && 0 <= j2 < g.productions@[i2].1@.len()
                        && (#[trigger] g.productions@[i2].1@[j2]).input == x
                        && all_derive_epsilon(
                        g,
                        g.productions@[i2].1@[j2].output@,
                        (n - 1) as nat,
                    );
                assert(g.productions@[i2].0 == x);
                lemma_key_index(g.productions@, x);
                if key_index(g.productions@, x) == -1 {
                    assert(g.productions@[i2].0 != x);
                }
                assert(g.non_terminal_symbols_set@.contains(x));
            }
            assert(cur.contains(x));
        }
    }
}

/// A symbol that derives a string led by the non-epsilon, non-non-terminal
/// symbol `t` is `t` itself, or holds `t` in its FIRST set once the FIRST
/// computation has reached a fixed point.
pub proof fn lemma_derives_leading_in_first<T>(
    g: ContextFreeGrammar<T>,
    m: Seq<(T, Vec<T>)>,
    sym: T,
    t: T,
    n: nat,
)
    requires
        g.wf(),
        first_stable(g, m),
        derives_leading(g, sym, t, n),
        t != g.epsilon_symbol,
        !g.non_terminal_symbols_set@.contains(t),
    ensures
        sym == t || value_of(m, sym)@.contains(t),
    decreases n, 0int, 0int,
{
    if sym != t {
        let (i, j) = choose|i: int, j: int|
            0 <= i < g.productions@.len() && 0 <= j < g.productions@[i].1@.len() && (
            #[trigger] g.productions@[i].1@[j]).input == sym && seq_derives_leading(
                g,
                g.productions@[i].1@[j].output@,
                t,
                (n - 1) as nat,
            );
        assert(g.productions@[i].0 == sym);
        assert(g.non_terminal_symbols_set@.contains(sym)) by {
            lemma_key_index(g.productions@, sym);
            if key_index(g.productions@, sym) == -1 {
                assert(g.productions@[i].0 != sym);
            }
            assert(has_key(g.productions@, sym));
        }
        assert(valid_production(g.productions@[i].1@[j], g.epsilon_symbol));
        assert(first_prod_stable(
            g,
            m,
            sym,
            value_of(m, sym)@,
            g.productions@[i].1@[j].output@,
        ));
        lemma_leading_walk(
            g,
            m,
            sym,
            value_of(m, sym)@,
            g.productions@[i].1@[j].output@,
            t,
            (n - 1) as nat,
        );
    }
}

/// The walk of an exhausted production whose output derives a leading `t`
/// reaches the position contributing `t`, so `t` stands in the FIRST set of
/// the production's input.
proof fn lemma_leading_walk<T>(
    g: ContextFreeGrammar<T>,
    m: Seq<(T, Vec<T>)>,
    input: T,
    cur: Seq<T>,
    out: Seq<T>,
    t: T,
    n: nat,
)
    requires
        g.wf(),
        first_stable(g, m),
        g.non_terminal_symbols_set@.contains(input),
        cur == value_of(m, input)@,
        first_prod_stable(g, m, input, cur, out),
        seq_derives_leading(g, out, t, n),
        t != g.epsilon_symbol,
        !g.non_terminal_symbols_set@.contains(t),
        out.contains(g.epsilon_symbol) ==> out.len() == 1,
    ensures
        cur.contains(t),
    decreases n, 1int, out.len(),
{
    assert forall|y: T| g.non_terminal_symbols_set@.contains(y) implies y != g.epsilon_symbol by {
        lemma_key_index(g.productions@, y);
        if g.non_terminal_symbols_set@.contains(y) {
            assert(has_key(g.productions@, y));
            let ki = key_index(g.productions@, y);
            assert(g.productions@[ki].0 == y);
        }
    }
    let x = out[0];
    if derives_leading(g, x, t, n) {
        if x == input {
            lemma_derives_leading_in_first(g, m, input, t, n);
        } else if g.non_terminal_symbols_set@.contains(x) {
            lemma_derives_leading_in_first(g, m, x, t, n);
            assert(value_of(m, x)@.contains(t));
        } else {
            assert(x == t) by {
                if x != t {
                    let (i2, j2) = choose|i2: int, j2: int|
                        0 <= i2 < g.productions@.len() && 0 <= j2 < g.productions@[i2].1@.len()
                            && (#[trigger] g.productions@[i2].1@[j2]).input == x
                            && seq_derives_leading(
                            g,
                            g.productions@[i2].1@[j2].output@,
                            t,
                            (n - 1) as nat,
                        );
                    assert(g.productions@[i2].0 == x);
                    lemma_key_index(g.productions@, x);
                    if key_index(g.productions@, x) == -1 {
                        assert(g.productions@[i2].0 != x);
                    }
                    assert(g.non_terminal_symbols_set@.contains(x));
                }
            }
            assert(cur.contains(x));
        }
    } else {
        assert(derives_epsilon(g, x, n));
        assert(seq_derives_leading(g, out.drop_first(), t, n));
        assert(x != g.epsilon_symbol) by {
            if x == g.epsilon_symbol {
                assert(out.contains(g.epsilon_symbol)) by {
                    assert(out[0] == g.epsilon_symbol);
                }
                assert(out.len() == 1);
                assert(out.drop_first().len() == 0);
            }
        }
        assert(!out.drop_first().contains(g.epsilon_symbol)) by {
            if out.drop_first().contains(g.epsilon_symbol) {
                let w = choose|w: int|
                    0 <= w < out.drop_first().len() && out.drop_first()[w]
                        == g.epsilon_symbol;
                assert(out[w + 1] == g.epsilon_symbol);
                assert(out.contains(g.epsilon_symbol));
                assert(out.len() == 1);
            }
        }
        if x == input {
            lemma_derives_epsilon_in_first(g, m, input, n);
            assert(cur.contains(g.epsilon_symbol));
        } else if g.non_terminal_symbols_set@.contains(x) {
            lemma_derives_epsilon_in_first(g, m, x, n);
            assert(value_of(m, x)@.contains(g.epsilon_symbol));
        } else {
            assert(x == g.epsilon_symbol) by {
                if x != g.epsilon_symbol {
                    let (i2, j2) = choose|i2: int, j2: int|
                        0 <= i2 < g.productions@.len() && 0 <= j2 < g.productions@[i2].1@.len()
                            && (#[trigger] g.productions@[i2].1@[j2]).input == x
                            && all_derive_epsilon(
                            g,
                            g.productions@[i2].1@[j2].output@,
                            (n - 1) as nat,
                        );
                    assert(g.productions@[i2].0 == x);
                    lemma_key_index(g.productions@, x);
                    if key_index(g.productions@, x) == -1 {
                        assert(g.productions@[i2].0 != x);
                    }
                    assert(g.non_terminal_symbols_set@.contains(x));
                }
            }
            assert(false);
        }
        lemma_leading_walk(g, m, input, cur, out.drop_first(), t, n);
    }
}

/// Once the FIRST computation has converged, a non-terminal holds a
/// non-epsilon terminal in its FIRST set exactly when it derives a string
/// of symbols led by that terminal.
pub proof fn lemma_first_terminal_iff_derives<T>(
    g: ContextFreeGrammar<T>,
    m: Seq<(T, Vec<T>)>,
    sym: T,
    t: T,
)
    requires
        g.wf(),
        first_keys_ok(g, m),
        first_stable(g, m),
        first_t_sound(g, m),
        g.non_terminal_symbols_set@.contains(sym),
        !g.non_terminal_symbols_set@.contains(t),
        t != g.epsilon_symbol,
    ensures
        value_of(m, sym)@.contains(t) <==> exists|n: nat| derives_leading(g, sym, t, n),
{
    lemma_first_map_has_key(g, m, sym);
    lemma_key_index(m, sym);
    let ki = key_index(m, sym);
    assert(m[ki].0 == sym);
    assert(value_of(m, sym) == m[ki].1);
    if value_of(m, sym)@.contains(t) {
        assert(m[ki].1@.contains(t));
    }
    if exists|n: nat| derives_leading(g, sym, t, n) {
        let n = choose|n: nat| derives_leading(g, sym, t, n);
        lemma_derives_leading_in_first(g, m, sym, t, n);
    }
}

/// Once the FIRST computation has converged, a non-terminal holds epsilon
/// in its FIRST set exactly when it derives the empty string.
pub proof fn lemma_first_epsilon_iff_derives<T>(
    g: ContextFreeGrammar<T>,
    m: Seq<(T, Vec<T>)>,
    sym: T,
)
    requires
        g.wf(),
        first_keys_ok(g, m),
        first_stable(g, m),
        first_eps_sound(g, m),
        g.non_terminal_symbols_set@.contains(sym),
    ensures
        value_of(m, sym)@.contains(g.epsilon_symbol) <==> exists|n: nat|
            derives_epsilon(g, sym, n),
{
    lemma_first_map_has_key(g, m, sym);
    lemma_key_index(m, sym);
    let ki = key_index(m, sym);
    assert(m[ki].0 == sym);
    assert(value_of(m, sym) == m[ki].1);
    if value_of(m, sym)@.contains(g.epsilon_symbol) {
        assert(m[ki].1@.contains(g.epsilon_symbol));
    }
    if exists|n: nat| derives_epsilon(g, sym, n) {
        let n = choose|n: nat| derives_epsilon(g, sym, n);
        lemma_derives_epsilon_in_first(g, m, sym, n);
        assert(sym != g.epsilon_symbol) by {
            if sym == g.epsilon_symbol {
                lemma_key_index(g.productions@, sym);
                assert(has_key(g.productions@, sym));
                let pi = key_index(g.productions@, sym);
                assert(g.productions@[pi].0 == g.epsilon_symbol);
            }
        }
    }
}

/// The FOLLOW map is keyed by the non-terminals, in order.
pub open spec fn follow_keys_ok<T>(g: ContextFreeGrammar<T>, m: Seq<(T, Vec<T>)>) -> bool {
    &&& m.len() == g.non_terminal_symbols_set@.len()
    &&& forall|i: int|
        0 <= i < m.len() ==> (#[trigger] m[i]).0 == g.non_terminal_symbols_set@[i]
}

/// Every FOLLOW set is duplicate-free and holds only non-epsilon terminals.
pub open spec fn follow_sets_ok<T>(g: ContextFreeGrammar<T>, m: Seq<(T, Vec<T>)>) -> bool {
    &&& forall|i: int, a: int, b: int|
        #![trigger m[i].1@[a], m[i].1@[b]]
        0 <= i < m.len() && 0 <= a < b < m[i].1@.len() ==> m[i].1@[a] != m[i].1@[b]
    &&& forall|i: int, y: T|
        0 <= i < m.len() && #[trigger] m[i].1@.contains(y) ==> follow_symbol_ok(g, y)
}

/// The tail epsilon chain of one production adds nothing: walking from
/// position `idx` leftwards, the FOLLOW set of the production's input is
/// contained in the FOLLOW set of each walked non-terminal other than the
/// input itself, and the walk steps below a position only while FIRST of
/// the symbol standing there holds epsilon.
pub open spec fn follow_tail_stable<T>(
    g: ContextFreeGrammar<T>,
    fm: Seq<(T, Vec<T>)>,
    gm: Seq<(T, Vec<T>)>,
    input: T,
    out: Seq<T>,
    idx: int,
) -> bool
    decreases idx + 1,
{
    if !(0 <= idx < out.len()) {
        true
    } else {
        let x = out[idx];
        &&& ((x != input && g.non_terminal_symbols_set@.contains(x)) ==> (forall|y: T|
            value_of(gm, input)@.contains(y) ==> #[trigger] value_of(gm, x)@.contains(y)))
        &&& ((idx > 0 && value_of(fm, x)@.contains(g.epsilon_symbol)) ==> follow_tail_stable(
            g,
            fm,
            gm,
            input,
            out,
            idx - 1,
        ))
    }
}

/// The epsilon chain collected to the right of a position: the previous
/// chain extended by the next position when FIRST of the symbol there holds
/// epsilon, else restarted at that position alone.
pub open spec fn fi_next<T>(
    g: ContextFreeGrammar<T>,
    fm: Seq<(T, Vec<T>)>,
    out: Seq<T>,
    next_idx: usize,
    fi: Seq<usize>,
) -> Seq<usize> {
    if value_of(fm, out[next_idx as int])@.contains(g.epsilon_symbol) {
        fi.push(next_idx)
    } else {
        seq![next_idx]
    }
}

/// The FOLLOW set of `x` already holds the non-epsilon FIRST symbols of
/// every chain position.
pub open spec fn follow_chain_done<T>(
    g: ContextFreeGrammar<T>,
    fm: Seq<(T, Vec<T>)>,
    gm: Seq<(T, Vec<T>)>,
    out: Seq<T>,
    fi: Seq<usize>,
    x: T,
) -> bool {
    forall|k: int, y: T|
        0 <= k < fi.len() && fi[k] < out.len() && #[trigger] value_of(
            fm,
            out[fi[k] as int],
        )@.contains(y) && y != g.epsilon_symbol ==> value_of(gm, x)@.contains(y)
}

/// The interior FOLLOW rule of one production adds nothing from position
/// `idx` down to the first, given the epsilon chain `fi` collected so far by
/// the right-to-left walk.
pub open spec fn follow_interior_stable<T>(
    g: ContextFreeGrammar<T>,
    fm: Seq<(T, Vec<T>)>,
    gm: Seq<(T, Vec<T>)>,
    out: Seq<T>,
    idx: int,
    fi: Seq<usize>,
) -> bool
    decreases idx + 1,
{
    if !(0 <= idx && idx + 1 < out.len()) {
        true
    } else {
        let x = out[idx];
        if g.non_terminal_symbols_set@.contains(x) {
            if x != out[idx + 1] {
                let fi2 = fi_next(g, fm, out, (idx + 1) as usize, fi);
                &&& follow_chain_done(g, fm, gm, out, fi2, x)
                &&& follow_interior_stable(g, fm, gm, out, idx - 1, fi2)
            } else {
                follow_interior_stable(g, fm, gm, out, idx - 1, fi)
            }
        } else {
            follow_interior_stable(g, fm, gm, out, idx - 1, Seq::<usize>::empty())
        }
    }
}

/// Both FOLLOW update rules of one production are exhausted.
pub open spec fn follow_prod_stable<T>(
    g: ContextFreeGrammar<T>,
    fm: Seq<(T, Vec<T>)>,
    gm: Seq<(T, Vec<T>)>,
    input: T,
    out: Seq<T>,
) -> bool {
    &&& follow_tail_stable(g, fm, gm, input, out, out.len() - 1)
    &&& follow_interior_stable(g, fm, gm, out, out.len() - 2, Seq::<usize>::empty())
}

/// The whole FOLLOW map is a fixed point of the update rules over the given
/// FIRST map.
pub open spec fn follow_stable<T>(
    g: ContextFreeGrammar<T>,
    fm: Seq<(T, Vec<T>)>,
    gm: Seq<(T, Vec<T>)>,
) -> bool {
    forall|i: int, j: int|
        0 <= i < g.productions@.len() && 0 <= j < g.productions@[i].1@.len()
            ==> follow_prod_stable(
            g,
            fm,
            gm,
            g.productions@[i].0,
            (#[trigger] g.productions@[i].1@[j]).output@,
        )
}

/// The tail walk of a production reaches position `idx`: every position
/// behind it has epsilon in its FIRST set.
pub open spec fn tail_reaches<T>(
    g: ContextFreeGrammar<T>,
    fm: Seq<(T, Vec<T>)>,
    out: Seq<T>,
    idx: int,
) -> bool {
    forall|l: int|
        idx < l < out.len() ==> value_of(fm, #[trigger] out[l])@.contains(g.epsilon_symbol)
}

/// The epsilon chain the interior walk carries when it arrives at position
/// `idx`, the walk having processed the positions to the right of `idx`
/// from the second-to-last leftwards.
pub open spec fn fi_before<T>(
    g: ContextFreeGrammar<T>,
    fm: Seq<(T, Vec<T>)>,
    out: Seq<T>,
    idx: int,
) -> Seq<usize>
    decreases out.len() - idx,
{
    if idx >= out.len() - 2 {
        Seq::empty()
    } else {
        let prev = fi_before(g, fm, out, idx + 1);
        let x = out[idx + 1];
        if g.non_terminal_symbols_set@.contains(x) {
            if x != out[idx + 2] {
                fi_next(g, fm, out, (idx + 2) as usize, prev)
            } else {
                prev
            }
        } else {
            Seq::<usize>::empty()
        }
    }
}

/// `y` stands in the FOLLOW set of `x` by force of the update rules within
/// `n` tail steps: an interior rule pours it in from the FIRST set of an
/// epsilon-chain position to the right of an occurrence of `x`, or a tail
/// rule passes it down from the FOLLOW set of a production's input along a
/// walked tail position.
pub open spec fn follow_justified<T>(
    g: ContextFreeGrammar<T>,
    fm: Seq<(T, Vec<T>)>,
    x: T,
    y: T,
    n: nat,
) -> bool
    decreases n,
{
    n > 0 && exists|i: int, j: int, p: int|
        {
            &&& 0 <= i < g.productions@.len()
            &&& 0 <= j < g.productions@[i].1@.len()
            &&& 0 <= p < g.productions@[i].1@[j].output@.len()
            &&& #[trigger] g.productions@[i].1@[j].output@[p] == x
            &&& {
                let out = g.productions@[i].1@[j].output@;
                ||| (p < out.len() - 1 && g.non_terminal_symbols_set@.contains(x) && x != out[p
                    + 1] && (exists|k: int|
                    0 <= k < fi_next(g, fm, out, (p + 1) as usize, fi_before(g, fm, out, p)).len()
                        && fi_next(g, fm, out, (p + 1) as usize, fi_before(g, fm, out, p))[k]
                        < out.len() && #[trigger] value_of(
                        fm,
                        out[fi_next(g, fm, out, (p + 1) as usize, fi_before(g, fm, out, p))[k] as int],
                    )@.contains(y) && y != g.epsilon_symbol))
                ||| (tail_reaches(g, fm, out, p) && x != g.productions@[i].0
                    && g.non_terminal_symbols_set@.contains(x) && follow_justified(
                    g,
                    fm,
                    g.productions@[i].0,
                    y,
                    (n - 1) as nat,
                ))
            }
        }
}

/// Every member of every FOLLOW set is justified by the update rules over
/// the given FIRST map.
pub open spec fn follow_sound<T>(
    g: ContextFreeGrammar<T>,
    fm: Seq<(T, Vec<T>)>,
    gm: Seq<(T, Vec<T>)>,
) -> bool {
    forall|i: int, y: T|
        0 <= i < gm.len() && #[trigger] gm[i].1@.contains(y) ==> exists|n: nat|
            follow_justified(g, fm, gm[i].0, y, n)
}

/// Everything `FirstFollowSymbols::from` establishes of its result: the
/// shapes of both maps, the exact singleton FIRST sets of the terminals, the
/// containment bounds, and that both maps are fixed points of their update
/// rules, with every FIRST member justified by a derivation.
pub open spec fn computed_first_follow<T>(
    g: ContextFreeGrammar<T>,
    fm: Seq<(T, Vec<T>)>,
    gm: Seq<(T, Vec<T>)>,
) -> bool {
    &&& first_keys_ok(g, fm)
    &&& first_sets_ok(g, fm)
    &&& first_terminal_pin(g, fm)
    &&& first_stable(g, fm)
    &&& first_eps_sound(g, fm)
    &&& first_t_sound(g, fm)
    &&& follow_keys_ok(g, gm)
    &&& follow_sets_ok(g, gm)
    &&& follow_stable(g, fm, gm)
    &&& follow_sound(g, fm, gm)
}

/// A non-terminal has an entry in the FOLLOW map.
pub proof fn lemma_follow_map_has_key<T>(
    grammar: ContextFreeGrammar<T>,
    m: Seq<(T, Vec<T>)>,
    sym: T,
)
    requires
        follow_keys_ok(grammar, m),
        grammar.non_terminal_symbols_set@.contains(sym),
    ensures
        key_index(m, sym) >= 0,
{
    lemma_key_index(m, sym);
    if key_index(m, sym) == -1 {
        let w = choose|w: int|
            0 <= w < grammar.non_terminal_symbols_set@.len()
                && grammar.non_terminal_symbols_set@[w] == sym;
        assert(m[w].0 == sym);
    }
}

/// Every symbol of the grammar has an entry in the FIRST map.
pub proof fn lemma_first_map_has_key<T>(
    grammar: ContextFreeGrammar<T>,
    m: Seq<(T, Vec<T>)>,
    sym: T,
)
    requires
        first_keys_ok(grammar, m),
        grammar.non_terminal_symbols_set@.contains(sym)
            || grammar.terminal_symbols_set@.contains(sym),
    ensures
        key_index(m, sym) >= 0,
{
    lemma_key_index(m, sym);
    if key_index(m, sym) == -1 {
        if grammar.non_terminal_symbols_set@.contains(sym) {
            let w = choose|w: int|
                0 <= w < grammar.non_terminal_symbols_set@.len()
                    && grammar.non_terminal_symbols_set@[w] == sym;
            assert(m[w].0 == sym);
        } else {
            let w = choose|w: int|
                0 <= w < grammar.terminal_symbols_set@.len()
                    && grammar.terminal_symbols_set@[w] == sym;
            let nt = grammar.non_terminal_symbols_set@.len() as int;
            assert(m[nt + w].0 == sym);
        }
    }
}

/// A symbol on a production's right-hand side is a non-terminal or a
/// terminal.
pub proof fn lemma_production_symbol_kind<T>(
    grammar: ContextFreeGrammar<T>,
    gi: int,
    j: int,
    i: int,
)
    requires
        grammar.wf(),
        0 <= gi < grammar.productions@.len(),
        0 <= j < grammar.productions@[gi].1@.len(),
        0 <= i < grammar.productions@[gi].1@[j].output@.len(),
    ensures
        grammar.non_terminal_symbols_set@.contains(
            grammar.productions@[gi].1@[j].output@[i],
        ) || grammar.terminal_symbols_set@.contains(
            grammar.productions@[gi].1@[j].output@[i],
        ),
{
    let sym = grammar.productions@[gi].1@[j].output@[i];
    if !grammar.non_terminal_symbols_set@.contains(sym) {
        assert(some_output_contains(grammar.productions@[gi].1@, sym)) by {
            assert(grammar.productions@[gi].1@[j].output@.contains(sym));
        }
        assert(grammar.rhs_symbol(sym));
    }
}


impl<T: Copy + PartialEq> FirstFollowSymbols<T> {
    pub fn new(first_symbols: SymbolsMap<T>, follow_symbols: SymbolsMap<T>) -> (r: Self)
        ensures
            r.first_symbols == first_symbols,
            r.follow_symbols == follow_symbols,
    {
        FirstFollowSymbols { first_symbols, follow_symbols }
    }

    pub fn get_first_symbols(&self, symbol: &T) -> (r: Option<&Vec<T>>)
        requires
            reflects_eq::<T>(),
        ensures
            match r {
                Some(s) => has_key(self.first_symbols@, *symbol) && s@ == value_of(
                    self.first_symbols@,
                    *symbol,
                )@,
                None => !has_key(self.first_symbols@, *symbol),
            },
    {
        Self::get_symbols_from_hash_map(&self.first_symbols, symbol)
    }

    pub fn get_follow_symbols(&self, symbol: &T) -> (r: Option<&Vec<T>>)
        requires
            reflects_eq::<T>(),
        ensures
            match r {
                Some(s) => has_key(self.follow_symbols@, *symbol) && s@ == value_of(
                    self.follow_symbols@,
                    *symbol,
                )@,
                None => !has_key(self.follow_symbols@, *symbol),
            },
    {
        Self::get_symbols_from_hash_map(&self.follow_symbols, symbol)
    }

    fn get_symbols_from_hash_map<'a>(hash_map: &'a SymbolsMap<T>, key: &T) -> (r: Option<
        &'a Vec<T>,
    >)
        requires
            reflects_eq::<T>(),
        ensures
            match r {
                Some(s) => has_key(hash_map@, *key) && s@ == value_of(hash_map@, *key)@,
                None => !has_key(hash_map@, *key),
            },
    {
        match find_key(hash_map, key) {
            Some(i) => Some(&hash_map[i].1),
            None => None,
        }
    }

    pub fn from(grammar: &ContextFreeGrammar<T>) -> (r: Self)
        requires
            reflects_eq::<T>(),
            grammar.wf(),
        ensures
            first_keys_ok(*grammar, r.first_symbols@),
            first_sets_ok(*grammar, r.first_symbols@),
            first_terminal_pin(*grammar, r.first_symbols@),
            first_stable(*grammar, r.first_symbols@),
            first_eps_sound(*grammar, r.first_symbols@),
            first_t_sound(*grammar, r.first_symbols@),
            follow_keys_ok(*grammar, r.follow_symbols@),
            follow_sets_ok(*grammar, r.follow_symbols@),
            follow_stable(*grammar, r.first_symbols@, r.follow_symbols@),
            follow_sound(*grammar, r.first_symbols@, r.follow_symbols@),
            computed_first_follow(*grammar, r.first_symbols@, r.follow_symbols@),
    {
        let first_symbols = Self::inner_get_first_symbols(grammar);
        let follow_symbols = Self::inner_get_follow_symbols(grammar, &first_symbols);
        Self::new(first_symbols, follow_symbols)
    }

    fn inner_get_first_symbols(grammar: &ContextFreeGrammar<T>) -> (m: SymbolsMap<T>)
        requires
            reflects_eq::<T>(),
            grammar.wf(),
        ensures
            first_keys_ok(*grammar, m@),
            first_sets_ok(*grammar, m@),
            first_terminal_pin(*grammar, m@),
            first_stable(*grammar, m@),
            first_eps_sound(*grammar, m@),
            first_t_sound(*grammar, m@),
    {
        let mut m = Self::inner_get_first_symbols_initial_map(grammar);
        let ghost cap = (grammar.terminal_symbols_set@.len() + 1) as nat;
        let ghost size = m@.len() as nat;
        loop
            invariant
                reflects_eq::<T>(),
                grammar.wf(),
                first_keys_ok(*grammar, m@),
                first_sets_ok(*grammar, m@),
                first_terminal_pin(*grammar, m@),
                first_eps_sound(*grammar, m@),
                first_t_sound(*grammar, m@),
                cap == (grammar.terminal_symbols_set@.len() + 1) as nat,
                size == m@.len(),
            ensures
                first_stable(*grammar, m@),
                first_eps_sound(*grammar, m@),
                first_t_sound(*grammar, m@),
            decreases size * cap - total_vals_len(m@),
        {
            proof {
                Self::lemma_first_total_bounded(*grammar, m@);
            }
            let changed = Self::first_pass(grammar, &mut m);
            if !changed {
                break ;
            }
            proof {
                Self::lemma_first_total_bounded(*grammar, m@);
            }
        }
        m
    }

    /// The summed sizes of the FIRST sets stay under the number of entries
    /// times the size of the symbol universe.
    proof fn lemma_first_total_bounded(grammar: ContextFreeGrammar<T>, m: Seq<(T, Vec<T>)>)
        requires
            first_sets_ok(grammar, m),
        ensures
            total_vals_len(m) <= m.len() * ((grammar.terminal_symbols_set@.len() + 1) as nat),
    {
        let u = grammar.terminal_symbols_set@.push(grammar.epsilon_symbol);
        let cap = (grammar.terminal_symbols_set@.len() + 1) as nat;
        assert forall|i: int| 0 <= i < m.len() implies (#[trigger] m[i]).1@.len() <= cap by {
            assert forall|a: int, b: int|
                0 <= a < b < m[i].1@.len() implies m[i].1@[a] != m[i].1@[b] by {}
            assert forall|y: T| m[i].1@.contains(y) implies u.contains(y) by {
                assert(first_symbol_ok(grammar, y));
                crate::assoc::lemma_push_contains(grammar.terminal_symbols_set@,
                    grammar.epsilon_symbol);
            }
            lemma_distinct_subset_len(m[i].1@, u);
        }
        lemma_total_vals_bound(m, cap);
    }

    fn inner_get_first_symbols_initial_map(grammar: &ContextFreeGrammar<T>) -> (m: SymbolsMap<T>)
        requires
            reflects_eq::<T>(),
            grammar.wf(),
        ensures
            first_keys_ok(*grammar, m@),
            first_sets_ok(*grammar, m@),
            first_terminal_pin(*grammar, m@),
            first_eps_sound(*grammar, m@),
            first_t_sound(*grammar, m@),
    {
        let nt_count = grammar.non_terminal_symbols_set.len();
        let t_count = grammar.terminal_symbols_set.len();
        let mut m: SymbolsMap<T> = Vec::new();
        let mut i: usize = 0;
        while i < nt_count
            invariant
                nt_count == grammar.non_terminal_symbols_set@.len(),
                i <= nt_count,
                m@.len() == i,
                forall|j: int|
                    0 <= j < i ==> (#[trigger] m@[j]).0 == grammar.non_terminal_symbols_set@[j],
                forall|j: int| 0 <= j < i ==> (#[trigger] m@[j]).1@.len() == 0,
            decreases nt_count - i,
        {
            let fresh: Vec<T> = Vec::new();
            m.push((grammar.non_terminal_symbols_set[i], fresh));
            i += 1;
        }
        let mut j: usize = 0;
        while j < t_count
            invariant
                nt_count == grammar.non_terminal_symbols_set@.len(),
                t_count == grammar.terminal_symbols_set@.len(),
                j <= t_count,
                m@.len() == nt_count + j,
                forall|a: int|
                    0 <= a < nt_count ==> (#[trigger] m@[a]).0
                        == grammar.non_terminal_symbols_set@[a],
                forall|a: int| 0 <= a < nt_count ==> (#[trigger] m@[a]).1@.len() == 0,
                forall|a: int|
                    nt_count <= a < m@.len() ==> (#[trigger] m@[a]).0
                        == grammar.terminal_symbols_set@[a - nt_count],
                forall|a: int|
                    nt_count <= a < m@.len() ==> (#[trigger] m@[a]).1@ == seq![m@[a].0],
            decreases t_count - j,
        {
            let t = grammar.terminal_symbols_set[j];
            let mut single: Vec<T> = Vec::new();
            single.push(t);
            proof {
                assert(single@ =~= seq![t]);
            }
            m.push((t, single));
            j += 1;
        }
        proof {
            assert forall|i2: int, y: T|
                0 <= i2 < m@.len() && #[trigger] m@[i2].1@.contains(y) implies first_symbol_ok(
                *grammar,
                y,
            ) by {
                if i2 < nt_count {
                    assert(m@[i2].1@.len() == 0);
                } else {
                    assert(m@[i2].1@ == seq![m@[i2].0]);
                    assert(y == m@[i2].0);
                    assert(grammar.terminal_symbols_set@.contains(y)) by {
                        assert(grammar.terminal_symbols_set@[i2 - nt_count] == y);
                    }
                }
            }
            // only the epsilon symbol's own singleton can hold epsilon, and
            // epsilon derives the empty string outright
            assert forall|i2: int|
                0 <= i2 < m@.len() && (#[trigger] m@[i2]).1@.contains(grammar.epsilon_symbol)
                implies exists|n: nat| derives_epsilon(*grammar, m@[i2].0, n) by {
                if i2 < nt_count {
                    assert(m@[i2].1@.len() == 0);
                } else {
                    assert(m@[i2].1@ == seq![m@[i2].0]);
                    assert(m@[i2].0 == grammar.epsilon_symbol);
                    assert(derives_epsilon(*grammar, m@[i2].0, 0nat));
                }
            }
            // a terminal's singleton holds the terminal itself, which leads
            // its own one-symbol string
            assert forall|i2: int, y: T|
                0 <= i2 < m@.len() && #[trigger] m@[i2].1@.contains(y) && y
                    != grammar.epsilon_symbol implies exists|n: nat|
                derives_leading(*grammar, m@[i2].0, y, n) by {
                if i2 < nt_count {
                    assert(m@[i2].1@.len() == 0);
                } else {
                    assert(m@[i2].1@ == seq![m@[i2].0]);
                    assert(y == m@[i2].0);
                    assert(derives_leading(*grammar, m@[i2].0, y, 0nat));
                }
            }
        }
        m
    }

    fn first_pass(grammar: &ContextFreeGrammar<T>, m: &mut SymbolsMap<T>) -> (changed: bool)
        requires
            reflects_eq::<T>(),
            grammar.wf(),
            first_keys_ok(*grammar, old(m)@),
            first_sets_ok(*grammar, old(m)@),
            first_terminal_pin(*grammar, old(m)@),
            first_eps_sound(*grammar, old(m)@),
            first_t_sound(*grammar, old(m)@),
        ensures
            first_keys_ok(*grammar, final(m)@),
            first_sets_ok(*grammar, final(m)@),
            first_terminal_pin(*grammar, final(m)@),
            first_eps_sound(*grammar, final(m)@),
            first_t_sound(*grammar, final(m)@),
            changed ==> total_vals_len(final(m)@) > total_vals_len(old(m)@),
            !changed ==> final(m)@ == old(m)@,
            !changed ==> first_stable(*grammar, final(m)@),
    {
        let nt_count = grammar.non_terminal_symbols_set.len();
        let mut changed = false;
        let mut a: usize = 0;
        while a < nt_count
            invariant
                reflects_eq::<T>(),
                grammar.wf(),
                nt_count == grammar.non_terminal_symbols_set@.len(),
                a <= nt_count,
                first_keys_ok(*grammar, m@),
                first_sets_ok(*grammar, m@),
                first_terminal_pin(*grammar, m@),
                first_eps_sound(*grammar, m@),
                first_t_sound(*grammar, m@),
                changed ==> total_vals_len(m@) > total_vals_len(old(m)@),
                !changed ==> m@ == old(m)@,
                total_vals_len(m@) >= total_vals_len(old(m)@),
                !changed ==> (forall|i: int, j: int|
                    0 <= i < grammar.productions@.len() && 0 <= j
                        < grammar.productions@[i].1@.len() && (exists|a2: int|
                        0 <= a2 < a && grammar.non_terminal_symbols_set@[a2]
                            == grammar.productions@[i].0) ==> first_prod_stable(
                        *grammar,
                        m@,
                        grammar.productions@[i].0,
                        value_of(m@, grammar.productions@[i].0)@,
                        (#[trigger] grammar.productions@[i].1@[j]).output@,
                    )),
            decreases nt_count - a,
        {
            let key = grammar.non_terminal_symbols_set[a];
            proof {
                assert(grammar.non_terminal_symbols_set@.contains(key));
                lemma_key_index(grammar.productions@, key);
            }
            let gi = match find_key(&grammar.productions, &key) {
                Some(gi) => gi,
                None => { proof { assert(false); } 0 },
            };
            let prods_len = grammar.productions[gi].1.len();
            let mut cur = copy_vec(&m[a].1);
            let ghost cur0 = m@[a as int].1@;
            let ghost m_snap = m@;
            proof {
                assert(m@[a as int].0 == key);
            }
            let mut a_changed = false;
            let mut j: usize = 0;
            while j < prods_len
                invariant
                    reflects_eq::<T>(),
                    grammar.wf(),
                    nt_count == grammar.non_terminal_symbols_set@.len(),
                    a < nt_count,
                    gi < grammar.productions@.len(),
                    grammar.productions@[gi as int].0 == key,
                    prods_len == grammar.productions@[gi as int].1@.len(),
                    j <= prods_len,
                    m@ == m_snap,
                    first_keys_ok(*grammar, m@),
                    first_sets_ok(*grammar, m@),
                    first_terminal_pin(*grammar, m@),
                    first_eps_sound(*grammar, m@),
                    first_t_sound(*grammar, m@),
                    cur@.contains(grammar.epsilon_symbol) ==> exists|n: nat|
                        derives_epsilon(*grammar, key, n),
                    forall|y: T|
                        #[trigger] cur@.contains(y) && y != grammar.epsilon_symbol ==> exists|
                            n2: nat,
                        |
                            derives_leading(*grammar, key, y, n2),
                    forall|x: int, y: int| 0 <= x < y < cur@.len() ==> cur@[x] != cur@[y],
                    forall|y: T| #[trigger] cur@.contains(y) ==> first_symbol_ok(*grammar, y),
                    cur@.len() >= cur0.len(),
                    a_changed == (cur@.len() > cur0.len()),
                    !a_changed ==> cur@ == cur0,
                    !a_changed ==> (forall|j2: int|
                        0 <= j2 < j ==> first_prod_stable(
                            *grammar,
                            m@,
                            key,
                            cur@,
                            (#[trigger] grammar.productions@[gi as int].1@[j2]).output@,
                        )),
                decreases prods_len - j,
            {
                let p_added = Self::inner_get_first_symbols_process_production(
                    grammar,
                    m,
                    &mut cur,
                    &key,
                    gi,
                    j,
                );
                a_changed = a_changed || p_added;
                j += 1;
            }
            proof {
                if !changed && !a_changed {
                    // the working set is exactly the stored FIRST set of the
                    // key, which sits at index `a` of the map
                    lemma_key_index(m@, key);
                    let ki = key_index(m@, key);
                    assert(m@[a as int].0 == key);
                    assert(ki >= 0) by {
                        if ki == -1 {
                            assert(m@[a as int].0 != key);
                        }
                    }
                    assert(ki == a) by {
                        if ki < a {
                            assert(m@[ki].0 == grammar.non_terminal_symbols_set@[ki]);
                            assert(grammar.non_terminal_symbols_set@[ki]
                                != grammar.non_terminal_symbols_set@[a as int]);
                        }
                        if ki > a {
                            assert(m@[a as int].0 != key);
                        }
                    }
                    assert(value_of(m@, key)@ == cur@);
                    // every production group keyed by this non-terminal is the
                    // group at `gi`
                    assert forall|i: int, j2: int|
                        0 <= i < grammar.productions@.len() && 0 <= j2
                            < grammar.productions@[i].1@.len()
                            && grammar.productions@[i].0 == key implies first_prod_stable(
                        *grammar,
                        m@,
                        grammar.productions@[i].0,
                        value_of(m@, grammar.productions@[i].0)@,
                        (#[trigger] grammar.productions@[i].1@[j2]).output@,
                    ) by {
                        assert(i == gi) by {
                            if i < gi {
                                assert(grammar.productions@[i].0
                                    != grammar.productions@[gi as int].0);
                            }
                            if i > gi {
                                assert(grammar.productions@[gi as int].0
                                    != grammar.productions@[i].0);
                            }
                        }
                    }
                }
            }
            if a_changed {
                let ghost pre = m@;
                m[a] = (key, cur);
                proof {
                    lemma_total_vals_update(pre, a as int, m@[a as int]);
                    assert(pre[a as int].1@ == cur0);
                    assert forall|i2: int, x: int, y: int|
                        #![trigger m@[i2].1@[x], m@[i2].1@[y]]
                        0 <= i2 < m@.len() && 0 <= x < y < m@[i2].1@.len() implies m@[i2].1@[x]
                        != m@[i2].1@[y] by {
                        if i2 != a {
                            assert(m@[i2] == pre[i2]);
                        }
                    }
                    assert forall|i2: int, y: T|
                        0 <= i2 < m@.len() && #[trigger] m@[i2].1@.contains(y)
                        implies first_symbol_ok(*grammar, y) by {
                        if i2 != a {
                            assert(m@[i2] == pre[i2]);
                        }
                    }
                    assert forall|i2: int|
                        0 <= i2 < m@.len() && (#[trigger] m@[i2]).1@.contains(
                            grammar.epsilon_symbol,
                        ) implies exists|n: nat| derives_epsilon(*grammar, m@[i2].0, n) by {
                        if i2 != a {
                            assert(m@[i2] == pre[i2]);
                        } else {
                            assert(m@[i2].0 == key);
                        }
                    }
                    assert forall|i2: int, y: T|
                        0 <= i2 < m@.len() && #[trigger] m@[i2].1@.contains(y) && y
                            != grammar.epsilon_symbol implies exists|n2: nat|
                        derives_leading(*grammar, m@[i2].0, y, n2) by {
                        if i2 != a {
                            assert(m@[i2] == pre[i2]);
                        } else {
                            assert(m@[i2].0 == key);
                        }
                    }
                }
                changed = true;
            }
            proof {
                if !changed {
                    assert forall|i: int, j2: int|
                        0 <= i < grammar.productions@.len() && 0 <= j2
                            < grammar.productions@[i].1@.len() && (exists|a2: int|
                            0 <= a2 < a + 1 && grammar.non_terminal_symbols_set@[a2]
                                == grammar.productions@[i].0) implies first_prod_stable(
                        *grammar,
                        m@,
                        grammar.productions@[i].0,
                        value_of(m@, grammar.productions@[i].0)@,
                        (#[trigger] grammar.productions@[i].1@[j2]).output@,
                    ) by {
                        let a2 = choose|a2: int|
                            0 <= a2 < a + 1 && grammar.non_terminal_symbols_set@[a2]
                                == grammar.productions@[i].0;
                        if a2 < a {
                            assert(exists|a3: int|
                                0 <= a3 < a && grammar.non_terminal_symbols_set@[a3]
                                    == grammar.productions@[i].0);
                        }
                    }
                }
            }
            a += 1;
        }
        proof {
            if !changed {
                assert forall|i: int, j2: int|
                    0 <= i < grammar.productions@.len() && 0 <= j2
                        < grammar.productions@[i].1@.len() implies first_prod_stable(
                    *grammar,
                    m@,
                    grammar.productions@[i].0,
                    value_of(m@, grammar.productions@[i].0)@,
                    (#[trigger] grammar.productions@[i].1@[j2]).output@,
                ) by {
                    let k2 = grammar.productions@[i].0;
                    assert(has_key(grammar.productions@, k2)) by {
                        lemma_key_index(grammar.productions@, k2);
                        if key_index(grammar.productions@, k2) == -1 {
                            assert(grammar.productions@[i].0 != k2);
                        }
                    }
                    assert(grammar.non_terminal_symbols_set@.contains(k2));
                    let a2 = choose|a2: int|
                        0 <= a2 < grammar.non_terminal_symbols_set@.len()
                            && grammar.non_terminal_symbols_set@[a2] == k2;
                    assert(exists|a3: int|
                        0 <= a3 < nt_count && grammar.non_terminal_symbols_set@[a3] == k2);
                }
            }
        }
        changed
    }

    /// Walks one production's output, growing the FIRST set of its input
    /// symbol held in `cur`. Reports whether `cur` grew.
    fn inner_get_first_symbols_process_production(
        grammar: &ContextFreeGrammar<T>,
        m: &SymbolsMap<T>,
        cur: &mut Vec<T>,
        input: &T,
        gi: usize,
        j: usize,
    ) -> (added: bool)
        requires
            reflects_eq::<T>(),
            grammar.wf(),
            first_keys_ok(*grammar, m@),
            first_sets_ok(*grammar, m@),
            gi < grammar.productions@.len(),
            grammar.productions@[gi as int].0 == *input,
            j < grammar.productions@[gi as int].1@.len(),
            first_eps_sound(*grammar, m@),
            first_t_sound(*grammar, m@),
            forall|x: int, y: int| 0 <= x < y < old(cur)@.len() ==> old(cur)@[x] != old(cur)@[y],
            forall|y: T| #[trigger] old(cur)@.contains(y) ==> first_symbol_ok(*grammar, y),
            old(cur)@.contains(grammar.epsilon_symbol) ==> exists|n: nat|
                derives_epsilon(*grammar, *input, n),
            forall|y: T|
                #[trigger] old(cur)@.contains(y) && y != grammar.epsilon_symbol ==> exists|
                    n: nat,
                |
                    derives_leading(*grammar, *input, y, n),
        ensures
            forall|x: int, y: int|
                0 <= x < y < final(cur)@.len() ==> final(cur)@[x] != final(cur)@[y],
            forall|y: T| #[trigger] final(cur)@.contains(y) ==> first_symbol_ok(*grammar, y),
            final(cur)@.len() >= old(cur)@.len(),
            added == (final(cur)@.len() > old(cur)@.len()),
            !added ==> final(cur)@ == old(cur)@,
            !added ==> first_prod_stable(
                *grammar,
                m@,
                *input,
                final(cur)@,
                grammar.productions@[gi as int].1@[j as int].output@,
            ),
            final(cur)@.contains(grammar.epsilon_symbol) ==> exists|n: nat|
                derives_epsilon(*grammar, *input, n),
            forall|y: T|
                #[trigger] final(cur)@.contains(y) && y != grammar.epsilon_symbol ==> exists|
                    n: nat,
                |
                    derives_leading(*grammar, *input, y, n),
    {
        let n = grammar.productions[gi].1[j].output.len();
        let ghost cur0 = cur@;
        let ghost out = grammar.productions@[gi as int].1@[j as int].output@;
        let mut added = false;
        let mut i: usize = 0;
        let mut go = true;
        proof {
            assert(out.skip(0) =~= out);
            assert(out.take(0) =~= Seq::<T>::empty());
            assert(all_derive_epsilon(*grammar, out.take(0), 0nat));
        }
        while go
            invariant
                reflects_eq::<T>(),
                grammar.wf(),
                first_keys_ok(*grammar, m@),
                first_sets_ok(*grammar, m@),
                first_eps_sound(*grammar, m@),
                gi < grammar.productions@.len(),
                grammar.productions@[gi as int].0 == *input,
                j < grammar.productions@[gi as int].1@.len(),
                n == grammar.productions@[gi as int].1@[j as int].output@.len(),
                i <= n,
                forall|x: int, y: int| 0 <= x < y < cur@.len() ==> cur@[x] != cur@[y],
                forall|y: T| #[trigger] cur@.contains(y) ==> first_symbol_ok(*grammar, y),
                cur@.len() >= cur0.len(),
                added == (cur@.len() > cur0.len()),
                !added ==> cur@ == cur0,
                out == grammar.productions@[gi as int].1@[j as int].output@,
                (!added && go) ==> (first_prod_stable(*grammar, m@, *input, cur@, out.skip(
                    i as int,
                )) ==> first_prod_stable(*grammar, m@, *input, cur@, out)),
                (!added && !go) ==> first_prod_stable(*grammar, m@, *input, cur@, out),
                cur@.contains(grammar.epsilon_symbol) ==> exists|n: nat|
                    derives_epsilon(*grammar, *input, n),
                forall|y: T|
                    #[trigger] cur@.contains(y) && y != grammar.epsilon_symbol ==> exists|
                        n2: nat,
                    |
                        derives_leading(*grammar, *input, y, n2),
                first_t_sound(*grammar, m@),
                go ==> exists|nd: nat|
                    all_derive_epsilon(*grammar, out.take(i as int), nd),
            decreases n - i, (if go { 1int } else { 0int }),
        {
            if i == n {
                proof {
                    // the whole output derives the empty string, so the
                    // production's input does too
                    let nd = choose|nd: nat|
                        all_derive_epsilon(*grammar, out.take(i as int), nd);
                    assert(out.take(i as int) =~= out);
                    assert(grammar.productions@[gi as int].1@[j as int].input == *input);
                    assert(derives_epsilon(*grammar, *input, nd + 1)) by {
                        assert(all_derive_epsilon(*grammar, out, nd));
                        assert((0 <= gi < grammar.productions@.len() && 0 <= j
                            < grammar.productions@[gi as int].1@.len() && (
                        #[trigger] grammar.productions@[gi as int].1@[j as int]).input
                            == *input && all_derive_epsilon(
                            *grammar,
                            grammar.productions@[gi as int].1@[j as int].output@,
                            ((nd + 1) - 1) as nat,
                        )));
                    }
                }
                let ghost cur_pre = cur@;
                let a2 = set_insert(cur, grammar.get_epsilon_symbol());
                added = added || a2;
                proof {
                    assert forall|y: T|
                        #[trigger] cur@.contains(y) && y != grammar.epsilon_symbol
                        implies exists|n2: nat|
                        derives_leading(*grammar, *input, y, n2) by {
                        assert(cur_pre.contains(y));
                    }
                    if !added {
                        assert(out.skip(n as int).len() == 0);
                        assert(cur@.contains(grammar.epsilon_symbol));
                        assert(first_prod_stable(*grammar, m@, *input, cur@, out.skip(
                            n as int,
                        )));
                    }
                }
                go = false;
            } else {
                let sym = grammar.productions[gi].1[j].output[i];
                proof {
                    assert(grammar.productions@[gi as int].1@[j as int].output@[i as int]
                        == sym);
                    assert(grammar.productions@[gi as int].1@[j as int].output@.contains(sym));
                }
                proof {
                    assert(out.skip(i as int)[0] == sym);
                    assert(out.skip(i as int).drop_first() =~= out.skip(i + 1 as int));
                }
                if sym.eq(input) {
                    if !vec_contains(cur, grammar.get_epsilon_symbol()) {
                        proof {
                            if !added {
                                assert(first_prod_stable(*grammar, m@, *input, cur@, out.skip(
                                    i as int,
                                )));
                            }
                        }
                        go = false;
                    } else {
                        proof {
                            let n1 = choose|n1: nat| derives_epsilon(*grammar, *input, n1);
                            let nd = choose|nd: nat|
                                all_derive_epsilon(*grammar, out.take(i as int), nd);
                            let nmax: nat = if n1 > nd { n1 } else { nd };
                            lemma_derives_epsilon_mono(*grammar, *input, n1, nmax);
                            lemma_all_derive_epsilon_mono(
                                *grammar,
                                out.take(i as int),
                                nd,
                                nmax,
                            );
                            lemma_all_derive_epsilon_push(
                                *grammar,
                                out.take(i as int),
                                sym,
                                nmax,
                            );
                            assert(out.take(i + 1 as int) =~= out.take(i as int).push(sym));
                        }
                        i += 1;
                    }
                } else {
                    if grammar.is_non_terminal(&sym) {
                        proof {
                            lemma_key_index(m@, sym);
                            if key_index(m@, sym) == -1 {
                                let w = choose|w: int|
                                    0 <= w < grammar.non_terminal_symbols_set@.len()
                                        && grammar.non_terminal_symbols_set@[w] == sym;
                                assert(m@[w].0 == sym);
                            }
                        }
                        let si = match find_key(m, &sym) {
                            Some(si) => si,
                            None => { proof { assert(false); } 0 },
                        };
                        proof {
                            assert(m@[si as int].1@ == value_of(m@, sym)@);
                        }
                        let eps_in = vec_contains(&m[si].1, grammar.get_epsilon_symbol());
                        if eps_in {
                            let ghost cur_pre = cur@;
                            let a2 = insert_all_except(
                                cur,
                                &m[si].1,
                                grammar.get_epsilon_symbol(),
                            );
                            added = added || a2;
                            proof {
                                assert forall|y: T|
                                    #[trigger] cur@.contains(y) && y
                                        != grammar.epsilon_symbol implies exists|n2: nat|
                                    derives_leading(*grammar, *input, y, n2) by {
                                    if !cur_pre.contains(y) {
                                        assert(m@[si as int].1@.contains(y));
                                        assert(m@[si as int].0 == sym);
                                        let n1 = choose|n1: nat|
                                            derives_leading(*grammar, m@[si as int].0, y, n1);
                                        assert(derives_leading(*grammar, sym, y, n1));
                                        let ndp = choose|ndp: nat|
                                            all_derive_epsilon(
                                                *grammar,
                                                out.take(i as int),
                                                ndp,
                                            );
                                        let nmax: nat = if n1 > ndp {
                                            n1
                                        } else {
                                            ndp
                                        };
                                        lemma_derives_leading_mono(*grammar, sym, y, n1, nmax);
                                        lemma_all_derive_epsilon_mono(
                                            *grammar,
                                            out.take(i as int),
                                            ndp,
                                            nmax,
                                        );
                                        assert(out.take(i as int) =~= out.take(i as int));
                                        lemma_seq_leading_from_prefix(
                                            *grammar,
                                            out,
                                            i as int,
                                            y,
                                            nmax,
                                        );
                                        assert(grammar.productions@[gi as int].1@[j as int]
                                            .input == *input);
                                        assert(derives_leading(*grammar, *input, y, nmax + 1));
                                    }
                                }
                                assert forall|y: T| #[trigger]
                                    cur@.contains(y) implies first_symbol_ok(*grammar, y) by {
                                    if !cur0.contains(y) {
                                        if m@[si as int].1@.contains(y) {
                                        }
                                    }
                                }
                                if !added {
                                    let fx = value_of(m@, sym)@;
                                    assert forall|y: T|
                                        fx.contains(y) && y != grammar.epsilon_symbol
                                        implies #[trigger] cur@.contains(y) by {}
                                }
                                // the walked symbol's FIRST set holds epsilon,
                                // so it derives the empty string
                                assert(m@[si as int].1@.contains(grammar.epsilon_symbol));
                                assert(m@[si as int].0 == sym);
                                assert(exists|n1: nat|
                                    derives_epsilon(*grammar, m@[si as int].0, n1));
                                let n1 = choose|n1: nat|
                                    derives_epsilon(*grammar, m@[si as int].0, n1);
                                assert(derives_epsilon(*grammar, sym, n1));
                                let nd = choose|nd: nat|
                                    all_derive_epsilon(*grammar, out.take(i as int), nd);
                                let nmax: nat = if n1 > nd { n1 } else { nd };
                                lemma_derives_epsilon_mono(*grammar, sym, n1, nmax);
                                lemma_all_derive_epsilon_mono(
                                    *grammar,
                                    out.take(i as int),
                                    nd,
                                    nmax,
                                );
                                lemma_all_derive_epsilon_push(
                                    *grammar,
                                    out.take(i as int),
                                    sym,
                                    nmax,
                                );
                                assert(out.take(i + 1 as int) =~= out.take(i as int).push(
                                    sym,
                                ));
                            }
                            i += 1;
                        } else {
                            let ghost cur_pre = cur@;
                            let a2 = insert_all(cur, &m[si].1);
                            added = added || a2;
                            proof {
                                assert forall|y: T|
                                    #[trigger] cur@.contains(y) && y
                                        != grammar.epsilon_symbol implies exists|n2: nat|
                                    derives_leading(*grammar, *input, y, n2) by {
                                    if !cur_pre.contains(y) {
                                        assert(m@[si as int].1@.contains(y));
                                        assert(m@[si as int].0 == sym);
                                        assert(out[i as int] == sym);
                                        let n1 = choose|n1: nat|
                                            derives_leading(*grammar, m@[si as int].0, y, n1);
                                        assert(derives_leading(*grammar, sym, y, n1));
                                        let ndp = choose|ndp: nat|
                                            all_derive_epsilon(
                                                *grammar,
                                                out.take(i as int),
                                                ndp,
                                            );
                                        let nmax: nat = if n1 > ndp {
                                            n1
                                        } else {
                                            ndp
                                        };
                                        lemma_derives_leading_mono(*grammar, sym, y, n1, nmax);
                                        lemma_all_derive_epsilon_mono(
                                            *grammar,
                                            out.take(i as int),
                                            ndp,
                                            nmax,
                                        );
                                        lemma_seq_leading_from_prefix(
                                            *grammar,
                                            out,
                                            i as int,
                                            y,
                                            nmax,
                                        );
                                        assert(grammar.productions@[gi as int].1@[j as int]
                                            .input == *input);
                                        assert(derives_leading(*grammar, *input, y, nmax + 1));
                                    }
                                }
                                if !added {
                                    let fx = value_of(m@, sym)@;
                                    assert forall|y: T|
                                        fx.contains(y) && y != grammar.epsilon_symbol
                                        implies #[trigger] cur@.contains(y) by {}
                                    assert(!fx.contains(grammar.epsilon_symbol));
                                    assert(first_prod_stable(*grammar, m@, *input, cur@,
                                        out.skip(i as int)));
                                }
                            }
                            go = false;
                        }
                    } else {
                        proof {
                            // a right-hand-side symbol that is not a
                            // non-terminal is a terminal
                            assert(some_output_contains(
                                grammar.productions@[gi as int].1@,
                                sym,
                            )) by {
                                assert(grammar.productions@[gi as int].1@[j as int].output@
                                    .contains(sym));
                            }
                            assert(grammar.rhs_symbol(sym));
                            assert(grammar.terminal_symbols_set@.contains(sym));
                        }
                        proof {
                            if sym == grammar.epsilon_symbol {
                                // an epsilon output stands alone, giving a
                                // one-step derivation of the empty string
                                assert(valid_production(
                                    grammar.productions@[gi as int].1@[j as int],
                                    grammar.epsilon_symbol,
                                ));
                                assert(out.contains(grammar.epsilon_symbol)) by {
                                    assert(out[i as int] == grammar.epsilon_symbol);
                                }
                                assert(out.len() == 1);
                                assert(derives_epsilon(*grammar, sym, 0nat));
                                assert(all_derive_epsilon(*grammar, out.drop_first(), 0nat))
                                    by {
                                    assert(out.drop_first().len() == 0);
                                }
                                assert(all_derive_epsilon(*grammar, out, 0nat));
                                assert(grammar.productions@[gi as int].1@[j as int].input
                                    == *input);
                                assert(derives_epsilon(*grammar, *input, 1nat));
                            }
                        }
                        proof {
                            if sym != grammar.epsilon_symbol {
                                // the terminal leads the string that the
                                // production derives after its empty prefix
                                let ndp = choose|ndp: nat|
                                    all_derive_epsilon(*grammar, out.take(i as int), ndp);
                                assert(out[i as int] == sym);
                                assert(derives_leading(*grammar, sym, sym, ndp));
                                lemma_seq_leading_from_prefix(
                                    *grammar,
                                    out,
                                    i as int,
                                    sym,
                                    ndp,
                                );
                                assert(grammar.productions@[gi as int].1@[j as int].input
                                    == *input);
                                assert(derives_leading(*grammar, *input, sym, ndp + 1));
                            }
                        }
                        let ghost cur_pre = cur@;
                        let a2 = set_insert(cur, &sym);
                        added = added || a2;
                        proof {
                            assert forall|y: T|
                                #[trigger] cur@.contains(y) && y != grammar.epsilon_symbol
                                implies exists|n2: nat|
                                derives_leading(*grammar, *input, y, n2) by {
                                if !cur_pre.contains(y) {
                                    assert(y == sym);
                                }
                            }
                            if !added {
                                assert(cur@.contains(sym));
                                assert(first_prod_stable(*grammar, m@, *input, cur@, out.skip(
                                    i as int,
                                )));
                            }
                        }
                        go = false;
                    }
                }
            }
        }
        added
    }

    fn inner_get_follow_symbols(
        grammar: &ContextFreeGrammar<T>,
        first_symbols_map: &SymbolsMap<T>,
    ) -> (m: SymbolsMap<T>)
        requires
            reflects_eq::<T>(),
            grammar.wf(),
            first_keys_ok(*grammar, first_symbols_map@),
            first_sets_ok(*grammar, first_symbols_map@),
        ensures
            follow_keys_ok(*grammar, m@),
            follow_sets_ok(*grammar, m@),
            follow_stable(*grammar, first_symbols_map@, m@),
            follow_sound(*grammar, first_symbols_map@, m@),
    {
        let nt_count = grammar.non_terminal_symbols_set.len();
        let mut m: SymbolsMap<T> = Vec::new();
        let mut i: usize = 0;
        while i < nt_count
            invariant
                nt_count == grammar.non_terminal_symbols_set@.len(),
                i <= nt_count,
                m@.len() == i,
                forall|j: int|
                    0 <= j < i ==> (#[trigger] m@[j]).0 == grammar.non_terminal_symbols_set@[j],
                forall|j: int| 0 <= j < i ==> (#[trigger] m@[j]).1@.len() == 0,
            decreases nt_count - i,
        {
            let fresh: Vec<T> = Vec::new();
            m.push((grammar.non_terminal_symbols_set[i], fresh));
            i += 1;
        }
        proof {
            assert forall|i2: int, y: T|
                0 <= i2 < m@.len() && #[trigger] m@[i2].1@.contains(y) implies follow_symbol_ok(
                *grammar,
                y,
            ) by {
                assert(m@[i2].1@.len() == 0);
            }
            assert forall|i2: int, y: T|
                0 <= i2 < m@.len() && #[trigger] m@[i2].1@.contains(y) implies exists|n2: nat|
                follow_justified(*grammar, first_symbols_map@, m@[i2].0, y, n2) by {
                assert(m@[i2].1@.len() == 0);
            }
        }
        let ghost cap = grammar.terminal_symbols_set@.len() as nat;
        let ghost size = m@.len() as nat;
        loop
            invariant
                reflects_eq::<T>(),
                grammar.wf(),
                first_keys_ok(*grammar, first_symbols_map@),
                first_sets_ok(*grammar, first_symbols_map@),
                follow_keys_ok(*grammar, m@),
                follow_sets_ok(*grammar, m@),
                follow_sound(*grammar, first_symbols_map@, m@),
                cap == grammar.terminal_symbols_set@.len(),
                size == m@.len(),
            ensures
                follow_stable(*grammar, first_symbols_map@, m@),
                follow_sound(*grammar, first_symbols_map@, m@),
            decreases size * cap - total_vals_len(m@),
        {
            proof {
                Self::lemma_follow_total_bounded(*grammar, m@);
            }
            let changed = Self::follow_pass(grammar, first_symbols_map, &mut m);
            if !changed {
                break ;
            }
            proof {
                Self::lemma_follow_total_bounded(*grammar, m@);
            }
        }
        m
    }

    proof fn lemma_follow_total_bounded(grammar: ContextFreeGrammar<T>, m: Seq<(T, Vec<T>)>)
        requires
            follow_sets_ok(grammar, m),
        ensures
            total_vals_len(m) <= m.len() * (grammar.terminal_symbols_set@.len() as nat),
    {
        let u = grammar.terminal_symbols_set@;
        assert forall|i: int| 0 <= i < m.len() implies (#[trigger] m[i]).1@.len() <= u.len() by {
            assert forall|a: int, b: int|
                0 <= a < b < m[i].1@.len() implies m[i].1@[a] != m[i].1@[b] by {}
            assert forall|y: T| m[i].1@.contains(y) implies u.contains(y) by {
                assert(follow_symbol_ok(grammar, y));
            }
            lemma_distinct_subset_len(m[i].1@, u);
        }
        lemma_total_vals_bound(m, u.len() as nat);
    }

    fn follow_pass(
        grammar: &ContextFreeGrammar<T>,
        first_symbols_map: &SymbolsMap<T>,
        m: &mut SymbolsMap<T>,
    ) -> (changed: bool)
        requires
            reflects_eq::<T>(),
            grammar.wf(),
            first_keys_ok(*grammar, first_symbols_map@),
            first_sets_ok(*grammar, first_symbols_map@),
            follow_keys_ok(*grammar, old(m)@),
            follow_sets_ok(*grammar, old(m)@),
            follow_sound(*grammar, first_symbols_map@, old(m)@),
        ensures
            follow_keys_ok(*grammar, final(m)@),
            follow_sets_ok(*grammar, final(m)@),
            follow_sound(*grammar, first_symbols_map@, final(m)@),
            changed ==> total_vals_len(final(m)@) > total_vals_len(old(m)@),
            !changed ==> final(m)@ == old(m)@,
            !changed ==> follow_stable(*grammar, first_symbols_map@, final(m)@),
    {
        let nt_count = grammar.non_terminal_symbols_set.len();
        let mut changed = false;
        let mut a: usize = 0;
        while a < nt_count
            invariant
                reflects_eq::<T>(),
                grammar.wf(),
                nt_count == grammar.non_terminal_symbols_set@.len(),
                a <= nt_count,
                first_keys_ok(*grammar, first_symbols_map@),
                first_sets_ok(*grammar, first_symbols_map@),
                follow_keys_ok(*grammar, m@),
                follow_sets_ok(*grammar, m@),
                follow_sound(*grammar, first_symbols_map@, m@),
                changed ==> total_vals_len(m@) > total_vals_len(old(m)@),
                !changed ==> m@ == old(m)@,
                total_vals_len(m@) >= total_vals_len(old(m)@),
                !changed ==> (forall|i: int, j: int|
                    0 <= i < grammar.productions@.len() && 0 <= j
                        < grammar.productions@[i].1@.len() && (exists|a2: int|
                        0 <= a2 < a && grammar.non_terminal_symbols_set@[a2]
                            == grammar.productions@[i].0) ==> follow_prod_stable(
                        *grammar,
                        first_symbols_map@,
                        m@,
                        grammar.productions@[i].0,
                        (#[trigger] grammar.productions@[i].1@[j]).output@,
                    )),
            decreases nt_count - a,
        {
            let key = grammar.non_terminal_symbols_set[a];
            proof {
                assert(grammar.non_terminal_symbols_set@.contains(key));
                lemma_key_index(grammar.productions@, key);
            }
            let gi = match find_key(&grammar.productions, &key) {
                Some(gi) => gi,
                None => { proof { assert(false); } 0 },
            };
            let prods_len = grammar.productions[gi].1.len();
            let mut j: usize = 0;
            while j < prods_len
                invariant
                    reflects_eq::<T>(),
                    grammar.wf(),
                    nt_count == grammar.non_terminal_symbols_set@.len(),
                    a < nt_count,
                    first_keys_ok(*grammar, first_symbols_map@),
                    first_sets_ok(*grammar, first_symbols_map@),
                    follow_keys_ok(*grammar, m@),
                    follow_sets_ok(*grammar, m@),
                    follow_sound(*grammar, first_symbols_map@, m@),
                    gi < grammar.productions@.len(),
                    grammar.productions@[gi as int].0 == key,
                    prods_len == grammar.productions@[gi as int].1@.len(),
                    j <= prods_len,
                    changed ==> total_vals_len(m@) > total_vals_len(old(m)@),
                    !changed ==> m@ == old(m)@,
                    total_vals_len(m@) >= total_vals_len(old(m)@),
                    !changed ==> (forall|i: int, j3: int|
                        0 <= i < grammar.productions@.len() && 0 <= j3
                            < grammar.productions@[i].1@.len() && (exists|a2: int|
                            0 <= a2 < a && grammar.non_terminal_symbols_set@[a2]
                                == grammar.productions@[i].0) ==> follow_prod_stable(
                            *grammar,
                            first_symbols_map@,
                            m@,
                            grammar.productions@[i].0,
                            (#[trigger] grammar.productions@[i].1@[j3]).output@,
                        )),
                    !changed ==> (forall|j2: int|
                        0 <= j2 < j ==> follow_prod_stable(
                            *grammar,
                            first_symbols_map@,
                            m@,
                            key,
                            (#[trigger] grammar.productions@[gi as int].1@[j2]).output@,
                        )),
                decreases prods_len - j,
            {
                let p_changed = Self::get_follow_symbols_process_production(
                    grammar,
                    first_symbols_map,
                    m,
                    gi,
                    j,
                );
                changed = changed || p_changed;
                j += 1;
            }
            proof {
                if !changed {
                    assert forall|i: int, j2: int|
                        0 <= i < grammar.productions@.len() && 0 <= j2
                            < grammar.productions@[i].1@.len() && (exists|a2: int|
                            0 <= a2 < a + 1 && grammar.non_terminal_symbols_set@[a2]
                                == grammar.productions@[i].0) implies follow_prod_stable(
                        *grammar,
                        first_symbols_map@,
                        m@,
                        grammar.productions@[i].0,
                        (#[trigger] grammar.productions@[i].1@[j2]).output@,
                    ) by {
                        let a2 = choose|a2: int|
                            0 <= a2 < a + 1 && grammar.non_terminal_symbols_set@[a2]
                                == grammar.productions@[i].0;
                        if a2 < a {
                            assert(exists|a3: int|
                                0 <= a3 < a && grammar.non_terminal_symbols_set@[a3]
                                    == grammar.productions@[i].0);
                        } else {
                            assert(grammar.productions@[i].0 == key);
                            assert(i == gi) by {
                                if i < gi {
                                    assert(grammar.productions@[i].0
                                        != grammar.productions@[gi as int].0);
                                }
                                if i > gi {
                                    assert(grammar.productions@[gi as int].0
                                        != grammar.productions@[i].0);
                                }
                            }
                        }
                    }
                }
            }
            a += 1;
        }
        proof {
            if !changed {
                assert forall|i: int, j2: int|
                    0 <= i < grammar.productions@.len() && 0 <= j2
                        < grammar.productions@[i].1@.len() implies follow_prod_stable(
                    *grammar,
                    first_symbols_map@,
                    m@,
                    grammar.productions@[i].0,
                    (#[trigger] grammar.productions@[i].1@[j2]).output@,
                ) by {
                    let k2 = grammar.productions@[i].0;
                    assert(has_key(grammar.productions@, k2)) by {
                        lemma_key_index(grammar.productions@, k2);
                        if key_index(grammar.productions@, k2) == -1 {
                            assert(grammar.productions@[i].0 != k2);
                        }
                    }
                    assert(grammar.non_terminal_symbols_set@.contains(k2));
                    let a2 = choose|a2: int|
                        0 <= a2 < grammar.non_terminal_symbols_set@.len()
                            && grammar.non_terminal_symbols_set@[a2] == k2;
                    assert(exists|a3: int|
                        0 <= a3 < nt_count && grammar.non_terminal_symbols_set@[a3] == k2);
                }
            }
        }
        changed
    }

    /// Applies both FOLLOW update rules of one production: the tail epsilon
    /// chain, then the interior contributions. Reports whether any FOLLOW set
    /// grew.
    fn get_follow_symbols_process_production(
        grammar: &ContextFreeGrammar<T>,
        first_symbols_map: &SymbolsMap<T>,
        m: &mut SymbolsMap<T>,
        gi: usize,
        j: usize,
    ) -> (changed: bool)
        requires
            reflects_eq::<T>(),
            grammar.wf(),
            first_keys_ok(*grammar, first_symbols_map@),
            first_sets_ok(*grammar, first_symbols_map@),
            follow_keys_ok(*grammar, old(m)@),
            follow_sets_ok(*grammar, old(m)@),
            follow_sound(*grammar, first_symbols_map@, old(m)@),
            gi < grammar.productions@.len(),
            j < grammar.productions@[gi as int].1@.len(),
        ensures
            follow_keys_ok(*grammar, final(m)@),
            follow_sets_ok(*grammar, final(m)@),
            follow_sound(*grammar, first_symbols_map@, final(m)@),
            changed ==> total_vals_len(final(m)@) > total_vals_len(old(m)@),
            !changed ==> final(m)@ == old(m)@,
            total_vals_len(final(m)@) >= total_vals_len(old(m)@),
            !changed ==> follow_prod_stable(
                *grammar,
                first_symbols_map@,
                final(m)@,
                grammar.productions@[gi as int].0,
                grammar.productions@[gi as int].1@[j as int].output@,
            ),
    {
        let ghost out = grammar.productions@[gi as int].1@[j as int].output@;
        let mut changed = Self::get_follow_symbols_process_production_last_epsilon_chain(
            grammar,
            first_symbols_map,
            m,
            gi,
            j,
        );
        let n = grammar.productions[gi].1[j].output.len();
        if n - 1 > 0 {
            let mut idx: usize = n - 2;
            let mut first_indexes: Vec<usize> = Vec::new();
            let mut go = true;
            proof {
                assert(first_indexes@ == fi_before(
                    *grammar,
                    first_symbols_map@,
                    out,
                    idx as int,
                ));
            }
            while go
                invariant
                    reflects_eq::<T>(),
                    grammar.wf(),
                    first_keys_ok(*grammar, first_symbols_map@),
                    first_sets_ok(*grammar, first_symbols_map@),
                    follow_keys_ok(*grammar, m@),
                    follow_sets_ok(*grammar, m@),
                    gi < grammar.productions@.len(),
                    j < grammar.productions@[gi as int].1@.len(),
                    n == grammar.productions@[gi as int].1@[j as int].output@.len(),
                    n >= 2,
                    idx <= n - 2,
                    out == grammar.productions@[gi as int].1@[j as int].output@,
                    forall|k: int|
                        0 <= k < first_indexes@.len() ==> (#[trigger] first_indexes@[k]) < n,
                    go ==> first_indexes@ == fi_before(
                        *grammar,
                        first_symbols_map@,
                        out,
                        idx as int,
                    ),
                    follow_sound(*grammar, first_symbols_map@, m@),
                    changed ==> total_vals_len(m@) > total_vals_len(old(m)@),
                    !changed ==> m@ == old(m)@,
                    total_vals_len(m@) >= total_vals_len(old(m)@),
                    !changed ==> follow_tail_stable(
                        *grammar,
                        first_symbols_map@,
                        m@,
                        grammar.productions@[gi as int].0,
                        out,
                        n - 1,
                    ),
                    (!changed && go) ==> (follow_interior_stable(
                        *grammar,
                        first_symbols_map@,
                        m@,
                        out,
                        idx as int,
                        first_indexes@,
                    ) ==> follow_interior_stable(
                        *grammar,
                        first_symbols_map@,
                        m@,
                        out,
                        n - 2,
                        Seq::<usize>::empty(),
                    )),
                    (!changed && !go) ==> follow_interior_stable(
                        *grammar,
                        first_symbols_map@,
                        m@,
                        out,
                        n - 2,
                        Seq::<usize>::empty(),
                    ),
                decreases idx, (if go { 1int } else { 0int }),
            {
                let ghost pre_fi = first_indexes@;
                let s_changed = Self::get_follow_symbols_process_production_symbol(
                    grammar,
                    first_symbols_map,
                    m,
                    gi,
                    j,
                    idx,
                    &mut first_indexes,
                );
                changed = changed || s_changed;
                proof {
                    if !changed {
                        let x = out[idx as int];
                        assert(follow_interior_stable(
                            *grammar,
                            first_symbols_map@,
                            m@,
                            out,
                            idx - 1,
                            first_indexes@,
                        ) ==> follow_interior_stable(
                            *grammar,
                            first_symbols_map@,
                            m@,
                            out,
                            idx as int,
                            pre_fi,
                        ));
                        if idx == 0 {
                            assert(follow_interior_stable(
                                *grammar,
                                first_symbols_map@,
                                m@,
                                out,
                                -1,
                                first_indexes@,
                            ));
                        }
                    }
                }
                if idx == 0 {
                    go = false;
                } else {
                    idx -= 1;
                }
            }
        } else {
            proof {
                assert(follow_interior_stable(
                    *grammar,
                    first_symbols_map@,
                    m@,
                    out,
                    n - 2,
                    Seq::<usize>::empty(),
                ));
            }
        }
        changed
    }

    /// The tail epsilon chain: walking from the last output symbol leftwards
    /// while FIRST of the walked symbol holds epsilon, the FOLLOW set of the
    /// production's input flows into the FOLLOW set of each walked
    /// non-terminal other than the input itself.
    fn get_follow_symbols_process_production_last_epsilon_chain(
        grammar: &ContextFreeGrammar<T>,
        first_symbols_map: &SymbolsMap<T>,
        m: &mut SymbolsMap<T>,
        gi: usize,
        j: usize,
    ) -> (changed: bool)
        requires
            reflects_eq::<T>(),
            grammar.wf(),
            first_keys_ok(*grammar, first_symbols_map@),
            first_sets_ok(*grammar, first_symbols_map@),
            follow_keys_ok(*grammar, old(m)@),
            follow_sets_ok(*grammar, old(m)@),
            follow_sound(*grammar, first_symbols_map@, old(m)@),
            gi < grammar.productions@.len(),
            j < grammar.productions@[gi as int].1@.len(),
        ensures
            follow_keys_ok(*grammar, final(m)@),
            follow_sets_ok(*grammar, final(m)@),
            changed ==> total_vals_len(final(m)@) > total_vals_len(old(m)@),
            !changed ==> final(m)@ == old(m)@,
            total_vals_len(final(m)@) >= total_vals_len(old(m)@),
            !changed ==> follow_tail_stable(
                *grammar,
                first_symbols_map@,
                final(m)@,
                grammar.productions@[gi as int].0,
                grammar.productions@[gi as int].1@[j as int].output@,
                grammar.productions@[gi as int].1@[j as int].output@.len() - 1,
            ),
            follow_sound(*grammar, first_symbols_map@, final(m)@),
    {
        let ghost out = grammar.productions@[gi as int].1@[j as int].output@;
        let ghost inp = grammar.productions@[gi as int].0;
        let mut changed = false;
        let n = grammar.productions[gi].1[j].output.len();
        let mut idx: usize = n - 1;
        let mut go = true;
        while go
            invariant
                reflects_eq::<T>(),
                grammar.wf(),
                first_keys_ok(*grammar, first_symbols_map@),
                first_sets_ok(*grammar, first_symbols_map@),
                follow_keys_ok(*grammar, m@),
                follow_sets_ok(*grammar, m@),
                gi < grammar.productions@.len(),
                j < grammar.productions@[gi as int].1@.len(),
                n == grammar.productions@[gi as int].1@[j as int].output@.len(),
                n >= 1,
                idx < n,
                out == grammar.productions@[gi as int].1@[j as int].output@,
                inp == grammar.productions@[gi as int].0,
                changed ==> total_vals_len(m@) > total_vals_len(old(m)@),
                !changed ==> m@ == old(m)@,
                total_vals_len(m@) >= total_vals_len(old(m)@),
                (!changed && go) ==> (follow_tail_stable(
                    *grammar,
                    first_symbols_map@,
                    m@,
                    inp,
                    out,
                    idx as int,
                ) ==> follow_tail_stable(
                    *grammar,
                    first_symbols_map@,
                    m@,
                    inp,
                    out,
                    n - 1,
                )),
                (!changed && !go) ==> follow_tail_stable(
                    *grammar,
                    first_symbols_map@,
                    m@,
                    inp,
                    out,
                    n - 1,
                ),
                follow_sound(*grammar, first_symbols_map@, m@),
                forall|l: int|
                    idx < l < n ==> value_of(first_symbols_map@, #[trigger] out[l])@.contains(
                        grammar.epsilon_symbol,
                    ),
            decreases idx, (if go { 1int } else { 0int }),
        {
            let output_symbol = grammar.productions[gi].1[j].output[idx];
            proof {
                assert(grammar.productions@[gi as int].1@[j as int].output@.contains(
                    output_symbol,
                )) by {
                    assert(grammar.productions@[gi as int].1@[j as int].output@[idx as int]
                        == output_symbol);
                }
            }
            let is_input = output_symbol.eq(&grammar.productions[gi].1[j].input);
            if !is_input && grammar.is_non_terminal(&output_symbol) {
                proof {
                    assert(grammar.non_terminal_symbols_set@.contains(
                        grammar.productions@[gi as int].0,
                    )) by {
                        lemma_key_index(grammar.productions@, grammar.productions@[gi as int].0);
                        if key_index(grammar.productions@, grammar.productions@[gi as int].0)
                            == -1 {
                            assert(grammar.productions@[gi as int].0
                                != grammar.productions@[gi as int].0);
                        }
                    }
                    lemma_follow_map_has_key(
                        *grammar,
                        m@,
                        grammar.productions@[gi as int].0,
                    );
                    lemma_follow_map_has_key(*grammar, m@, output_symbol);
                }
                let ii = match find_key(m, &grammar.productions[gi].1[j].input) {
                    Some(ii) => ii,
                    None => { proof { assert(false); } 0 },
                };
                let src = copy_vec(&m[ii].1);
                let ti = match find_key(m, &output_symbol) {
                    Some(ti) => ti,
                    None => { proof { assert(false); } 0 },
                };
                let mut tgt = copy_vec(&m[ti].1);
                proof {
                    assert forall|x: int, y: int|
                        0 <= x < y < tgt@.len() implies tgt@[x] != tgt@[y] by {}
                }
                let grew = insert_all(&mut tgt, &src);
                proof {
                    if !changed && !grew {
                        assert(grammar.productions@[gi as int].1@[j as int].input == inp);
                        assert(m@[ii as int].1@ == value_of(m@, inp)@);
                        assert(m@[ti as int].1@ == value_of(m@, output_symbol)@);
                        assert forall|y: T|
                            value_of(m@, inp)@.contains(y) implies #[trigger] value_of(
                            m@,
                            output_symbol,
                        )@.contains(y) by {
                            assert(src@.contains(y));
                            assert(tgt@.contains(y));
                        }
                    }
                }
                if grew {
                    let ghost pre = m@;
                    m[ti] = (output_symbol, tgt);
                    proof {
                        lemma_total_vals_update(pre, ti as int, m@[ti as int]);
                        assert forall|i2: int, x: int, y: int|
                            #![trigger m@[i2].1@[x], m@[i2].1@[y]]
                            0 <= i2 < m@.len() && 0 <= x < y < m@[i2].1@.len() implies m@[i2]
                            .1@[x] != m@[i2].1@[y] by {
                            if i2 != ti {
                                assert(m@[i2] == pre[i2]);
                            }
                        }
                        assert forall|i2: int, y: T|
                            0 <= i2 < m@.len() && #[trigger] m@[i2].1@.contains(y)
                            implies follow_symbol_ok(*grammar, y) by {
                            if i2 != ti {
                                assert(m@[i2] == pre[i2]);
                            } else {
                                if pre[ti as int].1@.contains(y) {
                                } else {
                                    assert(pre[ii as int].1@.contains(y));
                                }
                            }
                        }
                        assert forall|i2: int, y: T|
                            0 <= i2 < m@.len() && #[trigger] m@[i2].1@.contains(y)
                            implies exists|n2: nat|
                            follow_justified(
                                *grammar,
                                first_symbols_map@,
                                m@[i2].0,
                                y,
                                n2,
                            ) by {
                            if i2 != ti {
                                assert(m@[i2] == pre[i2]);
                            } else {
                                assert(m@[i2].0 == output_symbol);
                                if pre[ti as int].1@.contains(y) {
                                } else {
                                    // passed down from the FOLLOW set of the
                                    // production's input along the walked
                                    // tail position
                                    assert(pre[ii as int].1@.contains(y));
                                    assert(pre[ii as int].0 == inp);
                                    let n1 = choose|n1: nat|
                                        follow_justified(
                                            *grammar,
                                            first_symbols_map@,
                                            inp,
                                            y,
                                            n1,
                                        );
                                    assert(grammar.productions@[gi as int].1@[j as int].output@[
                                        idx as int] == output_symbol);
                                    assert(tail_reaches(
                                        *grammar,
                                        first_symbols_map@,
                                        out,
                                        idx as int,
                                    ));
                                    assert(follow_justified(
                                        *grammar,
                                        first_symbols_map@,
                                        output_symbol,
                                        y,
                                        n1 + 1,
                                    ));
                                }
                            }
                        }
                    }
                    changed = true;
                }
            }
            proof {
                lemma_production_symbol_kind(*grammar, gi as int, j as int, idx as int);
                lemma_first_map_has_key(*grammar, first_symbols_map@, output_symbol);
            }
            let fi = match find_key(first_symbols_map, &output_symbol) {
                Some(fi) => fi,
                None => { proof { assert(false); } 0 },
            };
            let has_eps = vec_contains(
                &first_symbols_map[fi].1,
                grammar.get_epsilon_symbol(),
            );
            proof {
                assert(first_symbols_map@[fi as int].1@ == value_of(
                    first_symbols_map@,
                    output_symbol,
                )@);
                if !changed {
                    assert(grammar.productions@[gi as int].1@[j as int].input == inp);
                    assert(out[idx as int] == output_symbol);
                    if idx == 0 || !has_eps {
                        assert(follow_tail_stable(
                            *grammar,
                            first_symbols_map@,
                            m@,
                            inp,
                            out,
                            idx as int,
                        ));
                    } else {
                        assert(follow_tail_stable(
                            *grammar,
                            first_symbols_map@,
                            m@,
                            inp,
                            out,
                            idx - 1,
                        ) ==> follow_tail_stable(
                            *grammar,
                            first_symbols_map@,
                            m@,
                            inp,
                            out,
                            idx as int,
                        ));
                    }
                }
            }
            if idx == 0 || !has_eps {
                go = false;
            } else {
                proof {
                    assert(value_of(first_symbols_map@, out[idx as int])@.contains(
                        grammar.epsilon_symbol,
                    ));
                }
                idx -= 1;
            }
        }
        changed
    }

    /// The interior contribution of one position: FIRST of the epsilon chain
    /// to the right of a non-terminal, epsilon left out, flows into its
    /// FOLLOW set. `first_indexes` carries the chain collected so far by the
    /// caller's right-to-left walk.
    fn get_follow_symbols_process_production_symbol(
        grammar: &ContextFreeGrammar<T>,
        first_symbols_map: &SymbolsMap<T>,
        m: &mut SymbolsMap<T>,
        gi: usize,
        j: usize,
        idx: usize,
        first_indexes: &mut Vec<usize>,
    ) -> (changed: bool)
        requires
            reflects_eq::<T>(),
            grammar.wf(),
            first_keys_ok(*grammar, first_symbols_map@),
            first_sets_ok(*grammar, first_symbols_map@),
            follow_keys_ok(*grammar, old(m)@),
            follow_sets_ok(*grammar, old(m)@),
            gi < grammar.productions@.len(),
            j < grammar.productions@[gi as int].1@.len(),
            idx + 1 < grammar.productions@[gi as int].1@[j as int].output@.len(),
            forall|k: int|
                0 <= k < old(first_indexes)@.len() ==> (#[trigger] old(first_indexes)@[k])
                    < grammar.productions@[gi as int].1@[j as int].output@.len(),
            old(first_indexes)@ == fi_before(
                *grammar,
                first_symbols_map@,
                grammar.productions@[gi as int].1@[j as int].output@,
                idx as int,
            ),
            follow_sound(*grammar, first_symbols_map@, old(m)@),
        ensures
            follow_keys_ok(*grammar, final(m)@),
            follow_sets_ok(*grammar, final(m)@),
            forall|k: int|
                0 <= k < final(first_indexes)@.len() ==> (#[trigger] final(first_indexes)@[k])
                    < grammar.productions@[gi as int].1@[j as int].output@.len(),
            changed ==> total_vals_len(final(m)@) > total_vals_len(old(m)@),
            !changed ==> final(m)@ == old(m)@,
            total_vals_len(final(m)@) >= total_vals_len(old(m)@),
            final(first_indexes)@ == fi_before(
                *grammar,
                first_symbols_map@,
                grammar.productions@[gi as int].1@[j as int].output@,
                idx - 1,
            ),
            follow_sound(*grammar, first_symbols_map@, final(m)@),
            ({
                let out = grammar.productions@[gi as int].1@[j as int].output@;
                let x = out[idx as int];
                let nxt = out[idx + 1];
                &&& ((grammar.non_terminal_symbols_set@.contains(x) && x != nxt) ==> {
                    &&& final(first_indexes)@ == fi_next(
                        *grammar,
                        first_symbols_map@,
                        out,
                        (idx + 1) as usize,
                        old(first_indexes)@,
                    )
                    &&& (!changed ==> follow_chain_done(
                        *grammar,
                        first_symbols_map@,
                        final(m)@,
                        out,
                        final(first_indexes)@,
                        x,
                    ))
                })
                &&& ((grammar.non_terminal_symbols_set@.contains(x) && x == nxt)
                    ==> (final(first_indexes)@ == old(first_indexes)@ && !changed))
                &&& (!grammar.non_terminal_symbols_set@.contains(x)
                    ==> (final(first_indexes)@ == Seq::<usize>::empty() && !changed))
            }),
    {
        let ghost out = grammar.productions@[gi as int].1@[j as int].output@;
        let out_len = grammar.productions[gi].1[j].output.len();
        proof {
            assert(idx + 1 <= out_len);
        }
        let current_symbol = grammar.productions[gi].1[j].output[idx];
        if grammar.is_non_terminal(&current_symbol) {
            let next_symbol = grammar.productions[gi].1[j].output[idx + 1];
            if !current_symbol.eq(&next_symbol) {
                proof {
                    lemma_production_symbol_kind(
                        *grammar,
                        gi as int,
                        j as int,
                        idx + 1 as int,
                    );
                    lemma_first_map_has_key(*grammar, first_symbols_map@, next_symbol);
                }
                let nfi = match find_key(first_symbols_map, &next_symbol) {
                    Some(nfi) => nfi,
                    None => { proof { assert(false); } 0 },
                };
                let next_has_eps = vec_contains(
                    &first_symbols_map[nfi].1,
                    grammar.get_epsilon_symbol(),
                );
                if !next_has_eps {
                    first_indexes.clear();
                }
                first_indexes.push(idx + 1);
                proof {
                    assert(first_symbols_map@[nfi as int].1@ == value_of(
                        first_symbols_map@,
                        next_symbol,
                    )@);
                    if next_has_eps {
                        assert(first_indexes@ == fi_next(
                            *grammar,
                            first_symbols_map@,
                            out,
                            (idx + 1) as usize,
                            old(first_indexes)@,
                        ));
                    } else {
                        assert(first_indexes@ =~= Seq::<usize>::empty().push((idx + 1) as usize));
                        assert(seq![(idx + 1) as usize] =~= Seq::<usize>::empty().push(
                            (idx + 1) as usize,
                        ));
                    }
                    lemma_follow_map_has_key(*grammar, m@, current_symbol);
                }
                let ti = match find_key(m, &current_symbol) {
                    Some(ti) => ti,
                    None => { proof { assert(false); } 0 },
                };
                let mut tgt = copy_vec(&m[ti].1);
                proof {
                    assert forall|x: int, y: int|
                        0 <= x < y < tgt@.len() implies tgt@[x] != tgt@[y] by {}
                }
                let grew = Self::update_follow_symbols_lambda_chain(
                    grammar,
                    first_symbols_map,
                    &mut tgt,
                    gi,
                    j,
                    first_indexes,
                );
                let changed = grew;
                proof {
                    assert(first_indexes@ == fi_before(
                        *grammar,
                        first_symbols_map@,
                        out,
                        idx - 1,
                    ));
                    if !grew {
                        assert(m@[ti as int].1@ == value_of(m@, current_symbol)@);
                        assert(tgt@ == m@[ti as int].1@);
                        assert(follow_chain_done(
                            *grammar,
                            first_symbols_map@,
                            m@,
                            out,
                            first_indexes@,
                            current_symbol,
                        ));
                    }
                }
                if grew {
                    let ghost pre = m@;
                    m[ti] = (current_symbol, tgt);
                    proof {
                        lemma_total_vals_update(pre, ti as int, m@[ti as int]);
                        assert forall|i2: int, x: int, y: int|
                            #![trigger m@[i2].1@[x], m@[i2].1@[y]]
                            0 <= i2 < m@.len() && 0 <= x < y < m@[i2].1@.len() implies m@[i2]
                            .1@[x] != m@[i2].1@[y] by {
                            if i2 != ti {
                                assert(m@[i2] == pre[i2]);
                            }
                        }
                        assert forall|i2: int, y: T|
                            0 <= i2 < m@.len() && #[trigger] m@[i2].1@.contains(y)
                            implies follow_symbol_ok(*grammar, y) by {
                            if i2 != ti {
                                assert(m@[i2] == pre[i2]);
                            }
                        }
                        assert forall|i2: int, y: T|
                            0 <= i2 < m@.len() && #[trigger] m@[i2].1@.contains(y)
                            implies exists|n2: nat|
                            follow_justified(
                                *grammar,
                                first_symbols_map@,
                                m@[i2].0,
                                y,
                                n2,
                            ) by {
                            if i2 != ti {
                                assert(m@[i2] == pre[i2]);
                            } else {
                                assert(m@[i2].0 == current_symbol);
                                if pre[ti as int].1@.contains(y) {
                                } else {
                                    // freshly poured from the epsilon chain:
                                    // the interior rule justifies it in one
                                    // step
                                    let k = choose|k: int|
                                        0 <= k < first_indexes@.len() && #[trigger] value_of(
                                            first_symbols_map@,
                                            out[first_indexes@[k] as int],
                                        )@.contains(y);
                                    assert(first_indexes@ == fi_next(
                                        *grammar,
                                        first_symbols_map@,
                                        out,
                                        (idx + 1) as usize,
                                        fi_before(
                                            *grammar,
                                            first_symbols_map@,
                                            out,
                                            idx as int,
                                        ),
                                    ));
                                    assert(grammar.productions@[gi as int].1@[j as int].output@[
                                        idx as int] == current_symbol);
                                    assert(value_of(
                                        first_symbols_map@,
                                        out[fi_next(
                                            *grammar,
                                            first_symbols_map@,
                                            out,
                                            (idx as int + 1) as usize,
                                            fi_before(
                                                *grammar,
                                                first_symbols_map@,
                                                out,
                                                idx as int,
                                            ),
                                        )[k] as int],
                                    )@.contains(y));
                                    assert(follow_justified(
                                        *grammar,
                                        first_symbols_map@,
                                        current_symbol,
                                        y,
                                        1nat,
                                    ));
                                }
                            }
                        }
                    }
                }
                changed
            } else {
                proof {
                    assert(first_indexes@ == fi_before(
                        *grammar,
                        first_symbols_map@,
                        out,
                        idx - 1,
                    ));
                }
                false
            }
        } else {
            first_indexes.clear();
            proof {
                assert(first_indexes@ =~= Seq::<usize>::empty());
                assert(first_indexes@ == fi_before(
                    *grammar,
                    first_symbols_map@,
                    out,
                    idx - 1,
                ));
            }
            false
        }
    }

    /// Pours FIRST of every chain position, epsilon left out, into the
    /// duplicate-free target set. Reports whether the target grew.
    fn update_follow_symbols_lambda_chain(
        grammar: &ContextFreeGrammar<T>,
        first_symbols_map: &SymbolsMap<T>,
        tgt: &mut Vec<T>,
        gi: usize,
        j: usize,
        first_indexes: &Vec<usize>,
    ) -> (grew: bool)
        requires
            reflects_eq::<T>(),
            grammar.wf(),
            first_keys_ok(*grammar, first_symbols_map@),
            first_sets_ok(*grammar, first_symbols_map@),
            gi < grammar.productions@.len(),
            j < grammar.productions@[gi as int].1@.len(),
            forall|k: int|
                0 <= k < first_indexes@.len() ==> (#[trigger] first_indexes@[k])
                    < grammar.productions@[gi as int].1@[j as int].output@.len(),
            forall|x: int, y: int| 0 <= x < y < old(tgt)@.len() ==> old(tgt)@[x] != old(tgt)@[y],
            forall|y: T| #[trigger] old(tgt)@.contains(y) ==> follow_symbol_ok(*grammar, y),
        ensures
            forall|x: int, y: int|
                0 <= x < y < final(tgt)@.len() ==> final(tgt)@[x] != final(tgt)@[y],
            forall|y: T| #[trigger] final(tgt)@.contains(y) ==> follow_symbol_ok(*grammar, y),
            final(tgt)@.len() >= old(tgt)@.len(),
            grew == (final(tgt)@.len() > old(tgt)@.len()),
            !grew ==> final(tgt)@ == old(tgt)@,
            !grew ==> (forall|k: int, y: T|
                0 <= k < first_indexes@.len() && #[trigger] value_of(
                    first_symbols_map@,
                    grammar.productions@[gi as int].1@[j as int].output@[first_indexes@[k] as int],
                )@.contains(y) && y != grammar.epsilon_symbol ==> final(tgt)@.contains(y)),
            forall|y: T|
                #[trigger] final(tgt)@.contains(y) ==> (old(tgt)@.contains(y) || (y
                    != grammar.epsilon_symbol && (exists|k: int|
                    0 <= k < first_indexes@.len() && #[trigger] value_of(
                        first_symbols_map@,
                        grammar.productions@[gi as int].1@[j as int].output@[first_indexes@[
                            k] as int],
                    )@.contains(y)))),
    {
        let ghost out = grammar.productions@[gi as int].1@[j as int].output@;
        let ghost tgt0 = tgt@;
        let mut grew = false;
        let mut k: usize = 0;
        let fi_len = first_indexes.len();
        while k < fi_len
            invariant
                reflects_eq::<T>(),
                grammar.wf(),
                first_keys_ok(*grammar, first_symbols_map@),
                first_sets_ok(*grammar, first_symbols_map@),
                gi < grammar.productions@.len(),
                j < grammar.productions@[gi as int].1@.len(),
                fi_len == first_indexes@.len(),
                k <= fi_len,
                forall|k2: int|
                    0 <= k2 < first_indexes@.len() ==> (#[trigger] first_indexes@[k2])
                        < grammar.productions@[gi as int].1@[j as int].output@.len(),
                forall|x: int, y: int| 0 <= x < y < tgt@.len() ==> tgt@[x] != tgt@[y],
                forall|y: T| #[trigger] tgt@.contains(y) ==> follow_symbol_ok(*grammar, y),
                tgt@.len() >= tgt0.len(),
                grew == (tgt@.len() > tgt0.len()),
                !grew ==> tgt@ == tgt0,
                out == grammar.productions@[gi as int].1@[j as int].output@,
                !grew ==> (forall|k2: int, y: T|
                    0 <= k2 < k && #[trigger] value_of(
                        first_symbols_map@,
                        out[first_indexes@[k2] as int],
                    )@.contains(y) && y != grammar.epsilon_symbol ==> tgt@.contains(y)),
                forall|y: T|
                    #[trigger] tgt@.contains(y) ==> (tgt0.contains(y) || (y
                        != grammar.epsilon_symbol && (exists|k2: int|
                        0 <= k2 < first_indexes@.len() && #[trigger] value_of(
                            first_symbols_map@,
                            out[first_indexes@[k2] as int],
                        )@.contains(y)))),
            decreases fi_len - k,
        {
            let jj = first_indexes[k];
            let symbol = grammar.productions[gi].1[j].output[jj];
            proof {
                lemma_production_symbol_kind(*grammar, gi as int, j as int, jj as int);
                lemma_first_map_has_key(*grammar, first_symbols_map@, symbol);
            }
            let sfi = match find_key(first_symbols_map, &symbol) {
                Some(sfi) => sfi,
                None => { proof { assert(false); } 0 },
            };
            let ghost before = tgt@;
            let a2 = insert_all_except(
                tgt,
                &first_symbols_map[sfi].1,
                grammar.get_epsilon_symbol(),
            );
            grew = grew || a2;
            proof {
                assert forall|y: T| #[trigger]
                    tgt@.contains(y) implies follow_symbol_ok(*grammar, y) by {
                    if !before.contains(y) {
                        assert(first_symbols_map@[sfi as int].1@.contains(y));
                        assert(first_symbol_ok(*grammar, y));
                    }
                }
                assert(first_symbols_map@[sfi as int].1@ == value_of(
                    first_symbols_map@,
                    symbol,
                )@);
                assert forall|y: T| #[trigger]
                    tgt@.contains(y) implies (tgt0.contains(y) || (y != grammar.epsilon_symbol
                    && (exists|k2: int|
                    0 <= k2 < first_indexes@.len() && #[trigger] value_of(
                        first_symbols_map@,
                        out[first_indexes@[k2] as int],
                    )@.contains(y)))) by {
                    if !before.contains(y) {
                        assert(value_of(first_symbols_map@, out[first_indexes@[k as int] as int])@
                            .contains(y));
                    }
                }
                if !grew {
                    assert forall|k2: int, y: T|
                        0 <= k2 < k + 1 && #[trigger] value_of(
                            first_symbols_map@,
                            out[first_indexes@[k2] as int],
                        )@.contains(y) && y != grammar.epsilon_symbol implies tgt@.contains(
                        y,
                    ) by {
                        if k2 == k {
                            assert(out[first_indexes@[k2] as int] == symbol);
                        }
                    }
                }
            }
            k += 1;
        }
        grew
    }
}

} // verus!
