//! Context-free grammars: one rewrite rule, and the immutable bundle of rules
//! grouped by their input symbol with the derived terminal and non-terminal
//! symbol sets.

use vstd::prelude::*;
use crate::assoc::reflects_eq;
use crate::assoc::key_index;
use crate::assoc::has_key;
use crate::assoc::value_of;
use crate::assoc::lemma_key_index;
use crate::assoc::lemma_filter_push;
use crate::assoc::lemma_filter_subset;
use crate::assoc::lemma_filter_absent;
use crate::assoc::find_key;
use crate::assoc::vec_contains;
use crate::assoc::set_insert;
use crate::assoc::copy_vec;

verus! {

pub struct ContextFreeGrammarProduction<TType> {
    pub input: TType,
    pub output: Vec<TType>,
}

impl<T: PartialEq> ContextFreeGrammarProduction<T> {
    pub fn new(input: T, output: Vec<T>) -> (r: Self)
        ensures
            r.input == input,
            r.output == output,
    {
        ContextFreeGrammarProduction { input, output }
    }
}

impl<TType: Copy + PartialEq> Clone for ContextFreeGrammarProduction<TType> {
    fn clone(&self) -> (r: Self)
        ensures
            r.input == self.input,
            r.output@ == self.output@,
    {
        let output: Vec<TType> = copy_vec(&self.output);
        Self::new(self.input, output)
    }
}

/// A rule is well formed when its input is not the epsilon symbol, its output
/// is not empty, and an epsilon output stands alone.
pub open spec fn valid_production<T>(p: ContextFreeGrammarProduction<T>, epsilon: T) -> bool {
    &&& p.input != epsilon
    &&& p.output@.len() > 0
    &&& (p.output@.contains(epsilon) ==> p.output@.len() == 1)
}

/// Whether some rule of `prods` mentions `x` in its output.
pub open spec fn some_output_contains<T>(
    prods: Seq<ContextFreeGrammarProduction<T>>,
    x: T,
) -> bool {
    exists|i: int| 0 <= i < prods.len() && (#[trigger] prods[i]).output@.contains(x)
}

pub struct ContextFreeGrammar<T> {
    pub epsilon_symbol: T,
    pub initial_symbol: T,
    pub non_terminal_symbols_set: Vec<T>,
    pub productions: Vec<(T, Vec<ContextFreeGrammarProduction<T>>)>,
    pub terminal_symbols_set: Vec<T>,
}

impl<T> ContextFreeGrammar<T> {
    /// Whether `x` stands on the right-hand side of some rule.
    pub open spec fn rhs_symbol(&self, x: T) -> bool {
        exists|i: int|
            0 <= i < self.productions@.len() && some_output_contains(
                (#[trigger] self.productions@[i]).1@,
                x,
            )
    }

    /// The rules whose input is `s`, in declaration order.
    pub open spec fn prods_of(&self, s: T) -> Seq<ContextFreeGrammarProduction<T>> {
        value_of(self.productions@, s)@
    }

    pub open spec fn wf(&self) -> bool {
        // the production groups carry distinct, non-epsilon keys
        &&& forall|i: int, j: int|
            0 <= i < j < self.productions@.len() ==> (#[trigger] self.productions@[i]).0 != (
            #[trigger] self.productions@[j]).0
        &&& forall|i: int|
            0 <= i < self.productions@.len() ==> (#[trigger] self.productions@[i]).0
                != self.epsilon_symbol
        // every group is non-empty, owns its rules, and each rule is well formed
        &&& forall|i: int|
            0 <= i < self.productions@.len() ==> (#[trigger] self.productions@[i]).1@.len() > 0
        &&& forall|i: int, j: int|
            0 <= i < self.productions@.len() && 0 <= j < self.productions@[i].1@.len() ==> {
                &&& (#[trigger] self.productions@[i].1@[j]).input == self.productions@[i].0
                &&& valid_production(self.productions@[i].1@[j], self.epsilon_symbol)
            }
        // the non-terminal set holds exactly the group keys
        &&& forall|i: int, j: int|
            0 <= i < j < self.non_terminal_symbols_set@.len() ==> (
            #[trigger] self.non_terminal_symbols_set@[i]) != (
            #[trigger] self.non_terminal_symbols_set@[j])
        &&& forall|x: T|
            #[trigger] self.non_terminal_symbols_set@.contains(x) <==> has_key(
                self.productions@,
                x,
            )
        // the terminal set holds exactly the right-hand-side symbols that are
        // not non-terminals
        &&& forall|i: int, j: int|
            0 <= i < j < self.terminal_symbols_set@.len() ==> (
            #[trigger] self.terminal_symbols_set@[i]) != (
            #[trigger] self.terminal_symbols_set@[j])
        &&& forall|x: T|
            #[trigger] self.terminal_symbols_set@.contains(x) <==> (self.rhs_symbol(x)
                && !self.non_terminal_symbols_set@.contains(x))
    }

    pub fn get_epsilon_symbol(&self) -> (r: &T)
        ensures
            *r == self.epsilon_symbol,
    {
        &self.epsilon_symbol
    }

    pub fn get_initial_symbol(&self) -> (r: &T)
        ensures
            *r == self.initial_symbol,
    {
        &self.initial_symbol
    }
}

impl<T: Copy + PartialEq> ContextFreeGrammar<T> {
    pub fn get_non_terminal_symbols(&self) -> (r: Vec<T>)
        ensures
            r@ == self.non_terminal_symbols_set@,
    {
        copy_vec(&self.non_terminal_symbols_set)
    }

    pub fn get_terminal_symbols(&self) -> (r: Vec<T>)
        ensures
            r@ == self.terminal_symbols_set@,
    {
        copy_vec(&self.terminal_symbols_set)
    }

    pub fn get_productions(&self, symbol: &T) -> (r: Option<
        &Vec<ContextFreeGrammarProduction<T>>,
    >)
        requires
            reflects_eq::<T>(),
        ensures
            match r {
                Some(ps) => has_key(self.productions@, *symbol) && ps@ == self.prods_of(*symbol),
                None => !has_key(self.productions@, *symbol),
            },
    {
        match find_key(&self.productions, symbol) {
            Some(i) => Some(&self.productions[i].1),
            None => None,
        }
    }

    pub fn is_non_terminal(&self, symbol: &T) -> (r: bool)
        requires
            reflects_eq::<T>(),
        ensures
            r == self.non_terminal_symbols_set@.contains(*symbol),
    {
        vec_contains(&self.non_terminal_symbols_set, symbol)
    }

    pub fn is_terminal(&self, symbol: &T) -> (r: bool)
        requires
            reflects_eq::<T>(),
        ensures
            r == self.terminal_symbols_set@.contains(*symbol),
    {
        vec_contains(&self.terminal_symbols_set, symbol)
    }

    pub fn new(
        epsilon_symbol: T,
        initial_symbol: T,
        productions: Vec<ContextFreeGrammarProduction<T>>,
    ) -> (r: Self)
        requires
            reflects_eq::<T>(),
            forall|i: int|
                0 <= i < productions@.len() ==> valid_production(
                    #[trigger] productions@[i],
                    epsilon_symbol,
                ),
        ensures
            r.wf(),
            r.epsilon_symbol == epsilon_symbol,
            r.initial_symbol == initial_symbol,
            forall|x: T|
                has_key(r.productions@, x) <==> exists|i: int|
                    0 <= i < productions@.len() && (#[trigger] productions@[i]).input == x,
            forall|i: int|
                0 <= i < r.productions@.len() ==> (#[trigger] r.productions@[i]).1@
                    == productions@.filter(
                    |p: ContextFreeGrammarProduction<T>| p.input == r.productions@[i].0,
                ),
    {
        let ghost all = productions@;
        let non_terminal_symbols_set = Self::collect_input_symbols(&productions);
        let terminal_symbols_set = Self::build_terminal_symbols_set(
            &non_terminal_symbols_set,
            &productions,
        );
        let productions_hash_map = Self::new_process_productions_map(productions);
        proof {
            // every grouped rule is one of the original list, so it is well
            // formed and owns the key of its group
            assert forall|i: int, j: int|
                0 <= i < productions_hash_map@.len() && 0 <= j
                    < productions_hash_map@[i].1@.len() implies {
                &&& (#[trigger] productions_hash_map@[i].1@[j]).input
                    == productions_hash_map@[i].0
                &&& valid_production(productions_hash_map@[i].1@[j], epsilon_symbol)
            } by {
                let pred = |q: ContextFreeGrammarProduction<T>| q.input
                    == productions_hash_map@[i].0;
                let g = productions_hash_map@[i].1@;
                assert(g == all.filter(pred));
                assert(g.contains(g[j]));
                lemma_filter_subset(all, pred, g[j]);
                let a = choose|a: int| 0 <= a < all.len() && all[a] == g[j];
                assert(valid_production(all[a], epsilon_symbol));
            }
            assert forall|i: int|
                0 <= i < productions_hash_map@.len() implies (
            #[trigger] productions_hash_map@[i]).0 != epsilon_symbol by {
                assert(productions_hash_map@[i].1@.len() > 0);
                assert(productions_hash_map@[i].1@[0].input == productions_hash_map@[i].0);
            }
            // the group keys and the collected input symbols are the same set
            assert forall|x: T| #[trigger]
                non_terminal_symbols_set@.contains(x) <==> has_key(
                    productions_hash_map@,
                    x,
                ) by {
                lemma_key_index(productions_hash_map@, x);
            }
            // a right-hand-side symbol of a group is one of the original list,
            // and the other way round
            assert forall|x: T| #[trigger]
                terminal_symbols_set@.contains(x) <==> ({
                    &&& exists|i: int|
                        0 <= i < productions_hash_map@.len() && some_output_contains(
                            (#[trigger] productions_hash_map@[i]).1@,
                            x,
                        )
                    &&& !non_terminal_symbols_set@.contains(x)
                }) by {
                if terminal_symbols_set@.contains(x) {
                    let i = choose|i: int|
                        0 <= i < all.len() && (#[trigger] all[i]).output@.contains(x);
                    let k = all[i].input;
                    lemma_key_index(productions_hash_map@, k);
                    let gi = key_index(productions_hash_map@, k);
                    assert(has_key(productions_hash_map@, k));
                    let pred = |p: ContextFreeGrammarProduction<T>| p.input
                        == productions_hash_map@[gi].0;
                    assert(all.filter(pred).contains(all[i])) by {
                        Seq::lemma_filter_contains(all, pred, i);
                    }
                    let gj = choose|gj: int|
                        0 <= gj < all.filter(pred).len() && all.filter(pred)[gj] == all[i];
                    assert(productions_hash_map@[gi].1@[gj] == all[i]);
                    assert(some_output_contains(productions_hash_map@[gi].1@, x));
                }
                if (exists|i: int|
                    0 <= i < productions_hash_map@.len() && some_output_contains(
                        (#[trigger] productions_hash_map@[i]).1@,
                        x,
                    )) && !non_terminal_symbols_set@.contains(x) {
                    let gi = choose|gi: int|
                        0 <= gi < productions_hash_map@.len() && some_output_contains(
                            (#[trigger] productions_hash_map@[gi]).1@,
                            x,
                        );
                    let gj = choose|gj: int|
                        0 <= gj < productions_hash_map@[gi].1@.len() && (
                        #[trigger] productions_hash_map@[gi].1@[gj]).output@.contains(x);
                    let pred = |p: ContextFreeGrammarProduction<T>| p.input
                        == productions_hash_map@[gi].0;
                    let p = productions_hash_map@[gi].1@[gj];
                    lemma_filter_subset(all, pred, p);
                    let i = choose|i: int| 0 <= i < all.len() && all[i] == p;
                    assert(all[i].output@.contains(x));
                }
            }
        }
        let g = ContextFreeGrammar {
            epsilon_symbol,
            initial_symbol,
            non_terminal_symbols_set,
            productions: productions_hash_map,
            terminal_symbols_set,
        };
        proof {
            assert forall|x: T| #[trigger]
                g.terminal_symbols_set@.contains(x) implies (g.rhs_symbol(x)
                && !g.non_terminal_symbols_set@.contains(x)) by {
                let gi = choose|i: int|
                    0 <= i < g.productions@.len() && some_output_contains(
                        (#[trigger] g.productions@[i]).1@,
                        x,
                    );
                assert(0 <= gi < g.productions@.len() && some_output_contains(
                    (g.productions@[gi]).1@,
                    x,
                ));
            }
        }
        g
    }

    /// Whether every rule of `productions` is well formed with respect to
    /// `epsilon_symbol`. Lets a caller establish the precondition of `new`
    /// at run time.
    pub fn check_productions(
        epsilon_symbol: &T,
        productions: &Vec<ContextFreeGrammarProduction<T>>,
    ) -> (r: bool)
        requires
            reflects_eq::<T>(),
        ensures
            r == forall|i: int|
                0 <= i < productions@.len() ==> valid_production(
                    #[trigger] productions@[i],
                    *epsilon_symbol,
                ),
    {
        let n = productions.len();
        let mut i: usize = 0;
        while i < n
            invariant
                reflects_eq::<T>(),
                n == productions@.len(),
                i <= n,
                forall|j: int|
                    0 <= j < i ==> valid_production(#[trigger] productions@[j], *epsilon_symbol),
            decreases n - i,
        {
            if productions[i].input.eq(epsilon_symbol) {
                return false;
            }
            if productions[i].output.len() == 0 {
                return false;
            }
            if productions[i].output.len() > 1 && vec_contains(
                &productions[i].output,
                epsilon_symbol,
            ) {
                return false;
            }
            i += 1;
        }
        true
    }

    /// The distinct input symbols of `productions`, in order of first
    /// occurrence.
    fn collect_input_symbols(productions: &Vec<ContextFreeGrammarProduction<T>>) -> (r: Vec<T>)
        requires
            reflects_eq::<T>(),
        ensures
            forall|i: int, j: int| 0 <= i < j < r@.len() ==> r@[i] != r@[j],
            forall|x: T|
                #[trigger] r@.contains(x) <==> exists|i: int|
                    0 <= i < productions@.len() && (#[trigger] productions@[i]).input == x,
    {
        let n = productions.len();
        let mut r: Vec<T> = Vec::new();
        let mut i: usize = 0;
        while i < n
            invariant
                reflects_eq::<T>(),
                n == productions@.len(),
                i <= n,
                forall|a: int, b: int| 0 <= a < b < r@.len() ==> r@[a] != r@[b],
                forall|x: T|
                    #[trigger] r@.contains(x) <==> exists|a: int|
                        0 <= a < i && (#[trigger] productions@[a]).input == x,
            decreases n - i,
        {
            let x = productions[i].input;
            set_insert(&mut r, &x);
            proof {
                assert forall|y: T| #[trigger]
                    r@.contains(y) <==> exists|a: int|
                        0 <= a < i + 1 && (#[trigger] productions@[a]).input == y by {
                    if r@.contains(y) {
                        if y == x {
                            assert(productions@[i as int].input == y);
                        }
                    }
                }
            }
            i += 1;
        }
        r
    }

    /// The right-hand-side symbols of `productions` that are not listed in
    /// `non_terminal_symbols_set`, each once.
    fn build_terminal_symbols_set(
        non_terminal_symbols_set: &Vec<T>,
        productions: &Vec<ContextFreeGrammarProduction<T>>,
    ) -> (r: Vec<T>)
        requires
            reflects_eq::<T>(),
        ensures
            forall|i: int, j: int| 0 <= i < j < r@.len() ==> r@[i] != r@[j],
            forall|x: T|
                #[trigger] r@.contains(x) <==> (some_output_contains(productions@, x)
                    && !non_terminal_symbols_set@.contains(x)),
    {
        let n = productions.len();
        let mut r: Vec<T> = Vec::new();
        let mut i: usize = 0;
        while i < n
            invariant
                reflects_eq::<T>(),
                n == productions@.len(),
                i <= n,
                forall|a: int, b: int| 0 <= a < b < r@.len() ==> r@[a] != r@[b],
                forall|x: T|
                    #[trigger] r@.contains(x) <==> ((exists|a: int|
                        0 <= a < i && (#[trigger] productions@[a]).output@.contains(x))
                        && !non_terminal_symbols_set@.contains(x)),
            decreases n - i,
        {
            let m = productions[i].output.len();
            let mut l: usize = 0;
            while l < m
                invariant
                    reflects_eq::<T>(),
                    n == productions@.len(),
                    i < n,
                    m == productions@[i as int].output@.len(),
                    l <= m,
                    forall|a: int, b: int| 0 <= a < b < r@.len() ==> r@[a] != r@[b],
                    forall|x: T|
                        #[trigger] r@.contains(x) <==> (((exists|a: int|
                            0 <= a < i && (#[trigger] productions@[a]).output@.contains(x))
                            || productions@[i as int].output@.take(l as int).contains(x))
                            && !non_terminal_symbols_set@.contains(x)),
                decreases m - l,
            {
                let sym = productions[i].output[l];
                if !vec_contains(non_terminal_symbols_set, &sym) {
                    set_insert(&mut r, &sym);
                }
                proof {
                    let tk = productions@[i as int].output@.take(l + 1 as int);
                    assert(tk.last() == sym);
                    assert(tk.drop_last() =~= productions@[i as int].output@.take(l as int));
                    assert forall|x: T| #[trigger]
                        tk.contains(x) <==> (productions@[i as int].output@.take(
                            l as int,
                        ).contains(x) || x == sym) by {
                        if tk.contains(x) {
                            let a = choose|a: int| 0 <= a < tk.len() && tk[a] == x;
                            if a < l {
                                assert(tk.drop_last()[a] == x);
                            }
                        }
                        if productions@[i as int].output@.take(l as int).contains(x) {
                            let a = choose|a: int|
                                0 <= a < l && productions@[i as int].output@.take(l as int)[a]
                                    == x;
                            assert(tk[a] == x);
                        }
                        if x == sym {
                            assert(tk[l as int] == x);
                        }
                    }
                }
                l += 1;
            }
            proof {
                assert(productions@[i as int].output@.take(m as int) =~= productions@[
                    i as int].output@);
                assert forall|x: T| #[trigger]
                    r@.contains(x) <==> ((exists|a: int|
                        0 <= a < i + 1 && (#[trigger] productions@[a]).output@.contains(x))
                        && !non_terminal_symbols_set@.contains(x)) by {
                    if r@.contains(x) {
                        if !(exists|a: int|
                            0 <= a < i && (#[trigger] productions@[a]).output@.contains(x)) {
                            assert(productions@[i as int].output@.contains(x));
                        }
                    }
                }
            }
            i += 1;
        }
        r
    }

    /// Groups the rules by their input symbol, keeping declaration order both
    /// of the keys (first occurrence) and inside each group.
    fn new_process_productions_map(
        mut productions: Vec<ContextFreeGrammarProduction<T>>,
    ) -> (r: Vec<(T, Vec<ContextFreeGrammarProduction<T>>)>)
        requires
            reflects_eq::<T>(),
        ensures
            forall|i: int, j: int| 0 <= i < j < r@.len() ==> (#[trigger] r@[i]).0 != (
            #[trigger] r@[j]).0,
            forall|x: T|
                has_key(r@, x) <==> exists|i: int|
                    0 <= i < productions@.len() && (#[trigger] productions@[i]).input
                        == x,
            forall|i: int|
                0 <= i < r@.len() ==> (#[trigger] r@[i]).1@ == productions@.filter(
                    |p: ContextFreeGrammarProduction<T>| p.input == r@[i].0,
                ),
            forall|i: int| 0 <= i < r@.len() ==> (#[trigger] r@[i]).1@.len() > 0,
    {
        let ghost all = productions@;
        let mut r: Vec<(T, Vec<ContextFreeGrammarProduction<T>>)> = Vec::new();
        let mut k: usize = 0;
        let n = productions.len();
        while k < n
            invariant
                reflects_eq::<T>(),
                n == all.len(),
                k <= n,
                productions@ == all.subrange(k as int, n as int),
                forall|i: int, j: int| 0 <= i < j < r@.len() ==> (#[trigger] r@[i]).0 != (
                #[trigger] r@[j]).0,
                forall|x: T|
                    has_key(r@, x) <==> exists|i: int|
                        0 <= i < k && (#[trigger] all[i]).input == x,
                forall|i: int|
                    0 <= i < r@.len() ==> (#[trigger] r@[i]).1@ == all.take(k as int).filter(
                        |p: ContextFreeGrammarProduction<T>| p.input == r@[i].0,
                    ),
                forall|i: int| 0 <= i < r@.len() ==> (#[trigger] r@[i]).1@.len() > 0,
            decreases n - k,
        {
            let p = productions.remove(0);
            proof {
                assert(p == all[k as int]);
                assert(productions@ =~= all.subrange(k + 1 as int, n as int));
                assert(all.take(k + 1 as int).drop_last() =~= all.take(k as int));
                assert(all.take(k + 1 as int) =~= all.take(k as int).push(p));
            }
            let found = find_key(&r, &p.input);
            match found {
                None => {
                    proof {
                        lemma_key_index(r@, p.input);
                    }
                    let ghost old_r = r@;
                    let mut group: Vec<ContextFreeGrammarProduction<T>> = Vec::new();
                    let ghost pin = p.input;
                    group.push(p);
                    r.push((group[0].input, group));
                    proof {
                        let pred = |q: ContextFreeGrammarProduction<T>| q.input == pin;
                        lemma_filter_push(all.take(k as int), pred, all[k as int]);
                        // the fresh group holds exactly the new rule
                        assert forall|i: int|
                            0 <= i < all.take(k as int).len() implies !pred(#[trigger] all.take(
                            k as int,
                        )[i]) by {
                            assert(all.take(k as int)[i] == all[i]);
                            if all[i].input == pin {
                                assert(has_key(old_r, pin));
                            }
                        }
                        lemma_filter_absent(all.take(k as int), pred);
                        assert(r@[r@.len() - 1].1@ =~= all.take(k + 1 as int).filter(pred));
                        // the older groups are untouched by a rule with a fresh key
                        assert forall|i: int|
                            0 <= i < r@.len() - 1 implies (#[trigger] r@[i]).1@ == all.take(
                            k + 1 as int,
                        ).filter(|q: ContextFreeGrammarProduction<T>| q.input == r@[i].0) by {
                            let predi = |q: ContextFreeGrammarProduction<T>| q.input == r@[i].0;
                            lemma_filter_push(all.take(k as int), predi, all[k as int]);
                            assert(has_key(old_r, r@[i].0)) by {
                                lemma_key_index(old_r, r@[i].0);
                            }
                            assert(!predi(all[k as int]));
                        }
                        assert forall|x: T|
                            has_key(r@, x) <==> exists|i: int|
                                0 <= i < k + 1 && (#[trigger] all[i]).input == x by {
                            lemma_key_index(r@, x);
                            lemma_key_index(old_r, x);
                            if has_key(r@, x) {
                                let xi = key_index(r@, x);
                                if xi < r@.len() - 1 {
                                    assert(old_r[xi].0 == x);
                                    assert(has_key(old_r, x)) by {
                                        if key_index(old_r, x) == -1 {
                                            assert(old_r[xi].0 != x);
                                        }
                                    }
                                    let i0 = choose|i: int|
                                        0 <= i < k && (#[trigger] all[i]).input == x;
                                    assert(0 <= i0 < k + 1 && all[i0].input == x);
                                } else {
                                    assert(all[k as int].input == x);
                                }
                            } else {
                                if exists|i: int|
                                    0 <= i < k + 1 && (#[trigger] all[i]).input == x {
                                    let i = choose|i: int|
                                        0 <= i < k + 1 && (#[trigger] all[i]).input == x;
                                    if i < k {
                                        assert(has_key(old_r, x));
                                        let oi = key_index(old_r, x);
                                        assert(r@[oi].0 == x);
                                        assert(has_key(r@, x));
                                    } else {
                                        assert(r@[r@.len() - 1].0 == x);
                                        assert(has_key(r@, x));
                                    }
                                }
                            }
                        }
                    }
                }
                Some(gi) => {
                    let ghost old_r = r@;
                    let ghost pin = p.input;
                    r[gi].1.push(p);
                    proof {
                        assert(r@ =~= old_r.update(
                            gi as int,
                            (old_r[gi as int].0, r@[gi as int].1),
                        ));
                        assert forall|i: int|
                            0 <= i < r@.len() implies (#[trigger] r@[i]).1@ == all.take(
                            k + 1 as int,
                        ).filter(|q: ContextFreeGrammarProduction<T>| q.input == r@[i].0) by {
                            let predi = |q: ContextFreeGrammarProduction<T>| q.input == r@[i].0;
                            lemma_filter_push(all.take(k as int), predi, all[k as int]);
                            if i == gi {
                                assert(predi(all[k as int]));
                                assert(r@[i].1@ =~= old_r[i].1@.push(all[k as int]));
                            } else {
                                assert(r@[i].0 != pin);
                                assert(!predi(all[k as int]));
                                assert(r@[i].1@ == old_r[i].1@);
                            }
                        }
                        assert forall|x: T|
                            has_key(r@, x) <==> exists|i: int|
                                0 <= i < k + 1 && (#[trigger] all[i]).input == x by {
                            lemma_key_index(r@, x);
                            lemma_key_index(old_r, x);
                            assert forall|i: int|
                                0 <= i < r@.len() implies (#[trigger] r@[i]).0 == old_r[i].0 by {}
                            if has_key(r@, x) {
                                let xi = key_index(r@, x);
                                assert(r@[xi].0 == x);
                                assert(old_r[xi].0 == x);
                                assert(has_key(old_r, x)) by {
                                    if key_index(old_r, x) == -1 {
                                        assert(old_r[xi].0 != x);
                                    }
                                }
                                assert(exists|i: int|
                                    0 <= i < k && (#[trigger] all[i]).input == x);
                                let i0 = choose|i: int|
                                    0 <= i < k && (#[trigger] all[i]).input == x;
                                assert(0 <= i0 < k + 1 && all[i0].input == x);
                            } else {
                                if exists|i: int|
                                    0 <= i < k + 1 && (#[trigger] all[i]).input == x {
                                    let i = choose|i: int|
                                        0 <= i < k + 1 && (#[trigger] all[i]).input == x;
                                    if i < k {
                                        assert(has_key(old_r, x));
                                    } else {
                                        assert(x == pin);
                                        assert(old_r[gi as int].0 == x);
                                        assert(has_key(old_r, x));
                                    }
                                    let oi = key_index(old_r, x);
                                    assert(r@[oi].0 == x);
                                    assert(has_key(r@, x));
                                }
                            }
                        }
                    }
                }
            }
            k += 1;
        }
        proof {
            assert(all.take(n as int) =~= all);
        }
        r
    }
}

/// In a well-formed grammar, every rule's input is a non-terminal, every
/// symbol of every output is a non-terminal or a terminal, and epsilon is a
/// terminal exactly when some rule rewrites to epsilon alone.
pub proof fn lemma_grammar_symbols<T>(g: ContextFreeGrammar<T>)
    requires
        g.wf(),
    ensures
        forall|i: int, j: int|
            0 <= i < g.productions@.len() && 0 <= j < g.productions@[i].1@.len()
                ==> g.non_terminal_symbols_set@.contains(
                (#[trigger] g.productions@[i].1@[j]).input,
            ),
        forall|i: int, j: int, l: int|
            #![trigger g.productions@[i].1@[j].output@[l]]
            0 <= i < g.productions@.len() && 0 <= j < g.productions@[i].1@.len() && 0 <= l
                < g.productions@[i].1@[j].output@.len() ==> (
            g.non_terminal_symbols_set@.contains(g.productions@[i].1@[j].output@[l])
                || g.terminal_symbols_set@.contains(g.productions@[i].1@[j].output@[l])),
        g.terminal_symbols_set@.contains(g.epsilon_symbol) <==> exists|i: int, j: int|
            0 <= i < g.productions@.len() && 0 <= j < g.productions@[i].1@.len() && (
            #[trigger] g.productions@[i].1@[j]).output@ == seq![g.epsilon_symbol],
{
    assert forall|i: int, j: int|
        0 <= i < g.productions@.len() && 0 <= j < g.productions@[i].1@.len()
        implies g.non_terminal_symbols_set@.contains(
        (#[trigger] g.productions@[i].1@[j]).input,
    ) by {
        assert(g.productions@[i].1@[j].input == g.productions@[i].0);
        lemma_key_index(g.productions@, g.productions@[i].0);
        if key_index(g.productions@, g.productions@[i].0) == -1 {
            assert(g.productions@[i].0 != g.productions@[i].0);
        }
        assert(has_key(g.productions@, g.productions@[i].0));
    }
    assert forall|i: int, j: int, l: int|
        #![trigger g.productions@[i].1@[j].output@[l]]
        0 <= i < g.productions@.len() && 0 <= j < g.productions@[i].1@.len() && 0 <= l
            < g.productions@[i].1@[j].output@.len() implies (
    g.non_terminal_symbols_set@.contains(g.productions@[i].1@[j].output@[l])
        || g.terminal_symbols_set@.contains(g.productions@[i].1@[j].output@[l])) by {
        let x = g.productions@[i].1@[j].output@[l];
        if !g.non_terminal_symbols_set@.contains(x) {
            assert(some_output_contains(g.productions@[i].1@, x)) by {
                assert(g.productions@[i].1@[j].output@.contains(x));
            }
            assert(g.rhs_symbol(x));
        }
    }
    if g.terminal_symbols_set@.contains(g.epsilon_symbol) {
        assert(g.rhs_symbol(g.epsilon_symbol));
        let i = choose|i: int|
            0 <= i < g.productions@.len() && some_output_contains(
                (#[trigger] g.productions@[i]).1@,
                g.epsilon_symbol,
            );
        let j = choose|j: int|
            0 <= j < g.productions@[i].1@.len() && (#[trigger] g.productions@[i].1@[j]).output@
                .contains(g.epsilon_symbol);
        assert(valid_production(g.productions@[i].1@[j], g.epsilon_symbol));
        assert(g.productions@[i].1@[j].output@.len() == 1);
        let l = choose|l: int|
            0 <= l < g.productions@[i].1@[j].output@.len()
                && g.productions@[i].1@[j].output@[l] == g.epsilon_symbol;
        assert(g.productions@[i].1@[j].output@ =~= seq![g.epsilon_symbol]);
    }
    if exists|i: int, j: int|
        0 <= i < g.productions@.len() && 0 <= j < g.productions@[i].1@.len() && (
        #[trigger] g.productions@[i].1@[j]).output@ == seq![g.epsilon_symbol] {
        let (i, j) = choose|i: int, j: int|
            0 <= i < g.productions@.len() && 0 <= j < g.productions@[i].1@.len() && (
            #[trigger] g.productions@[i].1@[j]).output@ == seq![g.epsilon_symbol];
        assert(g.productions@[i].1@[j].output@.contains(g.epsilon_symbol)) by {
            assert(g.productions@[i].1@[j].output@[0] == g.epsilon_symbol);
        }
        assert(some_output_contains(g.productions@[i].1@, g.epsilon_symbol));
        assert(g.rhs_symbol(g.epsilon_symbol));
        assert(!g.non_terminal_symbols_set@.contains(g.epsilon_symbol)) by {
            if g.non_terminal_symbols_set@.contains(g.epsilon_symbol) {
                lemma_key_index(g.productions@, g.epsilon_symbol);
                let ki = key_index(g.productions@, g.epsilon_symbol);
                assert(g.productions@[ki].0 == g.epsilon_symbol);
            }
        }
    }
}

} // verus!
