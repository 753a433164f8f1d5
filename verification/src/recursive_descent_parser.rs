//! The backtracking recursive descent parser. It drives the predictive
//! transition table over a token vector, trying the candidate productions of
//! each non-terminal in declaration order and backtracking to the next
//! alternative when one fails. A configured syntax-error solver may repair a
//! failing parse at single-path points.

use vstd::prelude::*;
use crate::assoc::reflects_eq;
use crate::assoc::key_index;
use crate::assoc::has_key;
use crate::assoc::value_of;
use crate::assoc::lemma_key_index;
use crate::assoc::copy_vec;
use crate::ast::AbstractSyntaxNode;
use crate::ast::AbstractSyntaxTree;
use crate::ast::node_yield;
use crate::ast::nodes_yield;
use crate::grammar::ContextFreeGrammar;
use crate::grammar::ContextFreeGrammarProduction;
use crate::first_follow::FirstFollowSymbols;
use crate::parse_types::FailedProduction;
use crate::parse_types::FailedSymbol;
use crate::parse_types::FixResult;
use crate::parse_types::FixedProduction;
use crate::parse_types::FixedProductionPart;
use crate::parse_types::FixedSymbol;
use crate::parse_types::ParseResult;
use crate::parse_types::ProductionParsedSymbol;
use crate::parse_types::SyntaxErrorSolver;
use crate::transitions::RecursiveDescentParserTransitions;
use crate::transitions::table_keys_ok;
use crate::token::Token;

verus! {

/// Every candidate output held by the table is a non-empty symbol string.
pub open spec fn table_outputs_nonempty<T>(
    tb: Seq<(T, Vec<(T, Vec<ContextFreeGrammarProduction<T>>)>)>,
) -> bool {
    forall|i: int, k: int, e: int|
        #![trigger tb[i].1@[k].1@[e]]
        0 <= i < tb.len() && 0 <= k < tb[i].1@.len() && 0 <= e < tb[i].1@[k].1@.len()
            ==> tb[i].1@[k].1@[e].output@.len() > 0
}

pub open spec fn outputs_nonempty<TSyntax>(v: Seq<Vec<TSyntax>>) -> bool {
    forall|c: int| 0 <= c < v.len() ==> (#[trigger] v[c])@.len() > 0
}

/// A failure report decomposes the output it was tried against: some prefix
/// was parsed, the failing symbol stands at or after that prefix, and the
/// pending symbols are exactly those behind the failing position.
pub open spec fn failed_production_matches_output<TLex, TSyntax>(
    fp: FailedProduction<TLex, TSyntax>,
    output: Seq<TSyntax>,
) -> bool {
    &&& fp.parsed_symbols@.len() < output.len()
    &&& fp.pending_symbols@ == output.skip(fp.parsed_symbols@.len() as int + 1)
    &&& exists|idx: int|
        fp.parsed_symbols@.len() <= idx < output.len() && fp.failed_symbol.symbol_to_derive
            == output[idx]
}

/// A candidate output whose symbols are all terminals of the grammar and
/// match the input directly from `pos`: epsilon consumes nothing, every
/// other symbol must equal the category of the next token, and no
/// non-terminal stands in the way. Expanding such a candidate cannot fail.
pub open spec fn terminal_output_matches<TLex, TSyntax>(
    g: ContextFreeGrammar<TSyntax>,
    out: Seq<TSyntax>,
    tokens: Seq<Token<TLex, TSyntax>>,
    pos: int,
) -> bool
    decreases out.len(),
{
    if out.len() == 0 {
        true
    } else if out[0] == g.epsilon_symbol {
        terminal_output_matches(g, out.drop_first(), tokens, pos)
    } else if g.non_terminal_symbols_set@.contains(out[0]) {
        false
    } else {
        pos < tokens.len() && tokens[pos].t_type == out[0] && terminal_output_matches(
            g,
            out.drop_first(),
            tokens,
            pos + 1,
        )
    }
}

/// A directly matching candidate is no longer than the unread input, save
/// for the lone epsilon rule: every non-epsilon symbol consumes one token,
/// and an epsilon output stands alone.
proof fn lemma_terminal_match_len<TLex, TSyntax>(
    g: ContextFreeGrammar<TSyntax>,
    out: Seq<TSyntax>,
    tokens: Seq<Token<TLex, TSyntax>>,
    pos: int,
)
    requires
        terminal_output_matches(g, out, tokens, pos),
        pos <= tokens.len(),
        out.contains(g.epsilon_symbol) ==> out.len() == 1,
    ensures
        out.len() <= 1 + tokens.len() - pos,
    decreases out.len(),
{
    if out.len() > 0 {
        if out[0] == g.epsilon_symbol {
            assert(out.contains(g.epsilon_symbol)) by {
                assert(out[0] == g.epsilon_symbol);
            }
        } else {
            assert(!out.drop_first().contains(g.epsilon_symbol)) by {
                if out.drop_first().contains(g.epsilon_symbol) {
                    let w = choose|w: int|
                        0 <= w < out.drop_first().len() && out.drop_first()[w]
                            == g.epsilon_symbol;
                    assert(out[w + 1] == g.epsilon_symbol);
                    assert(out.contains(g.epsilon_symbol));
                }
            }
            lemma_terminal_match_len(g, out.drop_first(), tokens, pos + 1);
        }
    }
}

/// A state that backtracking cannot re-expand: a repaired state, or a
/// parsing state with no alternatives left.
pub open spec fn non_retryable<TLex, TSyntax>(s: State<TLex, TSyntax>) -> bool {
    match s {
        State::Parsing(ps) => ps.prod_iter_option is None,
        State::Fixed(_) => true,
    }
}

pub struct FixedState<TLex, TSyntax> {
    pub final_token_position: usize,
    pub fixed_symbol: FixedSymbol<TLex, TSyntax>,
}

impl<TLex, TSyntax> FixedState<TLex, TSyntax> {
    pub fn new(final_token_position: usize, fixed_symbol: FixedSymbol<TLex, TSyntax>) -> (r: Self)
        ensures
            r.final_token_position == final_token_position,
            r.fixed_symbol == fixed_symbol,
    {
        Self { final_token_position, fixed_symbol }
    }
}

pub struct ParsingState<TLex, TSyntax> {
    pub initial_token_position: usize,
    pub final_token_position: usize,
    pub prod_iter_option: Option<Vec<Vec<TSyntax>>>,
    pub node: AbstractSyntaxNode<Token<TLex, TSyntax>>,
}

impl<TLex, TSyntax> ParsingState<TLex, TSyntax> {
    pub fn new(
        initial_token_position: usize,
        final_token_position: usize,
        prod_iter_option: Option<Vec<Vec<TSyntax>>>,
        node: AbstractSyntaxNode<Token<TLex, TSyntax>>,
    ) -> (r: Self)
        ensures
            r.initial_token_position == initial_token_position,
            r.final_token_position == final_token_position,
            r.prod_iter_option == prod_iter_option,
            r.node == node,
    {
        ParsingState { initial_token_position, final_token_position, prod_iter_option, node }
    }
}

pub enum State<TLex, TSyntax> {
    Parsing(ParsingState<TLex, TSyntax>),
    Fixed(FixedState<TLex, TSyntax>),
}

impl<TLex, TSyntax> State<TLex, TSyntax> {
    pub fn is_fixed(&self) -> (r: bool)
        ensures
            r == (self is Fixed),
    {
        matches!(*self, Self::Fixed(_))
    }
}

enum ParseSymbolResult<TLex, TSyntax> {
    Parsed(ParsingState<TLex, TSyntax>),
    Failed(FailedSymbol<TLex, TSyntax>),
    Fixed(FixedState<TLex, TSyntax>),
}

enum ParseProductionResult<TLex, TSyntax> {
    Parsed(AbstractSyntaxNode<Token<TLex, TSyntax>>),
    Failed(FailedProduction<TLex, TSyntax>),
    Fixed(FixedProduction<TLex, TSyntax>),
}

/// What holds of a successful parsing state produced for `symbol` at
/// `pos`: the state spans `pos` to its final position and its node's yield
/// is exactly the tokens in between. Nothing is claimed of the span when
/// `pos` lies beyond the input, which can happen only downstream of a
/// solver repair.
spec fn st_ok<TLex, TSyntax>(
    st: ParsingState<TLex, TSyntax>,
    epsilon: TSyntax,
    tokens: Seq<Token<TLex, TSyntax>>,
    pos: int,
    symbol: TSyntax,
) -> bool {
    &&& st.initial_token_position == pos
    &&& st.node.token.t_type == symbol
    &&& (match st.prod_iter_option {
        Some(v) => outputs_nonempty(v@),
        None => true,
    })
    &&& (pos <= tokens.len() ==> pos <= st.final_token_position <= tokens.len() && node_yield(
        st.node,
        epsilon,
    ) == tokens.subrange(pos, st.final_token_position as int))
}

/// The token position where a state ends.
spec fn state_end<TLex, TSyntax>(s: State<TLex, TSyntax>) -> int {
    match s {
        State::Parsing(ps) => ps.final_token_position as int,
        State::Fixed(fs) => fs.final_token_position as int,
    }
}

/// The position at which the `i`-th state of the stack begins.
spec fn chain_pos<TLex, TSyntax>(states: Seq<State<TLex, TSyntax>>, pos0: int, i: int) -> int {
    if i == 0 {
        pos0
    } else {
        state_end(states[i - 1])
    }
}

/// The stack of states of one production attempt: contiguous spans starting
/// at `pos0`, every parsing state well formed for its own span.
spec fn states_ok<TLex, TSyntax>(
    states: Seq<State<TLex, TSyntax>>,
    epsilon: TSyntax,
    tokens: Seq<Token<TLex, TSyntax>>,
    pos0: int,
) -> bool {
    forall|i: int|
        0 <= i < states.len() ==> (match #[trigger] states[i] {
            State::Parsing(ps) => st_ok(
                ps,
                epsilon,
                tokens,
                chain_pos(states, pos0, i),
                ps.node.token.t_type,
            ),
            State::Fixed(_) => true,
        })
}

pub struct RecursiveDescentParser<'a, TLex, TSyntax, TSolver: SyntaxErrorSolver<TLex, TSyntax>> {
    pub grammar: &'a ContextFreeGrammar<TSyntax>,
    pub marker: core::marker::PhantomData<TLex>,
    pub syntax_error_solver: Option<TSolver>,
    pub transitions: RecursiveDescentParserTransitions<TSyntax>,
}

impl<
    'a,
    TLex: Copy,
    TSyntax: Copy + PartialEq,
    TSolver: SyntaxErrorSolver<TLex, TSyntax>,
> RecursiveDescentParser<'a, TLex, TSyntax, TSolver> {
    pub open spec fn wf(&self) -> bool {
        &&& self.grammar.wf()
        &&& table_keys_ok(*self.grammar, self.transitions.table@)
        &&& table_outputs_nonempty(self.transitions.table@)
        &&& exists|fm: Seq<(TSyntax, Vec<TSyntax>)>, gm: Seq<(TSyntax, Vec<TSyntax>)>|
            #[trigger] crate::first_follow::computed_first_follow(*self.grammar, fm, gm)
                && crate::transitions::table_cells_ok(
                *self.grammar,
                fm,
                gm,
                self.transitions.table@,
            )
    }

    pub fn from_grammar(grammar: &'a ContextFreeGrammar<TSyntax>) -> (r: Self)
        requires
            reflects_eq::<TSyntax>(),
            grammar.wf(),
        ensures
            r.wf(),
            r.grammar == grammar,
            r.syntax_error_solver is None,
    {
        let first_follow_symbols = FirstFollowSymbols::from(grammar);
        Self::from_grammar_and_first_follow_symbols(grammar, &first_follow_symbols)
    }

    pub fn from_grammar_and_first_follow_symbols(
        grammar: &'a ContextFreeGrammar<TSyntax>,
        first_follow_symbols: &FirstFollowSymbols<TSyntax>,
    ) -> (r: Self)
        requires
            reflects_eq::<TSyntax>(),
            grammar.wf(),
            crate::first_follow::first_keys_ok(*grammar, first_follow_symbols.first_symbols@),
            crate::first_follow::first_sets_ok(*grammar, first_follow_symbols.first_symbols@),
            crate::first_follow::first_terminal_pin(
                *grammar,
                first_follow_symbols.first_symbols@,
            ),
            crate::first_follow::follow_keys_ok(*grammar, first_follow_symbols.follow_symbols@),
            crate::first_follow::follow_sets_ok(*grammar, first_follow_symbols.follow_symbols@),
            crate::first_follow::computed_first_follow(
                *grammar,
                first_follow_symbols.first_symbols@,
                first_follow_symbols.follow_symbols@,
            ),
        ensures
            r.wf(),
            r.grammar == grammar,
            r.syntax_error_solver is None,
    {
        Self::from(grammar, first_follow_symbols, None)
    }

    pub fn from_grammar_and_solver(
        grammar: &'a ContextFreeGrammar<TSyntax>,
        syntax_error_solver: TSolver,
    ) -> (r: Self)
        requires
            reflects_eq::<TSyntax>(),
            grammar.wf(),
        ensures
            r.wf(),
            r.grammar == grammar,
            r.syntax_error_solver is Some,
    {
        let first_follow_symbols = FirstFollowSymbols::from(grammar);
        Self::from(grammar, &first_follow_symbols, Some(syntax_error_solver))
    }

    fn from(
        grammar: &'a ContextFreeGrammar<TSyntax>,
        first_follow_symbols: &FirstFollowSymbols<TSyntax>,
        syntax_error_solver: Option<TSolver>,
    ) -> (r: Self)
        requires
            reflects_eq::<TSyntax>(),
            grammar.wf(),
            crate::first_follow::first_keys_ok(*grammar, first_follow_symbols.first_symbols@),
            crate::first_follow::first_sets_ok(*grammar, first_follow_symbols.first_symbols@),
            crate::first_follow::first_terminal_pin(
                *grammar,
                first_follow_symbols.first_symbols@,
            ),
            crate::first_follow::follow_keys_ok(*grammar, first_follow_symbols.follow_symbols@),
            crate::first_follow::follow_sets_ok(*grammar, first_follow_symbols.follow_symbols@),
            crate::first_follow::computed_first_follow(
                *grammar,
                first_follow_symbols.first_symbols@,
                first_follow_symbols.follow_symbols@,
            ),
        ensures
            r.wf(),
            r.grammar == grammar,
            r.syntax_error_solver == syntax_error_solver,
    {
        let transitions = RecursiveDescentParserTransitions::from(grammar, first_follow_symbols);
        proof {
            assert forall|i: int, k: int, e: int|
                #![trigger transitions.table@[i].1@[k].1@[e]]
                0 <= i < transitions.table@.len() && 0 <= k < transitions.table@[i].1@.len() && 0
                    <= e < transitions.table@[i].1@[k].1@.len()
                implies transitions.table@[i].1@[k].1@[e].output@.len() > 0 by {
                let tb = transitions.table@;
                let pred = |p: ContextFreeGrammarProduction<TSyntax>|
                    crate::transitions::in_lookahead(
                        *grammar,
                        first_follow_symbols.first_symbols@,
                        first_follow_symbols.follow_symbols@,
                        p,
                        tb[i].1@[k].0,
                    );
                let group = value_of(grammar.productions@, tb[i].0)@;
                let fil = group.filter(pred);
                assert(crate::transitions::prods_eqv(tb[i].1@[k].1@, fil));
                assert(crate::transitions::prod_eqv(tb[i].1@[k].1@[e], fil[e]));
                assert(fil.contains(fil[e]));
                crate::assoc::lemma_filter_subset(group, pred, fil[e]);
                let w = choose|w: int| 0 <= w < group.len() && group[w] == fil[e];
                assert(grammar.non_terminal_symbols_set@.contains(tb[i].0)) by {
                    assert(grammar.non_terminal_symbols_set@[i] == tb[i].0);
                }
                lemma_key_index(grammar.productions@, tb[i].0);
                let ki = key_index(grammar.productions@, tb[i].0);
                assert(ki >= 0) by {
                    if ki == -1 {
                        let v = choose|v: int|
                            0 <= v < grammar.non_terminal_symbols_set@.len()
                                && grammar.non_terminal_symbols_set@[v] == tb[i].0;
                        assert(has_key(grammar.productions@, tb[i].0));
                    }
                }
                assert(group == grammar.productions@[ki].1@);
                assert(crate::grammar::valid_production(
                    grammar.productions@[ki].1@[w],
                    grammar.epsilon_symbol,
                ));
            }
        }
        proof {
            assert(crate::first_follow::computed_first_follow(
                *grammar,
                first_follow_symbols.first_symbols@,
                first_follow_symbols.follow_symbols@,
            ) && crate::transitions::table_cells_ok(
                *grammar,
                first_follow_symbols.first_symbols@,
                first_follow_symbols.follow_symbols@,
                transitions.table@,
            ));
        }
        Self {
            grammar,
            marker: core::marker::PhantomData,
            syntax_error_solver,
            transitions,
        }
    }

    /// Parses the token vector, deriving the grammar's start symbol. The
    /// result is a full tree whose yield is the consumed prefix of the
    /// input, a structured failure report for the start symbol, or a
    /// repaired tree when a configured solver stepped in.
    pub fn parse_from_tokens(&self, tokens: Vec<Token<TLex, TSyntax>>) -> (r: ParseResult<
        TLex,
        TSyntax,
    >)
        requires
            reflects_eq::<TSyntax>(),
            self.wf(),
            tokens@.len() > 0,
        ensures
            match r {
                ParseResult::Parsed(tree) => {
                    &&& tree.root.token.t_type == self.grammar.initial_symbol
                    &&& tree.root.token.lex is None
                    &&& exists|n: int|
                        0 <= n <= tokens@.len() && node_yield(
                            tree.root,
                            self.grammar.epsilon_symbol,
                        ) == tokens@.take(n)
                },
                ParseResult::Failed(fs) => fs.symbol_to_derive == self.grammar.initial_symbol,
                ParseResult::Fixed(fx) => fx.symbol_to_derive == self.grammar.initial_symbol,
            },
            self.syntax_error_solver is None ==> !(r is Fixed),
            r matches ParseResult::Failed(fs2) ==> ({
                let tb = self.transitions.table@;
                if has_key(tb, self.grammar.initial_symbol) && has_key(
                    value_of(tb, self.grammar.initial_symbol)@,
                    tokens@[0].t_type,
                ) {
                    let cell = value_of(
                        value_of(tb, self.grammar.initial_symbol)@,
                        tokens@[0].t_type,
                    )@;
                    fs2.failed_productions@.len() == cell.len() && (forall|c: int|
                        0 <= c < cell.len() ==> failed_production_matches_output(
                            #[trigger] fs2.failed_productions@[c],
                            cell[c].output@,
                        ))
                } else {
                    fs2.failed_productions@.len() == 0
                }
            }),
            ({
                let tb = self.transitions.table@;
                &&& has_key(tb, self.grammar.initial_symbol)
                &&& has_key(value_of(tb, self.grammar.initial_symbol)@, tokens@[0].t_type)
                &&& (exists|c: int|
                    0 <= c < value_of(
                        value_of(tb, self.grammar.initial_symbol)@,
                        tokens@[0].t_type,
                    )@.len() && terminal_output_matches(
                        *self.grammar,
                        (#[trigger] value_of(
                            value_of(tb, self.grammar.initial_symbol)@,
                            tokens@[0].t_type,
                        )@[c]).output@,
                        tokens@,
                        0,
                    ))
                &&& tokens@.len() + 10 < 0xffff_ffff_ffff_ffff
            }) ==> !(r is Failed),
    {
        let symbol_to_derive = *self.grammar.get_initial_symbol();
        let token_position: usize = 0;
        let first_token = tokens[0];
        let first_token_productions = self.inner_get_token_productions(
            &symbol_to_derive,
            &first_token.t_type,
        );
        let ghost cands = first_token_productions@;
        let parse_symbol_result = self.inner_parse_from_tokens(
            &symbol_to_derive,
            &tokens,
            token_position,
            first_token_productions,
            true,
            u64::MAX,
        );
        proof {
            let tb = self.transitions.table@;
            if has_key(tb, self.grammar.initial_symbol) && has_key(
                value_of(tb, self.grammar.initial_symbol)@,
                tokens@[0].t_type,
            ) && (exists|c: int|
                0 <= c < value_of(
                    value_of(tb, self.grammar.initial_symbol)@,
                    tokens@[0].t_type,
                )@.len() && terminal_output_matches(
                    *self.grammar,
                    (#[trigger] value_of(
                        value_of(tb, self.grammar.initial_symbol)@,
                        tokens@[0].t_type,
                    )@[c]).output@,
                    tokens@,
                    0,
                )) && tokens@.len() + 10 < 0xffff_ffff_ffff_ffff {
                let cell = value_of(
                    value_of(tb, self.grammar.initial_symbol)@,
                    tokens@[0].t_type,
                )@;
                let c = choose|c: int|
                    0 <= c < cell.len() && terminal_output_matches(
                        *self.grammar,
                        (#[trigger] cell[c]).output@,
                        tokens@,
                        0,
                    );
                assert(cands[c]@ == cell[c].output@);
                // the candidate is a rule of the grammar, so an epsilon
                // output stands alone and the length bound follows
                let (fm, gm) = choose|fm: Seq<(TSyntax, Vec<TSyntax>)>, gm: Seq<
                    (TSyntax, Vec<TSyntax>),
                >|
                    #[trigger] crate::first_follow::computed_first_follow(
                        *self.grammar,
                        fm,
                        gm,
                    ) && crate::transitions::table_cells_ok(
                        *self.grammar,
                        fm,
                        gm,
                        self.transitions.table@,
                    );
                lemma_key_index(tb, self.grammar.initial_symbol);
                let ki = key_index(tb, self.grammar.initial_symbol);
                lemma_key_index(tb[ki].1@, tokens@[0].t_type);
                let ki2 = key_index(tb[ki].1@, tokens@[0].t_type);
                assert(cell == tb[ki].1@[ki2].1@);
                let pred = |q: ContextFreeGrammarProduction<TSyntax>|
                    crate::transitions::in_lookahead(
                        *self.grammar,
                        fm,
                        gm,
                        q,
                        tb[ki].1@[ki2].0,
                    );
                let group = value_of(self.grammar.productions@, tb[ki].0)@;
                let fil = group.filter(pred);
                assert(crate::transitions::prods_eqv(cell, fil));
                assert(crate::transitions::prod_eqv(cell[c], fil[c]));
                assert(fil.contains(fil[c]));
                crate::assoc::lemma_filter_subset(group, pred, fil[c]);
                let w = choose|w: int| 0 <= w < group.len() && group[w] == fil[c];
                assert(self.grammar.non_terminal_symbols_set@.contains(tb[ki].0)) by {
                    assert(self.grammar.non_terminal_symbols_set@[ki] == tb[ki].0);
                }
                lemma_key_index(self.grammar.productions@, tb[ki].0);
                let gki = key_index(self.grammar.productions@, tb[ki].0);
                assert(gki >= 0) by {
                    assert(has_key(self.grammar.productions@, tb[ki].0));
                }
                assert(group == self.grammar.productions@[gki].1@);
                assert(crate::grammar::valid_production(
                    self.grammar.productions@[gki].1@[w],
                    self.grammar.epsilon_symbol,
                ));
                assert(cell[c].output@ == self.grammar.productions@[gki].1@[w].output@);
                lemma_terminal_match_len(*self.grammar, cell[c].output@, tokens@, 0);
                assert(u64::MAX as int > cands[c]@.len() + 3);
                assert(exists|c2: int|
                    0 <= c2 < cands.len() && terminal_output_matches(
                        *self.grammar,
                        (#[trigger] cands[c2])@,
                        tokens@,
                        0,
                    ) && u64::MAX as int > cands[c2]@.len() + 3);
                assert(!(parse_symbol_result is Failed));
            }
            if let ParseSymbolResult::Parsed(st) = &parse_symbol_result {
                assert(tokens@.subrange(0, st.final_token_position as int) =~= tokens@.take(
                    st.final_token_position as int,
                ));
            }
        }
        Self::parse_symbol_result_to_parse_result(parse_symbol_result)
    }

    fn parse_symbol_result_to_parse_result(
        parse_symbol_result: ParseSymbolResult<TLex, TSyntax>,
    ) -> (r: ParseResult<TLex, TSyntax>)
        ensures
            match parse_symbol_result {
                ParseSymbolResult::Parsed(st) => r matches ParseResult::Parsed(tree)
                    && tree.root == st.node,
                ParseSymbolResult::Failed(fs) => r matches ParseResult::Failed(fs2) && fs2 == fs,
                ParseSymbolResult::Fixed(fst) => r matches ParseResult::Fixed(fx) && fx
                    == fst.fixed_symbol,
            },
    {
        match parse_symbol_result {
            ParseSymbolResult::Parsed(parsing_state) => ParseResult::Parsed(
                AbstractSyntaxTree::new(parsing_state.node),
            ),
            ParseSymbolResult::Failed(failed_symbol) => ParseResult::Failed(failed_symbol),
            ParseSymbolResult::Fixed(fixing_state) => ParseResult::Fixed(
                fixing_state.fixed_symbol,
            ),
        }
    }

    fn build_token_failed_symbol(production_symbol: &TSyntax) -> (r: ParseSymbolResult<
        TLex,
        TSyntax,
    >)
        ensures
            r matches ParseSymbolResult::Failed(fs) && fs.symbol_to_derive == *production_symbol
                && fs.failed_productions@.len() == 0,
    {
        let failed_symbol = FailedSymbol::new(Vec::new(), *production_symbol);
        ParseSymbolResult::Failed(failed_symbol)
    }

    /// The candidate outputs that the transition table offers for deriving
    /// `symbol_to_derive` when the lookahead terminal is `first_token`; the
    /// empty vector when the table has no entry for the pair.
    fn inner_get_token_productions(&self, symbol_to_derive: &TSyntax, first_token: &TSyntax) -> (
        r: Vec<Vec<TSyntax>>)
        requires
            reflects_eq::<TSyntax>(),
            self.wf(),
        ensures
            outputs_nonempty(r@),
            ({
                let tb = self.transitions.table@;
                if has_key(tb, *symbol_to_derive) && has_key(
                    value_of(tb, *symbol_to_derive)@,
                    *first_token,
                ) {
                    let cell = value_of(value_of(tb, *symbol_to_derive)@, *first_token)@;
                    r@.len() == cell.len() && (forall|c: int|
                        0 <= c < cell.len() ==> (#[trigger] r@[c])@ == cell[c].output@)
                } else {
                    r@.len() == 0
                }
            }),
    {
        match self.transitions.get_productions(symbol_to_derive, first_token) {
            Some(productions) => {
                proof {
                    let tb = self.transitions.table@;
                    lemma_key_index(tb, *symbol_to_derive);
                    let i = key_index(tb, *symbol_to_derive);
                    lemma_key_index(tb[i].1@, *first_token);
                    let k = key_index(tb[i].1@, *first_token);
                    assert(productions@ == tb[i].1@[k].1@);
                    assert forall|e: int|
                        0 <= e < productions@.len() implies (
                    #[trigger] productions@[e]).output@.len() > 0 by {
                        assert(tb[i].1@[k].1@[e].output@.len() > 0);
                    }
                }
                let n = productions.len();
                let mut r: Vec<Vec<TSyntax>> = Vec::new();
                let mut c: usize = 0;
                while c < n
                    invariant
                        n == productions@.len(),
                        c <= n,
                        r@.len() == c,
                        forall|e: int|
                            0 <= e < productions@.len() ==> (
                            #[trigger] productions@[e]).output@.len() > 0,
                        outputs_nonempty(r@),
                        forall|e: int|
                            0 <= e < c ==> (#[trigger] r@[e])@ == productions@[e].output@,
                    decreases n - c,
                {
                    r.push(copy_vec(&productions[c].output));
                    c += 1;
                }
                r
            },
            None => Vec::new(),
        }
    }

    /// Expands one candidate set for `symbol_to_derive` at `tokens_position`,
    /// trying the candidates in order; when all fail, offers the configured
    /// solver a repair at single-path points.
    fn inner_parse_from_tokens(
        &self,
        symbol_to_derive: &TSyntax,
        tokens: &Vec<Token<TLex, TSyntax>>,
        tokens_position: usize,
        production_outputs: Vec<Vec<TSyntax>>,
        is_single_path: bool,
        fuel: u64,
    ) -> (r: ParseSymbolResult<TLex, TSyntax>)
        requires
            reflects_eq::<TSyntax>(),
            self.wf(),
            outputs_nonempty(production_outputs@),
        ensures
            match r {
                ParseSymbolResult::Parsed(st) => st_ok(
                    st,
                    self.grammar.epsilon_symbol,
                    tokens@,
                    tokens_position as int,
                    *symbol_to_derive,
                ) && st.node.token.lex is None,
                ParseSymbolResult::Failed(fs) => fs.symbol_to_derive == *symbol_to_derive,
                ParseSymbolResult::Fixed(fx) => fx.fixed_symbol.symbol_to_derive
                    == *symbol_to_derive,
            },
            self.syntax_error_solver is None ==> !(r is Fixed),
            fuel >= 2 ==> (r matches ParseSymbolResult::Failed(fs2) ==> (
            fs2.failed_productions@.len() == production_outputs@.len() && (forall|c: int|
                0 <= c < production_outputs@.len() ==> failed_production_matches_output(
                    #[trigger] fs2.failed_productions@[c],
                    production_outputs@[c]@,
                )))),
            ((exists|c: int|
                0 <= c < production_outputs@.len() && terminal_output_matches(
                    *self.grammar,
                    (#[trigger] production_outputs@[c])@,
                    tokens@,
                    tokens_position as int,
                ) && fuel as int > production_outputs@[c]@.len() + 3) && tokens_position
                <= tokens@.len()) ==> !(r is Failed),
        decreases fuel,
    {
        if fuel == 0 {
            return Self::build_token_failed_symbol(symbol_to_derive);
        }
        let child_is_single_path = Self::is_child_single_path(
            is_single_path,
            &production_outputs,
        );
        let parse_productions_result = self.inner_parse_from_tokens_try_parse_productions(
            symbol_to_derive,
            tokens,
            tokens_position,
            production_outputs,
            is_single_path,
            fuel - 1,
        );
        proof {
            if tokens_position as int <= tokens@.len() && (exists|c: int|
                0 <= c < production_outputs@.len() && terminal_output_matches(
                    *self.grammar,
                    (#[trigger] production_outputs@[c])@,
                    tokens@,
                    tokens_position as int,
                ) && fuel as int > production_outputs@[c]@.len() + 3) {
                let c = choose|c: int|
                    0 <= c < production_outputs@.len() && terminal_output_matches(
                        *self.grammar,
                        (#[trigger] production_outputs@[c])@,
                        tokens@,
                        tokens_position as int,
                    ) && fuel as int > production_outputs@[c]@.len() + 3;
                assert((fuel - 1) as int > production_outputs@[c]@.len() + 2);
            }
        }
        match parse_productions_result {
            Ok(parse_symbol_result) => parse_symbol_result,
            Err(failed_productions) => {
                let fix_option = self.inner_parse_from_tokens_try_fix_productions(
                    tokens,
                    tokens_position,
                    is_single_path,
                    child_is_single_path,
                    &failed_productions,
                );
                Self::inner_parse_from_tokens_fix_option_to_parse_symbol_result(
                    failed_productions,
                    fix_option,
                    symbol_to_derive,
                )
            },
        }
    }

    fn inner_parse_from_tokens_fix_option_to_parse_symbol_result(
        failed_productions: Vec<FailedProduction<TLex, TSyntax>>,
        fix_option: Option<FixResult<TLex, TSyntax>>,
        symbol_to_derive: &TSyntax,
    ) -> (r: ParseSymbolResult<TLex, TSyntax>)
        ensures
            match r {
                ParseSymbolResult::Parsed(_) => false,
                ParseSymbolResult::Failed(fs) => fs.symbol_to_derive == *symbol_to_derive
                    && fs.failed_productions == failed_productions,
                ParseSymbolResult::Fixed(fx) => fx.fixed_symbol.symbol_to_derive
                    == *symbol_to_derive,
            },
            fix_option is None <==> r is Failed,
    {
        match fix_option {
            Some(fix_result) => {
                let fixed_symbol: FixedSymbol<TLex, TSyntax> = FixedSymbol::new(
                    fix_result.production,
                    *symbol_to_derive,
                );
                let fixed_state: FixedState<TLex, TSyntax> = FixedState::new(
                    fix_result.final_token_position,
                    fixed_symbol,
                );
                ParseSymbolResult::Fixed(fixed_state)
            },
            None => ParseSymbolResult::Failed(
                FailedSymbol::new(failed_productions, *symbol_to_derive),
            ),
        }
    }

    /// Offers the configured solver a repair, at single-path points only.
    /// Nothing is assumed of what the solver returns.
    fn inner_parse_from_tokens_try_fix_productions(
        &self,
        tokens: &Vec<Token<TLex, TSyntax>>,
        tokens_position: usize,
        is_single_path: bool,
        child_is_single_path: bool,
        failed_productions: &Vec<FailedProduction<TLex, TSyntax>>,
    ) -> (r: Option<FixResult<TLex, TSyntax>>)
        ensures
            self.syntax_error_solver is None ==> r is None,
    {
        match &self.syntax_error_solver {
            Some(syntax_error_solver) => {
                if is_single_path {
                    if child_is_single_path && failed_productions.len() > 0 {
                        let failed_production = &failed_productions[0];
                        syntax_error_solver.fix_failed_production(
                            tokens,
                            tokens_position,
                            failed_production,
                        )
                    } else {
                        syntax_error_solver.fix_failed_productions(
                            tokens,
                            tokens_position,
                            failed_productions,
                        )
                    }
                } else {
                    None
                }
            },
            None => None,
        }
    }

    /// Tries every candidate output in order; the first success wins and the
    /// remaining candidates are stored for backtracking. When all fail their
    /// failure reports come back in order.
    #[verifier::loop_isolation(false)]
    fn inner_parse_from_tokens_try_parse_productions(
        &self,
        symbol_to_derive: &TSyntax,
        tokens: &Vec<Token<TLex, TSyntax>>,
        tokens_position: usize,
        production_outputs: Vec<Vec<TSyntax>>,
        is_single_path: bool,
        fuel: u64,
    ) -> (r: Result<ParseSymbolResult<TLex, TSyntax>, Vec<FailedProduction<TLex, TSyntax>>>)
        requires
            reflects_eq::<TSyntax>(),
            self.wf(),
            outputs_nonempty(production_outputs@),
        ensures
            match r {
                Ok(psr) => match psr {
                    ParseSymbolResult::Parsed(st) => st_ok(
                        st,
                        self.grammar.epsilon_symbol,
                        tokens@,
                        tokens_position as int,
                        *symbol_to_derive,
                    ) && st.node.token.lex is None,
                    ParseSymbolResult::Failed(_) => false,
                    ParseSymbolResult::Fixed(fx) => fx.fixed_symbol.symbol_to_derive
                        == *symbol_to_derive,
                },
                Err(_) => true,
            },
            self.syntax_error_solver is None ==> !(r matches Ok(psr2) && psr2 is Fixed),
            match r {
                Ok(psr3) => match psr3 {
                    ParseSymbolResult::Parsed(st2) => st2.prod_iter_option matches Some(rem)
                        && rem@.len() < production_outputs@.len() && rem@
                        == production_outputs@.skip(
                        production_outputs@.len() - rem@.len(),
                    ),
                    _ => true,
                },
                Err(_) => true,
            },
            fuel >= 1 ==> (r matches Err(v) ==> (v@.len() == production_outputs@.len()
                && (forall|c: int|
                    0 <= c < v@.len() ==> failed_production_matches_output(
                        #[trigger] v@[c],
                        production_outputs@[c]@,
                    )))),
            ((exists|c: int|
                0 <= c < production_outputs@.len() && terminal_output_matches(
                    *self.grammar,
                    (#[trigger] production_outputs@[c])@,
                    tokens@,
                    tokens_position as int,
                ) && fuel as int > production_outputs@[c]@.len() + 2) && tokens_position
                <= tokens@.len()) ==> r is Ok,
        decreases fuel,
    {
        let ghost orig = production_outputs@;
        let mut production_outputs = production_outputs;
        let mut failed_productions: Vec<FailedProduction<TLex, TSyntax>> = Vec::new();
        let child_is_single_path = Self::is_child_single_path(
            is_single_path,
            &production_outputs,
        );
        if fuel == 0 {
            return Err(failed_productions);
        }
        proof {
            assert(orig.skip(0) =~= orig);
        }
        while production_outputs.len() > 0
            invariant
                reflects_eq::<TSyntax>(),
                self.wf(),
                outputs_nonempty(production_outputs@),
                fuel > 0,
                failed_productions@.len() + production_outputs@.len() == orig.len(),
                production_outputs@ == orig.skip(failed_productions@.len() as int),
                forall|c: int|
                    0 <= c < failed_productions@.len() ==> failed_production_matches_output(
                        #[trigger] failed_productions@[c],
                        orig[c]@,
                    ),
                ((exists|c: int|
                    0 <= c < orig.len() && terminal_output_matches(
                        *self.grammar,
                        (#[trigger] orig[c])@,
                        tokens@,
                        tokens_position as int,
                    ) && fuel as int > orig[c]@.len() + 2) && tokens_position
                    <= tokens@.len()) ==> (exists|c: int|
                    failed_productions@.len() <= c < orig.len() && terminal_output_matches(
                        *self.grammar,
                        (#[trigger] orig[c])@,
                        tokens@,
                        tokens_position as int,
                    ) && fuel as int > orig[c]@.len() + 2),
            decreases production_outputs@.len(),
        {
            let ghost done = failed_productions@.len() as int;
            let ghost pre = production_outputs@;
            let production_output = production_outputs.remove(0);
            proof {
                assert forall|c: int|
                    0 <= c < production_outputs@.len() implies (
                #[trigger] production_outputs@[c])@.len() > 0 by {
                    assert(production_outputs@[c] == pre[c + 1]);
                }
                assert(production_output@.len() > 0) by {
                    assert(pre[0] == production_output);
                }
                assert(production_output == orig[done]);
                assert(production_outputs@ =~= orig.skip(done + 1));
            }
            let mut current_token_position = tokens_position;
            let parse_production_result = self.inner_parse_from_tokens_production(
                symbol_to_derive,
                tokens,
                &mut current_token_position,
                &production_output,
                child_is_single_path,
                fuel - 1,
            );
            match parse_production_result {
                ParseProductionResult::Parsed(node) => {
                    let remaining = production_outputs;
                    let new_state = ParsingState::new(
                        tokens_position,
                        current_token_position,
                        Some(remaining),
                        node,
                    );
                    proof {
                        assert(0 <= done < orig.len());
                        assert(new_state.prod_iter_option matches Some(rem4) && rem4@
                            == orig.skip(done + 1) && rem4@.len() == orig.len() - done - 1);
                    }
                    return Ok(ParseSymbolResult::Parsed(new_state));
                },
                ParseProductionResult::Failed(failed_production) => {
                    proof {
                        if tokens_position as int <= tokens@.len() && (exists|c: int|
                            done <= c < orig.len() && terminal_output_matches(
                                *self.grammar,
                                (#[trigger] orig[c])@,
                                tokens@,
                                tokens_position as int,
                            ) && fuel as int > orig[c]@.len() + 2) {
                            let c = choose|c: int|
                                done <= c < orig.len() && terminal_output_matches(
                                    *self.grammar,
                                    (#[trigger] orig[c])@,
                                    tokens@,
                                    tokens_position as int,
                                ) && fuel as int > orig[c]@.len() + 2;
                            if c == done {
                                // a directly matching candidate cannot fail
                                assert(orig[done] == production_output);
                                assert(false);
                            }
                        }
                    }
                    failed_productions.push(failed_production);
                },
                ParseProductionResult::Fixed(fixed_production) => {
                    let fixed_symbol = FixedSymbol::new(fixed_production, *symbol_to_derive);
                    let fixed_state = FixedState::new(current_token_position, fixed_symbol);
                    return Ok(ParseSymbolResult::Fixed(fixed_state));
                },
            }
        }
        Err(failed_productions)
    }

    /// Expands one production's output left to right, backtracking through
    /// the state stack when a symbol fails. On success the built node derives
    /// `symbol_to_derive` and spans the input from the entry position to the
    /// final one.
    fn inner_parse_from_tokens_production(
        &self,
        symbol_to_derive: &TSyntax,
        tokens: &Vec<Token<TLex, TSyntax>>,
        current_token_position: &mut usize,
        production_output: &Vec<TSyntax>,
        is_single_path: bool,
        fuel: u64,
    ) -> (r: ParseProductionResult<TLex, TSyntax>)
        requires
            reflects_eq::<TSyntax>(),
            self.wf(),
            production_output@.len() > 0,
        ensures
            match r {
                ParseProductionResult::Parsed(node) => {
                    &&& node.token.t_type == *symbol_to_derive
                    &&& node.token.lex is None
                    &&& (*old(current_token_position) <= tokens@.len() ==> {
                        &&& *old(current_token_position) <= *final(current_token_position)
                            <= tokens@.len()
                        &&& node_yield(node, self.grammar.epsilon_symbol) == tokens@.subrange(
                            *old(current_token_position) as int,
                            *final(current_token_position) as int,
                        )
                    })
                },
                ParseProductionResult::Failed(fp) => failed_production_matches_output(
                    fp,
                    production_output@,
                ),
                ParseProductionResult::Fixed(fp2) => {
                    &&& fp2.fixed_parts@.len() == production_output@.len()
                    &&& forall|i: int|
                        0 <= i < production_output@.len() ==> (
                        match #[trigger] fp2.fixed_parts@[i] {
                            FixedProductionPart::Parsed(nd) => nd.token.t_type
                                == production_output@[i],
                            FixedProductionPart::Fixed(fs) => fs.symbol_to_derive
                                == production_output@[i],
                            FixedProductionPart::Gap(_) => false,
                        })
                },
            },
            r matches ParseProductionResult::Parsed(node2) ==> {
                &&& node2.child_nodes@.len() == production_output@.len()
                &&& forall|i: int|
                    0 <= i < production_output@.len() ==> (
                    #[trigger] node2.child_nodes@[i]).token.t_type == production_output@[i]
            },
            self.syntax_error_solver is None ==> !(r is Fixed),
            (terminal_output_matches(
                *self.grammar,
                production_output@,
                tokens@,
                *old(current_token_position) as int,
            ) && *old(current_token_position) <= tokens@.len() && fuel as int
                > production_output@.len() + 1) ==> r is Parsed,
        decreases fuel,
    {
        let ghost tm0 = terminal_output_matches(
            *self.grammar,
            production_output@,
            tokens@,
            *current_token_position as int,
        ) && *current_token_position <= tokens@.len() && fuel as int > production_output@.len()
            + 1;
        proof {
            assert forall|y: TSyntax|
                self.grammar.non_terminal_symbols_set@.contains(y) implies y
                != self.grammar.epsilon_symbol by {
                lemma_key_index(self.grammar.productions@, y);
                if self.grammar.non_terminal_symbols_set@.contains(y) {
                    assert(has_key(self.grammar.productions@, y));
                    let ki = key_index(self.grammar.productions@, y);
                    assert(self.grammar.productions@[ki].0 == y);
                }
            }
        }
        if fuel == 0 {
            let r = Self::inner_parse_from_tokens_production_build_failed_symbol(
                FailedSymbol::new(Vec::new(), production_output[0]),
                production_output,
                Vec::new(),
            );
            proof {
                if let ParseProductionResult::Failed(fp) = &r {
                    assert(fp.parsed_symbols@.len() <= 0 <= production_output@.len()
                        && fp.failed_symbol.symbol_to_derive == production_output@[0]);
                }
            }
            return r;
        }
        let ghost gpos0 = *current_token_position as int;
        let mut states: Vec<State<TLex, TSyntax>> = Vec::new();
        let mut f: u64 = fuel - 1;
        proof {
            assert(production_output@.skip(0) =~= production_output@);
        }
        while states.len() < production_output.len()
            invariant
                reflects_eq::<TSyntax>(),
                self.wf(),
                production_output@.len() > 0,
                states@.len() <= production_output@.len(),
                states_ok(states@, self.grammar.epsilon_symbol, tokens@, gpos0),
                *current_token_position as int == stack_end(states@, gpos0),
                f < fuel,
                forall|i: int|
                    0 <= i < states@.len() ==> (match #[trigger] states@[i] {
                        State::Parsing(ps) => ps.node.token.t_type == production_output@[i],
                        State::Fixed(fs) => fs.fixed_symbol.symbol_to_derive
                            == production_output@[i],
                    }),
                self.syntax_error_solver is None ==> (forall|i: int|
                    0 <= i < states@.len() ==> !((#[trigger] states@[i]) is Fixed)),
                tm0 == (terminal_output_matches(
                    *self.grammar,
                    production_output@,
                    tokens@,
                    *old(current_token_position) as int,
                ) && *old(current_token_position) <= tokens@.len() && fuel as int
                    > production_output@.len() + 1),
                tm0 ==> {
                    &&& terminal_output_matches(
                        *self.grammar,
                        production_output@.skip(states@.len() as int),
                        tokens@,
                        *current_token_position as int,
                    )
                    &&& *current_token_position <= tokens@.len()
                    &&& f as int >= fuel as int - 1 - states@.len()
                    &&& forall|i: int|
                        0 <= i < states@.len() ==> !((#[trigger] states@[i]) is Fixed)
                },
                forall|y: TSyntax|
                    self.grammar.non_terminal_symbols_set@.contains(y) ==> y
                        != self.grammar.epsilon_symbol,
            decreases f,
        {
            if f == 0 {
                proof {
                    if tm0 {
                        assert(false);
                    }
                }
                let ghost fail_len = states@.len() as int;
                let failed_here = FailedSymbol::new(
                    Vec::new(),
                    production_output[states.len()],
                );
                let r = Self::inner_parse_from_tokens_production_build_failed_symbol(
                    failed_here,
                    production_output,
                    states,
                );
                proof {
                    if let ParseProductionResult::Failed(fp) = &r {
                        assert(fp.parsed_symbols@.len() <= fail_len < production_output@.len()
                            && fp.failed_symbol.symbol_to_derive
                            == production_output@[fail_len]);
                    }
                }
                return r;
            }
            f = f - 1;
            let production_symbol = production_output[states.len()];
            let state_option = self.inner_parse_from_tokens_production_symbol(
                &production_symbol,
                tokens,
                *current_token_position,
                is_single_path,
                f,
            );
            match state_option {
                ParseSymbolResult::Parsed(parsing_state) => {
                    *current_token_position = parsing_state.final_token_position;
                    let ghost pre = states@;
                    states.push(State::Parsing(parsing_state));
                    proof {
                        assert forall|i: int|
                            0 <= i < states@.len() implies (match #[trigger] states@[i] {
                            State::Parsing(ps) => st_ok(
                                ps,
                                self.grammar.epsilon_symbol,
                                tokens@,
                                chain_pos(states@, gpos0, i),
                                ps.node.token.t_type,
                            ),
                            State::Fixed(_) => true,
                        }) by {
                            if i < pre.len() {
                                assert(states@[i] == pre[i]);
                                if i > 0 {
                                    assert(states@[i - 1] == pre[i - 1]);
                                }
                            } else {
                                assert(chain_pos(states@, gpos0, i) == stack_end(pre, gpos0));
                            }
                        }
                        assert forall|i: int|
                            0 <= i < states@.len() implies (match #[trigger] states@[i] {
                            State::Parsing(ps) => ps.node.token.t_type
                                == production_output@[i],
                            State::Fixed(fs) => fs.fixed_symbol.symbol_to_derive
                                == production_output@[i],
                        }) by {
                            if i < pre.len() {
                                assert(states@[i] == pre[i]);
                            }
                        }
                        if tm0 {
                            let sk = production_output@.skip(pre.len() as int);
                            assert(sk[0] == production_symbol);
                            assert(sk.drop_first() =~= production_output@.skip(
                                pre.len() as int + 1,
                            ));
                            assert forall|i: int|
                                0 <= i < states@.len() implies !((
                            #[trigger] states@[i]) is Fixed) by {
                                if i < pre.len() {
                                    assert(states@[i] == pre[i]);
                                }
                            }
                        }
                    }
                },
                ParseSymbolResult::Failed(failed_symbol) => {
                    proof {
                        if tm0 {
                            let sk = production_output@.skip(states@.len() as int);
                            assert(sk[0] == production_symbol);
                            assert(false);
                        }
                    }
                    let ghost fail_len = states@.len() as int;
                    let ghost pre_pop = states@;
                    match self.inner_parse_pop_states(
                        &mut states,
                        tokens,
                        is_single_path,
                        f,
                        Ghost(gpos0),
                    ) {
                        Some(production_parsing_states) => {
                            let r = Self::inner_parse_from_tokens_production_build_failed_symbol(
                                failed_symbol,
                                production_output,
                                production_parsing_states,
                            );
                            proof {
                                if let ParseProductionResult::Failed(fp) = &r {
                                    assert(fp.parsed_symbols@.len() <= fail_len
                                        < production_output@.len()
                                        && fp.failed_symbol.symbol_to_derive
                                        == production_output@[fail_len]);
                                }
                            }
                            return r;
                        },
                        None => {
                            proof {
                                let k = choose|k: int|
                                    {
                                        &&& 0 <= k < pre_pop.len()
                                        &&& k + 1 == states@.len()
                                        &&& ((#[trigger] pre_pop[k]) matches State::Parsing(
                                            ps0,
                                        ) && ps0.prod_iter_option is Some && (states@[k]
                                            matches State::Parsing(ps)
                                            && ps.initial_token_position
                                            == ps0.initial_token_position
                                            && ps.node.token.t_type == ps0.node.token.t_type
                                            && ps.node.token.lex is None))
                                        &&& forall|i: int|
                                            0 <= i < k ==> states@[i] == pre_pop[i]
                                    };
                                assert forall|i: int|
                                    0 <= i < states@.len() implies (
                                match #[trigger] states@[i] {
                                    State::Parsing(ps) => ps.node.token.t_type
                                        == production_output@[i],
                                    State::Fixed(fs) => fs.fixed_symbol.symbol_to_derive
                                        == production_output@[i],
                                }) by {
                                    if i < k {
                                        assert(states@[i] == pre_pop[i]);
                                    }
                                }
                                if self.syntax_error_solver is None {
                                    assert forall|i: int|
                                        0 <= i < states@.len() implies !((
                                    #[trigger] states@[i]) is Fixed) by {
                                        if i < k {
                                            assert(states@[i] == pre_pop[i]);
                                        }
                                    }
                                }
                            }
                            let last_index = states.len() - 1;
                            let new_position = match &states[last_index] {
                                State::Parsing(parsing_state) => parsing_state
                                    .final_token_position,
                                State::Fixed(fixed_state) => fixed_state.final_token_position,
                            };
                            *current_token_position = new_position;
                        },
                    }
                },
                ParseSymbolResult::Fixed(fixed_state) => {
                    proof {
                        if tm0 {
                            let sk = production_output@.skip(states@.len() as int);
                            assert(sk[0] == production_symbol);
                            assert(false);
                        }
                    }
                    *current_token_position = fixed_state.final_token_position;
                    let ghost pre = states@;
                    states.push(State::Fixed(fixed_state));
                    proof {
                        assert forall|i: int|
                            0 <= i < states@.len() implies (match #[trigger] states@[i] {
                            State::Parsing(ps) => st_ok(
                                ps,
                                self.grammar.epsilon_symbol,
                                tokens@,
                                chain_pos(states@, gpos0, i),
                                ps.node.token.t_type,
                            ),
                            State::Fixed(_) => true,
                        }) by {
                            if i < pre.len() {
                                assert(states@[i] == pre[i]);
                                if i > 0 {
                                    assert(states@[i - 1] == pre[i - 1]);
                                }
                            }
                        }
                        assert forall|i: int|
                            0 <= i < states@.len() implies (match #[trigger] states@[i] {
                            State::Parsing(ps) => ps.node.token.t_type
                                == production_output@[i],
                            State::Fixed(fs) => fs.fixed_symbol.symbol_to_derive
                                == production_output@[i],
                        }) by {
                            if i < pre.len() {
                                assert(states@[i] == pre[i]);
                            }
                        }
                    }
                },
            }
        }
        let ghost final_states = states@;
        let r = self.inner_parse_from_tokens_production_build_node(
            symbol_to_derive,
            states,
            Ghost(tokens@),
            Ghost(gpos0),
        );
        proof {
            assert(final_states.len() == production_output@.len());
            if let ParseProductionResult::Parsed(node2) = &r {
                assert forall|i: int|
                    0 <= i < production_output@.len() implies (
                #[trigger] node2.child_nodes@[i]).token.t_type == production_output@[i] by {
                    assert(final_states[i] matches State::Parsing(ps) && node2.child_nodes@[i]
                        == ps.node);
                }
            }
            if tm0 {
                if r is Fixed {
                    let i = choose|i: int|
                        0 <= i < final_states.len() && (#[trigger] final_states[i]) is Fixed;
                    assert(false);
                }
            }
            if let ParseProductionResult::Fixed(fp2) = &r {
                if self.syntax_error_solver is None {
                    let i = choose|i: int|
                        0 <= i < final_states.len() && (#[trigger] final_states[i]) is Fixed;
                    assert(false);
                }
                assert forall|i: int|
                    0 <= i < production_output@.len() implies (
                match #[trigger] fp2.fixed_parts@[i] {
                    FixedProductionPart::Parsed(nd) => nd.token.t_type
                        == production_output@[i],
                    FixedProductionPart::Fixed(fs) => fs.symbol_to_derive
                        == production_output@[i],
                    FixedProductionPart::Gap(_) => false,
                }) by {
                    match final_states[i] {
                        State::Parsing(ps) => {
                            assert(fp2.fixed_parts@[i] == FixedProductionPart::Parsed(ps.node));
                        },
                        State::Fixed(fs) => {
                            assert(fp2.fixed_parts@[i] == FixedProductionPart::Fixed(
                                fs.fixed_symbol,
                            ));
                        },
                    }
                }
            }
        }
        r
    }

    /// Wraps the surviving prefix of states and the inner failure into a
    /// failed-production report, listing the symbols that were never
    /// attempted.
    fn inner_parse_from_tokens_production_build_failed_symbol(
        failed_symbol: FailedSymbol<TLex, TSyntax>,
        production_output: &Vec<TSyntax>,
        production_states: Vec<State<TLex, TSyntax>>,
    ) -> (r: ParseProductionResult<TLex, TSyntax>)
        requires
            production_states@.len() < production_output@.len(),
        ensures
            r matches ParseProductionResult::Failed(fp) && {
                &&& fp.failed_symbol == failed_symbol
                &&& fp.parsed_symbols@.len() == production_states@.len()
                &&& fp.pending_symbols@ == production_output@.skip(
                    production_states@.len() as int + 1,
                )
                &&& forall|i: int|
                    0 <= i < production_states@.len() ==> (match #[trigger] production_states@[i] {
                        State::Parsing(ps) => fp.parsed_symbols@[i]
                            == ProductionParsedSymbol::Parsed(ps.node),
                        State::Fixed(fs) => fp.parsed_symbols@[i]
                            == ProductionParsedSymbol::Fixed(fs.fixed_symbol),
                    })
            },
    {
        let ghost all = production_states@;
        let mut production_states = production_states;
        let mut pending_symbols: Vec<TSyntax> = Vec::new();
        let mut child_nodes: Vec<ProductionParsedSymbol<TLex, TSyntax>> = Vec::new();
        let ghost total = production_states@.len();
        while production_states.len() > 0
            invariant
                child_nodes@.len() + production_states@.len() == total,
                total == all.len(),
                production_states@ == all.skip(child_nodes@.len() as int),
                forall|i: int|
                    0 <= i < child_nodes@.len() ==> (match #[trigger] all[i] {
                        State::Parsing(ps) => child_nodes@[i] == ProductionParsedSymbol::Parsed(
                            ps.node,
                        ),
                        State::Fixed(fs) => child_nodes@[i] == ProductionParsedSymbol::Fixed(
                            fs.fixed_symbol,
                        ),
                    }),
            decreases production_states@.len(),
        {
            let ghost done = child_nodes@.len();
            let state = production_states.remove(0);
            proof {
                assert(state == all[done as int]);
                assert(production_states@ =~= all.skip(done + 1 as int));
            }
            match state {
                State::Parsing(parsing_state) => {
                    child_nodes.push(ProductionParsedSymbol::Parsed(parsing_state.node));
                },
                State::Fixed(fixed_state) => {
                    child_nodes.push(ProductionParsedSymbol::Fixed(fixed_state.fixed_symbol));
                },
            }
        }
        let out_len = production_output.len();
        proof {
            assert(child_nodes@.len() == total);
        }
        let mut i: usize = child_nodes.len() + 1;
        while i < out_len
            invariant
                out_len == production_output@.len(),
                child_nodes@.len() < production_output@.len(),
                i >= child_nodes@.len() + 1,
                i <= out_len,
                pending_symbols@ == production_output@.subrange(
                    child_nodes@.len() as int + 1,
                    i as int,
                ),
            decreases production_output@.len() - i,
        {
            pending_symbols.push(production_output[i]);
            proof {
                assert(pending_symbols@ =~= production_output@.subrange(
                    child_nodes@.len() as int + 1,
                    i + 1 as int,
                ));
            }
            i += 1;
        }
        proof {
            if total + 1 >= out_len {
                assert(i == child_nodes@.len() + 1);
            }
            assert(pending_symbols@ =~= production_output@.skip(total as int + 1));
        }
        let failing_state: FailedProduction<TLex, TSyntax> = FailedProduction::new(
            failed_symbol,
            child_nodes,
            pending_symbols,
        );
        ParseProductionResult::Failed(failing_state)
    }

    /// Builds the node of a fully expanded production: an ordinary node when
    /// every child parsed normally, a repaired production when a solver fix
    /// stands among the children.
    #[verifier::rlimit(60)]
    fn inner_parse_from_tokens_production_build_node(
        &self,
        symbol_to_derive: &TSyntax,
        production_states: Vec<State<TLex, TSyntax>>,
        Ghost(gtokens): Ghost<Seq<Token<TLex, TSyntax>>>,
        Ghost(gpos0): Ghost<int>,
    ) -> (r: ParseProductionResult<TLex, TSyntax>)
        requires
            production_states@.len() > 0,
            states_ok(production_states@, self.grammar.epsilon_symbol, gtokens, gpos0),
        ensures
            match r {
                ParseProductionResult::Parsed(node) => {
                    &&& node.token.t_type == *symbol_to_derive
                    &&& node.token.lex is None
                    &&& (0 <= gpos0 <= gtokens.len() ==> {
                        &&& gpos0 <= stack_end(production_states@, gpos0) <= gtokens.len()
                        &&& node_yield(node, self.grammar.epsilon_symbol) == gtokens.subrange(
                            gpos0,
                            stack_end(production_states@, gpos0),
                        )
                    })
                },
                ParseProductionResult::Failed(_) => false,
                ParseProductionResult::Fixed(fp) => {
                    &&& fp.fixed_parts@.len() == production_states@.len()
                    &&& exists|i: int|
                        0 <= i < production_states@.len() && (
                        #[trigger] production_states@[i]) is Fixed
                    &&& forall|i: int|
                        0 <= i < production_states@.len() ==> (
                        match #[trigger] production_states@[i] {
                            State::Parsing(ps) => fp.fixed_parts@[i]
                                == FixedProductionPart::Parsed(ps.node),
                            State::Fixed(fs) => fp.fixed_parts@[i]
                                == FixedProductionPart::Fixed(fs.fixed_symbol),
                        })
                },
            },
            r is Fixed <==> exists|i: int|
                0 <= i < production_states@.len() && (#[trigger] production_states@[i]) is Fixed,
            r matches ParseProductionResult::Parsed(node) ==> {
                &&& node.child_nodes@.len() == production_states@.len()
                &&& forall|i: int|
                    0 <= i < production_states@.len() ==> ((
                    #[trigger] production_states@[i]) matches State::Parsing(ps)
                        && node.child_nodes@[i] == ps.node)
            },
    {
        let mut has_fixed_states = false;
        let n = production_states.len();
        let mut c: usize = 0;
        while c < n
            invariant
                n == production_states@.len(),
                c <= n,
                has_fixed_states == exists|i: int|
                    0 <= i < c && (#[trigger] production_states@[i]) is Fixed,
            decreases n - c,
        {
            if production_states[c].is_fixed() {
                proof {
                    assert(production_states@[c as int] is Fixed);
                }
                has_fixed_states = true;
            }
            proof {
                if !has_fixed_states {
                    assert forall|i: int|
                        0 <= i < c + 1 implies !((#[trigger] production_states@[i]) is Fixed) by {
                        if i < c {
                        }
                    }
                }
            }
            c += 1;
        }
        let ghost all = production_states@;
        let mut production_states = production_states;
        proof {
            assert(all.skip(0) =~= all);
        }
        if has_fixed_states {
            let mut fixed_production_parts: Vec<FixedProductionPart<TLex, TSyntax>> =
                Vec::new();
            while production_states.len() > 0
                invariant
                    fixed_production_parts@.len() + production_states@.len() == all.len(),
                    production_states@ == all.skip(fixed_production_parts@.len() as int),
                    forall|i: int|
                        0 <= i < fixed_production_parts@.len() ==> (match #[trigger] all[i] {
                            State::Parsing(ps) => fixed_production_parts@[i]
                                == FixedProductionPart::Parsed(ps.node),
                            State::Fixed(fs) => fixed_production_parts@[i]
                                == FixedProductionPart::Fixed(fs.fixed_symbol),
                        }),
                decreases production_states@.len(),
            {
                let ghost done2 = fixed_production_parts@.len();
                let production_state = production_states.remove(0);
                proof {
                    assert(production_state == all[done2 as int]);
                    assert(production_states@ =~= all.skip(done2 as int + 1));
                }
                match production_state {
                    State::Fixed(fixed_state) => {
                        fixed_production_parts.push(
                            FixedProductionPart::Fixed(fixed_state.fixed_symbol),
                        );
                    },
                    State::Parsing(parsing_state) => {
                        fixed_production_parts.push(
                            FixedProductionPart::Parsed(parsing_state.node),
                        );
                    },
                }
            }
            let fixed_production: FixedProduction<TLex, TSyntax> = FixedProduction::new(
                fixed_production_parts,
            );
            ParseProductionResult::Fixed(fixed_production)
        } else {
            let mut child_nodes: Vec<AbstractSyntaxNode<Token<TLex, TSyntax>>> = Vec::new();
            let ghost eps = self.grammar.epsilon_symbol;
            let mut done: usize = 0;
            while production_states.len() > 0
                invariant
                    all.len() > 0,
                    n == all.len(),
                    done <= n,
                    states_ok(all, eps, gtokens, gpos0),
                    forall|i: int| 0 <= i < all.len() ==> !((#[trigger] all[i]) is Fixed),
                    done + production_states@.len() == all.len(),
                    child_nodes@.len() == done,
                    production_states@ == all.subrange(done as int, all.len() as int),
                    forall|i: int|
                        0 <= i < done ==> ((#[trigger] all[i]) matches State::Parsing(ps)
                            && child_nodes@[i] == ps.node),
                    0 <= gpos0 <= gtokens.len() ==> {
                        &&& gpos0 <= chain_pos(all, gpos0, done as int) <= gtokens.len()
                        &&& nodes_yield(child_nodes@, eps) == gtokens.subrange(
                            gpos0,
                            chain_pos(all, gpos0, done as int),
                        )
                    },
                decreases production_states@.len(),
            {
                let state = production_states.remove(0);
                proof {
                    assert(state == all[done as int]);
                    assert(production_states@ =~= all.subrange(
                        done + 1 as int,
                        all.len() as int,
                    ));
                }
                match state {
                    State::Parsing(parsing_state) => {
                        let ghost pre = child_nodes@;
                        child_nodes.push(parsing_state.node);
                        proof {
                            if 0 <= gpos0 && gpos0 <= gtokens.len() {
                                let start = chain_pos(all, gpos0, done as int);
                                let fin = parsing_state.final_token_position as int;
                                assert(st_ok(
                                    parsing_state,
                                    eps,
                                    gtokens,
                                    start,
                                    parsing_state.node.token.t_type,
                                ));
                                assert(node_yield(parsing_state.node, eps)
                                    == gtokens.subrange(start, fin));
                                assert(child_nodes@.drop_last() =~= pre);
                                assert(child_nodes@.last() == parsing_state.node);
                                assert(nodes_yield(child_nodes@, eps) == nodes_yield(pre, eps)
                                    + node_yield(parsing_state.node, eps));
                                assert(gtokens.subrange(gpos0, start) + gtokens.subrange(
                                    start,
                                    fin,
                                ) =~= gtokens.subrange(gpos0, fin));
                                assert(chain_pos(all, gpos0, done + 1 as int) == fin);
                            }
                        }
                    },
                    State::Fixed(_) => {
                        proof {
                            assert(all[done as int] is Fixed);
                            assert(false);
                        }
                    },
                }
                done += 1;
            }
            let node: AbstractSyntaxNode<Token<TLex, TSyntax>> = AbstractSyntaxNode::new(
                child_nodes,
                Token::new(None, *symbol_to_derive),
            );
            proof {
                if 0 <= gpos0 && gpos0 <= gtokens.len() {
                    assert(chain_pos(all, gpos0, all.len() as int) == stack_end(all, gpos0));
                    assert(node.child_nodes@.len() == all.len() > 0);
                    assert(node_yield(node, eps) == nodes_yield(node.child_nodes@, eps));
                }
            }
            ParseProductionResult::Parsed(node)
        }
    }

    /// Expands one symbol of a production at the current position: epsilon
    /// and matching terminals become leaves, a non-terminal is derived
    /// through the table.
    fn inner_parse_from_tokens_production_symbol(
        &self,
        production_symbol: &TSyntax,
        tokens: &Vec<Token<TLex, TSyntax>>,
        token_position: usize,
        is_single_path: bool,
        fuel: u64,
    ) -> (r: ParseSymbolResult<TLex, TSyntax>)
        requires
            reflects_eq::<TSyntax>(),
            self.wf(),
        ensures
            match r {
                ParseSymbolResult::Parsed(st) => st_ok(
                    st,
                    self.grammar.epsilon_symbol,
                    tokens@,
                    token_position as int,
                    *production_symbol,
                ),
                ParseSymbolResult::Failed(fs) => fs.symbol_to_derive == *production_symbol,
                ParseSymbolResult::Fixed(fx) => fx.fixed_symbol.symbol_to_derive
                    == *production_symbol,
            },
            self.syntax_error_solver is None ==> !(r is Fixed),
            (fuel >= 1 && !self.grammar.non_terminal_symbols_set@.contains(*production_symbol)
                && (*production_symbol == self.grammar.epsilon_symbol || (token_position
                < tokens@.len() && tokens@[token_position as int].t_type
                == *production_symbol))) ==> r is Parsed,
            (fuel >= 1 && !self.grammar.non_terminal_symbols_set@.contains(*production_symbol)
                && *production_symbol == self.grammar.epsilon_symbol) ==> (r
                matches ParseSymbolResult::Parsed(st5) && st5.final_token_position
                == token_position),
            (fuel >= 1 && !self.grammar.non_terminal_symbols_set@.contains(*production_symbol)
                && *production_symbol != self.grammar.epsilon_symbol && token_position
                < tokens@.len() && tokens@[token_position as int].t_type
                == *production_symbol) ==> (r matches ParseSymbolResult::Parsed(st6)
                && st6.final_token_position == token_position + 1),
        decreases fuel,
    {
        if fuel == 0 {
            return Self::build_token_failed_symbol(production_symbol);
        }
        if self.grammar.is_non_terminal(production_symbol) {
            self.inner_parse_from_tokens_production_non_terminal(
                production_symbol,
                tokens,
                token_position,
                is_single_path,
                fuel - 1,
            )
        } else {
            self.inner_parse_terminal_symbol(production_symbol, tokens, token_position)
        }
    }

    fn inner_parse_from_tokens_production_non_terminal(
        &self,
        production_symbol: &TSyntax,
        tokens: &Vec<Token<TLex, TSyntax>>,
        token_position: usize,
        is_single_path: bool,
        fuel: u64,
    ) -> (r: ParseSymbolResult<TLex, TSyntax>)
        requires
            reflects_eq::<TSyntax>(),
            self.wf(),
        ensures
            match r {
                ParseSymbolResult::Parsed(st) => st_ok(
                    st,
                    self.grammar.epsilon_symbol,
                    tokens@,
                    token_position as int,
                    *production_symbol,
                ),
                ParseSymbolResult::Failed(fs) => fs.symbol_to_derive == *production_symbol,
                ParseSymbolResult::Fixed(fx) => fx.fixed_symbol.symbol_to_derive
                    == *production_symbol,
            },
            self.syntax_error_solver is None ==> !(r is Fixed),
        decreases fuel,
    {
        if fuel == 0 {
            return Self::build_token_failed_symbol(production_symbol);
        }
        if token_position < tokens.len() {
            let current_token_symbol = tokens[token_position];
            let token_productions = self.inner_get_token_productions(
                production_symbol,
                &current_token_symbol.t_type,
            );
            self.inner_parse_from_tokens(
                production_symbol,
                tokens,
                token_position,
                token_productions,
                is_single_path,
                fuel - 1,
            )
        } else {
            // past the end of the input there is no lookahead token, hence
            // no candidate production
            self.inner_parse_from_tokens(
                production_symbol,
                tokens,
                token_position,
                Vec::new(),
                is_single_path,
                fuel - 1,
            )
        }
    }

    fn inner_parse_terminal_symbol(
        &self,
        production_symbol: &TSyntax,
        tokens: &Vec<Token<TLex, TSyntax>>,
        token_position: usize,
    ) -> (r: ParseSymbolResult<TLex, TSyntax>)
        requires
            reflects_eq::<TSyntax>(),
        ensures
            match r {
                ParseSymbolResult::Parsed(st) => st_ok(
                    st,
                    self.grammar.epsilon_symbol,
                    tokens@,
                    token_position as int,
                    *production_symbol,
                ),
                ParseSymbolResult::Failed(fs) => fs.symbol_to_derive == *production_symbol,
                ParseSymbolResult::Fixed(_) => false,
            },
            (*production_symbol == self.grammar.epsilon_symbol || (token_position
                < tokens@.len() && tokens@[token_position as int].t_type
                == *production_symbol)) ==> r is Parsed,
            *production_symbol == self.grammar.epsilon_symbol ==> (r
                matches ParseSymbolResult::Parsed(st5) && st5.final_token_position
                == token_position),
            (*production_symbol != self.grammar.epsilon_symbol && token_position
                < tokens@.len() && tokens@[token_position as int].t_type
                == *production_symbol) ==> (r matches ParseSymbolResult::Parsed(st6)
                && st6.final_token_position == token_position + 1),
    {
        if self.grammar.get_epsilon_symbol().eq(production_symbol) {
            let node = AbstractSyntaxNode::new(Vec::new(), Token::new(None, *production_symbol));
            let state: ParsingState<TLex, TSyntax> = ParsingState::new(
                token_position,
                token_position,
                None,
                node,
            );
            proof {
                if token_position as int <= tokens@.len() {
                    assert(node_yield(state.node, self.grammar.epsilon_symbol)
                        =~= tokens@.subrange(token_position as int, token_position as int));
                }
            }
            ParseSymbolResult::Parsed(state)
        } else {
            let r = Self::inner_parse_non_epsilon_terminal_symbol(
                production_symbol,
                tokens,
                token_position,
            );
            proof {
                if let ParseSymbolResult::Parsed(st) = &r {
                    assert(st.node.token.t_type != self.grammar.epsilon_symbol);
                    assert(node_yield(st.node, self.grammar.epsilon_symbol) =~= tokens@
                        .subrange(token_position as int, token_position + 1 as int));
                }
            }
            r
        }
    }

    fn inner_parse_non_epsilon_terminal_symbol(
        production_symbol: &TSyntax,
        tokens: &Vec<Token<TLex, TSyntax>>,
        token_position: usize,
    ) -> (r: ParseSymbolResult<TLex, TSyntax>)
        requires
            reflects_eq::<TSyntax>(),
        ensures
            match r {
                ParseSymbolResult::Parsed(st) => {
                    &&& st.initial_token_position == token_position
                    &&& token_position < tokens@.len()
                    &&& st.final_token_position == token_position + 1
                    &&& st.node.token == tokens@[token_position as int]
                    &&& st.node.token.t_type == *production_symbol
                    &&& st.node.child_nodes@.len() == 0
                    &&& st.prod_iter_option is None
                },
                ParseSymbolResult::Failed(fs) => fs.symbol_to_derive == *production_symbol
                    && fs.failed_productions@.len() == 0,
                ParseSymbolResult::Fixed(_) => false,
            },
            (token_position < tokens@.len() && tokens@[token_position as int].t_type
                == *production_symbol) ==> r is Parsed,
    {
        if token_position < tokens.len() {
            let current_token_symbol = tokens[token_position];
            if production_symbol.eq(&current_token_symbol.t_type) {
                let node = AbstractSyntaxNode::new(Vec::new(), current_token_symbol);
                let state: ParsingState<TLex, TSyntax> = ParsingState::new(
                    token_position,
                    token_position + 1,
                    None,
                    node,
                );
                ParseSymbolResult::Parsed(state)
            } else {
                Self::build_token_failed_symbol(production_symbol)
            }
        } else {
            Self::build_token_failed_symbol(production_symbol)
        }
    }

    /// Backtracks: pops states until one still holds untried alternatives
    /// and can be re-expanded from its own starting position. When the stack
    /// empties instead, the popped states come back in their original order
    /// for the failure report.
    fn inner_parse_pop_states(
        &self,
        states: &mut Vec<State<TLex, TSyntax>>,
        tokens: &Vec<Token<TLex, TSyntax>>,
        is_single_path: bool,
        fuel: u64,
        Ghost(gpos0): Ghost<int>,
    ) -> (r: Option<Vec<State<TLex, TSyntax>>>)
        requires
            reflects_eq::<TSyntax>(),
            self.wf(),
            states_ok(old(states)@, self.grammar.epsilon_symbol, tokens@, gpos0),
        ensures
            match r {
                None => {
                    &&& final(states)@.len() > 0
                    &&& final(states)@.len() <= old(states)@.len()
                    &&& states_ok(final(states)@, self.grammar.epsilon_symbol, tokens@, gpos0)
                    &&& exists|k: int|
                        {
                            &&& 0 <= k < old(states)@.len()
                            &&& k + 1 == final(states)@.len()
                            &&& ((#[trigger] old(states)@[k]) matches State::Parsing(ps0)
                                && ps0.prod_iter_option is Some && (final(states)@[k]
                                matches State::Parsing(ps) && ps.initial_token_position
                                == ps0.initial_token_position && ps.node.token.t_type
                                == ps0.node.token.t_type && ps.node.token.lex is None))
                            &&& forall|i: int|
                                0 <= i < k ==> final(states)@[i] == old(states)@[i]
                        }
                },
                Some(popped) => {
                    &&& final(states)@.len() == 0
                    &&& popped@.len() <= old(states)@.len()
                    &&& popped@ == old(states)@.filter(
                        |s2: State<TLex, TSyntax>| non_retryable(s2),
                    )
                },
            },
        decreases fuel,
    {
        let ghost eps = self.grammar.epsilon_symbol;
        let ghost pred = |s2: State<TLex, TSyntax>| non_retryable(s2);
        let mut reversed_failed_symbols: Vec<State<TLex, TSyntax>> = Vec::new();
        let mut states_pop_success = false;
        proof {
            assert(old(states)@.take(old(states)@.len() as int) =~= old(states)@);
            assert(old(states)@.skip(old(states)@.len() as int) =~= Seq::<
                State<TLex, TSyntax>,
            >::empty());
            crate::assoc::lemma_filter_absent(
                old(states)@.skip(old(states)@.len() as int),
                pred,
            );
        }
        while states.len() > 0 && !states_pop_success
            invariant
                reflects_eq::<TSyntax>(),
                self.wf(),
                eps == self.grammar.epsilon_symbol,
                pred == (|s2: State<TLex, TSyntax>| non_retryable(s2)),
                states_ok(states@, eps, tokens@, gpos0),
                states@.len() <= old(states)@.len(),
                states_pop_success ==> states@.len() > 0,
                reversed_failed_symbols@.len() + states@.len() <= old(states)@.len(),
                !states_pop_success ==> states@ == old(states)@.take(states@.len() as int),
                !states_pop_success ==> reversed_failed_symbols@ == old(states)@.skip(
                    states@.len() as int,
                ).filter(pred).reverse(),
                states_pop_success ==> (exists|k: int|
                    {
                        &&& 0 <= k < old(states)@.len()
                        &&& k + 1 == states@.len()
                        &&& ((#[trigger] old(states)@[k]) matches State::Parsing(ps0)
                            && ps0.prod_iter_option is Some && (states@[k]
                            matches State::Parsing(ps) && ps.initial_token_position
                            == ps0.initial_token_position && ps.node.token.t_type
                            == ps0.node.token.t_type && ps.node.token.lex is None))
                        &&& forall|i: int| 0 <= i < k ==> states@[i] == old(states)@[i]
                    }),
            decreases states@.len(), (if states_pop_success { 0int } else { 1int }),
        {
            let ghost pre = states@;
            let last_state = match states.pop() {
                Some(s) => s,
                None => { proof { assert(false); } return None },
            };
            proof {
                assert(states@ =~= pre.drop_last());
                assert(states@ =~= old(states)@.take(states@.len() as int));
                assert(last_state == old(states)@[states@.len() as int]);
                assert(old(states)@.skip(states@.len() as int) =~= seq![last_state].add(
                    old(states)@.skip(pre.len() as int),
                ));
                crate::assoc::lemma_filter_add_first(
                    old(states)@.skip(pre.len() as int),
                    pred,
                    last_state,
                );
                assert forall|i: int|
                    0 <= i < states@.len() implies (match #[trigger] states@[i] {
                    State::Parsing(ps) => st_ok(
                        ps,
                        eps,
                        tokens@,
                        chain_pos(states@, gpos0, i),
                        ps.node.token.t_type,
                    ),
                    State::Fixed(_) => true,
                }) by {
                    assert(states@[i] == pre[i]);
                    if i > 0 {
                        assert(states@[i - 1] == pre[i - 1]);
                    }
                }
            }
            match last_state {
                State::Fixed(fixed_state) => {
                    reversed_failed_symbols.push(State::Fixed(fixed_state));
                    proof {
                        assert(non_retryable(State::Fixed(fixed_state)));
                        assert(reversed_failed_symbols@ =~= old(states)@.skip(
                            states@.len() as int,
                        ).filter(pred).reverse());
                    }
                },
                State::Parsing(parsing_state) => {
                    match parsing_state.prod_iter_option {
                        Some(productions_iterator) => {
                            proof {
                                assert(!non_retryable(old(states)@[states@.len() as int]));
                                assert(reversed_failed_symbols@ =~= old(states)@.skip(
                                    states@.len() as int,
                                ).filter(pred).reverse());
                            }
                            if fuel > 0 {
                                proof {
                                    assert(pre[pre.len() - 1] == State::Parsing(parsing_state));
                                    assert(st_ok(
                                        parsing_state,
                                        eps,
                                        tokens@,
                                        chain_pos(pre, gpos0, pre.len() - 1),
                                        parsing_state.node.token.t_type,
                                    ));
                                }
                                let state_option = self.inner_parse_from_tokens(
                                    &parsing_state.node.token.t_type,
                                    tokens,
                                    parsing_state.initial_token_position,
                                    productions_iterator,
                                    is_single_path,
                                    fuel - 1,
                                );
                                match state_option {
                                    ParseSymbolResult::Parsed(state) => {
                                        let ghost mid = states@;
                                        states.push(State::Parsing(state));
                                        states_pop_success = true;
                                        proof {
                                            assert forall|i: int|
                                                0 <= i < states@.len() implies (
                                            match #[trigger] states@[i] {
                                                State::Parsing(ps) => st_ok(
                                                    ps,
                                                    eps,
                                                    tokens@,
                                                    chain_pos(states@, gpos0, i),
                                                    ps.node.token.t_type,
                                                ),
                                                State::Fixed(_) => true,
                                            }) by {
                                                if i < mid.len() {
                                                    assert(states@[i] == mid[i]);
                                                    if i > 0 {
                                                        assert(states@[i - 1] == mid[i - 1]);
                                                    }
                                                } else {
                                                    assert(chain_pos(states@, gpos0, i)
                                                        == chain_pos(pre, gpos0, pre.len() - 1));
                                                }
                                            }
                                            let k = mid.len() as int;
                                            assert(old(states)@[k] == State::Parsing(
                                                parsing_state,
                                            ));
                                            assert(states@[k] == State::Parsing(state));
                                            assert forall|i: int|
                                                0 <= i < k implies states@[i] == old(
                                                states,
                                            )@[i] by {
                                                assert(states@[i] == mid[i]);
                                            }
                                        }
                                    },
                                    _ => {},
                                }
                            }
                        },
                        None => {
                            reversed_failed_symbols.push(State::Parsing(parsing_state));
                            proof {
                                assert(non_retryable(old(states)@[states@.len() as int]));
                                assert(reversed_failed_symbols@ =~= old(states)@.skip(
                                    states@.len() as int,
                                ).filter(pred).reverse());
                            }
                        },
                    }
                },
            }
        }
        if states_pop_success {
            None
        } else {
            proof {
                assert(old(states)@.skip(0) =~= old(states)@);
            }
            let ghost full = reversed_failed_symbols@;
            let mut ordered: Vec<State<TLex, TSyntax>> = Vec::new();
            while reversed_failed_symbols.len() > 0
                invariant
                    ordered@.len() + reversed_failed_symbols@.len() <= old(states)@.len(),
                    ordered@.len() + reversed_failed_symbols@.len() == full.len(),
                    reversed_failed_symbols@ == full.take(
                        reversed_failed_symbols@.len() as int,
                    ),
                    ordered@ == full.subrange(
                        reversed_failed_symbols@.len() as int,
                        full.len() as int,
                    ).reverse(),
                decreases reversed_failed_symbols@.len(),
            {
                let ghost rpre = reversed_failed_symbols@;
                let s = match reversed_failed_symbols.pop() {
                    Some(s) => s,
                    None => { proof { assert(false); } return None },
                };
                ordered.push(s);
                proof {
                    assert(reversed_failed_symbols@ =~= full.take(
                        reversed_failed_symbols@.len() as int,
                    ));
                    assert(s == full[reversed_failed_symbols@.len() as int]);
                    assert(ordered@ =~= full.subrange(
                        reversed_failed_symbols@.len() as int,
                        full.len() as int,
                    ).reverse());
                }
            }
            proof {
                assert(full.subrange(0, full.len() as int) =~= full);
                assert(ordered@ =~= old(states)@.filter(pred));
            }
            Some(ordered)
        }
    }

    fn is_child_single_path(is_single_path: bool, production_outputs: &Vec<Vec<TSyntax>>) -> (
        r: bool)
        ensures
            r == (is_single_path && production_outputs@.len() == 1),
    {
        is_single_path && production_outputs.len() == 1
    }
}

/// The position where the topmost state of a stack ends; the starting
/// position when the stack is empty.
spec fn stack_end<TLex, TSyntax>(states: Seq<State<TLex, TSyntax>>, pos0: int) -> int {
    if states.len() == 0 {
        pos0
    } else {
        state_end(states.last())
    }
}

} // verus!
