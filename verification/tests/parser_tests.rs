use recdescent::ast::AbstractSyntaxNode;
use recdescent::ast::AbstractSyntaxTree;
use recdescent::grammar::ContextFreeGrammar;
use recdescent::grammar::ContextFreeGrammarProduction;
use recdescent::parse_types::FailedProduction;
use recdescent::parse_types::FailedSymbol;
use recdescent::parse_types::FixGap;
use recdescent::parse_types::FixResult;
use recdescent::parse_types::FixedProduction;
use recdescent::parse_types::FixedProductionPart;
use recdescent::parse_types::FixedSymbol;
use recdescent::parse_types::ParseResult;
use recdescent::parse_types::ProductionParsedSymbol;
use recdescent::parse_types::SyntaxErrorSolver;
use recdescent::recursive_descent_parser::RecursiveDescentParser;
use recdescent::token::Token;
use std::marker::PhantomData;

struct SyntaxErrorSolverMock<TLex, TSyntax> {
    lex_marker: PhantomData<TLex>,
    syntax_marker: PhantomData<TSyntax>,
}

impl<TLex, TSyntax> SyntaxErrorSolver<TLex, TSyntax> for SyntaxErrorSolverMock<TLex, TSyntax> {
    fn fix_failed_production(
        &self,
        _tokens: &Vec<Token<TLex, TSyntax>>,
        _tokens_position: usize,
        _failed_production: &FailedProduction<TLex, TSyntax>,
    ) -> Option<FixResult<TLex, TSyntax>> {
        None
    }

    fn fix_failed_productions(
        &self,
        _tokens: &Vec<Token<TLex, TSyntax>>,
        _tokens_position: usize,
        _failed_productions: &Vec<FailedProduction<TLex, TSyntax>>,
    ) -> Option<FixResult<TLex, TSyntax>> {
        None
    }
}

fn ast_equals<T: PartialEq>(
    first_ast: &AbstractSyntaxTree<T>,
    second_ast: &AbstractSyntaxTree<T>,
) -> bool {
    asn_equals(&first_ast.root, &second_ast.root)
}

fn asn_equals<T: PartialEq>(
    first_asn: &AbstractSyntaxNode<T>,
    second_asn: &AbstractSyntaxNode<T>,
) -> bool {
    if first_asn.token.ne(&second_asn.token) {
        return false;
    }

    if first_asn.child_nodes.len().ne(&second_asn.child_nodes.len()) {
        return false;
    }

    for i in 0..first_asn.child_nodes.len() {
        if !asn_equals(
            first_asn.child_nodes.get(i).unwrap(),
            second_asn.child_nodes.get(i).unwrap(),
        ) {
            return false;
        }
    }

    true
}

fn failed_symbols_equals<TLex: PartialEq, TSyntax: PartialEq>(
    first_failed_symbol: &FailedSymbol<TLex, TSyntax>,
    second_failed_symbol: &FailedSymbol<TLex, TSyntax>,
) -> bool {
    if first_failed_symbol
        .symbol_to_derive
        .ne(&second_failed_symbol.symbol_to_derive)
    {
        return false;
    }

    if first_failed_symbol.failed_productions.len()
        != second_failed_symbol.failed_productions.len()
    {
        return false;
    }

    for i in 0..first_failed_symbol.failed_productions.len() {
        if !failed_productions_equals(
            first_failed_symbol.failed_productions.get(i).unwrap(),
            second_failed_symbol.failed_productions.get(i).unwrap(),
        ) {
            return false;
        }
    }

    true
}

fn failed_productions_equals<TLex: PartialEq, TSyntax: PartialEq>(
    first_failed_production: &FailedProduction<TLex, TSyntax>,
    second_failed_production: &FailedProduction<TLex, TSyntax>,
) -> bool {
    if first_failed_production.parsed_symbols.len()
        != second_failed_production.parsed_symbols.len()
    {
        return false;
    }

    if first_failed_production.pending_symbols.len()
        != second_failed_production.pending_symbols.len()
    {
        return false;
    }

    for i in 0..first_failed_production.parsed_symbols.len() {
        if !production_parsed_symbol_equals(
            first_failed_production.parsed_symbols.get(i).unwrap(),
            second_failed_production.parsed_symbols.get(i).unwrap(),
        ) {
            return false;
        }
    }

    if !failed_symbols_equals(
        &first_failed_production.failed_symbol,
        &second_failed_production.failed_symbol,
    ) {
        return false;
    }

    for i in 0..first_failed_production.pending_symbols.len() {
        if first_failed_production
            .pending_symbols
            .get(i)
            .unwrap()
            .ne(second_failed_production.pending_symbols.get(i).unwrap())
        {
            return false;
        }
    }

    true
}

fn fix_gap_equals<TLex: PartialEq, TSyntax: PartialEq>(
    first_fix_gap: &FixGap<TLex, TSyntax>,
    second_fix_gap: &FixGap<TLex, TSyntax>,
) -> bool {
    if first_fix_gap.skipped_symbols.len() != second_fix_gap.skipped_symbols.len() {
        return false;
    }

    for i in 0..first_fix_gap.skipped_symbols.len() {
        let skipped_symbol_equals: bool = first_fix_gap.skipped_symbols.get(i).unwrap()
            == second_fix_gap.skipped_symbols.get(i).unwrap();

        if !skipped_symbol_equals {
            return false;
        }
    }

    if first_fix_gap.skipped_tokens.len() != second_fix_gap.skipped_tokens.len() {
        return false;
    }

    for i in 0..first_fix_gap.skipped_tokens.len() {
        let skipped_token_equals: bool = first_fix_gap.skipped_tokens.get(i).unwrap()
            == second_fix_gap.skipped_tokens.get(i).unwrap();

        if !skipped_token_equals {
            return false;
        }
    }

    true
}

fn fixed_production_equals<TLex: PartialEq, TSyntax: PartialEq>(
    first_fixed_production: &FixedProduction<TLex, TSyntax>,
    second_fixed_production: &FixedProduction<TLex, TSyntax>,
) -> bool {
    if first_fixed_production.fixed_parts.len() != second_fixed_production.fixed_parts.len() {
        return false;
    }

    for i in 0..first_fixed_production.fixed_parts.len() {
        if !fixed_production_part_equals(
            first_fixed_production.fixed_parts.get(i).unwrap(),
            second_fixed_production.fixed_parts.get(i).unwrap(),
        ) {
            return false;
        }
    }

    true
}

fn fixed_production_part_equals<TLex: PartialEq, TSyntax: PartialEq>(
    first_fixed_production_part: &FixedProductionPart<TLex, TSyntax>,
    second_fixed_production_part: &FixedProductionPart<TLex, TSyntax>,
) -> bool {
    match (first_fixed_production_part, second_fixed_production_part) {
        (FixedProductionPart::Parsed(first_asn), FixedProductionPart::Parsed(second_asn)) => {
            asn_equals(first_asn, second_asn)
        }
        (
            FixedProductionPart::Fixed(first_fixed_symbol),
            FixedProductionPart::Fixed(second_fixed_symbol),
        ) => fixed_symbol_equals(first_fixed_symbol, second_fixed_symbol),
        (FixedProductionPart::Gap(first_fix_gap), FixedProductionPart::Gap(second_fix_gap)) => {
            fix_gap_equals(first_fix_gap, second_fix_gap)
        }
        _ => false,
    }
}

fn fixed_symbol_equals<TLex: PartialEq, TSyntax: PartialEq>(
    first_fixed_symbol: &FixedSymbol<TLex, TSyntax>,
    second_fixed_symbol: &FixedSymbol<TLex, TSyntax>,
) -> bool {
    if first_fixed_symbol
        .symbol_to_derive
        .ne(&second_fixed_symbol.symbol_to_derive)
    {
        return false;
    }

    fixed_production_equals(
        &first_fixed_symbol.fixed_production,
        &second_fixed_symbol.fixed_production,
    )
}

fn parse_result_equals<TLex: PartialEq, TSyntax: PartialEq>(
    first_parse_result: &ParseResult<TLex, TSyntax>,
    second_parse_result: &ParseResult<TLex, TSyntax>,
) -> bool {
    match (first_parse_result, second_parse_result) {
        (ParseResult::Parsed(first_ast), ParseResult::Parsed(second_ast)) => {
            ast_equals(first_ast, second_ast)
        }
        (ParseResult::Fixed(first_fixed_symbol), ParseResult::Fixed(second_fixed_symbol)) => {
            fixed_symbol_equals(first_fixed_symbol, second_fixed_symbol)
        }
        (ParseResult::Failed(first_failed_symbol), ParseResult::Failed(second_failed_symbol)) => {
            failed_symbols_equals(first_failed_symbol, second_failed_symbol)
        }
        _ => false,
    }
}

fn production_parsed_symbol_equals<TLex: PartialEq, TSyntax: PartialEq>(
    first_production_parsed_symbol: &ProductionParsedSymbol<TLex, TSyntax>,
    second_production_parsed_symbol: &ProductionParsedSymbol<TLex, TSyntax>,
) -> bool {
    match (
        first_production_parsed_symbol,
        second_production_parsed_symbol,
    ) {
        (
            ProductionParsedSymbol::Fixed(first_fixed_symbol),
            ProductionParsedSymbol::Fixed(second_fixed_symbol),
        ) => fixed_symbol_equals(first_fixed_symbol, second_fixed_symbol),
        (
            ProductionParsedSymbol::Parsed(first_asn),
            ProductionParsedSymbol::Parsed(second_asn),
        ) => asn_equals(first_asn, second_asn),
        _ => false,
    }
}

#[derive(Clone, Copy, Debug, Eq, Hash, PartialEq)]
enum BacktrackSyntaxTokenTest {
    A,
    ATerminal,
    B,
    BTerminal,
    CTerminal,
    DTerminal,
    Eof,
    Epsilon,
    S,
}

fn backtrack_grammar() -> ContextFreeGrammar<BacktrackSyntaxTokenTest> {
    let grammar_productions: Vec<ContextFreeGrammarProduction<BacktrackSyntaxTokenTest>> = vec![
        ContextFreeGrammarProduction::new(
            BacktrackSyntaxTokenTest::S,
            vec![
                BacktrackSyntaxTokenTest::A,
                BacktrackSyntaxTokenTest::B,
                BacktrackSyntaxTokenTest::Eof,
            ],
        ),
        ContextFreeGrammarProduction::new(
            BacktrackSyntaxTokenTest::A,
            vec![
                BacktrackSyntaxTokenTest::ATerminal,
                BacktrackSyntaxTokenTest::BTerminal,
            ],
        ),
        ContextFreeGrammarProduction::new(
            BacktrackSyntaxTokenTest::A,
            vec![BacktrackSyntaxTokenTest::ATerminal],
        ),
        ContextFreeGrammarProduction::new(
            BacktrackSyntaxTokenTest::B,
            vec![
                BacktrackSyntaxTokenTest::BTerminal,
                BacktrackSyntaxTokenTest::CTerminal,
                BacktrackSyntaxTokenTest::DTerminal,
            ],
        ),
        ContextFreeGrammarProduction::new(
            BacktrackSyntaxTokenTest::B,
            vec![BacktrackSyntaxTokenTest::CTerminal],
        ),
    ];

    ContextFreeGrammar::new(
        BacktrackSyntaxTokenTest::Epsilon,
        BacktrackSyntaxTokenTest::S,
        grammar_productions,
    )
}

#[test]
fn it_parses_terminal_production() -> () {
    #[derive(Clone, Copy, Debug, Eq, Hash, PartialEq)]
    enum DummySyntaxTokenTest {
        Eof,
        Epsilon,
        S,
    }

    let grammar_productions: Vec<ContextFreeGrammarProduction<DummySyntaxTokenTest>> =
        vec![ContextFreeGrammarProduction::new(
            DummySyntaxTokenTest::S,
            vec![DummySyntaxTokenTest::Eof],
        )];

    let grammar: ContextFreeGrammar<DummySyntaxTokenTest> = ContextFreeGrammar::new(
        DummySyntaxTokenTest::Epsilon,
        DummySyntaxTokenTest::S,
        grammar_productions,
    );

    let recursive_descent_parser: RecursiveDescentParser<
        u64,
        DummySyntaxTokenTest,
        SyntaxErrorSolverMock<u64, DummySyntaxTokenTest>,
    > = RecursiveDescentParser::from_grammar(&grammar);

    let parse_result = recursive_descent_parser
        .parse_from_tokens(vec![Token::new(Some(0u64), DummySyntaxTokenTest::Eof)]);

    let expected_asn = AbstractSyntaxNode::new(
        vec![AbstractSyntaxNode::new(
            vec![],
            Token::new(Some(0u64), DummySyntaxTokenTest::Eof),
        )],
        Token::new(None, DummySyntaxTokenTest::S),
    );

    let expected_ast = AbstractSyntaxTree::new(expected_asn);

    let expected_parse_result = ParseResult::Parsed(expected_ast);

    assert!(parse_result_equals(&parse_result, &expected_parse_result));
}

#[test]
fn it_parses_epsilon_production() -> () {
    #[derive(Clone, Copy, Debug, Eq, Hash, PartialEq)]
    enum DummySyntaxTokenTest {
        Empty,
        Eof,
        Epsilon,
        S,
    }

    let grammar_productions: Vec<ContextFreeGrammarProduction<DummySyntaxTokenTest>> = vec![
        ContextFreeGrammarProduction::new(
            DummySyntaxTokenTest::S,
            vec![DummySyntaxTokenTest::Empty, DummySyntaxTokenTest::Eof],
        ),
        ContextFreeGrammarProduction::new(
            DummySyntaxTokenTest::Empty,
            vec![DummySyntaxTokenTest::Epsilon],
        ),
    ];

    let grammar: ContextFreeGrammar<DummySyntaxTokenTest> = ContextFreeGrammar::new(
        DummySyntaxTokenTest::Epsilon,
        DummySyntaxTokenTest::S,
        grammar_productions,
    );

    let recursive_descent_parser: RecursiveDescentParser<
        u64,
        DummySyntaxTokenTest,
        SyntaxErrorSolverMock<u64, DummySyntaxTokenTest>,
    > = RecursiveDescentParser::from_grammar(&grammar);

    let parse_result = recursive_descent_parser
        .parse_from_tokens(vec![Token::new(Some(0u64), DummySyntaxTokenTest::Eof)]);

    let expected_asn = AbstractSyntaxNode::new(
        vec![
            AbstractSyntaxNode::new(
                vec![AbstractSyntaxNode::new(
                    vec![],
                    Token::new(None, DummySyntaxTokenTest::Epsilon),
                )],
                Token::new(None, DummySyntaxTokenTest::Empty),
            ),
            AbstractSyntaxNode::new(vec![], Token::new(Some(0u64), DummySyntaxTokenTest::Eof)),
        ],
        Token::new(None, DummySyntaxTokenTest::S),
    );

    let expected_ast = AbstractSyntaxTree::new(expected_asn);

    let expected_parse_result = ParseResult::Parsed(expected_ast);

    assert!(parse_result_equals(&parse_result, &expected_parse_result,));
}

#[test]
fn it_parses_with_first_first_conflict() -> () {
    #[derive(Clone, Copy, Debug, Eq, Hash, PartialEq)]
    enum DummySyntaxTokenTest {
        A,
        ATerminal,
        B,
        BTerminal,
        CommonTerminal,
        Eof,
        Epsilon,
        S,
    }

    let grammar_productions: Vec<ContextFreeGrammarProduction<DummySyntaxTokenTest>> = vec![
        ContextFreeGrammarProduction::new(
            DummySyntaxTokenTest::S,
            vec![DummySyntaxTokenTest::A, DummySyntaxTokenTest::Eof],
        ),
        ContextFreeGrammarProduction::new(
            DummySyntaxTokenTest::S,
            vec![DummySyntaxTokenTest::B, DummySyntaxTokenTest::Eof],
        ),
        ContextFreeGrammarProduction::new(
            DummySyntaxTokenTest::A,
            vec![
                DummySyntaxTokenTest::CommonTerminal,
                DummySyntaxTokenTest::ATerminal,
            ],
        ),
        ContextFreeGrammarProduction::new(
            DummySyntaxTokenTest::B,
            vec![
                DummySyntaxTokenTest::CommonTerminal,
                DummySyntaxTokenTest::BTerminal,
            ],
        ),
    ];

    let grammar: ContextFreeGrammar<DummySyntaxTokenTest> = ContextFreeGrammar::new(
        DummySyntaxTokenTest::Epsilon,
        DummySyntaxTokenTest::S,
        grammar_productions,
    );

    let recursive_descent_parser: RecursiveDescentParser<
        u64,
        DummySyntaxTokenTest,
        SyntaxErrorSolverMock<u64, DummySyntaxTokenTest>,
    > = RecursiveDescentParser::from_grammar(&grammar);

    let a_parse_result = recursive_descent_parser.parse_from_tokens(vec![
        Token::new(Some(0u64), DummySyntaxTokenTest::CommonTerminal),
        Token::new(Some(0u64), DummySyntaxTokenTest::ATerminal),
        Token::new(Some(0u64), DummySyntaxTokenTest::Eof),
    ]);

    let a_expected_asn = AbstractSyntaxNode::new(
        vec![
            AbstractSyntaxNode::new(
                vec![
                    AbstractSyntaxNode::new(
                        vec![],
                        Token::new(Some(0u64), DummySyntaxTokenTest::CommonTerminal),
                    ),
                    AbstractSyntaxNode::new(
                        vec![],
                        Token::new(Some(0u64), DummySyntaxTokenTest::ATerminal),
                    ),
                ],
                Token::new(None, DummySyntaxTokenTest::A),
            ),
            AbstractSyntaxNode::new(vec![], Token::new(Some(0u64), DummySyntaxTokenTest::Eof)),
        ],
        Token::new(None, DummySyntaxTokenTest::S),
    );

    let a_expected_ast = AbstractSyntaxTree::new(a_expected_asn);

    let a_expected_parse_result = ParseResult::Parsed(a_expected_ast);

    let b_parse_result = recursive_descent_parser.parse_from_tokens(vec![
        Token::new(Some(0u64), DummySyntaxTokenTest::CommonTerminal),
        Token::new(Some(0u64), DummySyntaxTokenTest::BTerminal),
        Token::new(Some(0u64), DummySyntaxTokenTest::Eof),
    ]);

    let b_expected_asn = AbstractSyntaxNode::new(
        vec![
            AbstractSyntaxNode::new(
                vec![
                    AbstractSyntaxNode::new(
                        vec![],
                        Token::new(Some(0u64), DummySyntaxTokenTest::CommonTerminal),
                    ),
                    AbstractSyntaxNode::new(
                        vec![],
                        Token::new(None, DummySyntaxTokenTest::BTerminal),
                    ),
                ],
                Token::new(None, DummySyntaxTokenTest::B),
            ),
            AbstractSyntaxNode::new(vec![], Token::new(Some(0u64), DummySyntaxTokenTest::Eof)),
        ],
        Token::new(None, DummySyntaxTokenTest::S),
    );

    let b_expected_ast = AbstractSyntaxTree::new(b_expected_asn);

    let b_expected_parse_result = ParseResult::Parsed(b_expected_ast);

    assert!(parse_result_equals(&a_parse_result, &a_expected_parse_result,));

    assert!(parse_result_equals(&b_parse_result, &b_expected_parse_result,));
}

#[test]
fn it_parses_with_production_backtracking() -> () {
    let grammar = backtrack_grammar();

    let recursive_descent_parser: RecursiveDescentParser<
        u64,
        BacktrackSyntaxTokenTest,
        SyntaxErrorSolverMock<u64, BacktrackSyntaxTokenTest>,
    > = RecursiveDescentParser::from_grammar(&grammar);

    let abc_parse_result = recursive_descent_parser.parse_from_tokens(vec![
        Token::new(Some(0u64), BacktrackSyntaxTokenTest::ATerminal),
        Token::new(Some(0u64), BacktrackSyntaxTokenTest::BTerminal),
        Token::new(Some(0u64), BacktrackSyntaxTokenTest::CTerminal),
        Token::new(Some(0u64), BacktrackSyntaxTokenTest::Eof),
    ]);

    let abc_expected_asn = AbstractSyntaxNode::new(
        vec![
            AbstractSyntaxNode::new(
                vec![
                    AbstractSyntaxNode::new(
                        vec![],
                        Token::new(Some(0u64), BacktrackSyntaxTokenTest::ATerminal),
                    ),
                    AbstractSyntaxNode::new(
                        vec![],
                        Token::new(Some(0u64), BacktrackSyntaxTokenTest::BTerminal),
                    ),
                ],
                Token::new(None, BacktrackSyntaxTokenTest::A),
            ),
            AbstractSyntaxNode::new(
                vec![AbstractSyntaxNode::new(
                    vec![],
                    Token::new(Some(0u64), BacktrackSyntaxTokenTest::CTerminal),
                )],
                Token::new(None, BacktrackSyntaxTokenTest::B),
            ),
            AbstractSyntaxNode::new(vec![], Token::new(None, BacktrackSyntaxTokenTest::Eof)),
        ],
        Token::new(None, BacktrackSyntaxTokenTest::S),
    );

    let abc_expected_ast = AbstractSyntaxTree::new(abc_expected_asn);

    let abc_expected_parse_result = ParseResult::Parsed(abc_expected_ast);

    let abcd_parse_result = recursive_descent_parser.parse_from_tokens(vec![
        Token::new(Some(0u64), BacktrackSyntaxTokenTest::ATerminal),
        Token::new(Some(0u64), BacktrackSyntaxTokenTest::BTerminal),
        Token::new(Some(0u64), BacktrackSyntaxTokenTest::CTerminal),
        Token::new(Some(0u64), BacktrackSyntaxTokenTest::DTerminal),
        Token::new(Some(0u64), BacktrackSyntaxTokenTest::Eof),
    ]);

    let abcd_expected_asn = AbstractSyntaxNode::new(
        vec![
            AbstractSyntaxNode::new(
                vec![AbstractSyntaxNode::new(
                    vec![],
                    Token::new(Some(0u64), BacktrackSyntaxTokenTest::ATerminal),
                )],
                Token::new(None, BacktrackSyntaxTokenTest::A),
            ),
            AbstractSyntaxNode::new(
                vec![
                    AbstractSyntaxNode::new(
                        vec![],
                        Token::new(Some(0u64), BacktrackSyntaxTokenTest::BTerminal),
                    ),
                    AbstractSyntaxNode::new(
                        vec![],
                        Token::new(Some(0u64), BacktrackSyntaxTokenTest::CTerminal),
                    ),
                    AbstractSyntaxNode::new(
                        vec![],
                        Token::new(Some(0u64), BacktrackSyntaxTokenTest::DTerminal),
                    ),
                ],
                Token::new(None, BacktrackSyntaxTokenTest::B),
            ),
            AbstractSyntaxNode::new(vec![], Token::new(Some(0u64), BacktrackSyntaxTokenTest::Eof)),
        ],
        Token::new(None, BacktrackSyntaxTokenTest::S),
    );

    let abcd_expected_ast = AbstractSyntaxTree::new(abcd_expected_asn);

    let abcd_expected_parse_result = ParseResult::Parsed(abcd_expected_ast);

    assert!(parse_result_equals(
        &abc_parse_result,
        &abc_expected_parse_result,
    ));
    assert!(parse_result_equals(
        &abcd_parse_result,
        &abcd_expected_parse_result,
    ));
}

#[test]
fn it_fails_on_unexpected_symbol_when_no_production_is_found() -> () {
    #[derive(Clone, Copy, Debug, Eq, Hash, PartialEq)]
    enum DummySyntaxTokenTest {
        ATerminal,
        BTerminal,
        Epsilon,
        S,
    }

    let grammar_productions: Vec<ContextFreeGrammarProduction<DummySyntaxTokenTest>> =
        vec![ContextFreeGrammarProduction::new(
            DummySyntaxTokenTest::S,
            vec![DummySyntaxTokenTest::ATerminal],
        )];

    let grammar: ContextFreeGrammar<DummySyntaxTokenTest> = ContextFreeGrammar::new(
        DummySyntaxTokenTest::Epsilon,
        DummySyntaxTokenTest::S,
        grammar_productions,
    );

    let recursive_descent_parser: RecursiveDescentParser<
        u64,
        DummySyntaxTokenTest,
        SyntaxErrorSolverMock<u64, DummySyntaxTokenTest>,
    > = RecursiveDescentParser::from_grammar(&grammar);

    let parse_result = recursive_descent_parser
        .parse_from_tokens(vec![Token::new(Some(0u64), DummySyntaxTokenTest::BTerminal)]);

    let expected_failed_symbol =
        <FailedSymbol<u64, DummySyntaxTokenTest>>::new(vec![], DummySyntaxTokenTest::S);

    let expected_parse_result = ParseResult::Failed(expected_failed_symbol);

    assert!(parse_result_equals(&parse_result, &expected_parse_result,));
}

#[test]
fn it_fails_on_unexpected_symbol_when_a_production_is_found() -> () {
    #[derive(Clone, Copy, Debug, Eq, Hash, PartialEq)]
    enum DummySyntaxTokenTest {
        ATerminal,
        BTerminal,
        Epsilon,
        S,
    }

    let grammar_productions: Vec<ContextFreeGrammarProduction<DummySyntaxTokenTest>> =
        vec![ContextFreeGrammarProduction::new(
            DummySyntaxTokenTest::S,
            vec![
                DummySyntaxTokenTest::ATerminal,
                DummySyntaxTokenTest::ATerminal,
            ],
        )];

    let grammar: ContextFreeGrammar<DummySyntaxTokenTest> = ContextFreeGrammar::new(
        DummySyntaxTokenTest::Epsilon,
        DummySyntaxTokenTest::S,
        grammar_productions,
    );

    let recursive_descent_parser: RecursiveDescentParser<
        u64,
        DummySyntaxTokenTest,
        SyntaxErrorSolverMock<u64, DummySyntaxTokenTest>,
    > = RecursiveDescentParser::from_grammar(&grammar);

    let parse_result = recursive_descent_parser.parse_from_tokens(vec![
        Token::new(Some(0u64), DummySyntaxTokenTest::ATerminal),
        Token::new(Some(0u64), DummySyntaxTokenTest::BTerminal),
    ]);

    let expected_failed_symbol = <FailedSymbol<u64, DummySyntaxTokenTest>>::new(
        vec![FailedProduction::new(
            FailedSymbol::new(vec![], DummySyntaxTokenTest::ATerminal),
            vec![ProductionParsedSymbol::Parsed(AbstractSyntaxNode::new(
                vec![],
                Token::new(Some(0u64), DummySyntaxTokenTest::ATerminal),
            ))],
            vec![],
        )],
        DummySyntaxTokenTest::S,
    );

    let expected_parse_result = ParseResult::Failed(expected_failed_symbol);

    assert!(parse_result_equals(&parse_result, &expected_parse_result,));
}

#[test]
fn it_fails_on_unexpected_symbol_when_a_production_is_found_with_parsed_symbols_ordered() -> () {
    #[derive(Clone, Copy, Debug, Eq, Hash, PartialEq)]
    enum DummySyntaxTokenTest {
        ATerminal,
        BTerminal,
        Epsilon,
        S,
    }

    let grammar_productions: Vec<ContextFreeGrammarProduction<DummySyntaxTokenTest>> =
        vec![ContextFreeGrammarProduction::new(
            DummySyntaxTokenTest::S,
            vec![
                DummySyntaxTokenTest::ATerminal,
                DummySyntaxTokenTest::BTerminal,
                DummySyntaxTokenTest::ATerminal,
            ],
        )];

    let grammar: ContextFreeGrammar<DummySyntaxTokenTest> = ContextFreeGrammar::new(
        DummySyntaxTokenTest::Epsilon,
        DummySyntaxTokenTest::S,
        grammar_productions,
    );

    let recursive_descent_parser: RecursiveDescentParser<
        u64,
        DummySyntaxTokenTest,
        SyntaxErrorSolverMock<u64, DummySyntaxTokenTest>,
    > = RecursiveDescentParser::from_grammar(&grammar);

    let parse_result = recursive_descent_parser.parse_from_tokens(vec![
        Token::new(Some(0u64), DummySyntaxTokenTest::ATerminal),
        Token::new(Some(0u64), DummySyntaxTokenTest::BTerminal),
    ]);

    let expected_failed_symbol = <FailedSymbol<u64, DummySyntaxTokenTest>>::new(
        vec![FailedProduction::new(
            FailedSymbol::new(vec![], DummySyntaxTokenTest::ATerminal),
            vec![
                ProductionParsedSymbol::Parsed(AbstractSyntaxNode::new(
                    vec![],
                    Token::new(Some(0u64), DummySyntaxTokenTest::ATerminal),
                )),
                ProductionParsedSymbol::Parsed(AbstractSyntaxNode::new(
                    vec![],
                    Token::new(Some(0u64), DummySyntaxTokenTest::BTerminal),
                )),
            ],
            vec![],
        )],
        DummySyntaxTokenTest::S,
    );

    let expected_parse_result = ParseResult::Failed(expected_failed_symbol);

    assert!(parse_result_equals(&parse_result, &expected_parse_result,));
}

#[test]
fn it_fails_on_unexpected_symbol_when_multiple_productions_are_found() -> () {
    #[derive(Clone, Copy, Debug, Eq, Hash, PartialEq)]
    enum DummySyntaxTokenTest {
        ATerminal,
        BTerminal,
        Epsilon,
        S,
    }

    let grammar_productions: Vec<ContextFreeGrammarProduction<DummySyntaxTokenTest>> = vec![
        ContextFreeGrammarProduction::new(
            DummySyntaxTokenTest::S,
            vec![
                DummySyntaxTokenTest::ATerminal,
                DummySyntaxTokenTest::ATerminal,
            ],
        ),
        ContextFreeGrammarProduction::new(
            DummySyntaxTokenTest::S,
            vec![
                DummySyntaxTokenTest::ATerminal,
                DummySyntaxTokenTest::ATerminal,
                DummySyntaxTokenTest::ATerminal,
            ],
        ),
    ];

    let grammar: ContextFreeGrammar<DummySyntaxTokenTest> = ContextFreeGrammar::new(
        DummySyntaxTokenTest::Epsilon,
        DummySyntaxTokenTest::S,
        grammar_productions,
    );

    let recursive_descent_parser: RecursiveDescentParser<
        u64,
        DummySyntaxTokenTest,
        SyntaxErrorSolverMock<u64, DummySyntaxTokenTest>,
    > = RecursiveDescentParser::from_grammar(&grammar);

    let parse_result = recursive_descent_parser.parse_from_tokens(vec![
        Token::new(Some(0u64), DummySyntaxTokenTest::ATerminal),
        Token::new(Some(0u64), DummySyntaxTokenTest::BTerminal),
    ]);

    let expected_failed_symbol = <FailedSymbol<u64, DummySyntaxTokenTest>>::new(
        vec![
            FailedProduction::new(
                FailedSymbol::new(vec![], DummySyntaxTokenTest::ATerminal),
                vec![ProductionParsedSymbol::Parsed(AbstractSyntaxNode::new(
                    vec![],
                    Token::new(Some(0u64), DummySyntaxTokenTest::ATerminal),
                ))],
                vec![],
            ),
            FailedProduction::new(
                FailedSymbol::new(vec![], DummySyntaxTokenTest::ATerminal),
                vec![ProductionParsedSymbol::Parsed(AbstractSyntaxNode::new(
                    vec![],
                    Token::new(Some(0u64), DummySyntaxTokenTest::ATerminal),
                ))],
                vec![DummySyntaxTokenTest::ATerminal],
            ),
        ],
        DummySyntaxTokenTest::S,
    );

    let expected_parse_result = ParseResult::Failed(expected_failed_symbol);

    assert!(parse_result_equals(&parse_result, &expected_parse_result,));
}

#[test]
fn it_parses_the_same_input_to_the_same_tree_twice() -> () {
    let grammar = backtrack_grammar();

    let recursive_descent_parser: RecursiveDescentParser<
        u64,
        BacktrackSyntaxTokenTest,
        SyntaxErrorSolverMock<u64, BacktrackSyntaxTokenTest>,
    > = RecursiveDescentParser::from_grammar(&grammar);

    let tokens = vec![
        Token::new(Some(1u64), BacktrackSyntaxTokenTest::ATerminal),
        Token::new(Some(2u64), BacktrackSyntaxTokenTest::BTerminal),
        Token::new(Some(3u64), BacktrackSyntaxTokenTest::CTerminal),
        Token::new(Some(4u64), BacktrackSyntaxTokenTest::Eof),
    ];

    let first_parse_result = recursive_descent_parser.parse_from_tokens(tokens.clone());
    let second_parse_result = recursive_descent_parser.parse_from_tokens(tokens);

    assert!(parse_result_equals(&first_parse_result, &second_parse_result));
}

fn collect_leaves(
    node: &AbstractSyntaxNode<Token<u64, BacktrackSyntaxTokenTest>>,
    leaves: &mut Vec<Token<u64, BacktrackSyntaxTokenTest>>,
) {
    if node.child_nodes.is_empty() {
        if node.token.t_type != BacktrackSyntaxTokenTest::Epsilon {
            leaves.push(node.token);
        }
    } else {
        for child in node.child_nodes.iter() {
            collect_leaves(child, leaves);
        }
    }
}

#[test]
fn it_round_trips_the_yield_of_a_successful_parse() -> () {
    let grammar = backtrack_grammar();

    let recursive_descent_parser: RecursiveDescentParser<
        u64,
        BacktrackSyntaxTokenTest,
        SyntaxErrorSolverMock<u64, BacktrackSyntaxTokenTest>,
    > = RecursiveDescentParser::from_grammar(&grammar);

    let tokens = vec![
        Token::new(Some(1u64), BacktrackSyntaxTokenTest::ATerminal),
        Token::new(Some(2u64), BacktrackSyntaxTokenTest::BTerminal),
        Token::new(Some(3u64), BacktrackSyntaxTokenTest::CTerminal),
        Token::new(Some(4u64), BacktrackSyntaxTokenTest::Eof),
    ];

    let first_parse_result = recursive_descent_parser.parse_from_tokens(tokens.clone());

    let first_tree = match &first_parse_result {
        ParseResult::Parsed(tree) => tree,
        _ => panic!("expected a successful parse"),
    };

    let mut leaves: Vec<Token<u64, BacktrackSyntaxTokenTest>> = Vec::new();
    collect_leaves(&first_tree.root, &mut leaves);
    assert_eq!(leaves.len(), tokens.len());
    for i in 0..leaves.len() {
        assert_eq!(leaves[i].t_type, tokens[i].t_type);
        assert_eq!(leaves[i].lex, tokens[i].lex);
    }

    let second_parse_result = recursive_descent_parser.parse_from_tokens(leaves);

    assert!(parse_result_equals(&first_parse_result, &second_parse_result));
}

#[test]
fn it_parses_a_prefix_when_the_grammar_accepts_one() -> () {
    #[derive(Clone, Copy, Debug, Eq, Hash, PartialEq)]
    enum DummySyntaxTokenTest {
        ATerminal,
        Epsilon,
        S,
    }

    let grammar_productions: Vec<ContextFreeGrammarProduction<DummySyntaxTokenTest>> =
        vec![ContextFreeGrammarProduction::new(
            DummySyntaxTokenTest::S,
            vec![DummySyntaxTokenTest::ATerminal],
        )];

    let grammar: ContextFreeGrammar<DummySyntaxTokenTest> = ContextFreeGrammar::new(
        DummySyntaxTokenTest::Epsilon,
        DummySyntaxTokenTest::S,
        grammar_productions,
    );

    let recursive_descent_parser: RecursiveDescentParser<
        u64,
        DummySyntaxTokenTest,
        SyntaxErrorSolverMock<u64, DummySyntaxTokenTest>,
    > = RecursiveDescentParser::from_grammar(&grammar);

    let parse_result = recursive_descent_parser.parse_from_tokens(vec![
        Token::new(Some(0u64), DummySyntaxTokenTest::ATerminal),
        Token::new(Some(1u64), DummySyntaxTokenTest::ATerminal),
    ]);

    let expected_asn = AbstractSyntaxNode::new(
        vec![AbstractSyntaxNode::new(
            vec![],
            Token::new(Some(0u64), DummySyntaxTokenTest::ATerminal),
        )],
        Token::new(None, DummySyntaxTokenTest::S),
    );

    let expected_ast = AbstractSyntaxTree::new(expected_asn);

    let expected_parse_result = ParseResult::Parsed(expected_ast);

    assert!(parse_result_equals(&parse_result, &expected_parse_result));
}
