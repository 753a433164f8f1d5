use recdescent::grammar::ContextFreeGrammar;
use recdescent::grammar::ContextFreeGrammarProduction;

#[derive(Clone, Copy, Debug, Eq, Hash, PartialEq)]
enum TerminalTokenTypeTest {
    Eof,
    Id,
}

#[derive(Clone, Copy, Debug, Eq, Hash, PartialEq)]
enum SyntaxTokenTest {
    Epsilon,
    Module,
    Terminal(TerminalTokenTypeTest),
}

#[test]
fn it_creates_a_new_instance() -> () {
    let grammar_productions: Vec<ContextFreeGrammarProduction<SyntaxTokenTest>> =
        vec![ContextFreeGrammarProduction::new(
            SyntaxTokenTest::Module,
            vec![
                SyntaxTokenTest::Terminal(TerminalTokenTypeTest::Id),
                SyntaxTokenTest::Terminal(TerminalTokenTypeTest::Eof),
            ],
        )];

    ContextFreeGrammar::new(
        SyntaxTokenTest::Epsilon,
        SyntaxTokenTest::Module,
        grammar_productions,
    );
}

#[test]
fn it_accepts_well_formed_productions() -> () {
    let grammar_productions: Vec<ContextFreeGrammarProduction<SyntaxTokenTest>> = vec![
        ContextFreeGrammarProduction::new(
            SyntaxTokenTest::Module,
            vec![
                SyntaxTokenTest::Terminal(TerminalTokenTypeTest::Id),
                SyntaxTokenTest::Terminal(TerminalTokenTypeTest::Eof),
            ],
        ),
        ContextFreeGrammarProduction::new(SyntaxTokenTest::Module, vec![SyntaxTokenTest::Epsilon]),
    ];

    assert!(ContextFreeGrammar::check_productions(
        &SyntaxTokenTest::Epsilon,
        &grammar_productions,
    ));
}

#[test]
fn it_rejects_production_whose_input_is_epsilon() -> () {
    let grammar_productions: Vec<ContextFreeGrammarProduction<SyntaxTokenTest>> =
        vec![ContextFreeGrammarProduction::new(
            SyntaxTokenTest::Epsilon,
            vec![SyntaxTokenTest::Terminal(TerminalTokenTypeTest::Id)],
        )];

    assert!(!ContextFreeGrammar::check_productions(
        &SyntaxTokenTest::Epsilon,
        &grammar_productions,
    ));
}

#[test]
fn it_rejects_production_whose_output_has_no_symbols() -> () {
    let grammar_productions: Vec<ContextFreeGrammarProduction<SyntaxTokenTest>> =
        vec![ContextFreeGrammarProduction::new(SyntaxTokenTest::Module, vec![])];

    assert!(!ContextFreeGrammar::check_productions(
        &SyntaxTokenTest::Epsilon,
        &grammar_productions,
    ));
}

#[test]
fn it_rejects_production_whose_output_has_epsilon_and_any_other_symbol() -> () {
    let grammar_productions: Vec<ContextFreeGrammarProduction<SyntaxTokenTest>> =
        vec![ContextFreeGrammarProduction::new(
            SyntaxTokenTest::Module,
            vec![
                SyntaxTokenTest::Terminal(TerminalTokenTypeTest::Id),
                SyntaxTokenTest::Epsilon,
            ],
        )];

    assert!(!ContextFreeGrammar::check_productions(
        &SyntaxTokenTest::Epsilon,
        &grammar_productions,
    ));
}

#[test]
fn it_classifies_terminals_and_non_terminals() -> () {
    let grammar_productions: Vec<ContextFreeGrammarProduction<SyntaxTokenTest>> =
        vec![ContextFreeGrammarProduction::new(
            SyntaxTokenTest::Module,
            vec![
                SyntaxTokenTest::Terminal(TerminalTokenTypeTest::Id),
                SyntaxTokenTest::Terminal(TerminalTokenTypeTest::Eof),
            ],
        )];

    let grammar: ContextFreeGrammar<SyntaxTokenTest> = ContextFreeGrammar::new(
        SyntaxTokenTest::Epsilon,
        SyntaxTokenTest::Module,
        grammar_productions,
    );

    assert!(grammar.is_non_terminal(&SyntaxTokenTest::Module));
    assert!(!grammar.is_terminal(&SyntaxTokenTest::Module));
    assert!(grammar.is_terminal(&SyntaxTokenTest::Terminal(TerminalTokenTypeTest::Id)));
    assert!(grammar.is_terminal(&SyntaxTokenTest::Terminal(TerminalTokenTypeTest::Eof)));
    assert!(!grammar.is_terminal(&SyntaxTokenTest::Epsilon));
    assert_eq!(grammar.get_non_terminal_symbols().len(), 1);
    assert_eq!(grammar.get_terminal_symbols().len(), 2);
    assert_eq!(*grammar.get_epsilon_symbol(), SyntaxTokenTest::Epsilon);
    assert_eq!(*grammar.get_initial_symbol(), SyntaxTokenTest::Module);
    assert_eq!(
        grammar
            .get_productions(&SyntaxTokenTest::Module)
            .unwrap()
            .len(),
        1
    );
    assert!(grammar
        .get_productions(&SyntaxTokenTest::Epsilon)
        .is_none());
}
