use std::collections::{HashMap, HashSet};

use lib::context_free_grammar::{Grammar, Item, ItemTrait, Production, Terminal};

#[derive(Debug, Clone, Hash, PartialEq, Eq)]
enum TokenType {
    Plus,
    Star,
    OpenParen,
    CloseParen,
    Identifier,
}
impl ItemTrait for TokenType {}

#[derive(Debug, Clone, Hash, PartialEq, Eq)]
enum NonTerminal {
    Expr,
    ExprPrime,
    Term,
    TermPrime,
    Factor,
    Start,
}
impl ItemTrait for NonTerminal {}

/// Plain numbered symbols for small grammars.
#[derive(Debug, Clone, Copy, Hash, PartialEq, Eq)]
struct S(u64);
impl ItemTrait for S {}

fn nterm(n: NonTerminal) -> Item<NonTerminal, TokenType> {
    Item::NonTerminal(n)
}

fn term(t: TokenType) -> Item<NonTerminal, TokenType> {
    Item::Terminal(t)
}

fn nullable_map<N: ItemTrait, T: ItemTrait>(g: &Grammar<N, T>) -> HashMap<N, bool> {
    let table = g.nullable();
    let map: HashMap<N, bool> = table.iter().cloned().collect();
    assert_eq!(map.len(), table.len());
    map
}

fn first_map<N: ItemTrait, T: ItemTrait>(g: &Grammar<N, T>) -> HashMap<N, HashSet<Terminal<T>>> {
    let table = g.first();
    let mut map = HashMap::new();
    for (n, ts) in table.iter() {
        let set: HashSet<Terminal<T>> = ts.iter().cloned().collect();
        assert_eq!(set.len(), ts.len());
        assert!(map.insert(n.clone(), set).is_none());
    }
    map
}

#[test]
fn create_grammar() {

    println!("Starting!");
    let grammar = Grammar::new(
        vec![
            Production(NonTerminal::Start, vec![nterm(NonTerminal::Expr), Item::EndOfInput]),
            Production(NonTerminal::Expr, vec![nterm(NonTerminal::Term), nterm(NonTerminal::ExprPrime)]),
            Production(NonTerminal::ExprPrime, vec![term(TokenType::Plus), nterm(NonTerminal::Term), nterm(NonTerminal::ExprPrime)]),
            Production(NonTerminal::ExprPrime, vec![Item::Epsilon]),
            Production(NonTerminal::Term, vec![nterm(NonTerminal::Factor), nterm(NonTerminal::TermPrime)]),
            Production(NonTerminal::TermPrime, vec![term(TokenType::Star), nterm(NonTerminal::Factor), nterm(NonTerminal::TermPrime)]),
            Production(NonTerminal::TermPrime, vec![Item::Epsilon]),
            Production(NonTerminal::Factor, vec![term(TokenType::OpenParen), nterm(NonTerminal::Expr), term(TokenType::CloseParen)]),
            Production(NonTerminal::Factor, vec![term(TokenType::Identifier)]),
        ],
        NonTerminal::Start,
    );
    println!("Created grammar!");

    assert_eq!(
        nullable_map(&grammar),
        HashMap::from_iter([
            (NonTerminal::ExprPrime, true),
            (NonTerminal::TermPrime, true),
            (NonTerminal::Term, false),
            (NonTerminal::Expr, false),
            (NonTerminal::Factor, false),
            (NonTerminal::Start, false)
        ])
    );

    assert_eq!(
        first_map(&grammar),
        HashMap::from_iter([
            (
                NonTerminal::Start,
                HashSet::from_iter([Terminal::Terminal(TokenType::OpenParen), Terminal::Terminal(TokenType::Identifier)])
            ),
            (
                NonTerminal::Expr,
                HashSet::from_iter([Terminal::Terminal(TokenType::OpenParen), Terminal::Terminal(TokenType::Identifier)])
            ),
            (
                NonTerminal::ExprPrime,
                HashSet::from_iter([Terminal::Terminal(TokenType::Plus), Terminal::Epsilon])
            ),
            (
                NonTerminal::Term,
                HashSet::from_iter([Terminal::Terminal(TokenType::Identifier), Terminal::Terminal(TokenType::OpenParen),])
            ),
            (
                NonTerminal::TermPrime,
                HashSet::from_iter([Terminal::Terminal(TokenType::Star), Terminal::Epsilon])
            ),
            (
                NonTerminal::Factor,
                HashSet::from_iter([Terminal::Terminal(TokenType::OpenParen), Terminal::Terminal(TokenType::Identifier),])
            ),
        ])
    )
}

#[test]
fn grammar_keeps_productions_and_start_symbol() {
    let productions = vec![
        Production(NonTerminal::Start, vec![term(TokenType::Identifier)]),
        Production(NonTerminal::Start, vec![Item::Epsilon]),
    ];
    let grammar = Grammar::new(productions.clone(), NonTerminal::Start);
    assert_eq!(grammar.productions(), &productions);
    assert_eq!(grammar.start_symbol(), &NonTerminal::Start);
}

#[test]
fn left_recursive_nullable_grammar() {
    // A -> A b | (empty): the recursion through A itself does not hide that A is nullable.
    let grammar = Grammar::new(
        vec![
            Production(S(0), vec![Item::NonTerminal(S(0)), Item::Terminal(S(1))]),
            Production(S(0), vec![Item::Epsilon]),
        ],
        S(0),
    );
    assert_eq!(nullable_map(&grammar), HashMap::from_iter([(S(0), true)]));
    assert_eq!(
        first_map(&grammar),
        HashMap::from_iter([(S(0), HashSet::from_iter([Terminal::Terminal(S(1)), Terminal::Epsilon]))])
    );
}

#[test]
fn mutually_recursive_nonterminals_are_not_nullable() {
    // A -> B, B -> A: no derivation ends, so neither is nullable and FIRST is empty.
    let grammar: Grammar<S, S> = Grammar::new(
        vec![
            Production(S(0), vec![Item::NonTerminal(S(1))]),
            Production(S(1), vec![Item::NonTerminal(S(0))]),
        ],
        S(0),
    );
    assert_eq!(nullable_map(&grammar), HashMap::from_iter([(S(0), false), (S(1), false)]));
    assert!(first_map(&grammar).is_empty());
}

#[test]
fn first_sees_through_nullable_prefix() {
    // S -> A B $, A -> a | (empty), B -> (empty)
    // FIRST(S) = {a, $}; S is not nullable; A and B are.
    let (s, a, b) = (S(10), S(11), S(12));
    let grammar = Grammar::new(
        vec![
            Production(s, vec![Item::NonTerminal(a), Item::NonTerminal(b), Item::EndOfInput]),
            Production(a, vec![Item::Terminal(S(7))]),
            Production(a, vec![Item::Epsilon]),
            Production(b, vec![]),
        ],
        s,
    );
    assert_eq!(nullable_map(&grammar), HashMap::from_iter([(s, false), (a, true), (b, true)]));
    assert_eq!(
        first_map(&grammar),
        HashMap::from_iter([
            (s, HashSet::from_iter([Terminal::Terminal(S(7)), Terminal::EndOfInput])),
            (a, HashSet::from_iter([Terminal::Terminal(S(7)), Terminal::Epsilon])),
            (b, HashSet::from_iter([Terminal::Epsilon])),
        ])
    );
}

#[test]
fn undefined_nonterminal_is_not_nullable() {
    // S -> U x, where U has no production: FIRST(S) is empty, S is not nullable,
    // and U gets no entry.
    let grammar = Grammar::new(
        vec![Production(S(1), vec![Item::NonTerminal(S(2)), Item::Terminal(S(3))])],
        S(1),
    );
    assert_eq!(nullable_map(&grammar), HashMap::from_iter([(S(1), false)]));
    assert!(first_map(&grammar).is_empty());
}

#[test]
fn nullable_iff_epsilon_in_first() {
    let grammar = Grammar::new(
        vec![
            Production(NonTerminal::Start, vec![nterm(NonTerminal::Expr), Item::EndOfInput]),
            Production(NonTerminal::Expr, vec![nterm(NonTerminal::Term), nterm(NonTerminal::ExprPrime)]),
            Production(NonTerminal::ExprPrime, vec![term(TokenType::Plus), nterm(NonTerminal::Term), nterm(NonTerminal::ExprPrime)]),
            Production(NonTerminal::ExprPrime, vec![Item::Epsilon]),
            Production(NonTerminal::Term, vec![nterm(NonTerminal::TermPrime)]),
            Production(NonTerminal::TermPrime, vec![term(TokenType::Star)]),
            Production(NonTerminal::TermPrime, vec![]),
        ],
        NonTerminal::Start,
    );
    let nullable = nullable_map(&grammar);
    let first = first_map(&grammar);
    for (n, is_nullable) in nullable.iter() {
        let has_epsilon = first.get(n).map_or(false, |s| s.contains(&Terminal::Epsilon));
        assert_eq!(*is_nullable, has_epsilon, "{:?}", n);
    }
    assert_eq!(nullable[&NonTerminal::Term], true);
    assert_eq!(nullable[&NonTerminal::Expr], true);
    assert_eq!(nullable[&NonTerminal::Start], false);
    assert_eq!(
        first[&NonTerminal::Start],
        HashSet::from_iter([Terminal::Terminal(TokenType::Plus), Terminal::Terminal(TokenType::Star), Terminal::EndOfInput])
    );
}

#[test]
fn empty_grammar_has_empty_tables() {
    let grammar: Grammar<S, S> = Grammar::new(vec![], S(0));
    assert!(grammar.nullable().is_empty());
    assert!(grammar.first().is_empty());
}

#[test]
fn tables_do_not_depend_on_production_order() {
    let forward = vec![
        Production(NonTerminal::Start, vec![nterm(NonTerminal::Expr), Item::EndOfInput]),
        Production(NonTerminal::Expr, vec![nterm(NonTerminal::Term), nterm(NonTerminal::ExprPrime)]),
        Production(NonTerminal::ExprPrime, vec![term(TokenType::Plus), nterm(NonTerminal::Term)]),
        Production(NonTerminal::ExprPrime, vec![Item::Epsilon]),
        Production(NonTerminal::Term, vec![term(TokenType::Identifier)]),
    ];
    let mut backward = forward.clone();
    backward.reverse();
    backward.push(forward[2].clone());
    let g1 = Grammar::new(forward, NonTerminal::Start);
    let g2 = Grammar::new(backward, NonTerminal::Start);
    assert_eq!(nullable_map(&g1), nullable_map(&g2));
    assert_eq!(first_map(&g1), first_map(&g2));
    assert_eq!(
        first_map(&g1)[&NonTerminal::Expr],
        HashSet::from_iter([Terminal::Terminal(TokenType::Identifier)])
    );
}

#[test]
fn repeated_productions_are_kept_once() {
    let p = Production(S(1), vec![Item::Terminal(S(2))]);
    let q = Production(S(1), vec![Item::Epsilon]);
    let grammar = Grammar::new(vec![p.clone(), q.clone(), p.clone(), q.clone()], S(1));
    assert_eq!(grammar.productions(), &vec![p, q]);
    assert_eq!(nullable_map(&grammar), HashMap::from_iter([(S(1), true)]));
    assert_eq!(
        first_map(&grammar),
        HashMap::from_iter([(S(1), HashSet::from_iter([Terminal::Terminal(S(2)), Terminal::Epsilon]))])
    );
}

#[test]
fn more_productions_keep_nullability_and_first() {
    let small = vec![
        Production(S(1), vec![Item::NonTerminal(S(2)), Item::Terminal(S(9))]),
        Production(S(2), vec![Item::Terminal(S(8))]),
    ];
    let mut large = small.clone();
    large.push(Production(S(2), vec![Item::Epsilon]));
    large.push(Production(S(3), vec![Item::EndOfInput]));
    let g1 = Grammar::new(small, S(1));
    let g2 = Grammar::new(large, S(1));
    let (n1, n2) = (nullable_map(&g1), nullable_map(&g2));
    for (n, v) in n1.iter() {
        assert!(n2.contains_key(n));
        assert!(!*v || n2[n]);
    }
    let (f1, f2) = (first_map(&g1), first_map(&g2));
    for (n, ts) in f1.iter() {
        assert!(ts.is_subset(&f2[n]));
    }
    assert_eq!(n2[&S(2)], true);
    assert_eq!(f2[&S(1)], HashSet::from_iter([Terminal::Terminal(S(8)), Terminal::Terminal(S(9))]));
    assert_eq!(f2[&S(3)], HashSet::from_iter([Terminal::EndOfInput]));
}

#[test]
fn sequence_nullability_splits_over_concatenation() {
    // A -> (empty), B -> b; with an empty table of known nullability.
    let (a, b) = (S(1), S(2));
    let productions = vec![
        Production(a, vec![]),
        Production(b, vec![Item::Terminal(S(3))]),
    ];
    let known: Vec<(S, bool)> = vec![];
    let left = vec![Item::NonTerminal(a), Item::Epsilon];
    let right = vec![Item::NonTerminal(b)];
    let both: Vec<Item<S, S>> = [left.clone(), right.clone()].concat();
    let l = Grammar::is_sequence_nullable(&productions, &known, &left);
    let r = Grammar::is_sequence_nullable(&productions, &known, &right);
    let lr = Grammar::is_sequence_nullable(&productions, &known, &both);
    assert!(l);
    assert!(!r);
    assert_eq!(lr, l && r);
    let ll: Vec<Item<S, S>> = [left.clone(), left.clone()].concat();
    assert!(Grammar::is_sequence_nullable(&productions, &known, &ll));
}

#[test]
fn sequence_nullability_reads_the_given_table() {
    // S -> B, B -> b: B is not nullable, but a table entry claiming it is wins.
    let (s1, b) = (S(1), S(2));
    let productions = vec![
        Production(s1, vec![Item::NonTerminal(b)]),
        Production(b, vec![Item::Terminal(S(3))]),
    ];
    let claimed: Vec<(S, bool)> = vec![(b, true)];
    let seq: Vec<Item<S, S>> = vec![Item::NonTerminal(b)];
    assert!(Grammar::is_sequence_nullable(&productions, &claimed, &seq));
    assert!(!Grammar::is_sequence_nullable(&productions, &vec![], &seq));
    assert!(Grammar::compute_non_terminal_nullability(&productions, &s1, &claimed));
    assert!(!Grammar::compute_non_terminal_nullability(&productions, &s1, &vec![]));
    assert!(!Grammar::compute_non_terminal_nullability(&productions, &b, &claimed));
}

#[test]
fn nullables_table_lists_each_head_once() {
    let (a, b) = (S(1), S(2));
    let productions = vec![
        Production(a, vec![Item::NonTerminal(b)]),
        Production(b, vec![Item::Terminal(S(3))]),
        Production(b, vec![]),
        Production(a, vec![Item::Terminal(S(4))]),
    ];
    let table = Grammar::compute_nullables(&productions);
    assert_eq!(table, vec![(a, true), (b, true)]);
}

#[test]
fn firsts_follow_the_given_nullability() {
    // S -> B, B -> b: with B taken as nullable, the body of S counts as
    // nullable and FIRST(S) holds the empty string.
    let (s1, b) = (S(1), S(2));
    let productions = vec![
        Production(s1, vec![Item::NonTerminal(b)]),
        Production(b, vec![Item::Terminal(S(6))]),
    ];
    let honest = Grammar::compute_nullables(&productions);
    assert_eq!(honest, vec![(s1, false), (b, false)]);
    let first: HashMap<S, HashSet<Terminal<S>>> = Grammar::compute_firsts(&productions, &honest)
        .into_iter()
        .map(|(n, ts)| (n, ts.into_iter().collect()))
        .collect();
    assert_eq!(
        first,
        HashMap::from_iter([
            (s1, HashSet::from_iter([Terminal::Terminal(S(6))])),
            (b, HashSet::from_iter([Terminal::Terminal(S(6))])),
        ])
    );
    let claimed: Vec<(S, bool)> = vec![(s1, false), (b, true)];
    let first: HashMap<S, HashSet<Terminal<S>>> = Grammar::compute_firsts(&productions, &claimed)
        .into_iter()
        .map(|(n, ts)| (n, ts.into_iter().collect()))
        .collect();
    assert_eq!(
        first,
        HashMap::from_iter([
            (s1, HashSet::from_iter([Terminal::Terminal(S(6)), Terminal::Epsilon])),
            (b, HashSet::from_iter([Terminal::Terminal(S(6))])),
        ])
    );
}
