use lib::context_free_grammar::slr::{
    Configuration, Dfa, Lr0Item, Lr0ItemIndex, Lr0ItemNfa,
};
use lib::context_free_grammar::{Item, ItemTrait, Production, Terminal};

#[derive(Debug, Clone, Hash, PartialEq, Eq)]
enum Nt {
    S,
    A,
}
impl ItemTrait for Nt {}

#[derive(Debug, Clone, Hash, PartialEq, Eq)]
enum Tok {
    X,
    Y,
}
impl ItemTrait for Tok {}

type It = Item<Nt, Tok>;

fn lr0(n: Nt, parsed: Vec<It>, potential: Vec<It>) -> Lr0Item<Nt, Tok> {
    Lr0Item { nonterminal: n, parsed, potential }
}

/// S -> A $ ; A -> x A ; A -> y ; A -> (empty)
fn productions() -> Vec<Production<Nt, Tok>> {
    vec![
        Production(Nt::S, vec![Item::NonTerminal(Nt::A), Item::EndOfInput]),
        Production(Nt::A, vec![Item::Terminal(Tok::X), Item::NonTerminal(Nt::A)]),
        Production(Nt::A, vec![Item::Terminal(Tok::Y)]),
        Production(Nt::A, vec![Item::Epsilon]),
    ]
}

fn all_items() -> Vec<Lr0Item<Nt, Tok>> {
    let a = || Item::NonTerminal(Nt::A);
    let x = || Item::Terminal(Tok::X);
    let y = || Item::Terminal(Tok::Y);
    vec![
        lr0(Nt::S, vec![], vec![a(), Item::EndOfInput]),
        lr0(Nt::S, vec![a()], vec![Item::EndOfInput]),
        lr0(Nt::S, vec![a(), Item::EndOfInput], vec![]),
        lr0(Nt::A, vec![], vec![x(), a()]),
        lr0(Nt::A, vec![x()], vec![a()]),
        lr0(Nt::A, vec![x(), a()], vec![]),
        lr0(Nt::A, vec![], vec![y()]),
        lr0(Nt::A, vec![y()], vec![]),
        lr0(Nt::A, vec![], vec![Item::Epsilon]),
        lr0(Nt::A, vec![Item::Epsilon], vec![]),
    ]
}

#[test]
fn from_production_places_the_dot_everywhere() {
    let p = Production(Nt::A, vec![Item::Terminal(Tok::X), Item::NonTerminal(Nt::A)]);
    let items = Lr0Item::from_production(&p);
    assert_eq!(items, all_items()[3..6].to_vec());
    let empty = Production(Nt::S, vec![]);
    assert_eq!(Lr0Item::from_production(&empty), vec![lr0(Nt::S, vec![], vec![])]);
}

#[test]
fn find_shifted_item_finds_the_next_item() {
    let items = all_items();
    assert_eq!(Lr0Item::find_shifted_item(&items[3], &items), Lr0ItemIndex(4));
    assert_eq!(Lr0Item::find_shifted_item(&items[0], &items), Lr0ItemIndex(1));
    assert_eq!(Lr0Item::find_shifted_item(&items[8], &items), Lr0ItemIndex(9));
    // the first of two equal candidates is chosen
    let mut doubled = items.clone();
    doubled.insert(0, items[7].clone());
    assert_eq!(Lr0Item::find_shifted_item(&items[6], &doubled), Lr0ItemIndex(0));
}

#[test]
fn nfa_of_grammar() {
    let nfa = Lr0ItemNfa::new(&productions());
    assert_eq!(nfa.items(), &all_items());
    assert_eq!(
        nfa.terminal_transitions(),
        &vec![
            ((Lr0ItemIndex(1), Terminal::EndOfInput), Lr0ItemIndex(2)),
            ((Lr0ItemIndex(3), Terminal::Terminal(Tok::X)), Lr0ItemIndex(4)),
            ((Lr0ItemIndex(6), Terminal::Terminal(Tok::Y)), Lr0ItemIndex(7)),
        ]
    );
    assert_eq!(
        nfa.non_terminal_transitions(),
        &vec![
            ((Lr0ItemIndex(0), Nt::A), Lr0ItemIndex(1)),
            ((Lr0ItemIndex(4), Nt::A), Lr0ItemIndex(5)),
        ]
    );
    assert!(nfa.epsilon_transitions().is_empty());
}

#[test]
fn nfa_item_index() {
    let nfa = Lr0ItemNfa::new(&productions());
    let items = all_items();
    for (i, item) in items.iter().enumerate() {
        assert_eq!(nfa.get_item_index(item), Lr0ItemIndex(i));
    }
}

#[test]
fn dfa_has_the_start_group() {
    let nfa = Lr0ItemNfa::new(&productions());
    let dfa = Dfa::new(nfa, &Nt::S);
    assert_eq!(dfa.states(), &vec![vec![all_items()[0].clone()]]);
    assert!(dfa.transitions().is_empty());

    let nfa = Lr0ItemNfa::new(&productions());
    let dfa = Dfa::new(nfa, &Nt::A);
    let items = all_items();
    assert_eq!(dfa.states(), &vec![vec![items[3].clone(), items[6].clone(), items[8].clone()]]);
}

#[test]
fn item_group_removes_repeats() {
    let nfa = Lr0ItemNfa::new(&productions());
    let items = all_items();
    let roots = vec![items[3].clone(), items[0].clone(), items[3].clone()];
    let group = Dfa::get_item_group(&roots, &nfa);
    assert_eq!(group, vec![items[3].clone(), items[0].clone()]);
}

#[test]
fn group_transitions_skip_finished_and_epsilon_items() {
    let items = all_items();
    let picked = Dfa::<Nt, Tok>::get_group_transitions(&items);
    let expected: Vec<&Lr0Item<Nt, Tok>> =
        vec![&items[0], &items[1], &items[3], &items[4], &items[6]];
    assert_eq!(picked, expected);
}

#[test]
fn configuration_starts_with_end_marker() {
    let c: Configuration<Nt, Tok> = Configuration::new(vec![Tok::X, Tok::Y]);
    assert_eq!(c.stack(), &vec![Item::EndOfInput]);
    assert_eq!(
        c.input(),
        &vec![Terminal::EndOfInput, Terminal::Terminal(Tok::Y), Terminal::Terminal(Tok::X)]
    );
}

#[test]
fn shift_moves_input_to_stack() {
    let mut c: Configuration<Nt, Tok> = Configuration::new(vec![Tok::X, Tok::Y]);
    assert_eq!(c.try_shift(), Ok(()));
    assert_eq!(c.stack(), &vec![Item::EndOfInput, Item::Terminal(Tok::X)]);
    assert_eq!(c.input(), &vec![Terminal::EndOfInput, Terminal::Terminal(Tok::Y)]);
    assert_eq!(c.try_shift(), Ok(()));
    assert_eq!(c.try_shift(), Ok(()));
    assert_eq!(
        c.stack(),
        &vec![Item::EndOfInput, Item::Terminal(Tok::X), Item::Terminal(Tok::Y), Item::EndOfInput]
    );
    assert!(c.input().is_empty());
    assert_eq!(c.try_shift(), Err(()));
    assert_eq!(c.stack().len(), 4);
}

#[test]
fn reduce_by_empty_production_pushes_head() {
    let mut c: Configuration<Nt, Tok> = Configuration::new(vec![Tok::Y]);
    assert_eq!(c.try_reduce(&Production(Nt::A, vec![])), Ok(()));
    assert_eq!(c.stack(), &vec![Item::EndOfInput, Item::NonTerminal(Nt::A)]);
    assert_eq!(c.input(), &vec![Terminal::EndOfInput, Terminal::Terminal(Tok::Y)]);
}

#[test]
fn every_item_splits_its_body() {
    for p in productions() {
        let items = Lr0Item::from_production(&p);
        assert_eq!(items.len(), p.1.len() + 1);
        for (i, item) in items.iter().enumerate() {
            assert_eq!(item.nonterminal, p.0);
            assert_eq!(item.parsed.len(), i);
            let mut whole = item.parsed.clone();
            whole.extend(item.potential.iter().cloned());
            assert_eq!(whole, p.1);
        }
    }
}
