use lr_automaton::analysis::{contains_name, first, follow, nullable};
use lr_automaton::grammar::{Character, Grammer, Nonterminal, Terminal};
use lr_automaton::termsets::{add_char, TermSets};

fn nt(s: &str) -> Nonterminal {
    Nonterminal::from(s.to_string())
}

fn sym(s: &str) -> Character {
    Character::from(nt(s))
}

/// S -> E '+' E, E -> 'a' E, E -> (empty)
fn example() -> Vec<Grammer> {
    vec![
        Grammer::new(nt("S"), vec![sym("E"), Character::from('+'), sym("E")]),
        Grammer::new(nt("E"), vec![Character::from('a'), sym("E")]),
        Grammer::new(nt("E"), vec![]),
    ]
}

fn sorted(mut v: Vec<char>) -> Vec<char> {
    v.sort();
    v
}

#[test]
fn example_nullable_is_e() {
    let g = example();
    let mut null = Vec::new();
    nullable(&g, &mut null);
    assert_eq!(null.len(), 1);
    assert!(contains_name(&null, &nt("E")));
    assert!(!contains_name(&null, &nt("S")));
}

#[test]
fn example_first_sets() {
    let g = example();
    let mut null = Vec::new();
    nullable(&g, &mut null);
    let mut firsts = TermSets::new();
    first(&g, &null, &mut firsts);
    assert_eq!(sorted(firsts.get(&nt("E"))), vec!['a']);
    // S -> E '+' E: E is nullable, so the scan goes on to '+'.
    assert_eq!(sorted(firsts.get(&nt("S"))), vec!['+', 'a']);
}

#[test]
fn example_follow_sets() {
    let g = example();
    let mut null = Vec::new();
    nullable(&g, &mut null);
    let mut firsts = TermSets::new();
    first(&g, &null, &mut firsts);
    let mut follows = TermSets::new();
    follow(&g, &null, &firsts, &mut follows);
    assert_eq!(sorted(follows.get(&nt("E"))), vec!['+']);
    assert!(follows.get(&nt("S")).is_empty());
}

#[test]
fn nullable_rerun_changes_nothing() {
    let g = example();
    let mut null = Vec::new();
    nullable(&g, &mut null);
    let mut again = null.clone();
    nullable(&g, &mut again);
    assert_eq!(again.len(), null.len());
    assert!(contains_name(&again, &nt("E")));
}

#[test]
fn epsilon_production_makes_left_nullable() {
    let g = vec![
        Grammer::new(nt("A"), vec![]),
        Grammer::new(nt("B"), vec![sym("A"), sym("A")]),
        Grammer::new(nt("C"), vec![sym("A"), Character::from('x')]),
    ];
    let mut null = Vec::new();
    nullable(&g, &mut null);
    assert!(contains_name(&null, &nt("A")));
    assert!(contains_name(&null, &nt("B")));
    assert!(!contains_name(&null, &nt("C")));
}

#[test]
fn nullable_of_empty_grammar_keeps_seed() {
    let g: Vec<Grammer> = vec![];
    let mut null = vec![nt("Z")];
    nullable(&g, &mut null);
    assert_eq!(null.len(), 1);
}

#[test]
fn nullable_tail_propagates_first_and_follow() {
    // N -> M, M -> 'b' | (empty), T -> N 'c'
    let g = vec![
        Grammer::new(nt("T"), vec![sym("N"), Character::from('c')]),
        Grammer::new(nt("N"), vec![sym("M")]),
        Grammer::new(nt("M"), vec![Character::from('b')]),
        Grammer::new(nt("M"), vec![]),
    ];
    let mut null = Vec::new();
    nullable(&g, &mut null);
    let mut firsts = TermSets::new();
    first(&g, &null, &mut firsts);
    let mut follows = TermSets::new();
    follow(&g, &null, &firsts, &mut follows);
    assert_eq!(sorted(firsts.get(&nt("N"))), vec!['b']);
    assert_eq!(sorted(follows.get(&nt("N"))), vec!['c']);
    assert_eq!(sorted(follows.get(&nt("M"))), vec!['c']);
}

#[test]
fn follow_takes_first_of_next_nonterminal() {
    // S -> A B, A -> 'x', B -> 'y'
    let g = vec![
        Grammer::new(nt("S"), vec![sym("A"), sym("B")]),
        Grammer::new(nt("A"), vec![Character::from('x')]),
        Grammer::new(nt("B"), vec![Character::from('y')]),
    ];
    let mut null = Vec::new();
    nullable(&g, &mut null);
    assert!(null.is_empty());
    let mut firsts = TermSets::new();
    first(&g, &null, &mut firsts);
    assert_eq!(sorted(firsts.get(&nt("S"))), vec!['x']);
    let mut follows = TermSets::new();
    follow(&g, &null, &firsts, &mut follows);
    assert_eq!(sorted(follows.get(&nt("A"))), vec!['y']);
}

#[test]
fn follow_through_last_terminal_takes_left_follow() {
    // P -> Q 'z' with 'z' last: Follow(P) flows into Follow(Q).
    // R -> P 'w' gives Follow(P) = {w}.
    let g = vec![
        Grammer::new(nt("R"), vec![sym("P"), Character::from('w')]),
        Grammer::new(nt("P"), vec![sym("Q"), Character::from('z')]),
        Grammer::new(nt("Q"), vec![Character::from('q')]),
    ];
    let null: Vec<Nonterminal> = Vec::new();
    let mut firsts = TermSets::new();
    first(&g, &null, &mut firsts);
    let mut follows = TermSets::new();
    follow(&g, &null, &firsts, &mut follows);
    assert_eq!(sorted(follows.get(&nt("P"))), vec!['w']);
    assert_eq!(sorted(follows.get(&nt("Q"))), vec!['w', 'z']);
}

#[test]
fn end_marker_adds_nothing_to_first() {
    let g = vec![Grammer::new(nt("S"), vec![Character::from(Terminal::EOS), Character::from('a')])];
    let null: Vec<Nonterminal> = Vec::new();
    let mut firsts = TermSets::new();
    first(&g, &null, &mut firsts);
    assert!(firsts.get(&nt("S")).is_empty());
}

#[test]
fn add_char_reports_new_characters() {
    let mut sets = TermSets::new();
    assert!(add_char(&mut sets, &nt("A"), 'x'));
    assert!(!add_char(&mut sets, &nt("A"), 'x'));
    assert!(add_char(&mut sets, &nt("A"), 'y'));
    assert!(add_char(&mut sets, &nt("B"), 'x'));
    assert_eq!(sorted(sets.get(&nt("A"))), vec!['x', 'y']);
    assert_eq!(sets.get(&nt("B")), vec!['x']);
    assert!(sets.get(&nt("C")).is_empty());
}
