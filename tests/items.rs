use lr_automaton::grammar::{Character, Grammer, Nonterminal};
use lr_automaton::graph::{Arena, Same};
use lr_automaton::items::{build_automaton, closure, contains_item, insert_dots, ItemSet};

fn nt(s: &str) -> Nonterminal {
    Nonterminal::from(s.to_string())
}

fn sym(s: &str) -> Character {
    Character::from(nt(s))
}

fn example() -> Vec<Grammer> {
    vec![
        Grammer::new(nt("S"), vec![sym("E"), Character::from('+'), sym("E")]),
        Grammer::new(nt("E"), vec![Character::from('a'), sym("E")]),
        Grammer::new(nt("E"), vec![]),
    ]
}

fn item(left: &str, right: Vec<Character>, dot: usize) -> Grammer {
    Grammer::new(nt(left), right).with_dot(dot)
}

#[test]
fn insert_dots_gives_every_position() {
    let u = insert_dots(example());
    assert_eq!(u.len(), 4 + 3 + 1);
    assert_eq!(u[0].dot_pos, Some(0));
    assert_eq!(u[3].dot_pos, Some(3));
    assert_eq!(u[4].dot_pos, Some(0));
    assert_eq!(u[7].dot_pos, Some(0));
    assert!(u[7].right.is_empty());
}

#[test]
fn closure_of_start_item() {
    let u = insert_dots(example());
    let start = example()[0].with_dot(0);
    let c = closure(start, &u);
    assert_eq!(c.items.len(), 3);
    assert!(contains_item(&c.items, &item("S", vec![sym("E"), Character::from('+'), sym("E")], 0)));
    assert!(contains_item(&c.items, &item("E", vec![Character::from('a'), sym("E")], 0)));
    assert!(contains_item(&c.items, &item("E", vec![], 0)));
}

#[test]
fn closure_before_terminal_is_single() {
    let u = insert_dots(example());
    let c = closure(item("E", vec![Character::from('a'), sym("E")], 0), &u);
    assert_eq!(c.items.len(), 1);
    let c = closure(item("E", vec![], 0), &u);
    assert_eq!(c.items.len(), 1);
}

#[test]
fn closure_is_idempotent() {
    let u = insert_dots(example());
    let c = closure(example()[0].with_dot(0), &u);
    for x in c.items.iter() {
        let again = closure(x.copy(), &u);
        for y in again.items.iter() {
            assert!(contains_item(&c.items, y));
        }
    }
}

#[test]
fn closure_ends_on_left_recursion() {
    // L -> L 'x' | 'y'
    let g = vec![
        Grammer::new(nt("L"), vec![sym("L"), Character::from('x')]),
        Grammer::new(nt("L"), vec![Character::from('y')]),
    ];
    let u = insert_dots(g);
    let c = closure(item("L", vec![sym("L"), Character::from('x')], 0), &u);
    assert_eq!(c.items.len(), 2);
}

#[test]
fn item_sets_compare_as_sets() {
    let a = ItemSet { items: vec![item("E", vec![], 0), item("S", vec![sym("E")], 1)] };
    let b = ItemSet { items: vec![item("S", vec![sym("E")], 1), item("E", vec![], 0)] };
    let c = ItemSet { items: vec![item("S", vec![sym("E")], 1)] };
    assert!(a.same(&b));
    assert!(!a.same(&c));
}

#[test]
fn automaton_of_example() {
    let u = insert_dots(example());
    let start = example()[0].with_dot(0);
    let a = build_automaton(&start, &u);
    assert_eq!(a.nodes[0].id, 0);
    assert_eq!(a.nodes[0].value.items.len(), 3);
    let to = a.edge(0, &sym("E")).unwrap();
    assert!(contains_item(&a.nodes[to].value.items, &item("S", vec![sym("E"), Character::from('+'), sym("E")], 1)));
    let on_a = a.edge(0, &Character::from('a')).unwrap();
    assert!(on_a != to);
    assert!(a.edge(0, &Character::from('+')).is_none());
    for (i, n) in a.nodes.iter().enumerate() {
        assert_eq!(n.id, i);
    }
    for i in 0..a.nodes.len() {
        for j in (i + 1)..a.nodes.len() {
            assert!(!a.nodes[i].value.same(&a.nodes[j].value));
        }
    }
}

#[test]
fn arena_push_get_and_edges() {
    let mut a: Arena<ItemSet> = Arena::new();
    a.push(ItemSet { items: vec![item("E", vec![], 0)] });
    a.push(ItemSet { items: vec![item("S", vec![sym("E")], 1)] });
    assert_eq!(a.nodes.len(), 2);
    assert_eq!(a.edges.len(), 2);
    let probe = ItemSet { items: vec![item("S", vec![sym("E")], 1)] };
    assert_eq!(a.get(&probe).unwrap().id, 1);
    assert_eq!(a.find(&probe), Some(1));
    let missing = ItemSet { items: vec![item("S", vec![sym("E")], 0)] };
    assert!(a.get(&missing).is_none());
    a.add_edge(0, sym("E"), 1);
    a.add_edge(0, sym("E"), 0);
    assert_eq!(a.edge(0, &sym("E")), Some(0));
    assert_eq!(a.edges[0].len(), 1);
    assert_eq!(a.edge(1, &sym("E")), None);
    if let Some(n) = a.get_mut(&probe) {
        n.value.items.push(item("E", vec![], 0));
    }
    assert_eq!(a.nodes[1].value.items.len(), 2);
}
