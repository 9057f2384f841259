use vstd::prelude::*;
use crate::grammar::{Character, Grammer, Prod, Sym, prods};
use crate::graph::{Arena, Node, Same};

verus! {

/// A set of items, held as a list.
#[derive(Debug)]
pub struct ItemSet {
    pub items: Vec<Grammer>,
}

impl View for ItemSet {
    type V = Set<Prod>;

    open spec fn view(&self) -> Set<Prod> {
        prods(self.items@).to_set()
    }
}

/// Whether some entry of `v` agrees with `x` in left side, right side and dot.
pub fn contains_item(v: &Vec<Grammer>, x: &Grammer) -> (r: bool)
    ensures
        r == prods(v@).contains(x@),
{
    let mut i: usize = 0;
    while i < v.len()
        invariant
            i <= v@.len(),
            forall|k: int| 0 <= k < i ==> (#[trigger] v@[k])@ != x@,
        decreases v@.len() - i,
    {
        if v[i].same(x) {
            assert(prods(v@)[i as int] == x@);
            return true;
        }
        i = i + 1;
    }
    assert(!prods(v@).contains(x@)) by {
        if prods(v@).contains(x@) {
            let k = choose|k: int| 0 <= k < prods(v@).len() && prods(v@)[k] == x@;
            assert(v@[k]@ == x@);
        }
    }
    false
}

/// Whether every entry of `a` agrees with some entry of `b`.
fn included(a: &Vec<Grammer>, b: &Vec<Grammer>) -> (r: bool)
    ensures
        r == prods(a@).to_set().subset_of(prods(b@).to_set()),
{
    let mut i: usize = 0;
    while i < a.len()
        invariant
            i <= a@.len(),
            forall|k: int| 0 <= k < i ==> prods(b@).contains(#[trigger] prods(a@)[k]),
        decreases a@.len() - i,
    {
        if !contains_item(b, &a[i]) {
            assert(prods(a@).to_set().contains(prods(a@)[i as int]));
            return false;
        }
        i = i + 1;
    }
    assert forall|x: Prod| prods(a@).to_set().contains(x) implies prods(b@).to_set().contains(x) by {
        let k = choose|k: int| 0 <= k < prods(a@).len() && prods(a@)[k] == x;
    }
    true
}

impl Same for ItemSet {
    open spec fn same_spec(&self, o: &ItemSet) -> bool {
        self@ == o@
    }

    /// Item sets are the same when they hold the same items, in any order.
    fn same(&self, o: &ItemSet) -> (r: bool) {
        let r = included(&self.items, &o.items) && included(&o.items, &self.items);
        proof {
            if r {
                assert(self@ =~= o@);
            }
        }
        r
    }
}

// ---------------------------------------------------------------------------
// The item universe.

/// `p` with its dot at `k`.
pub open spec fn dotted(p: Prod, k: int) -> Prod {
    Prod { left: p.left, right: p.right, dot: Some(k as usize) }
}

/// Every dotted variant of `p`, dot from 0 to the length of its right side.
pub open spec fn all_dots(p: Prod) -> Seq<Prod> {
    Seq::new((p.right.len() + 1) as nat, |k: int| dotted(p, k))
}

/// Every dotted variant of every production, production by production.
pub open spec fn universe(g: Seq<Prod>) -> Seq<Prod> {
    g.map_values(|p: Prod| all_dots(p)).flatten_alt()
}

/// Expands each production into its items, the dot at every position from
/// the start to the end of the right side.
pub fn insert_dots(grammers: Vec<Grammer>) -> (r: Vec<Grammer>)
    ensures
        prods(r@) == universe(prods(grammers@)),
{
    let mut ret: Vec<Grammer> = Vec::new();
    let mut i: usize = 0;
    while i < grammers.len()
        invariant
            i <= grammers@.len(),
            prods(ret@) == universe(prods(grammers@).subrange(0, i as int)),
        decreases grammers@.len() - i,
    {
        let g = &grammers[i];
        let ghost before = ret@;
        let len = g.right.len();
        let mut k: usize = 0;
        loop
            invariant_except_break
                ret@.len() == before.len() + k,
                forall|m: int| 0 <= m < k ==> (#[trigger] ret@[before.len() + m])@ == dotted(g@, m),
            invariant
                k <= len,
                len == g.right@.len(),
                forall|m: int| 0 <= m < before.len() ==> ret@[m] == before[m],
            ensures
                ret@.len() == before.len() + len + 1,
                forall|m: int| 0 <= m < before.len() ==> ret@[m] == before[m],
                forall|m: int| 0 <= m <= len ==> (#[trigger] ret@[before.len() + m])@ == dotted(g@, m),
            decreases len - k,
        {
            ret.push(g.with_dot(k));
            assert(ret@[before.len() + k]@ == dotted(g@, k as int));
            if k == len {
                break;
            }
            k = k + 1;
        }
        proof {
            let gs = prods(grammers@).subrange(0, i + 1);
            let xss = gs.map_values(|p: Prod| all_dots(p));
            assert(gs.drop_last() =~= prods(grammers@).subrange(0, i as int));
            assert(xss.drop_last() =~= gs.drop_last().map_values(|p: Prod| all_dots(p)));
            assert(xss.last() == all_dots(g@));
            assert(prods(ret@) =~= prods(before) + all_dots(g@)) by {
                assert forall|m: int| 0 <= m < ret@.len() implies prods(ret@)[m] == (prods(before) + all_dots(g@))[m] by {
                    if m >= before.len() {
                        assert(ret@[before.len() + (m - before.len())]@ == dotted(g@, m - before.len()));
                    }
                }
            }
        }
        i = i + 1;
    }
    assert(prods(grammers@).subrange(0, grammers@.len() as int) =~= prods(grammers@));
    ret
}

// ---------------------------------------------------------------------------
// Closure.

/// The dot of `x` stands before the nonterminal that `y` rewrites, and the
/// dot of `y` is at its start.
pub open spec fn expands(x: Prod, y: Prod) -> bool {
    match x.dot {
        Some(d) => d < x.right.len() && x.right[d as int] == Sym::N(y.left) && y.dot == Some(0usize),
        None => false,
    }
}

/// Each item of `u` that an item of `s` expands to is in `s`.
pub open spec fn closed_under(s: Set<Prod>, u: Seq<Prod>) -> bool {
    forall|x: Prod, i: int| s.contains(x) && 0 <= i < u.len() && #[trigger] expands(x, u[i]) ==> s.contains(u[i])
}

/// `r` is the least set that holds `x` and is closed under expansion by the
/// items of `u`.
pub open spec fn least_closure(x: Prod, u: Seq<Prod>, r: Set<Prod>) -> bool {
    &&& r.contains(x)
    &&& closed_under(r, u)
    &&& forall|t: Set<Prod>| #[trigger] closed_under(t, u) && t.contains(x) ==> r.subset_of(t)
}

/// An item whose dot stands within its right side.
pub open spec fn dot_ok(x: Prod) -> bool {
    match x.dot {
        Some(d) => d <= x.right.len(),
        None => false,
    }
}

/// A sequence without duplicates whose entries are `x` or lie in `u` is at
/// most one longer than `u`.
pub proof fn lemma_distinct_bound(s: Seq<Prod>, u: Seq<Prod>, x: Prod)
    requires
        s.no_duplicates(),
        forall|k: int| 0 <= k < s.len() ==> s[k] == x || u.contains(#[trigger] s[k]),
    ensures
        s.len() <= u.len() + 1,
{
    s.unique_seq_to_set();
    u.lemma_cardinality_of_set();
    let big = u.to_set().insert(x);
    assert(s.to_set().subset_of(big)) by {
        assert forall|y: Prod| s.to_set().contains(y) implies big.contains(y) by {
            let k = choose|k: int| 0 <= k < s.len() && s[k] == y;
            if y != x {
                assert(u.contains(s[k]));
            }
        }
    }
    vstd::set_lib::lemma_len_subset(s.to_set(), big);
}

/// The items reachable from `g` by expanding the nonterminal after the dot
/// with the start items of `grammers`, again and again; each nonterminal's
/// items are taken once, so recursive grammars end too.
pub fn closure(g: Grammer, grammers: &[Grammer]) -> (r: ItemSet)
    requires
        dot_ok(g@),
    ensures
        least_closure(g@, prods(grammers@), r@),
        prods(r.items@).no_duplicates(),
        forall|k: int| 0 <= k < r.items@.len() ==> dot_ok(#[trigger] r.items@[k]@),
{
    let ghost x = g@;
    let ghost u = prods(grammers@);
    let mut ret: Vec<Grammer> = Vec::new();
    ret.push(g);
    let mut w: usize = 0;
    proof {
        assert(prods(ret@) =~= seq![x]);
        assert forall|t: Set<Prod>| #[trigger] closed_under(t, u) && t.contains(x) implies prods(ret@).to_set().subset_of(t) by {
            assert forall|y: Prod| prods(ret@).to_set().contains(y) implies t.contains(y) by {
                assert(prods(ret@)[0] == y);
            }
        }
    }
    while w < ret.len()
        invariant
            u == prods(grammers@),
            1 <= ret@.len(),
            prods(ret@)[0] == x,
            w <= ret@.len(),
            ret@.len() <= u.len() + 1,
            prods(ret@).no_duplicates(),
            forall|k: int| 0 <= k < ret@.len() ==> (#[trigger] ret@[k])@ == x || u.contains(ret@[k]@),
            forall|k: int| 0 <= k < ret@.len() ==> dot_ok(#[trigger] ret@[k]@),
            forall|k: int, i: int| 0 <= k < w && 0 <= i < u.len() && #[trigger] expands(ret@[k]@, u[i])
                ==> prods(ret@).contains(u[i]),
            forall|t: Set<Prod>| #[trigger] closed_under(t, u) && t.contains(x) ==> prods(ret@).to_set().subset_of(t),
        decreases u.len() + 1 - w,
    {
        let cur = ret[w].copy();
        assert(cur@ == prods(ret@)[w as int]);
        if let Some(d) = cur.dot_pos {
            if d < cur.right.len() {
                if let Character::Nonterminal(n) = &cur.right[d] {
                    assert(cur@.right[d as int] == Sym::N(n@));
                    let mut i: usize = 0;
                    while i < grammers.len()
                        invariant
                            u == prods(grammers@),
                            1 <= ret@.len(),
                            prods(ret@)[0] == x,
                            w < ret@.len(),
                            cur@ == ret@[w as int]@,
                            cur@.dot == Some(d),
                            d < cur@.right.len(),
                            cur@.right[d as int] == Sym::N(n@),
                            i <= grammers@.len(),
                            ret@.len() <= u.len() + 1,
                            prods(ret@).no_duplicates(),
                            forall|k: int| 0 <= k < ret@.len() ==> (#[trigger] ret@[k])@ == x || u.contains(ret@[k]@),
                            forall|k: int| 0 <= k < ret@.len() ==> dot_ok(#[trigger] ret@[k]@),
                            forall|k: int, i: int| 0 <= k < w && 0 <= i < u.len() && #[trigger] expands(ret@[k]@, u[i])
                                ==> prods(ret@).contains(u[i]),
                            forall|j: int| 0 <= j < i && #[trigger] expands(cur@, u[j]) ==> prods(ret@).contains(u[j]),
                            forall|t: Set<Prod>| #[trigger] closed_under(t, u) && t.contains(x) ==> prods(ret@).to_set().subset_of(t),
                        decreases grammers@.len() - i,
                    {
                        let gg = &grammers[i];
                        assert(u[i as int] == gg@);
                        if gg.left.eq(n) && gg.dot_pos == Some(0usize) && !contains_item(&ret, gg) {
                            let ghost before = ret@;
                            ret.push(gg.copy());
                            proof {
                                assert(expands(cur@, u[i as int]));
                                assert(prods(ret@) =~= prods(before).push(gg@));
                                assert(prods(ret@).no_duplicates()) by {
                                    assert forall|a: int, b: int| 0 <= a < b < prods(ret@).len() implies prods(ret@)[a] != prods(ret@)[b] by {
                                        if b == before.len() {
                                            assert(prods(before)[a] == prods(ret@)[a]);
                                        } else {
                                            assert(prods(before)[a] != prods(before)[b]);
                                        }
                                    }
                                }
                                assert forall|k: int| 0 <= k < ret@.len() implies (#[trigger] ret@[k])@ == x || u.contains(ret@[k]@) by {
                                    if k < before.len() {
                                        assert(before[k] == ret@[k]);
                                    } else {
                                        assert(u[i as int] == ret@[k]@);
                                    }
                                }
                                assert forall|k: int| 0 <= k < ret@.len() implies dot_ok(#[trigger] ret@[k]@) by {
                                    if k < before.len() {
                                        assert(before[k] == ret@[k]);
                                    }
                                }
                                lemma_distinct_bound(prods(ret@), u, x);
                                assert forall|t: Set<Prod>| #[trigger] closed_under(t, u) && t.contains(x)
                                    implies prods(ret@).to_set().subset_of(t) by {
                                    assert(prods(before).to_set().subset_of(t));
                                    assert(prods(before).to_set().contains(cur@)) by {
                                        assert(prods(before)[w as int] == cur@);
                                    }
                                    assert(t.contains(u[i as int]));
                                    assert forall|y: Prod| prods(ret@).to_set().contains(y) implies t.contains(y) by {
                                        let k = choose|k: int| 0 <= k < prods(ret@).len() && prods(ret@)[k] == y;
                                        if k < before.len() {
                                            assert(prods(before)[k] == y);
                                            assert(prods(before).to_set().contains(y));
                                        }
                                    }
                                }
                                assert forall|k: int, j: int| 0 <= k < w && 0 <= j < u.len() && #[trigger] expands(ret@[k]@, u[j])
                                    implies prods(ret@).contains(u[j]) by {
                                    assert(before[k] == ret@[k]);
                                    assert(prods(before).contains(u[j]));
                                    let m = choose|m: int| 0 <= m < prods(before).len() && prods(before)[m] == u[j];
                                    assert(prods(ret@)[m] == u[j]);
                                }
                                assert forall|j: int| 0 <= j < i + 1 && #[trigger] expands(cur@, u[j]) implies prods(ret@).contains(u[j]) by {
                                    if j < i {
                                        assert(prods(before).contains(u[j]));
                                        let m = choose|m: int| 0 <= m < prods(before).len() && prods(before)[m] == u[j];
                                        assert(prods(ret@)[m] == u[j]);
                                    } else {
                                        assert(prods(ret@)[before.len() as int] == u[j]);
                                    }
                                }
                            }
                        }
                        i = i + 1;
                    }
                }
            }
        }
        proof {
            assert forall|k: int, i: int| 0 <= k < w + 1 && 0 <= i < u.len() && #[trigger] expands(ret@[k]@, u[i])
                implies prods(ret@).contains(u[i]) by {
                if k == w {
                    assert(ret@[k]@ == cur@);
                }
            }
        }
        w = w + 1;
    }
    let r = ItemSet { items: ret };
    proof {
        assert(r@.contains(x)) by {
            assert(prods(r.items@)[0] == x);
        }
        assert forall|y: Prod, i: int| r@.contains(y) && 0 <= i < u.len() && #[trigger] expands(y, u[i]) implies r@.contains(u[i]) by {
            let k = choose|k: int| 0 <= k < prods(r.items@).len() && prods(r.items@)[k] == y;
            assert(r.items@[k]@ == y);
            assert(prods(r.items@).contains(u[i]));
        }
    }
    r
}

/// Closing again adds nothing: the closure of any item of a closure lies
/// within it.
pub proof fn lemma_closure_idempotent(x: Prod, u: Seq<Prod>, r: Set<Prod>, y: Prod, ry: Set<Prod>)
    requires
        least_closure(x, u, r),
        r.contains(y),
        least_closure(y, u, ry),
    ensures
        ry.subset_of(r),
        r.contains(y) && ry.contains(y),
{
}

/// A closure is closed: no item that expansion gives is missing from it.
pub proof fn lemma_closure_closed(x: Prod, u: Seq<Prod>, r: Set<Prod>, y: Prod, i: int)
    requires
        least_closure(x, u, r),
        r.contains(y),
        0 <= i < u.len(),
        expands(y, u[i]),
    ensures
        r.contains(u[i]),
{
}

// ---------------------------------------------------------------------------
// The automaton.

/// `z` is a production of `base` with its dot somewhere within its right side.
pub open spec fn in_dom(base: Seq<Prod>, z: Prod) -> bool {
    exists|i: int, k: int| 0 <= i < base.len() && 0 <= k <= base[i].right.len() && z == dotted(base[i], k)
}

/// Each item of the domain lies in the universe of `base`.
pub proof fn lemma_in_dom_universe(base: Seq<Prod>, z: Prod)
    requires
        in_dom(base, z),
    ensures
        universe(base).contains(z),
{
    let (i, k) = choose|i: int, k: int| 0 <= i < base.len() && 0 <= k <= base[i].right.len() && z == dotted(base[i], k);
    let xss = base.map_values(|p: Prod| all_dots(p));
    xss.lemma_flatten_and_flatten_alt_are_equivalent();
    assert(xss[i][k] == z);
    crate::termsets::lemma_flatten_contains(xss, i, k);
}

/// Two least closures of one item are equal.
pub proof fn lemma_closure_unique(x: Prod, u: Seq<Prod>, r: Set<Prod>, r2: Set<Prod>)
    requires
        least_closure(x, u, r),
        least_closure(x, u, r2),
    ensures
        r == r2,
{
    assert(r.subset_of(r2));
    assert(r2.subset_of(r));
    assert(r =~= r2);
}

/// A closure holds only its item and items of `u`.
pub proof fn lemma_closure_within(x: Prod, u: Seq<Prod>, r: Set<Prod>)
    requires
        least_closure(x, u, r),
    ensures
        forall|z: Prod| #[trigger] r.contains(z) ==> z == x || u.contains(z),
{
    let t = u.to_set().insert(x);
    assert(closed_under(t, u)) by {
        assert forall|y: Prod, i: int| t.contains(y) && 0 <= i < u.len() && #[trigger] expands(y, u[i]) implies t.contains(u[i]) by {
            assert(u.to_set().contains(u[i]));
        }
    }
    assert(r.subset_of(t));
}

/// `x` with its dot moved one symbol on.
pub open spec fn advance(x: Prod) -> Prod {
    Prod { left: x.left, right: x.right, dot: Some((x.dot.unwrap() + 1) as usize) }
}

/// The symbol after the dot of `x`.
pub open spec fn next_sym(x: Prod) -> Sym {
    x.right[x.dot.unwrap() as int]
}

/// An item whose dot stands before a symbol.
pub open spec fn can_advance(x: Prod) -> bool {
    x.dot is Some && x.dot.unwrap() < x.right.len()
}

/// A sequence without duplicates, all of whose entries lie in `u`, is no
/// longer than `u`.
pub proof fn lemma_distinct_in<A>(s: Seq<A>, u: Seq<A>)
    requires
        s.no_duplicates(),
        forall|k: int| 0 <= k < s.len() ==> u.contains(#[trigger] s[k]),
    ensures
        s.len() <= u.len(),
{
    s.unique_seq_to_set();
    u.lemma_cardinality_of_set();
    assert(s.to_set().subset_of(u.to_set())) by {
        assert forall|y: A| s.to_set().contains(y) implies u.to_set().contains(y) by {
            let k = choose|k: int| 0 <= k < s.len() && s[k] == y;
            assert(u.contains(s[k]));
        }
    }
    vstd::set_lib::lemma_len_subset(s.to_set(), u.to_set());
}

/// State `t` is the closure of an item of an earlier state, advanced.
pub open spec fn found_from_earlier(a: Arena<ItemSet>, u: Seq<Prod>, t: int) -> bool {
    exists|s: int, x: Prod| 0 <= s < t && #[trigger] a.nodes@[s].value@.contains(x) && can_advance(x)
        && least_closure(advance(x), u, a.nodes@[t].value@)
}

/// The closure of `x` advanced is one of the states.
pub open spec fn has_successor(a: Arena<ItemSet>, u: Seq<Prod>, x: Prod) -> bool {
    exists|t: int| 0 <= t < a.nodes@.len() && least_closure(advance(x), u, #[trigger] a.nodes@[t].value@)
}

/// What holds of every state and edge of the automaton built from the
/// items of `u`: each state is the closure of some item of the domain, no
/// two states hold the same items, and each edge leads from a state, by the
/// symbol after the dot of one of its items, to the closure of that item
/// advanced.
pub open spec fn automaton_ok(a: Arena<ItemSet>, u: Seq<Prod>, gens: Seq<Prod>, base: Seq<Prod>) -> bool {
    &&& a.wf()
    &&& 1 <= a.nodes@.len()
    &&& gens.len() == a.nodes@.len()
    &&& forall|s: int| 0 <= s < gens.len() ==> least_closure(gens[s], u, #[trigger] a.nodes@[s].value@)
    &&& forall|s: int| 0 <= s < gens.len() ==> in_dom(base, #[trigger] gens[s])
    &&& forall|s: int, k: int| 0 <= s < gens.len() && 0 <= k < a.nodes@[s].value.items@.len()
        ==> dot_ok(#[trigger] a.nodes@[s].value.items@[k]@)
    &&& forall|s: int, t: int| 0 <= s < t < a.nodes@.len() ==> (#[trigger] a.nodes@[s]).value@ != (#[trigger] a.nodes@[t]).value@
    &&& forall|t: int| 1 <= t < a.nodes@.len() ==> found_from_earlier(a, u, t)
    &&& forall|s: int, sym: Sym| 0 <= s < a.nodes@.len() && (#[trigger] a.target(s, sym)) is Some ==> {
        let t = a.target(s, sym).unwrap() as int;
        &&& 0 <= t < a.nodes@.len()
        &&& exists|x: Prod| #[trigger] a.nodes@[s].value@.contains(x) && can_advance(x) && next_sym(x) == sym
            && least_closure(advance(x), u, a.nodes@[t].value@)
    }
}

/// An edge to an existing state keeps what the automaton promises.
pub proof fn lemma_edge_step(
    a: Arena<ItemSet>,
    b: Arena<ItemSet>,
    u: Seq<Prod>,
    gens: Seq<Prod>,
    base: Seq<Prod>,
    from: int,
    x: Prod,
    sym: Sym,
    t: int,
)
    requires
        automaton_ok(a, u, gens, base),
        0 <= from < a.nodes@.len(),
        0 <= t < a.nodes@.len(),
        a.nodes@[from].value@.contains(x),
        can_advance(x),
        next_sym(x) == sym,
        least_closure(advance(x), u, a.nodes@[t].value@),
        b.wf(),
        b.nodes@ == a.nodes@,
        b.edges@.len() == a.edges@.len(),
        forall|i: int| 0 <= i < a.edges@.len() && i != from ==> b.edges@[i] == a.edges@[i],
        forall|s: Sym| #[trigger] b.target(from, s) == if s == sym { Some(t as usize) } else { a.target(from, s) },
    ensures
        automaton_ok(b, u, gens, base),
        forall|s: int, sy: Sym| 0 <= s < a.nodes@.len() && (#[trigger] a.target(s, sy)) is Some ==> b.target(s, sy) is Some,
        b.target(from, sym) is Some,
        forall|y: Prod| has_successor(a, u, y) ==> #[trigger] has_successor(b, u, y),
        has_successor(b, u, x),
{
    assert forall|t: int| 1 <= t < b.nodes@.len() implies found_from_earlier(b, u, t) by {
        assert(found_from_earlier(a, u, t));
    }
    assert forall|y: Prod| has_successor(a, u, y) implies #[trigger] has_successor(b, u, y) by {
        let t = choose|t: int| 0 <= t < a.nodes@.len() && least_closure(advance(y), u, #[trigger] a.nodes@[t].value@);
        assert(b.nodes@[t] == a.nodes@[t]);
    }
    assert(least_closure(advance(x), u, b.nodes@[t].value@));
    assert forall|s: int, sy: Sym| 0 <= s < b.nodes@.len() && (#[trigger] b.target(s, sy)) is Some implies ({
        let tt = b.target(s, sy).unwrap() as int;
        &&& 0 <= tt < b.nodes@.len()
        &&& exists|y: Prod| #[trigger] b.nodes@[s].value@.contains(y) && can_advance(y) && next_sym(y) == sy
            && least_closure(advance(y), u, b.nodes@[tt].value@)
    }) by {
        if s != from || sy != sym {
            assert(b.target(s, sy) == a.target(s, sy));
        } else {
            assert(b.nodes@[s].value@.contains(x));
        }
    }
    assert forall|s: int, sy: Sym| 0 <= s < a.nodes@.len() && (#[trigger] a.target(s, sy)) is Some implies b.target(s, sy) is Some by {
        if s != from || sy != sym {
            assert(b.target(s, sy) == a.target(s, sy));
        }
    }
}

/// A new state, and the edge to it, keep what the automaton promises.
pub proof fn lemma_after_step(
    a: Arena<ItemSet>,
    mid: Arena<ItemSet>,
    b: Arena<ItemSet>,
    u: Seq<Prod>,
    gens: Seq<Prod>,
    gens2: Seq<Prod>,
    base: Seq<Prod>,
    from: int,
    x: Prod,
    sym: Sym,
    to: int,
    cls: Set<Prod>,
    cls_items: Seq<Grammer>,
)
    requires
        automaton_ok(a, u, gens, base),
        0 <= from < a.nodes@.len(),
        a.nodes@[from].value@.contains(x),
        can_advance(x),
        next_sym(x) == sym,
        least_closure(advance(x), u, cls),
        in_dom(base, advance(x)),
        gens2 == gens.push(advance(x)),
        forall|k: int| 0 <= k < a.nodes@.len() ==> (#[trigger] a.nodes@[k]).value@ != cls,
        prods(cls_items).to_set() == cls,
        forall|k: int| 0 <= k < cls_items.len() ==> dot_ok(#[trigger] cls_items[k]@),
        mid.wf(),
        mid.nodes@ == a.nodes@.push(Node { id: a.nodes@.len() as usize, value: mid.nodes@.last().value }),
        mid.nodes@.last().value.items@ == cls_items,
        mid.edges@.len() == a.edges@.len() + 1,
        forall|i: int| 0 <= i < a.edges@.len() ==> mid.edges@[i] == a.edges@[i],
        mid.edges@.last()@ == Seq::<(Character, usize)>::empty(),
        to == a.nodes@.len(),
        b.wf(),
        b.nodes@ == mid.nodes@,
        b.edges@.len() == mid.edges@.len(),
        forall|i: int| 0 <= i < mid.edges@.len() && i != from ==> b.edges@[i] == mid.edges@[i],
        forall|s: Sym| #[trigger] b.target(from, s) == if s == sym { Some(to as usize) } else { mid.target(from, s) },
    ensures
        automaton_ok(b, u, gens2, base),
        forall|s: int, sy: Sym| 0 <= s < a.nodes@.len() && (#[trigger] a.target(s, sy)) is Some ==> b.target(s, sy) is Some,
        b.target(from, sym) is Some,
        b.nodes@.len() == a.nodes@.len() + 1,
        b.nodes@[from] == a.nodes@[from],
        gens2.no_duplicates(),
        forall|s: int| 0 <= s < gens2.len() ==> universe(base).contains(#[trigger] gens2[s]),
        forall|y: Prod| has_successor(a, u, y) ==> #[trigger] has_successor(b, u, y),
        has_successor(b, u, x),
{
    let n = a.nodes@.len() as int;
    assert forall|t: int| 1 <= t < b.nodes@.len() implies found_from_earlier(b, u, t) by {
        if t < n {
            assert(found_from_earlier(a, u, t));
            let (s, y) = choose|s: int, y: Prod| 0 <= s < t && #[trigger] a.nodes@[s].value@.contains(y) && can_advance(y)
                && least_closure(advance(y), u, a.nodes@[t].value@);
            assert(b.nodes@[s] == a.nodes@[s]);
            assert(b.nodes@[t] == a.nodes@[t]);
        } else {
            assert(b.nodes@[from] == a.nodes@[from]);
            assert(b.nodes@[from].value@.contains(x));
        }
    }
    assert forall|y: Prod| has_successor(a, u, y) implies #[trigger] has_successor(b, u, y) by {
        let t = choose|t: int| 0 <= t < a.nodes@.len() && least_closure(advance(y), u, #[trigger] a.nodes@[t].value@);
        assert(b.nodes@[t] == a.nodes@[t]);
    }
    assert(least_closure(advance(x), u, b.nodes@[n].value@));
    assert(b.nodes@[n].value@ == cls);
    assert forall|s: int| 0 <= s < n implies b.nodes@[s] == a.nodes@[s] by {}
    assert forall|s: int, sy: Sym| 0 <= s < n && s != from implies #[trigger] b.target(s, sy) == a.target(s, sy) by {
        assert(b.edges@[s] == a.edges@[s]);
    }
    assert forall|sy: Sym| #[trigger] b.target(n, sy) == None::<usize> by {
        assert(b.edges@[n] == mid.edges@[n]);
    }
    assert forall|sy: Sym| sy != sym implies #[trigger] b.target(from, sy) == a.target(from, sy) by {
        assert(mid.edges@[from] == a.edges@[from]);
    }
    assert forall|s: int| 0 <= s < gens2.len() implies least_closure(gens2[s], u, #[trigger] b.nodes@[s].value@) by {
        if s < n {
            assert(b.nodes@[s] == a.nodes@[s]);
        }
    }
    assert forall|s: int| 0 <= s < gens2.len() implies in_dom(base, #[trigger] gens2[s]) by {
        if s < n {
            assert(gens2[s] == gens[s]);
        }
    }
    assert forall|s: int, k: int| 0 <= s < gens2.len() && 0 <= k < b.nodes@[s].value.items@.len()
        implies dot_ok(#[trigger] b.nodes@[s].value.items@[k]@) by {
        if s < n {
            assert(b.nodes@[s] == a.nodes@[s]);
        }
    }
    assert forall|s: int, t: int| 0 <= s < t < b.nodes@.len() implies (#[trigger] b.nodes@[s]).value@ != (#[trigger] b.nodes@[t]).value@ by {
        if t < n {
            assert(b.nodes@[s] == a.nodes@[s]);
            assert(b.nodes@[t] == a.nodes@[t]);
        } else {
            assert(b.nodes@[s] == a.nodes@[s]);
        }
    }
    assert forall|s: int, sy: Sym| 0 <= s < b.nodes@.len() && (#[trigger] b.target(s, sy)) is Some implies ({
        let tt = b.target(s, sy).unwrap() as int;
        &&& 0 <= tt < b.nodes@.len()
        &&& exists|y: Prod| #[trigger] b.nodes@[s].value@.contains(y) && can_advance(y) && next_sym(y) == sy
            && least_closure(advance(y), u, b.nodes@[tt].value@)
    }) by {
        if s == n {
        } else if s != from || sy != sym {
            assert(b.target(s, sy) == a.target(s, sy));
            let tt = a.target(s, sy).unwrap() as int;
            assert(b.nodes@[s] == a.nodes@[s]);
            assert(b.nodes@[tt] == a.nodes@[tt]);
        } else {
            assert(b.nodes@[s] == a.nodes@[s]);
            assert(b.nodes@[s].value@.contains(x));
        }
    }
    assert forall|s: int, sy: Sym| 0 <= s < n && (#[trigger] a.target(s, sy)) is Some implies b.target(s, sy) is Some by {
        if s != from || sy != sym {
            assert(b.target(s, sy) == a.target(s, sy));
        }
    }
    assert(gens2.no_duplicates()) by {
        assert forall|i: int, j: int| 0 <= i < j < gens2.len() implies gens2[i] != gens2[j] by {
            if gens2[i] == gens2[j] {
                lemma_closure_unique(gens2[i], u, b.nodes@[i].value@, b.nodes@[j].value@);
            }
        }
    }
    assert forall|s: int| 0 <= s < gens2.len() implies universe(base).contains(#[trigger] gens2[s]) by {
        lemma_in_dom_universe(base, gens2[s]);
    }
}

/// Builds the states and goto edges reached from the closure of `start`:
/// state 0 is that closure; states are found in order, each the closure of
/// an item of an earlier state with its dot advanced; a candidate equal as a
/// set to an existing state is that state. Every state's items are closed,
/// ids are dense, no two states hold the same items, and each item of a
/// state whose dot stands before a symbol has the closure of the item
/// advanced among the states, and an edge by that symbol to such a closure
/// (when two items share a symbol, the later one's edge stays).
pub fn build_automaton(start: &Grammer, grammers: &[Grammer]) -> (a: Arena<ItemSet>)
    requires
        dot_ok(start@),
    ensures
        a.wf(),
        1 <= a.nodes@.len(),
        least_closure(start@, prods(grammers@), a.nodes@[0].value@),
        forall|s: int| 0 <= s < a.nodes@.len() ==> closed_under(#[trigger] a.nodes@[s].value@, prods(grammers@)),
        forall|s: int, t: int| 0 <= s < t < a.nodes@.len() ==> (#[trigger] a.nodes@[s]).value@ != (#[trigger] a.nodes@[t]).value@,
        forall|s: int, x: Prod| 0 <= s < a.nodes@.len() && #[trigger] a.nodes@[s].value@.contains(x) && can_advance(x)
            ==> a.target(s, next_sym(x)) is Some && has_successor(a, prods(grammers@), x),
        forall|t: int| 1 <= t < a.nodes@.len() ==> #[trigger] found_from_earlier(a, prods(grammers@), t),
        forall|s: int, sym: Sym| 0 <= s < a.nodes@.len() && (#[trigger] a.target(s, sym)) is Some ==> {
            let t = a.target(s, sym).unwrap() as int;
            &&& 0 <= t < a.nodes@.len()
            &&& exists|x: Prod| #[trigger] a.nodes@[s].value@.contains(x) && can_advance(x) && next_sym(x) == sym
                && least_closure(advance(x), prods(grammers@), a.nodes@[t].value@)
        },
{
    let ghost u = prods(grammers@);
    let ghost base = u.push(start@);
    let mut arena: Arena<ItemSet> = Arena::new();
    let first_state = closure(start.copy(), grammers);
    arena.push(first_state);
    let ghost mut gens: Seq<Prod> = seq![start@];
    proof {
        let d = start@.dot.unwrap() as int;
        assert(start@ == dotted(base[u.len() as int], d));
        assert(in_dom(base, gens[0]));
        assert forall|s: int, sym: Sym| 0 <= s < arena.nodes@.len() && (#[trigger] arena.target(s, sym)) is Some
            implies false by {
            assert(arena.edges@[s]@ == Seq::<(Character, usize)>::empty());
        }
    }
    let mut done: usize = 0;
    while done < arena.nodes.len()
        invariant
            u == prods(grammers@),
            base == u.push(start@),
            automaton_ok(arena, u, gens, base),
            gens[0] == start@,
            done <= arena.nodes@.len(),
            arena.nodes@.len() <= universe(base).len(),
            forall|s: int, x: Prod| 0 <= s < done && #[trigger] arena.nodes@[s].value@.contains(x) && can_advance(x)
                ==> arena.target(s, next_sym(x)) is Some && has_successor(arena, u, x),
        decreases universe(base).len() - done,
    {
        let n_items = arena.nodes[done].value.items.len();
        let ghost state = arena.nodes@[done as int].value;
        let mut k: usize = 0;
        while k < n_items
            invariant
                u == prods(grammers@),
                base == u.push(start@),
                automaton_ok(arena, u, gens, base),
                gens[0] == start@,
                done < arena.nodes@.len(),
                arena.nodes@[done as int].value == state,
                n_items == state.items@.len(),
                k <= n_items,
                arena.nodes@.len() <= universe(base).len(),
                forall|s: int, x: Prod| 0 <= s < done && #[trigger] arena.nodes@[s].value@.contains(x) && can_advance(x)
                    ==> arena.target(s, next_sym(x)) is Some && has_successor(arena, u, x),
                forall|m: int| 0 <= m < k && can_advance(#[trigger] state.items@[m]@)
                    ==> arena.target(done as int, next_sym(state.items@[m]@)) is Some
                        && has_successor(arena, u, state.items@[m]@),
            decreases n_items - k,
        {
            let g = arena.nodes[done].value.items[k].copy();
            assert(dot_ok(state.items@[k as int]@));
            let ghost x = g@;
            assert(state@.contains(x)) by {
                assert(prods(state.items@)[k as int] == x);
            }
            if let Some(d) = g.dot_pos {
                if d < g.right.len() {
                    let sym = g.right[d].copy();
                    let gg = g.with_dot(d + 1);
                    assert(gg@ == advance(x));
                    let cls = closure(gg, grammers);
                    let ghost old_arena = arena;
                    proof {
                        lemma_closure_within(gens[done as int], u, state@);
                    }
                    match arena.find(&cls) {
                        Some(t) => {
                            arena.add_edge(done, sym, t);
                            proof {
                                lemma_edge_step(old_arena, arena, u, gens, base, done as int, x, sym@, t as int);
                            }
                        },
                        None => {
                            let ghost new_gen = advance(x);
                            proof {
                                assert(in_dom(base, new_gen)) by {
                                    if x == gens[done as int] {
                                        let (i, kk) = choose|i: int, kk: int| 0 <= i < base.len() && 0 <= kk <= base[i].right.len()
                                            && gens[done as int] == dotted(base[i], kk);
                                        assert(new_gen == dotted(base[i], kk + 1));
                                    } else {
                                        let j = choose|j: int| 0 <= j < u.len() && u[j] == x;
                                        assert(base[j] == x);
                                        assert(new_gen == dotted(base[j], d + 1));
                                    }
                                }
                            }
                            let ghost old_gens = gens;
                            let ghost cls_v = cls@;
                            proof {
                                assert forall|kk: int| 0 <= kk < cls.items@.len() implies dot_ok(#[trigger] cls.items@[kk]@) by {}
                            }
                            let ghost cls_items = cls.items@;
                            arena.push(cls);
                            let to = arena.nodes.len() - 1;
                            let ghost mid = arena;
                            arena.add_edge(done, sym, to);
                            proof {
                                gens = old_gens.push(new_gen);
                                lemma_after_step(old_arena, mid, arena, u, old_gens, gens, base, done as int, x, sym@, to as int, cls_v, cls_items);
                                lemma_distinct_in(gens, universe(base));
                            }
                        },
                    }
                }
            }
            k = k + 1;
        }
        done = done + 1;
    }
    arena
}

} // verus!
