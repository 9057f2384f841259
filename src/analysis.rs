use vstd::prelude::*;
use crate::grammar::{Character, Grammer, Nonterminal, Prod, Sym, Terminal, prods, syms};
use crate::termsets::{CharSets, TermSets, add_all, add_char, entry_chars, lemma_flatten_contains, lemma_pairs_contains, pair_set, pairs, within};

verus! {

// ---------------------------------------------------------------------------
// Counting, for the termination of the fixed-point loops.

/// How many entries of `xs` lie in `s`.
pub open spec fn count_in<A>(xs: Seq<A>, s: Set<A>) -> nat
    decreases xs.len(),
{
    if xs.len() == 0 {
        0
    } else {
        count_in(xs.drop_last(), s) + if s.contains(xs.last()) { 1nat } else { 0nat }
    }
}

/// No more entries are counted than there are.
pub proof fn lemma_count_bound<A>(xs: Seq<A>, s: Set<A>)
    ensures
        count_in(xs, s) <= xs.len(),
    decreases xs.len(),
{
    if xs.len() > 0 {
        lemma_count_bound(xs.drop_last(), s);
    }
}

/// A larger set counts at least as many entries, and strictly more when it
/// holds an entry of `xs` that the smaller one lacks.
pub proof fn lemma_count_mono<A>(xs: Seq<A>, s: Set<A>, t: Set<A>)
    requires
        s.subset_of(t),
    ensures
        count_in(xs, s) <= count_in(xs, t),
        (exists|k: int| 0 <= k < xs.len() && t.contains(xs[k]) && !s.contains(xs[k]))
            ==> count_in(xs, s) < count_in(xs, t),
    decreases xs.len(),
{
    if xs.len() > 0 {
        lemma_count_mono(xs.drop_last(), s, t);
        if exists|k: int| 0 <= k < xs.len() && t.contains(xs[k]) && !s.contains(xs[k]) {
            let k = choose|k: int| 0 <= k < xs.len() && t.contains(xs[k]) && !s.contains(xs[k]);
            if k < xs.len() - 1 {
                assert(xs.drop_last()[k] == xs[k]);
            }
        }
    }
}

// ---------------------------------------------------------------------------
// Sets of nonterminals held in a vector.

/// The names held in a vector of nonterminals.
pub open spec fn names(v: Seq<Nonterminal>) -> Set<Seq<char>> {
    Set::new(|n: Seq<char>| exists|i: int| 0 <= i < v.len() && (#[trigger] v[i])@ == n)
}

/// Whether the name of `n` is among those of `v`.
pub fn contains_name(v: &Vec<Nonterminal>, n: &Nonterminal) -> (r: bool)
    ensures
        r == names(v@).contains(n@),
{
    let mut i: usize = 0;
    while i < v.len()
        invariant
            i <= v@.len(),
            forall|k: int| 0 <= k < i ==> (#[trigger] v@[k])@ != n@,
        decreases v@.len() - i,
    {
        if v[i].eq(n) {
            return true;
        }
        i = i + 1;
    }
    false
}

/// Pushing a nonterminal adds its name.
pub proof fn lemma_names_push(v: Seq<Nonterminal>, x: Nonterminal)
    ensures
        names(v.push(x)) == names(v).insert(x@),
{
    let w = v.push(x);
    assert forall|n: Seq<char>| names(w).contains(n) implies names(v).insert(x@).contains(n) by {
        let k = choose|k: int| 0 <= k < w.len() && (#[trigger] w[k])@ == n;
        if k < v.len() {
            assert(v[k] == w[k]);
        }
    }
    assert forall|n: Seq<char>| names(v).insert(x@).contains(n) implies names(w).contains(n) by {
        if n == x@ {
            assert(w[v.len() as int]@ == n);
        } else {
            let k = choose|k: int| 0 <= k < v.len() && (#[trigger] v[k])@ == n;
            assert(w[k] == v[k]);
        }
    }
    assert(names(w) =~= names(v).insert(x@));
}

// ---------------------------------------------------------------------------
// Nullable.

/// A symbol that is a nonterminal of `ns`.
pub open spec fn nullable_sym(s: Sym, ns: Set<Seq<char>>) -> bool {
    match s {
        Sym::N(n) => ns.contains(n),
        Sym::T(_) => false,
    }
}

/// Every symbol of `r` is a nonterminal of `ns` (true of an empty `r`).
pub open spec fn all_nullable(r: Seq<Sym>, ns: Set<Seq<char>>) -> bool {
    forall|j: int| 0 <= j < r.len() ==> nullable_sym(#[trigger] r[j], ns)
}

/// `ns` holds the left side of each production whose right side consists
/// of nonterminals of `ns`.
pub open spec fn nullable_closed(g: Seq<Prod>, ns: Set<Seq<char>>) -> bool {
    forall|i: int| 0 <= i < g.len() && all_nullable(#[trigger] g[i].right, ns) ==> ns.contains(g[i].left)
}

/// `r` is the least set that holds `seed` and is closed under the nullable rule.
pub open spec fn least_nullable(g: Seq<Prod>, seed: Set<Seq<char>>, r: Set<Seq<char>>) -> bool {
    &&& seed.subset_of(r)
    &&& nullable_closed(g, r)
    &&& forall|t: Set<Seq<char>>| #[trigger] nullable_closed(g, t) && seed.subset_of(t) ==> r.subset_of(t)
}

/// The left sides of a grammar, in order.
pub open spec fn lefts(g: Seq<Prod>) -> Seq<Seq<char>> {
    g.map_values(|p: Prod| p.left)
}

/// Whether every symbol of `right` is a nonterminal named in `ns`.
fn all_nullable_exec(right: &Vec<Character>, ns: &Vec<Nonterminal>) -> (r: bool)
    ensures
        r == all_nullable(syms(right@), names(ns@)),
{
    let mut j: usize = 0;
    while j < right.len()
        invariant
            j <= right@.len(),
            forall|k: int| 0 <= k < j ==> nullable_sym(#[trigger] syms(right@)[k], names(ns@)),
        decreases right@.len() - j,
    {
        match &right[j] {
            Character::Terminal(_) => {
                assert(!nullable_sym(syms(right@)[j as int], names(ns@)));
                return false;
            },
            Character::Nonterminal(n) => {
                if !contains_name(ns, n) {
                    assert(!nullable_sym(syms(right@)[j as int], names(ns@)));
                    return false;
                }
            },
        }
        j = j + 1;
    }
    true
}

/// Adds to `result` every nonterminal that derives the empty string, given
/// that those already in `result` do: `result` ends as the least set that
/// holds what it held and each left side whose right side consists of its
/// nonterminals.
pub fn nullable(grammers: &[Grammer], result: &mut Vec<Nonterminal>)
    ensures
        least_nullable(prods(grammers@), names(old(result)@), names(final(result)@)),
{
    let ghost g = prods(grammers@);
    let ghost seed = names(result@);
    assert forall|t: Set<Seq<char>>| #[trigger] nullable_closed(g, t) && seed.subset_of(t)
        implies names(result@).subset_of(t) by {}
    proof { lemma_count_bound(lefts(g), names(result@)); }
    loop
        invariant
            g == prods(grammers@),
            seed == names(old(result)@),
            seed.subset_of(names(result@)),
            forall|t: Set<Seq<char>>| #[trigger] nullable_closed(g, t) && seed.subset_of(t)
                ==> names(result@).subset_of(t),
            count_in(lefts(g), names(result@)) <= g.len(),
        ensures
            least_nullable(g, seed, names(result@)),
        decreases g.len() - count_in(lefts(g), names(result@)),
    {
        let ghost start = names(result@);
        let mut changed = false;
        let mut i: usize = 0;
        while i < grammers.len()
            invariant
                g == prods(grammers@),
                i <= grammers@.len(),
                seed.subset_of(names(result@)),
                start.subset_of(names(result@)),
                forall|t: Set<Seq<char>>| #[trigger] nullable_closed(g, t) && seed.subset_of(t)
                    ==> names(result@).subset_of(t),
                changed ==> count_in(lefts(g), start) < count_in(lefts(g), names(result@)),
                !changed ==> names(result@) == start,
                !changed ==> forall|k: int| 0 <= k < i && all_nullable(#[trigger] g[k].right, start)
                    ==> start.contains(g[k].left),
            decreases grammers@.len() - i,
        {
            let ghost before = names(result@);
            let p = &grammers[i];
            assert(g[i as int] == p@);
            if all_nullable_exec(&p.right, result) && !contains_name(result, &p.left) {
                let l = p.left.copy();
                proof { lemma_names_push(result@, l); }
                result.push(l);
                assert forall|t: Set<Seq<char>>| #[trigger] nullable_closed(g, t) && seed.subset_of(t)
                    implies names(result@).subset_of(t) by {
                    assert(before.subset_of(t));
                    assert(all_nullable(g[i as int].right, t));
                }
                proof {
                    lemma_count_mono(lefts(g), start, before);
                    assert(lefts(g)[i as int] == p.left@);
                    lemma_count_mono(lefts(g), before, names(result@));
                }
                changed = true;
            }
            i = i + 1;
        }
        if !changed {
            assert(nullable_closed(g, names(result@)));
            break;
        }
        proof { lemma_count_bound(lefts(g), names(result@)); }
    }
}

/// Running the nullable computation again, seeded with its own result,
/// changes nothing.
pub proof fn lemma_nullable_rerun(g: Seq<Prod>, seed: Set<Seq<char>>, r: Set<Seq<char>>, r2: Set<Seq<char>>)
    requires
        least_nullable(g, seed, r),
        least_nullable(g, r, r2),
    ensures
        r2 == r,
{
    assert(r2.subset_of(r));
    assert(r2 =~= r);
}

/// The left side of a production with an empty right side is nullable.
pub proof fn lemma_epsilon_nullable(g: Seq<Prod>, seed: Set<Seq<char>>, r: Set<Seq<char>>, i: int)
    requires
        least_nullable(g, seed, r),
        0 <= i < g.len(),
        g[i].right.len() == 0,
    ensures
        r.contains(g[i].left),
{
    assert(all_nullable(g[i].right, r));
}

// ---------------------------------------------------------------------------
// First.

/// The character of a terminal symbol (a placeholder for the others).
pub open spec fn sym_char(s: Sym) -> char {
    match s {
        Sym::T(Terminal::Character(c)) => c,
        _ => ' ',
    }
}

/// The characters of the terminals of a grammar, with placeholders.
pub open spec fn gram_chars(g: Seq<Prod>) -> Seq<char> {
    g.map_values(|p: Prod| p.right.map_values(|s: Sym| sym_char(s))).flatten()
}

/// The character of each symbol of a grammar lies in `gram_chars`.
pub proof fn lemma_gram_char(g: Seq<Prod>, i: int, j: int)
    requires
        0 <= i < g.len(),
        0 <= j < g[i].right.len(),
    ensures
        gram_chars(g).contains(sym_char(g[i].right[j])),
{
    let xss = g.map_values(|p: Prod| p.right.map_values(|s: Sym| sym_char(s)));
    assert(xss[i][j] == sym_char(g[i].right[j]));
    lemma_flatten_contains(xss, i, j);
}

/// The symbols of `r` before position `j` are all nullable nonterminals.
pub open spec fn prefix_nullable(r: Seq<Sym>, j: int, ns: Set<Seq<char>>) -> bool {
    forall|k: int| 0 <= k < j ==> nullable_sym(#[trigger] r[k], ns)
}

/// What the symbol at position `j` of `p` gives to the First set of its left side.
pub open spec fn first_rule(p: Prod, j: int, f: CharSets) -> bool {
    match p.right[j] {
        Sym::T(Terminal::Character(c)) => f(p.left).contains(c),
        Sym::T(Terminal::EOS) => true,
        Sym::N(m) => f(m).subset_of(f(p.left)),
    }
}

/// `f` meets the First rule at each position reached through nullable symbols.
pub open spec fn first_closed(g: Seq<Prod>, ns: Set<Seq<char>>, f: CharSets) -> bool {
    forall|i: int, j: int| 0 <= i < g.len() && 0 <= j < g[i].right.len()
        && prefix_nullable(g[i].right, j, ns) ==> #[trigger] first_rule(g[i], j, f)
}

/// `r` is the least family that holds `seed` and meets the First rules.
pub open spec fn least_first(g: Seq<Prod>, ns: Set<Seq<char>>, seed: CharSets, r: CharSets) -> bool {
    &&& within(seed, r)
    &&& first_closed(g, ns, r)
    &&& forall|t: CharSets| #[trigger] first_closed(g, ns, t) && within(seed, t) ==> within(r, t)
}

/// Every character of `f` lies in `cs`.
pub open spec fn chars_in(f: CharSets, cs: Seq<char>) -> bool {
    forall|k: Seq<char>, c: char| #[trigger] f(k).contains(c) ==> cs.contains(c)
}

/// Two families agree on every name.
pub open spec fn same_sets(a: CharSets, b: CharSets) -> bool {
    forall|k: Seq<char>| #[trigger] a(k) == b(k)
}

/// What adding `c` to the set of `n` does to the counting measure.
pub proof fn lemma_add(a: CharSets, b: CharSets, n: Seq<char>, c: char, u: Seq<(Seq<char>, char)>)
    requires
        forall|k: Seq<char>| #[trigger] b(k) == if k == n { a(k).insert(c) } else { a(k) },
    ensures
        within(a, b),
        count_in(u, pair_set(a)) <= count_in(u, pair_set(b)),
        !a(n).contains(c) && u.contains((n, c)) ==> count_in(u, pair_set(a)) < count_in(u, pair_set(b)),
        a(n).contains(c) ==> same_sets(a, b),
{
    assert forall|k: Seq<char>| #[trigger] a(k).subset_of(b(k)) by {
        if k == n {
        }
    }
    assert(pair_set(a).subset_of(pair_set(b))) by {
        assert forall|p: (Seq<char>, char)| pair_set(a).contains(p) implies pair_set(b).contains(p) by {
            assert(a(p.0).subset_of(b(p.0)));
        }
    }
    lemma_count_mono(u, pair_set(a), pair_set(b));
    if !a(n).contains(c) && u.contains((n, c)) {
        let k = choose|k: int| 0 <= k < u.len() && u[k] == (n, c);
        assert(pair_set(b).contains(u[k]));
        assert(!pair_set(a).contains(u[k]));
    }
    if a(n).contains(c) {
        assert forall|k: Seq<char>| #[trigger] a(k) == b(k) by {
            if k == n {
                assert(a(k).insert(c) =~= a(k));
            }
        }
    }
}

/// A family within another has no more pairs.
pub proof fn lemma_within_pairs(a: CharSets, b: CharSets)
    requires
        within(a, b),
    ensures
        pair_set(a).subset_of(pair_set(b)),
{
    assert forall|p: (Seq<char>, char)| pair_set(a).contains(p) implies pair_set(b).contains(p) by {
        assert(a(p.0).subset_of(b(p.0)));
    }
}

/// `within` is transitive.
pub proof fn lemma_within_trans(a: CharSets, b: CharSets, c: CharSets)
    requires
        within(a, b),
        within(b, c),
    ensures
        within(a, c),
{
    assert forall|k: Seq<char>| #[trigger] a(k).subset_of(c(k)) by {
        assert(a(k).subset_of(b(k)));
        assert(b(k).subset_of(c(k)));
    }
}

/// Grows `result` to the First sets of the grammar, given the nullable
/// nonterminals: `result` ends as the least family that holds what it held
/// and meets, for each production and each symbol reached through nullable
/// nonterminals from its start, the First rule (a character is in the set
/// of the left side; the set of a nonterminal is within it).
pub fn first(grammers: &[Grammer], nullable: &Vec<Nonterminal>, result: &mut TermSets)
    requires
        old(result).wf(),
    ensures
        final(result).wf(),
        least_first(prods(grammers@), names(nullable@), old(result).sets(), final(result).sets()),
{
    let ghost g = prods(grammers@);
    let ghost ns = names(nullable@);
    let ghost seed = result.sets();
    let ghost cs = gram_chars(g) + entry_chars(result.entries@);
    let ghost u = pairs(lefts(g), cs);
    assert forall|k: Seq<char>, c: char| #[trigger] result.sets()(k).contains(c) implies cs.contains(c) by {
        result.lemma_chars(k, c);
        let q = choose|q: int| 0 <= q < entry_chars(result.entries@).len() && entry_chars(result.entries@)[q] == c;
        assert(cs[gram_chars(g).len() + q] == c);
    }
    assert(within(seed, result.sets()));
    proof { lemma_count_bound(u, pair_set(result.sets())); }
    loop
        invariant
            g == prods(grammers@),
            ns == names(nullable@),
            seed == old(result).sets(),
            u == pairs(lefts(g), cs),
            gram_chars(g) == cs.subrange(0, gram_chars(g).len() as int),
            gram_chars(g).len() <= cs.len(),
            result.wf(),
            within(seed, result.sets()),
            forall|t: CharSets| #[trigger] first_closed(g, ns, t) && within(seed, t) ==> within(result.sets(), t),
            chars_in(result.sets(), cs),
            count_in(u, pair_set(result.sets())) <= u.len(),
        ensures
            result.wf(),
            least_first(g, ns, seed, result.sets()),
        decreases u.len() - count_in(u, pair_set(result.sets())),
    {
        let ghost start = result.sets();
        let mut changed = false;
        let mut i: usize = 0;
        while i < grammers.len()
            invariant
                g == prods(grammers@),
                ns == names(nullable@),
                u == pairs(lefts(g), cs),
                gram_chars(g) == cs.subrange(0, gram_chars(g).len() as int),
                gram_chars(g).len() <= cs.len(),
                i <= grammers@.len(),
                result.wf(),
                within(seed, result.sets()),
                within(start, result.sets()),
                forall|t: CharSets| #[trigger] first_closed(g, ns, t) && within(seed, t) ==> within(result.sets(), t),
                chars_in(result.sets(), cs),
                changed ==> count_in(u, pair_set(start)) < count_in(u, pair_set(result.sets())),
                !changed ==> same_sets(start, result.sets()),
                !changed ==> forall|a: int, b: int| 0 <= a < i && 0 <= b < g[a].right.len()
                    && prefix_nullable(g[a].right, b, ns) ==> #[trigger] first_rule(g[a], b, start),
            decreases grammers@.len() - i,
        {
            let p = &grammers[i];
            let ghost gi = g[i as int];
            assert(gi == p@);
            proof {
                assert(lefts(g)[i as int] == gi.left);
            }
            let mut j: usize = 0;
            while j < p.right.len()
                invariant
                    g == prods(grammers@),
                    ns == names(nullable@),
                    u == pairs(lefts(g), cs),
                    gram_chars(g) == cs.subrange(0, gram_chars(g).len() as int),
                    gram_chars(g).len() <= cs.len(),
                    i < grammers@.len(),
                    gi == g[i as int],
                    gi == p@,
                    lefts(g)[i as int] == gi.left,
                    j <= p.right@.len(),
                    prefix_nullable(gi.right, j as int, ns),
                    result.wf(),
                    within(seed, result.sets()),
                    within(start, result.sets()),
                    forall|t: CharSets| #[trigger] first_closed(g, ns, t) && within(seed, t) ==> within(result.sets(), t),
                    chars_in(result.sets(), cs),
                    changed ==> count_in(u, pair_set(start)) < count_in(u, pair_set(result.sets())),
                    !changed ==> same_sets(start, result.sets()),
                    !changed ==> forall|a: int, b: int| 0 <= a < i && 0 <= b < g[a].right.len()
                        && prefix_nullable(g[a].right, b, ns) ==> #[trigger] first_rule(g[a], b, start),
                    !changed ==> forall|b: int| 0 <= b < j ==> #[trigger] first_rule(gi, b, start),
                ensures
                    !changed ==> forall|b: int| 0 <= b < gi.right.len() && prefix_nullable(gi.right, b, ns)
                        ==> #[trigger] first_rule(gi, b, start),
                decreases p.right@.len() - j,
            {
                assert(gi.right[j as int] == p.right@[j as int]@);
                match &p.right[j] {
                    Character::Terminal(t) => {
                        if let Terminal::Character(c) = t {
                            let ghost prev = result.sets();
                            let added = add_char(result, &p.left, *c);
                            proof {
                                lemma_gram_char(g, i as int, j as int);
                                let q = choose|q: int| 0 <= q < gram_chars(g).len() && gram_chars(g)[q] == *c;
                                assert(cs[q] == *c);
                                assert(lefts(g).contains(gi.left)) by {
                                    assert(lefts(g)[i as int] == gi.left);
                                }
                                lemma_pairs_contains(lefts(g), cs, gi.left, *c);
                                lemma_add(prev, result.sets(), gi.left, *c, u);
                                lemma_within_trans(seed, prev, result.sets());
                                lemma_within_trans(start, prev, result.sets());
                                assert forall|t: CharSets| #[trigger] first_closed(g, ns, t) && within(seed, t)
                                    implies within(result.sets(), t) by {
                                    assert(within(prev, t));
                                    assert(first_rule(g[i as int], j as int, t));
                                    assert forall|k: Seq<char>| #[trigger] result.sets()(k).subset_of(t(k)) by {
                                        assert(prev(k).subset_of(t(k)));
                                    }
                                }
                                assert forall|k: Seq<char>, d: char| #[trigger] result.sets()(k).contains(d) implies cs.contains(d) by {
                                    if !(k == gi.left && d == *c) {
                                        assert(prev(k).contains(d));
                                    }
                                }
                                if added {
                                    lemma_within_pairs(start, prev);
                                    lemma_count_mono(u, pair_set(start), pair_set(prev));
                                }
                                if !changed && !added {
                                    assert(first_rule(gi, j as int, start));
                                    assert forall|k: Seq<char>| #[trigger] start(k) == result.sets()(k) by {
                                        assert(start(k) == prev(k));
                                    }
                                }
                            }
                            if added {
                                changed = true;
                            }
                        }
                        assert(!nullable_sym(gi.right[j as int], ns));
                        break;
                    },
                    Character::Nonterminal(n) => {
                        let firsts = result.get(n);
                        let ghost snap = result.sets();
                        let mut k: usize = 0;
                        while k < firsts.len()
                            invariant
                                g == prods(grammers@),
                                ns == names(nullable@),
                                u == pairs(lefts(g), cs),
                                i < grammers@.len(),
                                gi == g[i as int],
                                gi == p@,
                                lefts(g)[i as int] == gi.left,
                                j < p.right@.len(),
                                gi.right[j as int] == Sym::N(n@),
                                prefix_nullable(gi.right, j as int, ns),
                                k <= firsts@.len(),
                                forall|d: char| firsts@.contains(d) ==> #[trigger] result.sets()(n@).contains(d),
                                forall|d: char| #[trigger] snap(n@).contains(d) ==> firsts@.contains(d),
                                !changed ==> same_sets(start, snap),
                                !changed ==> forall|a: int, b: int| 0 <= a < i && 0 <= b < g[a].right.len()
                                    && prefix_nullable(g[a].right, b, ns) ==> #[trigger] first_rule(g[a], b, start),
                                !changed ==> forall|b: int| 0 <= b < j ==> #[trigger] first_rule(gi, b, start),
                                forall|q: int| 0 <= q < k ==> result.sets()(gi.left).contains(#[trigger] firsts@[q]),
                                !changed ==> forall|q: int| 0 <= q < k ==> start(gi.left).contains(#[trigger] firsts@[q]),
                                result.wf(),
                                within(seed, result.sets()),
                                within(start, result.sets()),
                                forall|t: CharSets| #[trigger] first_closed(g, ns, t) && within(seed, t) ==> within(result.sets(), t),
                                chars_in(result.sets(), cs),
                                changed ==> count_in(u, pair_set(start)) < count_in(u, pair_set(result.sets())),
                                !changed ==> same_sets(start, result.sets()),
                            decreases firsts@.len() - k,
                        {
                            let c = firsts[k];
                            let ghost prev = result.sets();
                            assert(firsts@.contains(c));
                            let added = add_char(result, &p.left, c);
                            proof {
                                assert(prev(n@).contains(c));
                                assert(cs.contains(c));
                                assert(lefts(g).contains(gi.left)) by {
                                    assert(lefts(g)[i as int] == gi.left);
                                }
                                lemma_pairs_contains(lefts(g), cs, gi.left, c);
                                lemma_add(prev, result.sets(), gi.left, c, u);
                                lemma_within_trans(seed, prev, result.sets());
                                lemma_within_trans(start, prev, result.sets());
                                assert forall|t: CharSets| #[trigger] first_closed(g, ns, t) && within(seed, t)
                                    implies within(result.sets(), t) by {
                                    assert(within(prev, t));
                                    assert(first_rule(g[i as int], j as int, t));
                                    assert(prev(n@).subset_of(t(n@)));
                                    assert forall|kk: Seq<char>| #[trigger] result.sets()(kk).subset_of(t(kk)) by {
                                        assert(prev(kk).subset_of(t(kk)));
                                    }
                                }
                                assert forall|kk: Seq<char>, d: char| #[trigger] result.sets()(kk).contains(d) implies cs.contains(d) by {
                                    if !(kk == gi.left && d == c) {
                                        assert(prev(kk).contains(d));
                                    }
                                }
                                assert forall|d: char| firsts@.contains(d) implies #[trigger] result.sets()(n@).contains(d) by {
                                    assert(prev(n@).contains(d));
                                }
                                assert forall|q: int| 0 <= q < k + 1 implies result.sets()(gi.left).contains(#[trigger] firsts@[q]) by {
                                    if q < k {
                                        assert(prev(gi.left).contains(firsts@[q]));
                                    }
                                }
                                if added {
                                    lemma_within_pairs(start, prev);
                                    lemma_count_mono(u, pair_set(start), pair_set(prev));
                                }
                                if !changed && !added {
                                    assert forall|kk: Seq<char>| #[trigger] start(kk) == result.sets()(kk) by {
                                        assert(start(kk) == prev(kk));
                                    }
                                }
                            }
                            if added {
                                changed = true;
                            }
                            k = k + 1;
                        }
                        proof {
                            if !changed {
                                assert forall|d: char| #[trigger] start(n@).contains(d) implies start(gi.left).contains(d) by {
                                    assert(snap(n@).contains(d));
                                    assert(firsts@.contains(d));
                                    let q = choose|q: int| 0 <= q < firsts@.len() && firsts@[q] == d;
                                }
                                assert(first_rule(gi, j as int, start));
                            }
                        }
                        if !contains_name(nullable, n) {
                            assert(!nullable_sym(gi.right[j as int], ns));
                            break;
                        }
                    },
                }
                j = j + 1;
            }
            i = i + 1;
        }
        if !changed {
            assert(first_closed(g, ns, result.sets())) by {
                assert forall|a: int, b: int| 0 <= a < g.len() && 0 <= b < g[a].right.len()
                    && prefix_nullable(g[a].right, b, ns) implies #[trigger] first_rule(g[a], b, result.sets()) by {
                    assert(first_rule(g[a], b, start));
                    assert(start(g[a].left) == result.sets()(g[a].left));
                    match g[a].right[b] {
                        Sym::N(m) => { assert(start(m) == result.sets()(m)); },
                        _ => {},
                    }
                }
            }
            proof { lemma_count_bound(u, pair_set(result.sets())); }
            break;
        }
        proof { lemma_count_bound(u, pair_set(result.sets())); }
    }
}

// ---------------------------------------------------------------------------
// Follow.

/// The name of a nonterminal symbol (empty for a terminal).
pub open spec fn sym_name(s: Sym) -> Seq<char> {
    match s {
        Sym::N(n) => n,
        _ => Seq::empty(),
    }
}

/// The names of the nonterminals on right sides, with placeholders.
pub open spec fn gram_names(g: Seq<Prod>) -> Seq<Seq<char>> {
    g.map_values(|p: Prod| p.right.map_values(|s: Sym| sym_name(s))).flatten()
}

/// The name of each symbol of a grammar lies in `gram_names`.
pub proof fn lemma_gram_name(g: Seq<Prod>, i: int, j: int)
    requires
        0 <= i < g.len(),
        0 <= j < g[i].right.len(),
    ensures
        gram_names(g).contains(sym_name(g[i].right[j])),
{
    let xss = g.map_values(|p: Prod| p.right.map_values(|s: Sym| sym_name(s)));
    assert(xss[i][j] == sym_name(g[i].right[j]));
    lemma_flatten_contains(xss, i, j);
}

/// The symbols strictly between positions `q` and `j` are nullable nonterminals.
pub open spec fn between_nullable(r: Seq<Sym>, q: int, j: int, ns: Set<Seq<char>>) -> bool {
    forall|k: int| q < k < j ==> nullable_sym(#[trigger] r[k], ns)
}

/// The scan right of position `q` stops, if at all, only at the last symbol.
pub open spec fn reach_end(r: Seq<Sym>, q: int, ns: Set<Seq<char>>) -> bool {
    forall|k: int| q < k < r.len() - 1 ==> nullable_sym(#[trigger] r[k], ns)
}

/// What the symbol at position `j` of `p` gives to the Follow set of the
/// nonterminal at position `q`.
pub open spec fn follow_rule(p: Prod, q: int, j: int, fi: CharSets, f: CharSets) -> bool {
    match p.right[q] {
        Sym::N(t) => match p.right[j] {
            Sym::T(Terminal::Character(c)) => f(t).contains(c),
            Sym::T(Terminal::EOS) => true,
            Sym::N(m) => fi(m).subset_of(f(t)),
        },
        Sym::T(_) => true,
    }
}

/// The Follow set of the left side of `p` is within that of the nonterminal
/// at position `q`.
pub open spec fn end_rule(p: Prod, q: int, f: CharSets) -> bool {
    match p.right[q] {
        Sym::N(t) => f(p.left).subset_of(f(t)),
        Sym::T(_) => true,
    }
}

/// `f` meets the Follow rules for the First sets `fi` and nullable set `ns`.
pub open spec fn follow_closed(g: Seq<Prod>, ns: Set<Seq<char>>, fi: CharSets, f: CharSets) -> bool {
    &&& forall|i: int, q: int, j: int| 0 <= i < g.len() && 0 <= q < j < g[i].right.len()
        && between_nullable(g[i].right, q, j, ns) ==> #[trigger] follow_rule(g[i], q, j, fi, f)
    &&& forall|i: int, q: int| 0 <= i < g.len() && 0 <= q < g[i].right.len()
        && reach_end(g[i].right, q, ns) ==> #[trigger] end_rule(g[i], q, f)
}

/// `r` is the least family that holds `seed` and meets the Follow rules.
pub open spec fn least_follow(g: Seq<Prod>, ns: Set<Seq<char>>, fi: CharSets, seed: CharSets, r: CharSets) -> bool {
    &&& within(seed, r)
    &&& follow_closed(g, ns, fi, r)
    &&& forall|t: CharSets| #[trigger] follow_closed(g, ns, fi, t) && within(seed, t) ==> within(r, t)
}

/// What the Follow loop keeps in a pass that started from `start`.
pub open spec fn follow_state(
    g: Seq<Prod>,
    ns: Set<Seq<char>>,
    fi: CharSets,
    seed: CharSets,
    start: CharSets,
    u: Seq<(Seq<char>, char)>,
    cs: Seq<char>,
    cur: CharSets,
    changed: bool,
) -> bool {
    &&& within(seed, cur)
    &&& within(start, cur)
    &&& forall|t: CharSets| #[trigger] follow_closed(g, ns, fi, t) && within(seed, t) ==> within(cur, t)
    &&& chars_in(cur, cs)
    &&& changed ==> count_in(u, pair_set(start)) < count_in(u, pair_set(cur))
    &&& !changed ==> same_sets(start, cur)
}

/// One step of the Follow loop: the set of `n` takes in `s`.
pub proof fn lemma_follow_step(
    g: Seq<Prod>,
    ns: Set<Seq<char>>,
    fi: CharSets,
    seed: CharSets,
    start: CharSets,
    u: Seq<(Seq<char>, char)>,
    cs: Seq<char>,
    a: CharSets,
    b: CharSets,
    n: Seq<char>,
    s: Set<char>,
    changed: bool,
    added: bool,
)
    requires
        follow_state(g, ns, fi, seed, start, u, cs, a, changed),
        forall|k: Seq<char>| #[trigger] b(k) == if k == n { a(k).union(s) } else { a(k) },
        added == !s.subset_of(a(n)),
        forall|c: char| #[trigger] s.contains(c) ==> cs.contains(c) && u.contains((n, c)),
        forall|t: CharSets| #[trigger] follow_closed(g, ns, fi, t) && within(seed, t) && within(a, t) ==> s.subset_of(t(n)),
    ensures
        follow_state(g, ns, fi, seed, start, u, cs, b, changed || added),
        !added ==> same_sets(a, b),
{
    assert forall|k: Seq<char>| #[trigger] a(k).subset_of(b(k)) by {}
    lemma_within_trans(seed, a, b);
    lemma_within_trans(start, a, b);
    lemma_within_pairs(a, b);
    lemma_within_pairs(start, a);
    lemma_count_mono(u, pair_set(a), pair_set(b));
    lemma_count_mono(u, pair_set(start), pair_set(a));
    if added {
        let c = choose|c: char| s.contains(c) && !a(n).contains(c);
        let k = choose|k: int| 0 <= k < u.len() && u[k] == (n, c);
        assert(pair_set(b).contains(u[k]));
        assert(!pair_set(a).contains(u[k]));
    } else {
        assert forall|k: Seq<char>| #[trigger] a(k) == b(k) by {
            if k == n {
                assert(a(k).union(s) =~= a(k));
            }
        }
        if !changed {
            assert forall|k: Seq<char>| #[trigger] start(k) == b(k) by {
                assert(start(k) == a(k));
            }
        }
    }
    assert forall|t: CharSets| #[trigger] follow_closed(g, ns, fi, t) && within(seed, t) implies within(b, t) by {
        assert(within(a, t));
        assert(s.subset_of(t(n)));
        assert forall|k: Seq<char>| #[trigger] b(k).subset_of(t(k)) by {
            assert(a(k).subset_of(t(k)));
        }
    }
    assert forall|k: Seq<char>, c: char| #[trigger] b(k).contains(c) implies cs.contains(c) by {
        if !(k == n && s.contains(c)) {
            assert(a(k).contains(c));
        }
    }
}

/// Grows `result` to the Follow sets of the grammar, given the nullable
/// nonterminals and the First sets: `result` ends as the least family that
/// holds what it held and meets the Follow rules. For a nonterminal at
/// position `q`, each symbol reached through nullable nonterminals gives its
/// character or its First set; and where the scan right of `q` reaches the
/// end or stops at the last symbol, the Follow set of the left side is
/// within that of the nonterminal.
pub fn follow(grammers: &[Grammer], nullable: &Vec<Nonterminal>, first: &TermSets, result: &mut TermSets)
    requires
        first.wf(),
        old(result).wf(),
    ensures
        final(result).wf(),
        least_follow(prods(grammers@), names(nullable@), first.sets(), old(result).sets(), final(result).sets()),
{
    let ghost g = prods(grammers@);
    let ghost ns = names(nullable@);
    let ghost fi = first.sets();
    let ghost seed = result.sets();
    let ghost cs = gram_chars(g) + entry_chars(first.entries@) + entry_chars(result.entries@);
    let ghost u = pairs(gram_names(g), cs);
    proof {
        assert forall|k: Seq<char>, c: char| #[trigger] result.sets()(k).contains(c) implies cs.contains(c) by {
            result.lemma_chars(k, c);
            let q = choose|q: int| 0 <= q < entry_chars(result.entries@).len() && entry_chars(result.entries@)[q] == c;
            assert(cs[gram_chars(g).len() + entry_chars(first.entries@).len() + q] == c);
        }
        assert forall|k: Seq<char>, c: char| #[trigger] fi(k).contains(c) implies cs.contains(c) by {
            first.lemma_chars(k, c);
            let q = choose|q: int| 0 <= q < entry_chars(first.entries@).len() && entry_chars(first.entries@)[q] == c;
            assert(cs[gram_chars(g).len() + q] == c);
        }
        assert forall|i: int, j: int| 0 <= i < g.len() && 0 <= j < g[i].right.len()
            implies #[trigger] cs.contains(sym_char(g[i].right[j])) by {
            lemma_gram_char(g, i, j);
            let q = choose|q: int| 0 <= q < gram_chars(g).len() && gram_chars(g)[q] == sym_char(g[i].right[j]);
            assert(cs[q] == sym_char(g[i].right[j]));
        }
        lemma_count_bound(u, pair_set(result.sets()));
    }
    loop
        invariant
            g == prods(grammers@),
            ns == names(nullable@),
            fi == first.sets(),
            first.wf(),
            seed == old(result).sets(),
            u == pairs(gram_names(g), cs),
            chars_in(fi, cs),
            forall|i: int, j: int| 0 <= i < g.len() && 0 <= j < g[i].right.len()
                ==> #[trigger] cs.contains(sym_char(g[i].right[j])),
            result.wf(),
            follow_state(g, ns, fi, seed, result.sets(), u, cs, result.sets(), false),
            count_in(u, pair_set(result.sets())) <= u.len(),
        ensures
            result.wf(),
            least_follow(g, ns, fi, seed, result.sets()),
        decreases u.len() - count_in(u, pair_set(result.sets())),
    {
        let ghost start = result.sets();
        let mut changed = false;
        let mut i: usize = 0;
        while i < grammers.len()
            invariant
                g == prods(grammers@),
                ns == names(nullable@),
                fi == first.sets(),
                first.wf(),
                u == pairs(gram_names(g), cs),
                chars_in(fi, cs),
                forall|i: int, j: int| 0 <= i < g.len() && 0 <= j < g[i].right.len()
                    ==> #[trigger] cs.contains(sym_char(g[i].right[j])),
                i <= grammers@.len(),
                result.wf(),
                follow_state(g, ns, fi, seed, start, u, cs, result.sets(), changed),
                !changed ==> forall|a: int, q: int, j: int| 0 <= a < i && 0 <= q < j < g[a].right.len()
                    && between_nullable(g[a].right, q, j, ns) ==> #[trigger] follow_rule(g[a], q, j, fi, start),
                !changed ==> forall|a: int, q: int| 0 <= a < i && 0 <= q < g[a].right.len()
                    && reach_end(g[a].right, q, ns) ==> #[trigger] end_rule(g[a], q, start),
            decreases grammers@.len() - i,
        {
            let p = &grammers[i];
            let ghost gi = g[i as int];
            assert(gi == p@);
            let len = p.right.len();
            let mut q: usize = 0;
            while q < len
                invariant
                    g == prods(grammers@),
                    ns == names(nullable@),
                    fi == first.sets(),
                    first.wf(),
                    u == pairs(gram_names(g), cs),
                    chars_in(fi, cs),
                    forall|i: int, j: int| 0 <= i < g.len() && 0 <= j < g[i].right.len()
                        ==> #[trigger] cs.contains(sym_char(g[i].right[j])),
                    i < grammers@.len(),
                    gi == g[i as int],
                    gi == p@,
                    len == p.right@.len(),
                    q <= len,
                    result.wf(),
                    follow_state(g, ns, fi, seed, start, u, cs, result.sets(), changed),
                    !changed ==> forall|a: int, q: int, j: int| 0 <= a < i && 0 <= q < j < g[a].right.len()
                        && between_nullable(g[a].right, q, j, ns) ==> #[trigger] follow_rule(g[a], q, j, fi, start),
                    !changed ==> forall|a: int, q: int| 0 <= a < i && 0 <= q < g[a].right.len()
                        && reach_end(g[a].right, q, ns) ==> #[trigger] end_rule(g[a], q, start),
                    !changed ==> forall|qq: int, j: int| 0 <= qq < q && qq < j < len
                        && between_nullable(gi.right, qq, j, ns) ==> #[trigger] follow_rule(gi, qq, j, fi, start),
                    !changed ==> forall|qq: int| 0 <= qq < q && reach_end(gi.right, qq, ns)
                        ==> #[trigger] end_rule(gi, qq, start),
                decreases len - q,
            {
                assert(gi.right[q as int] == p.right@[q as int]@);
                if let Character::Nonterminal(target) = &p.right[q] {
                    proof {
                        lemma_gram_name(g, i as int, q as int);
                    }
                    let mut reach = true;
                    let mut j: usize = q + 1;
                    while j < len
                        invariant_except_break
                            reach,
                        invariant
                            g == prods(grammers@),
                            ns == names(nullable@),
                            fi == first.sets(),
                            first.wf(),
                            u == pairs(gram_names(g), cs),
                            chars_in(fi, cs),
                            forall|i: int, j: int| 0 <= i < g.len() && 0 <= j < g[i].right.len()
                                ==> #[trigger] cs.contains(sym_char(g[i].right[j])),
                            gram_names(g).contains(target@),
                            i < grammers@.len(),
                            gi == g[i as int],
                            gi == p@,
                            len == p.right@.len(),
                            q < len,
                            gi.right[q as int] == Sym::N(target@),
                            q < j <= len,
                            between_nullable(gi.right, q as int, j as int, ns),
                            result.wf(),
                            follow_state(g, ns, fi, seed, start, u, cs, result.sets(), changed),
                            !changed ==> forall|jj: int| q < jj < j ==> #[trigger] follow_rule(gi, q as int, jj, fi, start),
                            !changed ==> forall|a: int, q: int, j: int| 0 <= a < i && 0 <= q < j < g[a].right.len()
                                && between_nullable(g[a].right, q, j, ns) ==> #[trigger] follow_rule(g[a], q, j, fi, start),
                            !changed ==> forall|a: int, q: int| 0 <= a < i && 0 <= q < g[a].right.len()
                                && reach_end(g[a].right, q, ns) ==> #[trigger] end_rule(g[a], q, start),
                            !changed ==> forall|qq: int, j: int| 0 <= qq < q && qq < j < len
                                && between_nullable(gi.right, qq, j, ns) ==> #[trigger] follow_rule(gi, qq, j, fi, start),
                            !changed ==> forall|qq: int| 0 <= qq < q && reach_end(gi.right, qq, ns)
                                ==> #[trigger] end_rule(gi, qq, start),
                        ensures
                            result.wf(),
                            follow_state(g, ns, fi, seed, start, u, cs, result.sets(), changed),
                            !changed ==> forall|jj: int| q < jj < len && between_nullable(gi.right, q as int, jj, ns)
                                ==> #[trigger] follow_rule(gi, q as int, jj, fi, start),
                            reach == reach_end(gi.right, q as int, ns),
                        decreases len - j,
                    {
                        assert(gi.right[j as int] == p.right@[j as int]@);
                        match &p.right[j] {
                            Character::Terminal(t) => {
                                reach = j == len - 1;
                                if let Terminal::Character(c) = t {
                                    let ghost prev = result.sets();
                                    let ghost was = changed;
                                    let added = add_char(result, target, *c);
                                    proof {
                                        assert(cs.contains(sym_char(g[i as int].right[j as int])));
                                        lemma_pairs_contains(gram_names(g), cs, target@, *c);
                                        assert forall|k: Seq<char>| #[trigger] result.sets()(k)
                                            == if k == target@ { prev(k).union(set![*c]) } else { prev(k) } by {
                                            if k == target@ {
                                                assert(prev(k).insert(*c) =~= prev(k).union(set![*c]));
                                            }
                                        }
                                        assert forall|t: CharSets| #[trigger] follow_closed(g, ns, fi, t) && within(seed, t) && within(prev, t)
                                            implies set![*c].subset_of(t(target@)) by {
                                            assert(follow_rule(g[i as int], q as int, j as int, fi, t));
                                        }
                                        lemma_follow_step(g, ns, fi, seed, start, u, cs, prev, result.sets(), target@, set![*c], was, added);
                                        if !was && !added {
                                            assert(follow_rule(gi, q as int, j as int, fi, start)) by {
                                                assert(prev(target@) == start(target@));
                                            }
                                        }
                                    }
                                    if added {
                                        changed = true;
                                    }
                                }
                                assert(!nullable_sym(gi.right[j as int], ns));
                                break;
                            },
                            Character::Nonterminal(m) => {
                                let firsts = first.get(m);
                                let ghost prev = result.sets();
                                let ghost was = changed;
                                let added = add_all(result, target, &firsts);
                                proof {
                                    assert forall|c: char| #[trigger] firsts@.to_set().contains(c) implies cs.contains(c) && u.contains((target@, c)) by {
                                        assert(fi(m@).contains(c));
                                        lemma_pairs_contains(gram_names(g), cs, target@, c);
                                    }
                                    assert forall|t: CharSets| #[trigger] follow_closed(g, ns, fi, t) && within(seed, t) && within(prev, t)
                                        implies firsts@.to_set().subset_of(t(target@)) by {
                                        assert(follow_rule(g[i as int], q as int, j as int, fi, t));
                                        assert forall|c: char| #[trigger] firsts@.to_set().contains(c) implies t(target@).contains(c) by {
                                            assert(fi(m@).contains(c));
                                        }
                                    }
                                    lemma_follow_step(g, ns, fi, seed, start, u, cs, prev, result.sets(), target@, firsts@.to_set(), was, added);
                                    if !was && !added {
                                        assert(follow_rule(gi, q as int, j as int, fi, start)) by {
                                            assert(prev(target@) == start(target@));
                                            assert forall|c: char| #[trigger] fi(m@).contains(c) implies start(target@).contains(c) by {
                                                assert(firsts@.contains(c));
                                                assert(firsts@.to_set().contains(c));
                                            }
                                        }
                                    }
                                }
                                if added {
                                    changed = true;
                                }
                                if !contains_name(nullable, m) {
                                    reach = j == len - 1;
                                    assert(!nullable_sym(gi.right[j as int], ns));
                                    break;
                                }
                            },
                        }
                        j = j + 1;
                    }
                    if reach {
                        let follows = result.get(&p.left);
                        let ghost prev = result.sets();
                        let ghost was = changed;
                        let added = add_all(result, target, &follows);
                        proof {
                            assert forall|c: char| #[trigger] follows@.to_set().contains(c) implies cs.contains(c) && u.contains((target@, c)) by {
                                assert(prev(gi.left).contains(c));
                                lemma_pairs_contains(gram_names(g), cs, target@, c);
                            }
                            assert forall|t: CharSets| #[trigger] follow_closed(g, ns, fi, t) && within(seed, t) && within(prev, t)
                                implies follows@.to_set().subset_of(t(target@)) by {
                                assert(end_rule(g[i as int], q as int, t));
                                assert forall|c: char| #[trigger] follows@.to_set().contains(c) implies t(target@).contains(c) by {
                                    assert(prev(gi.left).contains(c));
                                    assert(prev(gi.left).subset_of(t(gi.left)));
                                }
                            }
                            lemma_follow_step(g, ns, fi, seed, start, u, cs, prev, result.sets(), target@, follows@.to_set(), was, added);
                            if !was && !added {
                                assert(end_rule(gi, q as int, start)) by {
                                    assert(prev(target@) == start(target@));
                                    assert forall|c: char| #[trigger] start(gi.left).contains(c) implies start(target@).contains(c) by {
                                        assert(prev(gi.left).contains(c));
                                        assert(follows@.contains(c));
                                        assert(follows@.to_set().contains(c));
                                    }
                                }
                            }
                        }
                        if added {
                            changed = true;
                        }
                    }
                }
                q = q + 1;
            }
            i = i + 1;
        }
        if !changed {
            assert(follow_closed(g, ns, fi, result.sets())) by {
                assert forall|a: int, q: int, j: int| 0 <= a < g.len() && 0 <= q < j < g[a].right.len()
                    && between_nullable(g[a].right, q, j, ns) implies #[trigger] follow_rule(g[a], q, j, fi, result.sets()) by {
                    assert(follow_rule(g[a], q, j, fi, start));
                    match g[a].right[q] {
                        Sym::N(t) => { assert(start(t) == result.sets()(t)); },
                        _ => {},
                    }
                }
                assert forall|a: int, q: int| 0 <= a < g.len() && 0 <= q < g[a].right.len()
                    && reach_end(g[a].right, q, ns) implies #[trigger] end_rule(g[a], q, result.sets()) by {
                    assert(end_rule(g[a], q, start));
                    assert(start(g[a].left) == result.sets()(g[a].left));
                    match g[a].right[q] {
                        Sym::N(t) => { assert(start(t) == result.sets()(t)); },
                        _ => {},
                    }
                }
            }
            proof { lemma_count_bound(u, pair_set(result.sets())); }
            break;
        }
        proof { lemma_count_bound(u, pair_set(result.sets())); }
    }
}

// ---------------------------------------------------------------------------
// Propagation through a nullable last symbol.

/// When the last symbol of a production is the nonterminal `m` and every
/// symbol before it is a nullable nonterminal, the First set of the left
/// side holds the First set of `m`.
pub proof fn lemma_nullable_tail_first(g: Seq<Prod>, ns: Set<Seq<char>>, seed: CharSets, r: CharSets, i: int, m: Seq<char>)
    requires
        least_first(g, ns, seed, r),
        0 <= i < g.len(),
        g[i].right.len() > 0,
        g[i].right.last() == Sym::N(m),
        prefix_nullable(g[i].right, g[i].right.len() - 1, ns),
    ensures
        r(m).subset_of(r(g[i].left)),
{
    assert(first_rule(g[i], g[i].right.len() - 1, r));
}

/// When the last symbol of a production is the nonterminal `m`, the Follow
/// set of `m` holds the Follow set of the left side.
pub proof fn lemma_nullable_tail_follow(
    g: Seq<Prod>,
    ns: Set<Seq<char>>,
    fi: CharSets,
    seed: CharSets,
    f: CharSets,
    i: int,
    m: Seq<char>,
)
    requires
        least_follow(g, ns, fi, seed, f),
        0 <= i < g.len(),
        g[i].right.len() > 0,
        g[i].right.last() == Sym::N(m),
    ensures
        f(g[i].left).subset_of(f(m)),
{
    let q = g[i].right.len() - 1;
    assert(reach_end(g[i].right, q, ns));
    assert(end_rule(g[i], q, f));
}

} // verus!
