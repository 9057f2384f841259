use vstd::prelude::*;
use crate::grammar::Nonterminal;

verus! {

/// For each nonterminal a set of characters, held as a list of entries
/// with distinct names.
#[derive(Debug)]
pub struct TermSets {
    pub entries: Vec<(Nonterminal, Vec<char>)>,
}

/// A set of characters for each name.
pub type CharSets = spec_fn(Seq<char>) -> Set<char>;

/// Each set of `a` is a subset of the set of `b` with the same name.
pub open spec fn within(a: CharSets, b: CharSets) -> bool {
    forall|k: Seq<char>| #[trigger] a(k).subset_of(b(k))
}

/// The pairs (name, character) of a family of sets.
pub open spec fn pair_set(f: CharSets) -> Set<(Seq<char>, char)> {
    Set::new(|p: (Seq<char>, char)| f(p.0).contains(p.1))
}

/// Every pair of a name of `keys` with a character of `cs`.
pub open spec fn pairs(keys: Seq<Seq<char>>, cs: Seq<char>) -> Seq<(Seq<char>, char)> {
    keys.map_values(|k: Seq<char>| cs.map_values(|c: char| (k, c))).flatten()
}

/// Each entry of each part lies in the flattened sequence.
pub proof fn lemma_flatten_contains<A>(xss: Seq<Seq<A>>, i: int, j: int)
    requires
        0 <= i < xss.len(),
        0 <= j < xss[i].len(),
    ensures
        xss.flatten().contains(xss[i][j]),
    decreases i,
{
    if i == 0 {
        assert(xss.flatten() == xss.first().add(xss.drop_first().flatten()));
        assert(xss.flatten()[j] == xss[i][j]);
    } else {
        lemma_flatten_contains(xss.drop_first(), i - 1, j);
        let rest = xss.drop_first().flatten();
        let k = choose|k: int| 0 <= k < rest.len() && rest[k] == xss[i][j];
        assert(xss.flatten() == xss.first().add(rest));
        assert(xss.flatten()[xss.first().len() + k] == xss[i][j]);
    }
}

/// A name of `keys` and a character of `cs` form a pair of `pairs`.
pub proof fn lemma_pairs_contains(keys: Seq<Seq<char>>, cs: Seq<char>, k: Seq<char>, c: char)
    requires
        keys.contains(k),
        cs.contains(c),
    ensures
        pairs(keys, cs).contains((k, c)),
{
    let i = choose|i: int| 0 <= i < keys.len() && keys[i] == k;
    let j = choose|j: int| 0 <= j < cs.len() && cs[j] == c;
    let xss = keys.map_values(|k: Seq<char>| cs.map_values(|c: char| (k, c)));
    assert(xss[i][j] == (k, c));
    lemma_flatten_contains(xss, i, j);
}

/// The characters of all entries.
pub open spec fn entry_chars(e: Seq<(Nonterminal, Vec<char>)>) -> Seq<char> {
    e.map_values(|x: (Nonterminal, Vec<char>)| x.1@).flatten()
}

impl TermSets {
    /// Names of entries are distinct.
    pub open spec fn wf(&self) -> bool {
        forall|i: int, j: int| 0 <= i < j < self.entries@.len()
            ==> (#[trigger] self.entries@[i]).0@ != (#[trigger] self.entries@[j]).0@
    }

    /// The characters recorded for the name `k` (none if it has no entry).
    pub open spec fn lookup(&self, k: Seq<char>) -> Set<char> {
        Set::new(|c: char| exists|i: int| 0 <= i < self.entries@.len()
            && (#[trigger] self.entries@[i]).0@ == k && self.entries@[i].1@.contains(c))
    }

    /// The recorded sets as a family.
    pub open spec fn sets(&self) -> CharSets {
        |k: Seq<char>| self.lookup(k)
    }

    /// Every character recorded occurs in `entry_chars`.
    pub proof fn lemma_chars(&self, k: Seq<char>, c: char)
        requires
            self.lookup(k).contains(c),
        ensures
            entry_chars(self.entries@).contains(c),
    {
        let i = choose|i: int| 0 <= i < self.entries@.len()
            && (#[trigger] self.entries@[i]).0@ == k && self.entries@[i].1@.contains(c);
        let j = choose|j: int| 0 <= j < self.entries@[i].1@.len() && self.entries@[i].1@[j] == c;
        let xss = self.entries@.map_values(|x: (Nonterminal, Vec<char>)| x.1@);
        assert(xss[i][j] == c);
        lemma_flatten_contains(xss, i, j);
    }

    /// No sets recorded.
    pub fn new() -> (r: TermSets)
        ensures
            r.wf(),
            forall|k: Seq<char>| #[trigger] r.lookup(k) == Set::<char>::empty(),
    {
        let r = TermSets { entries: Vec::new() };
        assert forall|k: Seq<char>| #[trigger] r.lookup(k) == Set::<char>::empty() by {
            assert(r.lookup(k) =~= Set::<char>::empty());
        }
        r
    }

    /// The position of the entry named `n`.
    fn position(&self, n: &Nonterminal) -> (r: Option<usize>)
        ensures
            match r {
                Some(i) => i < self.entries@.len() && self.entries@[i as int].0@ == n@,
                None => forall|i: int| 0 <= i < self.entries@.len() ==> (#[trigger] self.entries@[i]).0@ != n@,
            },
    {
        let mut i: usize = 0;
        while i < self.entries.len()
            invariant
                i <= self.entries@.len(),
                forall|k: int| 0 <= k < i ==> (#[trigger] self.entries@[k]).0@ != n@,
            decreases self.entries@.len() - i,
        {
            if self.entries[i].0.eq(n) {
                return Some(i);
            }
            i = i + 1;
        }
        None
    }

    /// The characters recorded for `n`.
    pub fn get(&self, n: &Nonterminal) -> (r: Vec<char>)
        requires
            self.wf(),
        ensures
            forall|c: char| r@.contains(c) <==> self.lookup(n@).contains(c),
    {
        match self.position(n) {
            Some(i) => {
                let v = self.entries[i].1.clone();
                assert forall|c: char| v@.contains(c) <==> self.lookup(n@).contains(c) by {
                    if self.lookup(n@).contains(c) {
                        let k = choose|k: int| 0 <= k < self.entries@.len()
                            && (#[trigger] self.entries@[k]).0@ == n@ && self.entries@[k].1@.contains(c);
                        if k != i {
                            if k < i {
                                assert(self.entries@[k].0@ != self.entries@[i as int].0@);
                            } else {
                                assert(self.entries@[i as int].0@ != self.entries@[k].0@);
                            }
                        }
                    }
                }
                v
            },
            None => {
                let v: Vec<char> = Vec::new();
                assert forall|c: char| v@.contains(c) <==> self.lookup(n@).contains(c) by {}
                v
            },
        }
    }
}

/// Adds `c` to the set of `n`; tells whether it was not there before.
pub fn add_char(result: &mut TermSets, n: &Nonterminal, c: char) -> (r: bool)
    requires
        old(result).wf(),
    ensures
        final(result).wf(),
        r == !old(result).lookup(n@).contains(c),
        forall|k: Seq<char>| #[trigger] final(result).lookup(k)
            == if k == n@ { old(result).lookup(k).insert(c) } else { old(result).lookup(k) },
{
    match result.position(n) {
        Some(i) => {
            let ghost e = result.entries@[i as int];
            let ghost before = result.entries@;
            let mut j: usize = 0;
            let len = result.entries[i].1.len();
            while j < len
                invariant
                    result.entries@ == before,
                    before == old(result).entries@,
                    old(result).wf(),
                    e == before[i as int],
                    e.0@ == n@,
                    i < before.len(),
                    len == e.1@.len(),
                    j <= len,
                    forall|k: int| 0 <= k < j ==> e.1@[k] != c,
                decreases len - j,
            {
                if result.entries[i].1[j] == c {
                    assert(result.lookup(n@).contains(c)) by {
                        assert(e.1@[j as int] == c);
                        assert(result.entries@[i as int].1@.contains(c));
                    }
                    return false;
                }
                j = j + 1;
            }
            assert(!e.1@.contains(c));
            assert(!old(result).lookup(n@).contains(c)) by {
                if old(result).lookup(n@).contains(c) {
                    let k = choose|k: int| 0 <= k < before.len()
                        && (#[trigger] before[k]).0@ == n@ && before[k].1@.contains(c);
                    if k < i {
                        assert(before[k].0@ != before[i as int].0@);
                    } else if k > i {
                        assert(before[i as int].0@ != before[k].0@);
                    }
                }
            }
            let (name, mut chars) = result.entries.remove(i);
            chars.push(c);
            result.entries.insert(i, (name, chars));
            assert(result.entries@ == before.update(i as int, (e.0, chars))) by {
                assert(result.entries@ =~= before.update(i as int, (e.0, chars)));
            }
            assert forall|k: Seq<char>| #[trigger] result.lookup(k)
                == if k == n@ { old(result).lookup(k).insert(c) } else { old(result).lookup(k) } by {
                let want = if k == n@ { old(result).lookup(k).insert(c) } else { old(result).lookup(k) };
                assert forall|d: char| result.lookup(k).contains(d) implies want.contains(d) by {
                    let m = choose|m: int| 0 <= m < result.entries@.len()
                        && (#[trigger] result.entries@[m]).0@ == k && result.entries@[m].1@.contains(d);
                    if m != i {
                        assert(before[m] == result.entries@[m]);
                    } else if d != c {
                        let q = choose|q: int| 0 <= q < chars@.len() && chars@[q] == d;
                        assert(e.1@[q] == d);
                    }
                }
                assert forall|d: char| want.contains(d) implies result.lookup(k).contains(d) by {
                    if k == n@ && d == c {
                        assert(chars@[chars@.len() - 1] == c);
                        assert(result.entries@[i as int].1@.contains(c));
                    } else {
                        let m = choose|m: int| 0 <= m < before.len()
                            && (#[trigger] before[m]).0@ == k && before[m].1@.contains(d);
                        if m != i {
                            assert(before[m] == result.entries@[m]);
                        } else {
                            let q = choose|q: int| 0 <= q < e.1@.len() && e.1@[q] == d;
                            assert(chars@[q] == d);
                            assert(result.entries@[i as int].1@.contains(d));
                        }
                    }
                }
                assert(result.lookup(k) =~= want);
            }
            true
        },
        None => {
            let ghost before = result.entries@;
            let mut chars: Vec<char> = Vec::new();
            chars.push(c);
            result.entries.push((n.copy(), chars));
            assert(!old(result).lookup(n@).contains(c));
            assert forall|k: Seq<char>| #[trigger] result.lookup(k)
                == if k == n@ { old(result).lookup(k).insert(c) } else { old(result).lookup(k) } by {
                let want = if k == n@ { old(result).lookup(k).insert(c) } else { old(result).lookup(k) };
                assert forall|d: char| result.lookup(k).contains(d) implies want.contains(d) by {
                    let m = choose|m: int| 0 <= m < result.entries@.len()
                        && (#[trigger] result.entries@[m]).0@ == k && result.entries@[m].1@.contains(d);
                    if m < before.len() {
                        assert(before[m] == result.entries@[m]);
                    } else {
                        assert(chars@ == seq![c]);
                    }
                }
                assert forall|d: char| want.contains(d) implies result.lookup(k).contains(d) by {
                    if k == n@ && d == c {
                        let last = before.len() as int;
                        assert(result.entries@[last].1@[0] == c);
                        assert(result.entries@[last].1@.contains(c));
                    } else {
                        let m = choose|m: int| 0 <= m < before.len()
                            && (#[trigger] before[m]).0@ == k && before[m].1@.contains(d);
                        assert(before[m] == result.entries@[m]);
                    }
                }
                assert(result.lookup(k) =~= want);
            }
            true
        },
    }
}

/// Adds every character of `cs` to the set of `n`; tells whether one of
/// them was not there before.
pub fn add_all(result: &mut TermSets, n: &Nonterminal, cs: &Vec<char>) -> (r: bool)
    requires
        old(result).wf(),
    ensures
        final(result).wf(),
        r == !cs@.to_set().subset_of(old(result).lookup(n@)),
        forall|k: Seq<char>| #[trigger] final(result).lookup(k)
            == if k == n@ { old(result).lookup(k).union(cs@.to_set()) } else { old(result).lookup(k) },
{
    let mut any = false;
    let mut i: usize = 0;
    while i < cs.len()
        invariant
            i <= cs@.len(),
            result.wf(),
            any == !cs@.subrange(0, i as int).to_set().subset_of(old(result).lookup(n@)),
            forall|k: Seq<char>| #[trigger] result.lookup(k)
                == if k == n@ { old(result).lookup(k).union(cs@.subrange(0, i as int).to_set()) } else { old(result).lookup(k) },
        decreases cs@.len() - i,
    {
        let ghost before = *result;
        let added = add_char(result, n, cs[i]);
        let ghost pre = cs@.subrange(0, i as int).to_set();
        let ghost post = cs@.subrange(0, i + 1).to_set();
        assert(post =~= pre.insert(cs@[i as int])) by {
            assert(cs@.subrange(0, i + 1) =~= cs@.subrange(0, i as int).push(cs@[i as int]));
            cs@.subrange(0, i as int).lemma_push_to_set_commute(cs@[i as int]);
        }
        if added {
            any = true;
        }
        assert forall|k: Seq<char>| #[trigger] result.lookup(k)
            == if k == n@ { old(result).lookup(k).union(post) } else { old(result).lookup(k) } by {
            if k == n@ {
                assert(result.lookup(k) =~= old(result).lookup(k).union(post));
            }
        }
        i = i + 1;
    }
    assert(cs@.subrange(0, cs@.len() as int) =~= cs@);
    any
}

} // verus!
