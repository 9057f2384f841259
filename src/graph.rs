use vstd::prelude::*;
use crate::grammar::{Character, Sym};

verus! {

/// An append-only store of values, each with the id of its position, and
/// for each value a list of labelled edges to other ids.
#[derive(Debug)]
pub struct Arena<T> {
    pub nodes: Vec<Node<T>>,
    pub edges: Vec<Vec<(Character, usize)>>,
}

/// A value of an arena together with its id.
#[derive(Debug)]
pub struct Node<T> {
    pub id: usize,
    pub value: T,
}

/// The target of the edge labelled `s` in an edge list: the one written last.
pub open spec fn edge_of(l: Seq<(Character, usize)>, s: Sym) -> Option<usize>
    decreases l.len(),
{
    if l.len() == 0 {
        None
    } else if l.last().0@ == s {
        Some(l.last().1)
    } else {
        edge_of(l.drop_last(), s)
    }
}

/// Values that can be told apart by a test of sameness.
pub trait Same: Sized {
    /// When two values count as the same.
    spec fn same_spec(&self, o: &Self) -> bool;

    /// Whether two values are the same.
    fn same(&self, o: &Self) -> (r: bool)
        ensures
            r == self.same_spec(o),
    ;
}

/// Overwriting the last edge with a label changes the target of that label only.
pub proof fn lemma_edge_update(l: Seq<(Character, usize)>, k: int, e: (Character, usize), s: Sym)
    requires
        0 <= k < l.len(),
        l[k].0@ == e.0@,
        forall|j: int| k < j < l.len() ==> (#[trigger] l[j]).0@ != e.0@,
    ensures
        edge_of(l.update(k, e), s) == if s == e.0@ { Some(e.1) } else { edge_of(l, s) },
    decreases l.len(),
{
    let m = l.update(k, e);
    assert(m.drop_last() =~= if k == l.len() - 1 { l.drop_last() } else { l.drop_last().update(k, e) });
    if k < l.len() - 1 {
        assert(l.last() == l[l.len() - 1]);
        lemma_edge_update(l.drop_last(), k, e, s);
    }
}

impl<T> Arena<T> {
    /// Ids are dense and equal to positions; each node has its edge list.
    pub open spec fn wf(&self) -> bool {
        &&& self.nodes@.len() == self.edges@.len()
        &&& forall|i: int| 0 <= i < self.nodes@.len() ==> (#[trigger] self.nodes@[i]).id == i
    }

    /// The target of the edge labelled `s` leaving node `from`.
    pub open spec fn target(&self, from: int, s: Sym) -> Option<usize> {
        edge_of(self.edges@[from]@, s)
    }

    /// The values held, in id order.
    pub open spec fn values(&self) -> Seq<T> {
        self.nodes@.map_values(|n: Node<T>| n.value)
    }

    /// An empty arena.
    pub fn new() -> (r: Self)
        ensures
            r.wf(),
            r.nodes@.len() == 0,
    {
        Arena { nodes: Vec::new(), edges: Vec::new() }
    }

    /// Appends `v` as a new node whose id is the former number of nodes,
    /// with no edges.
    pub fn push(&mut self, v: T)
        requires
            old(self).wf(),
        ensures
            final(self).wf(),
            final(self).nodes@ == old(self).nodes@.push(Node { id: old(self).nodes@.len() as usize, value: v }),
            final(self).edges@.len() == old(self).edges@.len() + 1,
            forall|i: int| 0 <= i < old(self).edges@.len() ==> final(self).edges@[i] == old(self).edges@[i],
            final(self).edges@.last()@ == Seq::<(Character, usize)>::empty(),
    {
        self.edges.push(Vec::new());
        let l = self.nodes.len();
        self.nodes.push(Node { id: l, value: v });
        assert(self.edges@.last()@ =~= Seq::<(Character, usize)>::empty());
    }

    /// Records the edge from node `from` labelled `c` to node `to`; it
    /// replaces an earlier edge with the same label, so that each label
    /// leaves a node at most once.
    pub fn add_edge(&mut self, from: usize, c: Character, to: usize)
        requires
            old(self).wf(),
            from < old(self).nodes@.len(),
        ensures
            final(self).wf(),
            final(self).nodes@ == old(self).nodes@,
            final(self).edges@.len() == old(self).edges@.len(),
            forall|i: int| 0 <= i < old(self).edges@.len() && i != from ==> final(self).edges@[i] == old(self).edges@[i],
            forall|s: Sym| #[trigger] final(self).target(from as int, s) == if s == c@ {
                Some(to)
            } else {
                old(self).target(from as int, s)
            },
    {
        let ghost before = self.edges@[from as int]@;
        let ghost cv = c@;
        match self.last_with(from, &c) {
            Some(k) => {
                self.edges[from].set(k, (c, to));
                proof {
                    assert forall|s: Sym| #[trigger] self.target(from as int, s) == if s == cv {
                        Some(to)
                    } else {
                        old(self).target(from as int, s)
                    } by {
                        lemma_edge_update(before, k as int, self.edges@[from as int]@[k as int], s);
                        assert(self.edges@[from as int]@ == before.update(k as int, self.edges@[from as int]@[k as int]));
                    }
                }
            },
            None => {
                self.edges[from].push((c, to));
                assert forall|s: Sym| #[trigger] self.target(from as int, s) == if s == cv {
                    Some(to)
                } else {
                    old(self).target(from as int, s)
                } by {
                    assert(self.edges@[from as int]@.drop_last() =~= before);
                }
            },
        }
    }

    /// The last position of the edge list of `from` labelled `c`.
    fn last_with(&self, from: usize, c: &Character) -> (r: Option<usize>)
        requires
            self.wf(),
            from < self.nodes@.len(),
        ensures
            match r {
                Some(k) => k < self.edges@[from as int]@.len() && self.edges@[from as int]@[k as int].0@ == c@
                    && forall|j: int| k < j < self.edges@[from as int]@.len()
                        ==> (#[trigger] self.edges@[from as int]@[j]).0@ != c@,
                None => forall|j: int| 0 <= j < self.edges@[from as int]@.len()
                    ==> (#[trigger] self.edges@[from as int]@[j]).0@ != c@,
            },
    {
        let l = &self.edges[from];
        let mut k: usize = l.len();
        while k > 0
            invariant
                k <= l@.len(),
                l@ == self.edges@[from as int]@,
                forall|j: int| k <= j < l@.len() ==> (#[trigger] l@[j]).0@ != c@,
            decreases k,
        {
            if l[k - 1].0.eq(c) {
                return Some(k - 1);
            }
            k = k - 1;
        }
        None
    }

    /// The target of the edge labelled `c` leaving node `from`.
    pub fn edge(&self, from: usize, c: &Character) -> (r: Option<usize>)
        requires
            self.wf(),
            from < self.nodes@.len(),
        ensures
            r == self.target(from as int, c@),
    {
        let l = &self.edges[from];
        let mut k: usize = l.len();
        assert(l@.subrange(0, k as int) =~= l@);
        while k > 0
            invariant
                k <= l@.len(),
                l@ == self.edges@[from as int]@,
                edge_of(l@, c@) == edge_of(l@.subrange(0, k as int), c@),
            decreases k,
        {
            let sub = Ghost(l@.subrange(0, k as int));
            if l[k - 1].0.eq(c) {
                return Some(l[k - 1].1);
            }
            assert(sub@.drop_last() =~= l@.subrange(0, k - 1));
            k = k - 1;
        }
        assert(l@.subrange(0, 0) =~= Seq::<(Character, usize)>::empty());
        None
    }
}

impl<T: Same> Arena<T> {
    /// The first id whose value equals `v`.
    pub fn find(&self, v: &T) -> (r: Option<usize>)
        ensures
            match r {
                Some(i) => i < self.nodes@.len() && self.nodes@[i as int].value.same_spec(v)
                    && forall|k: int| 0 <= k < i ==> !(#[trigger] self.nodes@[k]).value.same_spec(v),
                None => forall|k: int| 0 <= k < self.nodes@.len() ==> !(#[trigger] self.nodes@[k]).value.same_spec(v),
            },
    {
        let mut i: usize = 0;
        while i < self.nodes.len()
            invariant
                i <= self.nodes@.len(),
                forall|k: int| 0 <= k < i ==> !(#[trigger] self.nodes@[k]).value.same_spec(v),
            decreases self.nodes@.len() - i,
        {
            if self.nodes[i].value.same(v) {
                return Some(i);
            }
            i = i + 1;
        }
        None
    }

    /// The first node whose value equals `v`.
    pub fn get(&self, v: &T) -> (r: Option<&Node<T>>)
        ensures
            match r {
                Some(n) => exists|i: int| 0 <= i < self.nodes@.len() && *n == self.nodes@[i]
                    && n.value.same_spec(v)
                    && forall|k: int| 0 <= k < i ==> !(#[trigger] self.nodes@[k]).value.same_spec(v),
                None => forall|k: int| 0 <= k < self.nodes@.len() ==> !(#[trigger] self.nodes@[k]).value.same_spec(v),
            },
    {
        match self.find(v) {
            Some(i) => Some(&self.nodes[i]),
            None => None,
        }
    }

    /// The first node whose value equals `v`, to be changed in place.
    pub fn get_mut(&mut self, v: &T) -> (r: Option<&mut Node<T>>)
        ensures
            match r {
                Some(n) => exists|i: int| 0 <= i < old(self).nodes@.len()
                    && *n == old(self).nodes@[i]
                    && n.value.same_spec(v)
                    && final(self).nodes@ == old(self).nodes@.update(i, *final(n))
                    && final(self).edges@ == old(self).edges@
                    && forall|k: int| 0 <= k < i ==> !(#[trigger] old(self).nodes@[k]).value.same_spec(v),
                None => *final(self) == *old(self)
                    && forall|k: int| 0 <= k < old(self).nodes@.len() ==> !(#[trigger] old(self).nodes@[k]).value.same_spec(v),
            },
    {
        match self.find(v) {
            Some(i) => Some(&mut self.nodes[i]),
            None => None,
        }
    }
}

} // verus!
