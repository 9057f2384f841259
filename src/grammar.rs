use vstd::prelude::*;

verus! {

/// A grammar variable, identified by its name.
#[derive(Debug, Clone)]
pub struct Nonterminal(pub String);

impl View for Nonterminal {
    type V = Seq<char>;

    open spec fn view(&self) -> Seq<char> {
        self.0@
    }
}

impl Nonterminal {
    /// The name of this nonterminal.
    pub fn name(&self) -> (r: &String)
        ensures
            r@ == self@,
    {
        &self.0
    }

    /// A copy that keeps the name.
    pub fn copy(&self) -> (r: Nonterminal)
        ensures
            r@ == self@,
    {
        Nonterminal(self.0.clone())
    }
}

impl PartialEq for Nonterminal {
    fn eq(&self, o: &Nonterminal) -> (r: bool)
        ensures
            r == (self@ == o@),
    {
        self.0 == o.0
    }
}

impl vstd::std_specs::cmp::PartialEqSpecImpl for Nonterminal {
    open spec fn obeys_eq_spec() -> bool {
        true
    }

    open spec fn eq_spec(&self, o: &Nonterminal) -> bool {
        self@ == o@
    }
}

impl Eq for Nonterminal {}

impl From<String> for Nonterminal {
    fn from(c: String) -> (r: Nonterminal)
        ensures
            r@ == c@,
    {
        Nonterminal(c)
    }
}

impl vstd::std_specs::convert::FromSpecImpl<String> for Nonterminal {
    open spec fn obeys_from_spec() -> bool {
        true
    }

    open spec fn from_spec(c: String) -> Nonterminal {
        Nonterminal(c)
    }
}

/// A terminal symbol: the end-of-input marker or one input character.
#[derive(Debug, Clone, Copy, PartialEq, Eq, Hash, Structural)]
pub enum Terminal {
    EOS,
    Character(char),
}

impl From<char> for Terminal {
    fn from(c: char) -> (r: Terminal)
        ensures
            r == Terminal::Character(c),
    {
        Terminal::Character(c)
    }
}

impl vstd::std_specs::convert::FromSpecImpl<char> for Terminal {
    open spec fn obeys_from_spec() -> bool {
        true
    }

    open spec fn from_spec(c: char) -> Terminal {
        Terminal::Character(c)
    }
}

/// A grammar symbol as seen by the proofs: a terminal or the name of a nonterminal.
pub enum Sym {
    T(Terminal),
    N(Seq<char>),
}

/// A grammar symbol: a terminal or a nonterminal.
#[derive(Debug, Clone)]
pub enum Character {
    Terminal(Terminal),
    Nonterminal(Nonterminal),
}

impl View for Character {
    type V = Sym;

    open spec fn view(&self) -> Sym {
        match self {
            Character::Terminal(t) => Sym::T(*t),
            Character::Nonterminal(n) => Sym::N(n@),
        }
    }
}

impl Character {
    /// A copy that keeps the symbol.
    pub fn copy(&self) -> (r: Character)
        ensures
            r@ == self@,
    {
        match self {
            Character::Terminal(t) => Character::Terminal(*t),
            Character::Nonterminal(n) => Character::Nonterminal(n.copy()),
        }
    }
}

impl PartialEq for Character {
    fn eq(&self, o: &Character) -> (r: bool)
        ensures
            r == (self@ == o@),
    {
        match (self, o) {
            (Character::Terminal(a), Character::Terminal(b)) => *a == *b,
            (Character::Nonterminal(a), Character::Nonterminal(b)) => a.0 == b.0,
            _ => false,
        }
    }
}

impl vstd::std_specs::cmp::PartialEqSpecImpl for Character {
    open spec fn obeys_eq_spec() -> bool {
        true
    }

    open spec fn eq_spec(&self, o: &Character) -> bool {
        self@ == o@
    }
}

impl Eq for Character {}

impl From<char> for Character {
    fn from(c: char) -> (r: Character)
        ensures
            r@ == Sym::T(Terminal::Character(c)),
    {
        Character::Terminal(Terminal::Character(c))
    }
}

impl vstd::std_specs::convert::FromSpecImpl<char> for Character {
    open spec fn obeys_from_spec() -> bool {
        true
    }

    open spec fn from_spec(c: char) -> Character {
        Character::Terminal(Terminal::Character(c))
    }
}

impl From<Terminal> for Character {
    fn from(c: Terminal) -> (r: Character)
        ensures
            r@ == Sym::T(c),
    {
        Character::Terminal(c)
    }
}

impl vstd::std_specs::convert::FromSpecImpl<Terminal> for Character {
    open spec fn obeys_from_spec() -> bool {
        true
    }

    open spec fn from_spec(c: Terminal) -> Character {
        Character::Terminal(c)
    }
}

impl From<Nonterminal> for Character {
    fn from(c: Nonterminal) -> (r: Character)
        ensures
            r@ == Sym::N(c@),
    {
        Character::Nonterminal(c)
    }
}

impl vstd::std_specs::convert::FromSpecImpl<Nonterminal> for Character {
    open spec fn obeys_from_spec() -> bool {
        true
    }

    open spec fn from_spec(c: Nonterminal) -> Character {
        Character::Nonterminal(c)
    }
}

/// A production `left -> right` as seen by the proofs, with its dot position
/// when it is an item.
pub struct Prod {
    pub left: Seq<char>,
    pub right: Seq<Sym>,
    pub dot: Option<usize>,
}

/// A production `left -> right`; with a dot position it is an item.
#[derive(Debug, Clone)]
pub struct Grammer {
    pub left: Nonterminal,
    pub right: Vec<Character>,
    pub dot_pos: Option<usize>,
}

/// The symbols of a right-hand side.
pub open spec fn syms(r: Seq<Character>) -> Seq<Sym> {
    r.map_values(|c: Character| c@)
}

impl View for Grammer {
    type V = Prod;

    open spec fn view(&self) -> Prod {
        Prod { left: self.left@, right: syms(self.right@), dot: self.dot_pos }
    }
}

/// The productions of a grammar as seen by the proofs.
pub open spec fn prods(g: Seq<Grammer>) -> Seq<Prod> {
    g.map_values(|p: Grammer| p@)
}

/// Copies a right-hand side symbol by symbol.
pub fn copy_right(r: &Vec<Character>) -> (out: Vec<Character>)
    ensures
        syms(out@) == syms(r@),
{
    let mut out: Vec<Character> = Vec::new();
    let mut i: usize = 0;
    while i < r.len()
        invariant
            i <= r@.len(),
            out@.len() == i,
            forall|k: int| 0 <= k < i ==> (#[trigger] out@[k])@ == r@[k]@,
        decreases r@.len() - i,
    {
        out.push(r[i].copy());
        i = i + 1;
    }
    assert(syms(out@) =~= syms(r@));
    out
}

impl Grammer {
    /// A production with no dot.
    pub fn new(left: Nonterminal, right: Vec<Character>) -> (r: Grammer)
        ensures
            r@ == (Prod { left: left@, right: syms(right@), dot: None }),
    {
        Grammer { left, right, dot_pos: None }
    }

    /// A copy of this production with the dot at `pos`.
    pub fn with_dot(&self, pos: usize) -> (r: Grammer)
        ensures
            r@ == (Prod { left: self@.left, right: self@.right, dot: Some(pos) }),
    {
        Grammer { left: self.left.copy(), right: copy_right(&self.right), dot_pos: Some(pos) }
    }

    /// A copy that keeps left side, right side and dot.
    pub fn copy(&self) -> (r: Grammer)
        ensures
            r@ == self@,
    {
        Grammer { left: self.left.copy(), right: copy_right(&self.right), dot_pos: self.dot_pos }
    }

    /// Whether two productions agree in left side, right side and dot.
    pub fn same(&self, o: &Grammer) -> (r: bool)
        ensures
            r == (self@ == o@),
    {
        if self.left.0 != o.left.0 || self.dot_pos != o.dot_pos {
            return false;
        }
        if self.right.len() != o.right.len() {
            assert(syms(self.right@).len() != syms(o.right@).len());
            return false;
        }
        let mut i: usize = 0;
        while i < self.right.len()
            invariant
                i <= self.right@.len(),
                self.right@.len() == o.right@.len(),
                forall|k: int| 0 <= k < i ==> self.right@[k]@ == o.right@[k]@,
            decreases self.right@.len() - i,
        {
            if !self.right[i].eq(&o.right[i]) {
                assert(syms(self.right@)[i as int] != syms(o.right@)[i as int]);
                return false;
            }
            i = i + 1;
        }
        assert(syms(self.right@) =~= syms(o.right@));
        true
    }
}

impl PartialEq for Grammer {
    fn eq(&self, o: &Grammer) -> (r: bool)
        ensures
            r == (self@ == o@),
    {
        self.same(o)
    }
}

impl vstd::std_specs::cmp::PartialEqSpecImpl for Grammer {
    open spec fn obeys_eq_spec() -> bool {
        true
    }

    open spec fn eq_spec(&self, o: &Grammer) -> bool {
        self@ == o@
    }
}

impl Eq for Grammer {}

} // verus!
