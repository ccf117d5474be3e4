//! The blocks that a machine knows, by name.

use crate::ast::{nodes_view, Ast, Node};
use vstd::prelude::*;

verus! {

/// A block: its name and its body.
#[derive(Debug)]
struct Block {
    name: String,
    body: Vec<Ast>,
}

/// The model of a sequence of names: the characters of each, in order.
pub open spec fn names_view(names: Seq<String>) -> Seq<Seq<char>> {
    Seq::new(names.len(), |i: int| names[i]@)
}

/// The names `order` of the blocks `known` once `name` is defined: a name that
/// is new comes behind the others.
pub open spec fn listed(order: Seq<Seq<char>>, known: Set<Seq<char>>, name: Seq<char>) -> Seq<
    Seq<char>,
> {
    if known.contains(name) {
        order
    } else {
        order.push(name)
    }
}

/// Whether `entries` holds a block named `name`.
spec fn holds(entries: Seq<Block>, name: Seq<char>) -> bool {
    exists|i: int| 0 <= i < entries.len() && #[trigger] entries[i].name@ == name
}

/// The place of the block named `name` in `entries`.
spec fn place(entries: Seq<Block>, name: Seq<char>) -> int {
    choose|i: int| 0 <= i < entries.len() && #[trigger] entries[i].name@ == name
}

/// The blocks of a machine. No two of them have the same name.
#[derive(Debug)]
pub struct SymbolTable {
    entries: Vec<Block>,
}

impl View for SymbolTable {
    type V = Map<Seq<char>, Seq<Node>>;

    /// The table as a map from each name to the body defined under it.
    closed spec fn view(&self) -> Map<Seq<char>, Seq<Node>> {
        Map::new(
            |name: Seq<char>| holds(self.entries@, name),
            |name: Seq<char>| nodes_view(self.entries@[place(self.entries@, name)].body@),
        )
    }
}

impl SymbolTable {
    /// The names of the blocks, in the order in which they were first
    /// defined.
    pub closed spec fn order(&self) -> Seq<Seq<char>> {
        Seq::new(self.entries@.len(), |i: int| self.entries@[i].name@)
    }

    #[verifier::type_invariant]
    spec fn unique(&self) -> bool {
        forall|i: int, j: int|
            0 <= i < self.entries@.len() && 0 <= j < self.entries@.len()
                && #[trigger] self.entries@[i].name@ == #[trigger] self.entries@[j].name@ ==> i
                == j
    }

    /// A table without blocks.
    pub fn new() -> (table: SymbolTable)
        ensures
            table@ == Map::<Seq<char>, Seq<Node>>::empty(),
            table.order() == Seq::<Seq<char>>::empty(),
    {
        let table = SymbolTable { entries: Vec::new() };
        assert(table@ =~= Map::<Seq<char>, Seq<Node>>::empty());
        assert(table.order() =~= Seq::<Seq<char>>::empty());
        table
    }

    /// The place of the block named `name`, or the number of blocks where
    /// there is none.
    fn find(&self, name: &String) -> (at: usize)
        ensures
            at <= self.entries@.len(),
            at < self.entries@.len() ==> self.entries@[at as int].name@ == name@,
            at == self.entries@.len() ==> !holds(self.entries@, name@),
    {
        let mut at: usize = 0;
        while at < self.entries.len()
            invariant
                at <= self.entries@.len(),
                forall|i: int| 0 <= i < at ==> self.entries@[i].name@ != name@,
            decreases self.entries@.len() - at,
        {
            if self.entries[at].name == *name {
                return at;
            }
            at += 1;
        }
        at
    }

    /// The body of the block named `name`, if there is one.
    pub fn get(&self, name: &String) -> (found: Option<&Vec<Ast>>)
        ensures
            match found {
                Some(body) => self@.dom().contains(name@) && nodes_view(body@) == self@[name@],
                None => !self@.dom().contains(name@),
            },
    {
        let at = self.find(name);
        proof {
            use_type_invariant(self);
        }
        if at < self.entries.len() {
            Some(&self.entries[at].body)
        } else {
            None
        }
    }

    /// Puts `body` under `name`, in place of what stood there. A name that
    /// is new comes behind the others.
    pub fn insert(&mut self, name: String, body: Vec<Ast>)
        ensures
            final(self)@ == old(self)@.insert(name@, nodes_view(body@)),
            final(self).order() == listed(old(self).order(), old(self)@.dom(), name@),
    {
        let at = self.find(&name);
        proof {
            use_type_invariant(&*self);
        }
        let ghost before = self.entries@;
        let ghost key = name@;
        let ghost value = nodes_view(body@);
        let mut entries: Vec<Block> = Vec::new();
        std::mem::swap(&mut self.entries, &mut entries);
        if at < entries.len() {
            entries.set(at, Block { name, body });
        } else {
            entries.push(Block { name, body });
        }
        let ghost after = entries@;
        proof {
            assert forall|i: int, j: int|
                0 <= i < after.len() && 0 <= j < after.len() && #[trigger] after[i].name@
                    == #[trigger] after[j].name@ implies i == j by {
                if i < before.len() && j < before.len() {
                    assert(before[i].name@ == before[j].name@);
                } else if i < before.len() {
                    assert(before[i].name@ == key);
                } else if j < before.len() {
                    assert(before[j].name@ == key);
                }
            }
        }
        std::mem::swap(&mut self.entries, &mut entries);
        proof {
            assert forall|k: Seq<char>| holds(after, k) <==> (k == key || holds(before, k)) by {
                if holds(after, k) {
                    let i = place(after, k);
                    if k != key {
                        assert(before[i].name@ == k);
                    }
                }
                if holds(before, k) {
                    let i = place(before, k);
                    assert(after[i].name@ == k);
                }
                if k == key {
                    assert(after[at as int].name@ == k);
                }
            }
            assert forall|k: Seq<char>| holds(after, k) implies nodes_view(
                after[place(after, k)].body@,
            ) == (if k == key {
                value
            } else {
                nodes_view(before[place(before, k)].body@)
            }) by {
                let i = place(after, k);
                if k == key {
                    assert(after[at as int].name@ == k);
                    assert(i == at);
                } else {
                    assert(before[i].name@ == k);
                    let j = place(before, k);
                    assert(after[j].name@ == k);
                    assert(i == j);
                }
            }
            assert(self@ =~= old(self)@.insert(key, value));
            if at < before.len() {
                assert(holds(before, key));
                assert(self.order() =~= old(self).order());
            } else {
                assert(self.order() =~= old(self).order().push(key));
            }
        }
    }

    /// The names of the blocks, in the order in which they were first
    /// defined. Each name of a block stands there once.
    pub fn names(&self) -> (names: Vec<String>)
        ensures
            names_view(names@) == self.order(),
            self.order().no_duplicates(),
            self.order().to_set() == self@.dom(),
    {
        let mut names: Vec<String> = Vec::new();
        let mut i: usize = 0;
        proof {
            use_type_invariant(self);
        }
        while i < self.entries.len()
            invariant
                i <= self.entries@.len(),
                names@.len() == i,
                forall|j: int| 0 <= j < i ==> #[trigger] names@[j]@ == self.entries@[j].name@,
            decreases self.entries@.len() - i,
        {
            names.push(self.entries[i].name.clone());
            i += 1;
        }
        proof {
            let order = self.order();
            assert(names_view(names@) =~= order);
            assert forall|k: Seq<char>| order.to_set().contains(k) <==> holds(
                self.entries@,
                k,
            ) by {
                if order.contains(k) {
                    let j = choose|j: int| 0 <= j < order.len() && order[j] == k;
                    assert(self.entries@[j].name@ == k);
                }
                if holds(self.entries@, k) {
                    let j = place(self.entries@, k);
                    assert(order[j] == k);
                }
            }
            assert(order.to_set() =~= self@.dom());
        }
        names
    }
}

} // verus!
