//! A registry of named items with dependency edges between them.

use vstd::prelude::*;
use crate::error::Error;
use crate::graph::Graph;
use crate::graph::well_formed;
use crate::graph::with_edge;
use crate::graph::with_node;
use crate::graph::can_depend;
use crate::names::StringMap;
use crate::names::StringSet;

verus! {

/// Owns items under their names and, for each name, the names it depends
/// on.  Registering a name a second time replaces the item and forgets the
/// edges declared for it.
pub struct DepTree<T: ?Sized> {
    items: StringMap<Box<T>>,
    deps: Vec<StringSet>,
}

impl<T: ?Sized> DepTree<T> {
    /// The registered names, in the order of first registration.
    pub closed spec fn names(&self) -> Seq<Seq<char>> {
        self.items.keys()
    }

    /// The item registered under each name.
    pub closed spec fn items(&self) -> Map<Seq<char>, Box<T>> {
        self.items@
    }

    /// The dependencies declared for each name, in the order of declaration.
    pub closed spec fn deps(&self) -> Graph {
        Map::new(
            |k: Seq<char>| self.items.keys().contains(k),
            |k: Seq<char>| self.deps@[self.items.slot(k)].names(),
        )
    }

    /// True when `name` is registered.
    pub open spec fn contains(&self, name: Seq<char>) -> bool {
        self.deps().contains_key(name)
    }

    /// The invariant of the registry.
    pub closed spec fn wf(&self) -> bool {
        &&& self.items.wf()
        &&& self.deps@.len() == self.items.keys().len()
        &&& forall|i: int| 0 <= i < self.deps@.len() ==> (#[trigger] self.deps@[i]).wf()
        &&& forall|i: int, j: int|
            0 <= i < self.deps@.len() && 0 <= j < self.deps@[i].names().len()
                ==> self.items.keys().contains(#[trigger] self.deps@[i].names()[j])
    }

    /// What the invariant means for the model: every registered name has an
    /// item and a dependency list, and the dependency lists form a
    /// well-formed graph.
    pub proof fn lemma_wf(&self)
        requires
            self.wf(),
        ensures
            well_formed(self.deps()),
            self.names().no_duplicates(),
            self.deps().dom() == self.names().to_set(),
            self.items().dom() == self.deps().dom(),
    {
        let g = self.deps();
        let keys = self.items.keys();
        assert(g.dom() =~= keys.to_set());
        assert(self.items().dom() =~= g.dom());
        vstd::seq_lib::seq_to_set_is_finite(keys);
        assert forall|n: Seq<char>| #[trigger] g.contains_key(n) implies g[n].no_duplicates() by {
            let i = self.items.slot(n);
            assert(self.deps@[i].wf());
        }
        assert forall|n: Seq<char>, j: int| g.contains_key(n) && 0 <= j < g[n].len() implies g.contains_key(
            #[trigger] g[n][j],
        ) by {
            let i = self.items.slot(n);
            assert(keys.contains(self.deps@[i].names()[j]));
        }
    }

    /// A registry that holds nothing.
    pub fn new() -> (tree: DepTree<T>)
        ensures
            tree.wf(),
            tree.names() == Seq::<Seq<char>>::empty(),
            tree.deps() == Map::<Seq<char>, Seq<Seq<char>>>::empty(),
            tree.items() == Map::<Seq<char>, Box<T>>::empty(),
    {
        let tree = DepTree::<T> { items: StringMap::new(), deps: Vec::new() };
        assert(tree.deps() =~= Map::<Seq<char>, Seq<Seq<char>>>::empty());
        tree
    }

    /// Registers `value` under `name`.  A name that was registered before
    /// gets the new item and an empty dependency list; edges that other
    /// names declared to it stay.
    pub fn insert_box(&mut self, name: &str, value: Box<T>)
        requires
            old(self).wf(),
        ensures
            final(self).wf(),
            final(self).items() == old(self).items().insert(name@, value),
            final(self).deps() == with_node(old(self).deps(), name@),
            final(self).names() == if old(self).contains(name@) {
                old(self).names()
            } else {
                old(self).names().push(name@)
            },
    {
        let ghost keys0 = self.items.keys();
        let ghost deps0 = self.deps@;
        let found = self.items.index_of(name);
        self.items.insert(name.to_owned(), value);
        let ghost keys1 = self.items.keys();
        match found {
            Some(i) => {
                self.deps.set(i, StringSet::new());
                assert(self.wf());
                assert(self.deps() =~= with_node(old(self).deps(), name@)) by {
                    assert forall|k: Seq<char>| self.deps().contains_key(k) implies self.deps()[k]
                        == with_node(old(self).deps(), name@)[k] by {
                        if k != name@ {
                            assert(self.items.slot(k) != i);
                        }
                    }
                }
            },
            None => {
                self.deps.push(StringSet::new());
                assert forall|k: Seq<char>| keys0.contains(k) implies keys1.contains(k)
                    && self.items.slot(k) == old(self).items.slot(k) by {
                    let j = old(self).items.slot(k);
                    assert(keys1[j] == k);
                }
                assert(keys1[keys0.len() as int] == name@);
                assert(self.items.slot(name@) == keys0.len());
                assert(self.wf()) by {
                    assert forall|i: int, j: int|
                        0 <= i < self.deps@.len() && 0 <= j < self.deps@[i].names().len()
                        implies self.items.keys().contains(
                        #[trigger] self.deps@[i].names()[j],
                    ) by {
                        assert(keys0.contains(deps0[i].names()[j]));
                    }
                }
                assert(self.deps() =~= with_node(old(self).deps(), name@)) by {
                    assert forall|k: Seq<char>| self.deps().contains_key(k) <==> with_node(
                        old(self).deps(),
                        name@,
                    ).contains_key(k) by {
                        if keys1.contains(k) && k != name@ {
                            let j = choose|j: int| 0 <= j < keys1.len() && keys1[j] == k;
                            assert(keys0[j] == k);
                        }
                    }
                }
            },
        }
    }

    /// The item registered under `name`, if there is one.
    pub fn get_item(&self, name: &str) -> (item: Option<&T>)
        requires
            self.wf(),
        ensures
            item.is_some() == self.contains(name@),
            item matches Some(t) ==> t == self.items()[name@],
    {
        match self.items.get(name) {
            Some(a) => Some(&**a),
            None => None,
        }
    }

    /// The names that `name` depends on.  Fails when `name` is not
    /// registered.
    pub fn get_deps(&self, name: &str) -> (deps: Result<&StringSet, Error>)
        requires
            self.wf(),
        ensures
            deps.is_ok() == self.contains(name@),
            deps matches Ok(set) ==> set.wf() && set.names() == self.deps()[name@],
            deps matches Err(e) ==> e.is_item_not_found(name@),
    {
        match self.items.index_of(name) {
            Some(i) => Ok(&self.deps[i]),
            None => Err(Error::ItemNotFound { name: name.to_owned() }),
        }
    }

    /// Declares that `dependent` depends on `depended_on`.  Both must be
    /// registered: the error names `dependent` when it is missing, else
    /// `depended_on`, and the registry is left as it was.  Declaring an edge
    /// that is there already changes nothing.
    pub fn set_dependency(&mut self, dependent: &str, depended_on: &str) -> (done: Result<
        (),
        Error,
    >)
        requires
            old(self).wf(),
        ensures
            final(self).wf(),
            final(self).items() == old(self).items(),
            final(self).names() == old(self).names(),
            final(self).deps() == with_edge(old(self).deps(), dependent@, depended_on@),
            done.is_ok() == can_depend(old(self).deps(), dependent@, depended_on@),
            done matches Err(e) ==> e.is_item_not_found(
                if old(self).contains(dependent@) {
                    depended_on@
                } else {
                    dependent@
                },
            ),
    {
        let from = match self.items.index_of(dependent) {
            Some(i) => i,
            None => {
                return Err(Error::ItemNotFound { name: dependent.to_owned() });
            },
        };
        if !self.items.contains_key(depended_on) {
            return Err(Error::ItemNotFound { name: depended_on.to_owned() });
        }
        let ghost before = self.deps@[from as int].names();
        let set = &mut self.deps[from];
        let fresh = set.insert(depended_on.to_owned());
        assert(self.wf()) by {
            assert forall|i: int, j: int|
                0 <= i < self.deps@.len() && 0 <= j < self.deps@[i].names().len()
                implies self.items.keys().contains(#[trigger] self.deps@[i].names()[j]) by {
                if i == from && j == before.len() {
                } else {
                    assert(old(self).deps@[i].names()[j] == self.deps@[i].names()[j]);
                }
            }
        }
        assert(self.deps() =~= with_edge(old(self).deps(), dependent@, depended_on@)) by {
            assert forall|k: Seq<char>| self.deps().contains_key(k) implies self.deps()[k]
                == with_edge(old(self).deps(), dependent@, depended_on@)[k] by {
                if k != dependent@ {
                    assert(self.items.slot(k) != from);
                }
            }
        }
        Ok(())
    }

    /// The whole mapping from names to items.
    pub fn items_mut(&mut self) -> (items: &StringMap<Box<T>>)
        requires
            old(self).wf(),
        ensures
            items.wf(),
            items@ == old(self).items(),
            items.keys() == old(self).names(),
            *final(self) == *old(self),
    {
        &self.items
    }
}

impl<T: Sized> DepTree<T> {
    /// Registers `value` under `name`, as `insert_box` does.
    pub fn insert(&mut self, name: &str, value: T)
        requires
            old(self).wf(),
        ensures
            final(self).wf(),
            final(self).items() == old(self).items().insert(name@, Box::new(value)),
            final(self).deps() == with_node(old(self).deps(), name@),
            final(self).names() == if old(self).contains(name@) {
                old(self).names()
            } else {
                old(self).names().push(name@)
            },
    {
        self.insert_box(name, Box::new(value))
    }
}

} // verus!
