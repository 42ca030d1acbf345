//! The collections of a database, by name.
use crate::error::VectorDbError;
use vstd::prelude::*;

verus! {

/// The text of each string.
pub open spec fn views_of(strings: Seq<String>) -> Seq<Seq<char>> {
    strings.map_values(|s: String| s@)
}

/// The collections of a database, each under a name of its own, kept in the
/// order they were created.
#[derive(Debug)]
pub struct Catalog<C> {
    entries: Vec<(String, C)>,
}

impl<C> Catalog<C> {
    /// The names, in creation order.
    pub closed spec fn names(&self) -> Seq<Seq<char>> {
        self.entries@.map_values(|e: (String, C)| e.0@)
    }

    /// The position of an entry named `name`.
    closed spec fn position(&self, name: Seq<char>) -> int {
        choose|i: int| 0 <= i < self.entries@.len() && self.entries@[i].0@ == name
    }

    /// The collection under each name.
    pub closed spec fn contents(&self) -> Map<Seq<char>, C> {
        Map::new(
            |name: Seq<char>| self.names().contains(name),
            |name: Seq<char>| self.entries@[self.position(name)].1,
        )
    }

    /// No name occurs twice.
    pub closed spec fn wf(&self) -> bool {
        self.names().no_duplicates()
    }

    proof fn lemma_entry(&self, i: int)
        requires
            self.wf(),
            0 <= i < self.entries@.len(),
        ensures
            self.names()[i] == self.entries@[i].0@,
            self.contents().contains_key(self.entries@[i].0@),
            self.contents()[self.entries@[i].0@] == self.entries@[i].1,
    {
        let name = self.entries@[i].0@;
        assert(self.names()[i] == name);
        assert(self.names().contains(name));
        let j = self.position(name);
        assert(self.names()[j] == name);
    }

    /// The names are exactly the keys of the contents.
    pub proof fn lemma_names_are_keys(&self)
        requires
            self.wf(),
        ensures
            forall|name: Seq<char>| #[trigger]
                self.contents().contains_key(name) <==> self.names().contains(name),
            self.names().len() == self.contents().dom().len(),
    {
        self.names().unique_seq_to_set();
        assert(self.contents().dom() =~= self.names().to_set());
    }

    /// An empty catalog.
    pub fn new() -> (r: Self)
        ensures
            r.wf(),
            r.names() == Seq::<Seq<char>>::empty(),
            r.contents() == Map::<Seq<char>, C>::empty(),
    {
        let r = Catalog { entries: Vec::new() };
        assert(r.names() =~= Seq::<Seq<char>>::empty());
        assert(r.contents() =~= Map::<Seq<char>, C>::empty());
        r
    }

    fn find(&self, name: &String) -> (r: Option<usize>)
        requires
            self.wf(),
        ensures
            match r {
                Some(i) => i < self.entries@.len() && self.entries@[i as int].0@ == name@,
                None => !self.contents().contains_key(name@),
            },
    {
        let n = self.entries.len();
        let mut i: usize = 0;
        while i < n
            invariant
                n == self.entries@.len(),
                0 <= i <= n,
                forall|j: int| 0 <= j < i ==> #[trigger] self.entries@[j].0@ != name@,
            decreases n - i,
        {
            if self.entries[i].0 == *name {
                return Some(i);
            }
            i = i + 1;
        }
        proof {
            if self.names().contains(name@) {
                let j = choose|j: int| 0 <= j < self.names().len() && self.names()[j] == name@;
                assert(self.entries@[j].0@ == name@);
            }
        }
        None
    }

    /// Whether a collection is registered under `name`.
    pub fn contains(&self, name: &str) -> (r: bool)
        requires
            self.wf(),
        ensures
            r == self.contents().contains_key(name@),
    {
        let owned = name.to_owned();
        let found = self.find(&owned);
        proof {
            if let Some(i) = found {
                self.lemma_entry(i as int);
            }
        }
        found.is_some()
    }

    /// Registers `collection` under `name`, refusing a name already taken.
    pub fn create(&mut self, name: String, collection: C) -> (r: Result<(), VectorDbError>)
        requires
            old(self).wf(),
        ensures
            final(self).wf(),
            old(self).contents().contains_key(name@) ==> {
                &&& r matches Err(VectorDbError::CollectionAlreadyExists(taken))
                &&& taken@ == name@
                &&& *final(self) == *old(self)
            },
            !old(self).contents().contains_key(name@) ==> {
                &&& r is Ok
                &&& final(self).contents() == old(self).contents().insert(name@, collection)
                &&& final(self).names() == old(self).names().push(name@)
            },
    {
        match self.find(&name) {
            Some(i) => {
                proof {
                    self.lemma_entry(i as int);
                }
                Err(VectorDbError::CollectionAlreadyExists(name))
            },
            None => {
                let ghost pre = *self;
                let ghost key = name@;
                self.entries.push((name, collection));
                proof {
                    assert(self.names() =~= pre.names().push(key));
                    assert(!pre.names().contains(key));
                    assert forall|a: int, b: int|
                        0 <= a < self.names().len() && 0 <= b < self.names().len() && a != b
                            implies self.names()[a] != self.names()[b] by {
                        if a < pre.names().len() && b < pre.names().len() {
                            assert(self.names()[a] == pre.names()[a]);
                            assert(self.names()[b] == pre.names()[b]);
                        } else if a < pre.names().len() {
                            assert(self.names()[a] == pre.names()[a]);
                            assert(pre.names().contains(pre.names()[a]));
                        } else {
                            assert(self.names()[b] == pre.names()[b]);
                            assert(pre.names().contains(pre.names()[b]));
                        }
                    }
                    let last = self.entries@.len() - 1;
                    assert forall|n: Seq<char>| #[trigger]
                        self.contents().contains_key(n) == pre.contents().insert(key, collection).contains_key(n)
                        by {
                        if n == key {
                            assert(self.names()[last] == key);
                        }
                        if n != key && self.names().contains(n) {
                            let j = choose|j: int| 0 <= j < self.names().len() && self.names()[j] == n;
                            assert(j != last);
                            assert(pre.names()[j] == n);
                        }
                        if pre.names().contains(n) {
                            let j = choose|j: int| 0 <= j < pre.names().len() && pre.names()[j] == n;
                            assert(self.names()[j] == n);
                        }
                    }
                    assert forall|n: Seq<char>| #[trigger] self.contents().contains_key(n)
                        implies self.contents()[n] == pre.contents().insert(key, collection)[n] by {
                        let j = choose|j: int| 0 <= j < self.names().len() && self.names()[j] == n;
                        self.lemma_entry(j);
                        if j != last {
                            pre.lemma_entry(j);
                            assert(self.entries@[j] == pre.entries@[j]);
                        }
                    }
                    assert(self.contents() =~= pre.contents().insert(key, collection));
                }
                Ok(())
            },
        }
    }

    /// The collection registered under `name`.
    pub fn get(&self, name: &str) -> (r: Result<&C, VectorDbError>)
        requires
            self.wf(),
        ensures
            self.contents().contains_key(name@) ==> {
                &&& r matches Ok(c)
                &&& *c == self.contents()[name@]
            },
            !self.contents().contains_key(name@) ==> {
                &&& r matches Err(VectorDbError::CollectionNotFound(missing))
                &&& missing@ == name@
            },
    {
        let owned = name.to_owned();
        match self.find(&owned) {
            Some(i) => {
                proof {
                    self.lemma_entry(i as int);
                }
                Ok(&self.entries[i].1)
            },
            None => Err(VectorDbError::CollectionNotFound(owned)),
        }
    }

    /// Unregisters the collection under `name`. Answers whether there was one.
    pub fn remove(&mut self, name: &str) -> (r: bool)
        requires
            old(self).wf(),
        ensures
            final(self).wf(),
            r == old(self).contents().contains_key(name@),
            final(self).contents() == old(self).contents().remove(name@),
            r ==> exists|i: int|
                0 <= i < old(self).names().len() && old(self).names()[i] == name@
                    && final(self).names() == old(self).names().remove(i),
            !r ==> *final(self) == *old(self),
    {
        let owned = name.to_owned();
        match self.find(&owned) {
            None => false,
            Some(i) => {
                let ghost pre = *self;
                let ghost key = name@;
                proof {
                    pre.lemma_entry(i as int);
                }
                self.entries.remove(i);
                proof {
                    let k = i as int;
                    assert(self.names() =~= pre.names().remove(k));
                    assert forall|a: int, b: int|
                        0 <= a < self.names().len() && 0 <= b < self.names().len() && a != b
                            implies self.names()[a] != self.names()[b] by {
                        let pa = if a < k { a } else { a + 1 };
                        let pb = if b < k { b } else { b + 1 };
                        assert(self.names()[a] == pre.names()[pa]);
                        assert(self.names()[b] == pre.names()[pb]);
                    }
                    assert forall|n: Seq<char>| #[trigger]
                        self.contents().contains_key(n) == pre.contents().remove(key).contains_key(n) by {
                        if self.names().contains(n) {
                            let j = choose|j: int| 0 <= j < self.names().len() && self.names()[j] == n;
                            let pj = if j < k { j } else { j + 1 };
                            assert(pre.names()[pj] == n);
                            assert(pre.names().contains(n));
                            assert(pj != k);
                        }
                        if n != key && pre.names().contains(n) {
                            let j = choose|j: int| 0 <= j < pre.names().len() && pre.names()[j] == n;
                            assert(j != k);
                            let sj = if j < k { j } else { j - 1 };
                            assert(self.names()[sj] == n);
                        }
                    }
                    assert forall|n: Seq<char>| #[trigger] self.contents().contains_key(n)
                        implies self.contents()[n] == pre.contents().remove(key)[n] by {
                        let j = choose|j: int| 0 <= j < self.names().len() && self.names()[j] == n;
                        let pj = if j < k { j } else { j + 1 };
                        self.lemma_entry(j);
                        assert(self.entries@[j] == pre.entries@[pj]);
                        pre.lemma_entry(pj);
                    }
                    assert(self.contents() =~= pre.contents().remove(key));
                }
                true
            },
        }
    }

    /// The names, in creation order.
    pub fn names_in_order(&self) -> (r: Vec<String>)
        requires
            self.wf(),
        ensures
            views_of(r@) == self.names(),
    {
        let n = self.entries.len();
        let mut out: Vec<String> = Vec::new();
        let mut i: usize = 0;
        while i < n
            invariant
                n == self.entries@.len(),
                0 <= i <= n,
                out@.len() == i,
                views_of(out@) == self.names().take(i as int),
            decreases n - i,
        {
            let ghost before = out@;
            out.push(self.entries[i].0.clone());
            proof {
                assert(out@ == before.push(self.entries@[i as int].0));
                assert forall|j: int| 0 <= j < i + 1 implies #[trigger] views_of(out@)[j]
                    == self.names().take(i + 1)[j] by {
                    if j < i {
                        assert(views_of(before)[j] == self.names().take(i as int)[j]);
                    }
                }
                assert(views_of(out@) =~= self.names().take(i + 1));
            }
            i = i + 1;
        }
        proof {
            assert(self.names().take(n as int) =~= self.names());
        }
        out
    }
}

/// Law: the collection created under a name is what a later lookup of that name
/// finds, and every other name keeps what it had.
pub proof fn law_created_collection_is_found<C>(
    before: Catalog<C>,
    after: Catalog<C>,
    name: Seq<char>,
    collection: C,
)
    requires
        after.contents() == before.contents().insert(name, collection),
    ensures
        after.contents().contains_key(name),
        after.contents()[name] == collection,
        forall|other: Seq<char>|
            other != name ==> (#[trigger] after.contents().contains_key(other)
                == before.contents().contains_key(other)),
        forall|other: Seq<char>|
            other != name && before.contents().contains_key(other) ==> #[trigger] after.contents()[other]
                == before.contents()[other],
{
}

/// Law: once a collection is dropped, a lookup of its name finds nothing, and
/// every other name keeps what it had.
pub proof fn law_dropped_collection_is_not_found<C>(
    before: Catalog<C>,
    after: Catalog<C>,
    name: Seq<char>,
)
    requires
        after.contents() == before.contents().remove(name),
    ensures
        !after.contents().contains_key(name),
        forall|other: Seq<char>|
            other != name ==> (#[trigger] after.contents().contains_key(other)
                == before.contents().contains_key(other)),
        forall|other: Seq<char>|
            other != name && before.contents().contains_key(other) ==> #[trigger] after.contents()[other]
                == before.contents()[other],
{
}

/// Law: creating a collection under a free name and dropping it again leaves the
/// catalog as it was.
pub proof fn law_create_then_drop_restores<C>(
    before: Catalog<C>,
    created: Catalog<C>,
    dropped: Catalog<C>,
    name: Seq<char>,
    collection: C,
)
    requires
        !before.contents().contains_key(name),
        created.contents() == before.contents().insert(name, collection),
        created.names() == before.names().push(name),
        dropped.contents() == created.contents().remove(name),
        exists|i: int|
            0 <= i < created.names().len() && created.names()[i] == name && dropped.names()
                == created.names().remove(i),
        created.wf(),
    ensures
        dropped.contents() == before.contents(),
        dropped.names() == before.names(),
{
    assert(dropped.contents() =~= before.contents());
    let i = choose|i: int|
        0 <= i < created.names().len() && created.names()[i] == name && dropped.names()
            == created.names().remove(i);
    let last = before.names().len() as int;
    assert(created.names()[last] == name);
    assert(i == last);
    assert(dropped.names() =~= before.names());
}

} // verus!
