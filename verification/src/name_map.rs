//! A map keyed by names, walked in dictionary order.

use crate::text::{
    holds_text, lemma_text_less_irreflexive, lemma_text_less_total, lemma_text_less_transitive,
    same_text, text_before, text_less, texts,
};
use vstd::prelude::*;

verus! {

/// Whether names stand in dictionary order, none twice.
pub open spec fn ascending(names: Seq<Seq<char>>) -> bool {
    forall|i: int, j: int|
        0 <= i < j < names.len() ==> text_less(#[trigger] names[i], #[trigger] names[j])
}

/// Whether a list holds exactly the names of a set, in dictionary order.
pub open spec fn lists(names: Seq<Seq<char>>, set: Set<Seq<char>>) -> bool {
    &&& ascending(names)
    &&& forall|k: Seq<char>| #[trigger] names.contains(k) <==> set.contains(k)
}

/// A map from names to values.
#[derive(Debug)]
pub struct NameMap<V: View> {
    entries: Vec<(String, V)>,
}

impl<V: View> View for NameMap<V> {
    type V = Map<Seq<char>, V::V>;

    closed spec fn view(&self) -> Map<Seq<char>, V::V> {
        Map::new(
            |k: Seq<char>| self.names().contains(k),
            |k: Seq<char>| self.entries@[self.names().index_of(k)].1@,
        )
    }
}

impl<V: View> NameMap<V> {
    /// The names in the map, in dictionary order.
    pub closed spec fn names(&self) -> Seq<Seq<char>> {
        Seq::new(self.entries@.len(), |i: int| self.entries@[i].0@)
    }

    #[verifier::type_invariant]
    spec fn ordered(&self) -> bool {
        ascending(self.names())
    }

    /// An empty map.
    pub fn new() -> (r: NameMap<V>)
        ensures
            r@ == Map::<Seq<char>, V::V>::empty(),
            r.names().len() == 0,
    {
        let r = NameMap { entries: Vec::new() };
        assert(r@ =~= Map::<Seq<char>, V::V>::empty());
        r
    }

    /// The value at a place in an ordered list.
    proof fn lemma_at(self, i: int)
        requires
            ascending(self.names()),
            0 <= i < self.entries@.len(),
        ensures
            self@.dom().contains(self.entries@[i].0@),
            self@[self.entries@[i].0@] == self.entries@[i].1@,
            self.names()[i] == self.entries@[i].0@,
    {
        let k = self.names()[i];
        assert(self.names().contains(k));
        let j = self.names().index_of(k);
        assert(self.names()[j] == k);
        if j != i {
            lemma_text_less_irreflexive(k);
        }
    }

    /// How many names there are.
    pub fn len(&self) -> (r: usize)
        ensures
            r == self.names().len(),
            lists(self.names(), self@.dom()),
    {
        proof {
            use_type_invariant(&*self);
        }
        self.entries.len()
    }

    /// The name at a place in dictionary order.
    pub fn name_at(&self, i: usize) -> (r: &String)
        requires
            i < self.names().len(),
        ensures
            r@ == self.names()[i as int],
            self@.dom().contains(r@),
    {
        proof {
            use_type_invariant(&*self);
            self.lemma_at(i as int);
        }
        &self.entries[i].0
    }

    /// The value at a place in dictionary order.
    pub fn value_at(&self, i: usize) -> (r: &V)
        requires
            i < self.names().len(),
        ensures
            self@.dom().contains(self.names()[i as int]),
            r@ == self@[self.names()[i as int]],
    {
        proof {
            use_type_invariant(&*self);
            self.lemma_at(i as int);
        }
        &self.entries[i].1
    }

    /// The first place whose name does not stand before `key`.
    fn place(&self, key: &str) -> (r: usize)
        ensures
            r <= self.entries@.len(),
            forall|j: int| 0 <= j < r ==> text_less(#[trigger] self.names()[j], key@),
            r < self.entries@.len() ==> !text_less(self.names()[r as int], key@),
    {
        let mut i: usize = 0;
        while i < self.entries.len() && text_before(self.entries[i].0.as_str(), key)
            invariant
                i <= self.entries@.len(),
                forall|j: int| 0 <= j < i ==> text_less(#[trigger] self.names()[j], key@),
            decreases self.entries@.len() - i,
        {
            i = i + 1;
        }
        i
    }

    /// A name that is not at its place is nowhere.
    proof fn lemma_absent(self, key: Seq<char>, r: int)
        requires
            ascending(self.names()),
            0 <= r <= self.entries@.len(),
            forall|j: int| 0 <= j < r ==> text_less(#[trigger] self.names()[j], key),
            r < self.entries@.len() ==> !text_less(self.names()[r], key) && self.names()[r] != key,
        ensures
            !self@.dom().contains(key),
            forall|j: int| r <= j < self.entries@.len() ==> text_less(key, #[trigger] self.names()[j]),
    {
        let names = self.names();
        assert forall|j: int| r <= j < self.entries@.len() implies text_less(
            key,
            #[trigger] names[j],
        ) by {
            lemma_text_less_total(names[r], key);
            if j > r {
                lemma_text_less_transitive(key, names[r], names[j]);
            }
        }
        if names.contains(key) {
            let j = names.index_of(key);
            assert(names[j] == key);
            lemma_text_less_irreflexive(key);
        }
    }

    /// Whether a name is in the map.
    pub fn contains(&self, key: &str) -> (r: bool)
        ensures
            r == self@.dom().contains(key@),
    {
        match self.get(key) {
            Some(_) => true,
            None => false,
        }
    }

    /// The value of a name.
    pub fn get(&self, key: &str) -> (r: Option<&V>)
        ensures
            match r {
                Some(v) => self@.dom().contains(key@) && v@ == self@[key@],
                None => !self@.dom().contains(key@),
            },
    {
        proof {
            use_type_invariant(&*self);
        }
        let i = self.place(key);
        if i < self.entries.len() && same_text(self.entries[i].0.as_str(), key) {
            proof {
                self.lemma_at(i as int);
            }
            Some(&self.entries[i].1)
        } else {
            proof {
                self.lemma_absent(key@, i as int);
            }
            None
        }
    }

    /// Takes a name out of the map.
    pub fn take(&mut self, key: &str) -> (r: Option<V>)
        ensures
            match r {
                Some(v) => old(self)@.dom().contains(key@) && v@ == old(self)@[key@],
                None => !old(self)@.dom().contains(key@),
            },
            final(self)@ == old(self)@.remove(key@),
    {
        proof {
            use_type_invariant(&*self);
        }
        let ghost before = *self;
        let i = self.place(key);
        if i < self.entries.len() && same_text(self.entries[i].0.as_str(), key) {
            let mut entries: Vec<(String, V)> = Vec::new();
            std::mem::swap(&mut entries, &mut self.entries);
            let ghost all = entries@;
            let (_, value) = entries.remove(i);
            proof {
                let after = NameMap { entries };
                assert(after.names() =~= before.names().remove(i as int));
                lemma_without(before, after, i as int);
            }
            self.entries = entries;
            proof {
                before.lemma_at(i as int);
            }
            Some(value)
        } else {
            proof {
                self.lemma_absent(key@, i as int);
                assert(self@ =~= before@.remove(key@));
            }
            None
        }
    }

    /// Sets the value of a name.
    pub fn insert(&mut self, key: String, value: V)
        ensures
            final(self)@ == old(self)@.insert(key@, value@),
    {
        proof {
            use_type_invariant(&*self);
        }
        let _ = self.take(key.as_str());
        proof {
            use_type_invariant(&*self);
        }
        let ghost before = *self;
        let i = self.place(key.as_str());
        let ghost k = key@;
        proof {
            if i < before.entries@.len() && before.names()[i as int] == k {
                before.lemma_at(i as int);
            }
            before.lemma_absent(k, i as int);
        }
        let mut entries: Vec<(String, V)> = Vec::new();
        std::mem::swap(&mut entries, &mut self.entries);
        entries.insert(i, (key, value));
        proof {
            let after = NameMap { entries };
            assert(after.names() =~= before.names().insert(i as int, k));
            lemma_with(before, after, i as int);
            assert(before@.insert(k, value@) =~= old(self)@.insert(k, value@));
        }
        self.entries = entries;
    }

    /// Keeps only the names that a list holds.
    pub fn retain(&mut self, keep: &Vec<String>)
        ensures
            final(self)@ == old(self)@.restrict(texts(keep@).to_set()),
    {
        proof {
            use_type_invariant(&*self);
        }
        let ghost before = *self;
        let ghost set = texts(keep@).to_set();
        let mut i: usize = 0;
        assert(self@ =~= before@);
        while i < self.entries.len()
            invariant
                i <= self.entries@.len(),
                ascending(self.names()),
                set == texts(keep@).to_set(),
                forall|j: int| 0 <= j < i ==> set.contains(#[trigger] self.names()[j]),
                self@.restrict(set) == before@.restrict(set),
            decreases self.entries@.len() - i,
        {
            if holds_text(keep, self.entries[i].0.as_str()) {
                assert(set.contains(self.names()[i as int]));
                i = i + 1;
            } else {
                let ghost now = *self;
                let mut entries: Vec<(String, V)> = Vec::new();
                std::mem::swap(&mut entries, &mut self.entries);
                let _ = entries.remove(i);
                proof {
                    let after = NameMap { entries };
                    assert(after.names() =~= now.names().remove(i as int));
                    assert(!set.contains(now.names()[i as int]));
                    lemma_without(now, after, i as int);
                    assert(after@.restrict(set) =~= now@.restrict(set));
                    assert forall|j: int| 0 <= j < i implies set.contains(
                        #[trigger] after.names()[j],
                    ) by {
                        assert(after.names()[j] == now.names()[j]);
                    }
                }
                self.entries = entries;
            }
        }
        assert forall|k: Seq<char>| self@.dom().contains(k) implies set.contains(k) by {
            let j = self.names().index_of(k);
            assert(self.names()[j] == k);
        }
        assert(self@ =~= self@.restrict(set));
    }
}

/// Taking out the entry at a place.
proof fn lemma_without<V: View>(before: NameMap<V>, after: NameMap<V>, i: int)
    requires
        ascending(before.names()),
        0 <= i < before.entries@.len(),
        after.entries@ == before.entries@.remove(i),
    ensures
        ascending(after.names()),
        after@ == before@.remove(before.names()[i]),
{
    let k = before.names()[i];
    let a = after.names();
    let b = before.names();
    assert forall|x: int, y: int| 0 <= x < y < a.len() implies text_less(
        #[trigger] a[x],
        #[trigger] a[y],
    ) by {
        let x0 = if x < i {
            x
        } else {
            x + 1
        };
        let y0 = if y < i {
            y
        } else {
            y + 1
        };
        assert(a[x] == b[x0]);
        assert(a[y] == b[y0]);
    }
    assert forall|n: Seq<char>| after@.dom().contains(n) <==> before@.remove(k).dom().contains(
        n,
    ) by {
        if a.contains(n) {
            let x = a.index_of(n);
            let x0 = if x < i {
                x
            } else {
                x + 1
            };
            assert(a[x] == b[x0]);
            assert(b.contains(n));
            lemma_text_less_irreflexive(n);
        }
        if b.contains(n) && n != k {
            let x0 = b.index_of(n);
            let x = if x0 < i {
                x0
            } else {
                x0 - 1
            };
            assert(a[x] == b[x0]);
            assert(a.contains(n));
        }
    }
    assert forall|n: Seq<char>| after@.dom().contains(n) implies #[trigger] after@[n]
        == before@.remove(k)[n] by {
        let x = a.index_of(n);
        let x0 = if x < i {
            x
        } else {
            x + 1
        };
        assert(a[x] == b[x0]);
        after.lemma_at(x);
        before.lemma_at(x0);
    }
    assert(after@ =~= before@.remove(k));
}

/// Putting in an entry at its place.
proof fn lemma_with<V: View>(before: NameMap<V>, after: NameMap<V>, i: int)
    requires
        ascending(before.names()),
        0 <= i <= before.entries@.len(),
        after.entries@.len() == before.entries@.len() + 1,
        after.entries@ == before.entries@.insert(i, after.entries@[i]),
        forall|j: int|
            0 <= j < i ==> text_less(#[trigger] before.names()[j], after.entries@[i].0@),
        forall|j: int|
            i <= j < before.entries@.len() ==> text_less(
                after.entries@[i].0@,
                #[trigger] before.names()[j],
            ),
    ensures
        ascending(after.names()),
        after@ == before@.insert(after.entries@[i].0@, after.entries@[i].1@),
{
    let k = after.entries@[i].0@;
    let a = after.names();
    let b = before.names();
    assert forall|x: int, y: int| 0 <= x < y < a.len() implies text_less(
        #[trigger] a[x],
        #[trigger] a[y],
    ) by {
        if x < i {
            assert(a[x] == b[x]);
        } else if x > i {
            assert(a[x] == b[x - 1]);
        }
        if y < i {
            assert(a[y] == b[y]);
        } else if y > i {
            assert(a[y] == b[y - 1]);
        }
    }
    let target = before@.insert(k, after.entries@[i].1@);
    assert forall|n: Seq<char>| after@.dom().contains(n) <==> target.dom().contains(n) by {
        if a.contains(n) {
            let x = a.index_of(n);
            if x < i {
                assert(b[x] == n);
                assert(b.contains(n));
            } else if x > i {
                assert(b[x - 1] == n);
                assert(b.contains(n));
            }
        }
        if b.contains(n) {
            let x = b.index_of(n);
            if x < i {
                assert(a[x] == n);
            } else {
                assert(a[x + 1] == n);
            }
            assert(a.contains(n));
        }
        assert(a[i] == k);
        assert(a.contains(k));
    }
    assert forall|n: Seq<char>| after@.dom().contains(n) implies #[trigger] after@[n]
        == target[n] by {
        let x = a.index_of(n);
        after.lemma_at(x);
        lemma_text_less_irreflexive(n);
        if x < i {
            assert(a[x] == b[x]);
            before.lemma_at(x);
        } else if x > i {
            assert(a[x] == b[x - 1]);
            before.lemma_at(x - 1);
        }
    }
    assert(after@ =~= target);
}

/// A set of names has one list in dictionary order.
pub proof fn law_listing_is_unique(a: Seq<Seq<char>>, b: Seq<Seq<char>>, set: Set<Seq<char>>)
    requires
        lists(a, set),
        lists(b, set),
    ensures
        a == b,
    decreases a.len(),
{
    if a.len() == 0 {
        if b.len() > 0 {
            assert(b.contains(b[0]));
            assert(a.contains(b[0]));
        }
        assert(a =~= b);
    } else {
        assert(a.contains(a[0]));
        assert(b.contains(a[0]));
        assert(b.len() > 0);
        assert(b.contains(b[0]));
        assert(a.contains(b[0]));
        let i = a.index_of(b[0]);
        let j = b.index_of(a[0]);
        lemma_text_less_irreflexive(a[0]);
        if i > 0 && j > 0 {
            lemma_text_less_transitive(a[0], b[0], a[0]);
        }
        assert(a[0] == b[0]);
        let a1 = a.drop_first();
        let b1 = b.drop_first();
        let rest = set.remove(a[0]);
        assert forall|k: Seq<char>| #[trigger] a1.contains(k) <==> rest.contains(k) by {
            if a1.contains(k) {
                let x = a1.index_of(k);
                assert(a[x + 1] == k);
                assert(a.contains(k));
                lemma_text_less_irreflexive(k);
            }
            if rest.contains(k) {
                assert(a.contains(k));
                let x = a.index_of(k);
                assert(a1[x - 1] == k);
            }
        }
        assert forall|k: Seq<char>| #[trigger] b1.contains(k) <==> rest.contains(k) by {
            if b1.contains(k) {
                let x = b1.index_of(k);
                assert(b[x + 1] == k);
                assert(b.contains(k));
                lemma_text_less_irreflexive(k);
            }
            if rest.contains(k) {
                assert(b.contains(k));
                let x = b.index_of(k);
                assert(b1[x - 1] == k);
            }
        }
        law_listing_is_unique(a1, b1, rest);
        assert(a =~= seq![a[0]] + a1);
        assert(b =~= seq![b[0]] + b1);
    }
}

} // verus!
