use crate::index::Index;
use vstd::prelude::*;

verus! {

/// The keys that a sequence of values stands for, position by position.
pub open spec fn views<K: View>(s: Seq<K>) -> Seq<K::V> {
    Seq::new(s.len(), |i: int| s[i]@)
}

/// A set of keys that remembers the order in which they came.
///
/// The set holds a key at most once: a key that is inserted again leaves
/// the set as it was.
#[derive(Debug)]
pub struct KeySet<K: Index> {
    items: Vec<K>,
}

impl<K: Index> View for KeySet<K> {
    type V = Set<K::V>;

    open spec fn view(&self) -> Set<K::V> {
        self.order().to_set()
    }
}

impl<K: Index> KeySet<K> {
    /// The keys of the set, oldest first.
    pub closed spec fn order(&self) -> Seq<K::V> {
        views(self.items@)
    }

    #[verifier::type_invariant]
    spec fn distinct(&self) -> bool {
        self.order().no_duplicates()
    }

    /// The empty set.
    pub fn new() -> (set: Self)
        ensures
            set.order() == Seq::<K::V>::empty(),
            set@ == Set::<K::V>::empty(),
    {
        let set = KeySet { items: Vec::new() };
        assert(set.order() =~= Seq::<K::V>::empty());
        assert(set@ =~= Set::<K::V>::empty());
        set
    }

    /// The number of keys.
    pub fn len(&self) -> (n: usize)
        ensures
            n == self.order().len(),
            n == self@.len(),
            self.order().no_duplicates(),
    {
        proof {
            use_type_invariant(self);
            self.order().unique_seq_to_set();
        }
        self.items.len()
    }

    pub fn is_empty(&self) -> (empty: bool)
        ensures
            empty == (self.order().len() == 0),
            empty == self@.is_empty(),
    {
        let n = self.len();
        proof {
            if n == 0 {
                assert(self@ =~= Set::<K::V>::empty());
            } else {
                assert(self@.contains(self.order()[0]));
            }
        }
        n == 0
    }

    /// Where in the order `key` stands, if the set holds it.
    pub fn position(&self, key: &K) -> (at: Option<usize>)
        ensures
            match at {
                Some(i) => i < self.order().len() && self.order()[i as int] == key@,
                None => !self@.contains(key@),
            },
    {
        let mut i: usize = 0;
        while i < self.items.len()
            invariant
                i <= self.items.len(),
                forall|j: int| 0 <= j < i ==> self.order()[j] != key@,
            decreases self.items.len() - i,
        {
            if self.items[i].same_key(key) {
                return Some(i);
            }
            i += 1;
        }
        None
    }

    pub fn contains(&self, key: &K) -> (held: bool)
        ensures
            held == self@.contains(key@),
    {
        self.position(key).is_some()
    }

    /// The key at place `i` of the order.
    pub fn get(&self, i: usize) -> (key: &K)
        requires
            i < self.order().len(),
        ensures
            key@ == self.order()[i as int],
    {
        &self.items[i]
    }

    /// Adds `key`; says whether the set did not hold it before.
    pub fn insert(&mut self, key: K) -> (fresh: bool)
        ensures
            fresh == !old(self)@.contains(key@),
            final(self)@ == old(self)@.insert(key@),
            final(self).order() == if fresh {
                old(self).order().push(key@)
            } else {
                old(self).order()
            },
    {
        if self.contains(&key) {
            assert(self@.insert(key@) =~= self@);
            false
        } else {
            proof {
                use_type_invariant(&*self);
            }
            let ghost before = self.order();
            let mut items: Vec<K> = Vec::new();
            std::mem::swap(&mut items, &mut self.items);
            items.push(key);
            assert(views(items@) =~= before.push(key@));
            assert(!before.contains(key@));
            self.items = items;
            proof {
                lemma_push_to_set(before, key@);
            }
            true
        }
    }

    /// Takes `key` out; says whether the set held it.
    pub fn remove(&mut self, key: &K) -> (held: bool)
        ensures
            held == old(self)@.contains(key@),
            final(self)@ == old(self)@.remove(key@),
            final(self).order() == if held {
                old(self).order().remove(old(self).order().index_of(key@))
            } else {
                old(self).order()
            },
    {
        match self.position(key) {
            None => {
                assert(self@.remove(key@) =~= self@);
                false
            },
            Some(i) => {
                proof {
                    use_type_invariant(&*self);
                }
                let ghost before = self.order();
                assert(before.index_of(key@) == i as int);
                let mut items: Vec<K> = Vec::new();
                std::mem::swap(&mut items, &mut self.items);
                let _ = items.remove(i);
                assert(views(items@) =~= before.remove(i as int));
                proof {
                    lemma_remove_to_set(before, i as int);
                }
                self.items = items;
                true
            },
        }
    }
}

impl<K: Index> Clone for KeySet<K> {
    fn clone(&self) -> (copy: Self)
        ensures
            copy.order() == self.order(),
            copy@ == self@,
    {
        let mut items: Vec<K> = Vec::new();
        let mut i: usize = 0;
        while i < self.items.len()
            invariant
                i <= self.items.len(),
                items.len() == i,
                views(items@) == self.order().take(i as int),
            decreases self.items.len() - i,
        {
            let ghost prev = items@;
            items.push(self.items[i].clone_key());
            assert forall|j: int| 0 <= j < i + 1 implies views(items@)[j] == self.order()[j] by {
                if j < i {
                    assert(views(prev)[j] == self.order().take(i as int)[j]);
                }
            }
            assert(views(items@) =~= self.order().take(i as int + 1));
            i += 1;
        }
        proof {
            use_type_invariant(self);
            assert(self.order().take(i as int) =~= self.order());
        }
        KeySet { items }
    }
}

/// Pushing a new element onto a sequence adds it to the sequence's set.
pub proof fn lemma_push_to_set<A>(s: Seq<A>, a: A)
    ensures
        s.push(a).to_set() == s.to_set().insert(a),
        s.no_duplicates() && !s.contains(a) ==> s.push(a).no_duplicates(),
{
    assert forall|x: A| s.push(a).to_set().contains(x) <==> s.to_set().insert(a).contains(x) by {
        if s.push(a).contains(x) {
            let j = choose|j: int| 0 <= j < s.len() + 1 && s.push(a)[j] == x;
            if j < s.len() {
                assert(s[j] == x);
            }
        }
        if s.contains(x) {
            let j = choose|j: int| 0 <= j < s.len() && s[j] == x;
            assert(s.push(a)[j] == x);
        }
        assert(s.push(a)[s.len() as int] == a);
    }
    assert(s.push(a).to_set() =~= s.to_set().insert(a));
}

/// Removing the only occurrence of an element removes it from the
/// sequence's set.
pub proof fn lemma_remove_to_set<A>(s: Seq<A>, i: int)
    requires
        s.no_duplicates(),
        0 <= i < s.len(),
    ensures
        s.remove(i).no_duplicates(),
        s.remove(i).to_set() == s.to_set().remove(s[i]),
{
    let t = s.remove(i);
    assert forall|a: int, b: int| 0 <= a < t.len() && 0 <= b < t.len() && a != b implies t[a]
        != t[b] by {
        let a2 = if a < i { a } else { a + 1 };
        let b2 = if b < i { b } else { b + 1 };
        assert(t[a] == s[a2] && t[b] == s[b2]);
    }
    assert forall|x: A| t.to_set().contains(x) <==> s.to_set().remove(s[i]).contains(x) by {
        if t.contains(x) {
            let a = choose|a: int| 0 <= a < t.len() && t[a] == x;
            let a2 = if a < i { a } else { a + 1 };
            assert(s[a2] == x);
        }
        if s.contains(x) && x != s[i] {
            let a = choose|a: int| 0 <= a < s.len() && s[a] == x;
            let a2 = if a < i { a } else { a - 1 };
            assert(t[a2] == x);
        }
    }
    assert(t.to_set() =~= s.to_set().remove(s[i]));
}

} // verus!
