//! A small string-keyed map backed by an association list. Its model is a
//! `Map<Seq<char>, _>`; a later insertion of an existing key overwrites the
//! earlier value in the model (last write wins), and `insert_absent` keeps
//! the earlier value (first write wins) — the two policies the document
//! model needs for attributes and for the dictionary.

use vstd::prelude::*;

verus! {

/// The model of an association list read left to right: later entries
/// overwrite earlier ones.
pub open spec fn assoc_view<V: DeepView>(es: Seq<(String, V)>) -> Map<Seq<char>, V::V>
    decreases es.len(),
{
    if es.len() == 0 {
        Map::empty()
    } else {
        assoc_view(es.drop_last()).insert(es.last().0@, es.last().1.deep_view())
    }
}

/// A mapping from strings to values, modelled as a `Map<Seq<char>, _>`.
#[derive(Debug, Clone, PartialEq)]
pub struct StrMap<V> {
    entries: Vec<(String, V)>,
}

impl<V: DeepView> View for StrMap<V> {
    type V = Map<Seq<char>, V::V>;

    closed spec fn view(&self) -> Map<Seq<char>, V::V> {
        assoc_view(self.entries@)
    }
}

impl<V: DeepView> DeepView for StrMap<V> {
    type V = Map<Seq<char>, V::V>;

    open spec fn deep_view(&self) -> Map<Seq<char>, V::V> {
        self.view()
    }
}

fn get_from<'x, V: DeepView>(es: &'x Vec<(String, V)>, i: usize, k: &String) -> (r: Option<&'x V>)
    requires
        i <= es@.len(),
    ensures
        match r {
            Some(v) => assoc_view(es@.take(i as int)).contains_key(k@) && v.deep_view()
                == assoc_view(es@.take(i as int))[k@],
            None => !assoc_view(es@.take(i as int)).contains_key(k@),
        },
    decreases i,
{
    if i == 0 {
        proof {
            assert(es@.take(0) =~= Seq::<(String, V)>::empty());
        }
        None
    } else {
        let e = &es[i - 1];
        proof {
            assert(es@.take(i as int).drop_last() =~= es@.take(i - 1 as int));
            assert(es@.take(i as int).last() == es@[i - 1 as int]);
        }
        if e.0.eq(k) {
            Some(&e.1)
        } else {
            get_from(es, i - 1, k)
        }
    }
}

impl<V: DeepView> StrMap<V> {
    /// The empty mapping.
    pub fn new() -> (r: Self)
        ensures
            r@ == Map::<Seq<char>, V::V>::empty(),
    {
        StrMap { entries: Vec::new() }
    }

    /// Look the key up; `Some` exactly when the model contains it.
    pub fn get(&self, k: &String) -> (r: Option<&V>)
        ensures
            match r {
                Some(v) => self@.contains_key(k@) && v.deep_view() == self@[k@],
                None => !self@.contains_key(k@),
            },
    {
        let n = self.entries.len();
        proof {
            assert(self.entries@.take(n as int) =~= self.entries@);
        }
        get_from(&self.entries, n, k)
    }

    /// Whether the key is present.
    pub fn contains_key(&self, k: &String) -> (r: bool)
        ensures
            r == self@.contains_key(k@),
    {
        match self.get(k) {
            Some(_) => true,
            None => false,
        }
    }

    /// Bind the key to the value; an existing binding is overwritten.
    pub fn insert(&mut self, k: String, v: V)
        ensures
            final(self)@ == old(self)@.insert(k@, v.deep_view()),
    {
        let ghost prev = self.entries@;
        let ghost kv = k@;
        let ghost vv = v.deep_view();
        self.entries.push((k, v));
        proof {
            assert(self.entries@.drop_last() =~= prev);
            assert(self.entries@.last() == (self.entries@[prev.len() as int]));
        }
    }

    /// Bind the key to the value only if it is absent: an existing binding
    /// is never overwritten.
    pub fn insert_absent(&mut self, k: String, v: V)
        ensures
            final(self)@ == if old(self)@.contains_key(k@) {
                old(self)@
            } else {
                old(self)@.insert(k@, v.deep_view())
            },
    {
        if !self.contains_key(&k) {
            self.insert(k, v);
        }
    }

    /// Whether the mapping is empty.
    pub fn is_empty(&self) -> (r: bool)
        ensures
            r == (self@ == Map::<Seq<char>, V::V>::empty()),
    {
        if self.entries.is_empty() {
            proof {
                assert(self@ =~= Map::<Seq<char>, V::V>::empty());
            }
            true
        } else {
            proof {
                let es = self.entries@;
                assert(self@.contains_key(es.last().0@));
                assert(!Map::<Seq<char>, V::V>::empty().contains_key(es.last().0@));
            }
            false
        }
    }

    /// The underlying entries, in insertion order. A key inserted twice
    /// occurs twice; the model keeps only the later binding.
    pub fn entries(&self) -> (r: &Vec<(String, V)>)
        ensures
            assoc_view(r@) == self@,
    {
        &self.entries
    }
}

} // verus!
