//! A minimal heterogeneous store: at most one value per type-identity token,
//! addressable by that token. The registry in [`crate::meta`] only relies on
//! this keyed-lookup capability, so the store can be swapped for any other
//! container that offers it.

use vstd::prelude::*;

verus! {

/// A process-stable type-identity token, reported by every value that can
/// live in a [`Resources`] store.
///
/// Implementors must report one fixed token per concrete shape of value: the
/// token plays the role of a runtime type tag, and the registry keys on it.
pub trait Tagged {
    /// The token as specifications see it.
    spec fn spec_tag(&self) -> u64;

    /// Reports the type-identity token of this value.
    fn type_tag(&self) -> (t: u64)
        ensures
            t == self.spec_tag(),
    ;
}

/// The association from identity tokens to stored values described by two
/// parallel columns; later columns win when a token repeats.
pub open spec fn map_of<V>(keys: Seq<u64>, vals: Seq<V>) -> Map<u64, V>
    decreases keys.len(),
{
    if keys.len() == 0 || vals.len() == 0 {
        Map::empty()
    } else {
        map_of(keys.drop_last(), vals.drop_last()).insert(keys.last(), vals.last())
    }
}

proof fn lemma_map_of_dom<V>(keys: Seq<u64>, vals: Seq<V>)
    requires
        keys.len() == vals.len(),
    ensures
        map_of(keys, vals).dom() == keys.to_set(),
    decreases keys.len(),
{
    if keys.len() == 0 {
        assert(map_of(keys, vals).dom() =~= keys.to_set());
    } else {
        lemma_map_of_dom(keys.drop_last(), vals.drop_last());
        assert forall|t: u64| keys.to_set().contains(t) implies map_of(keys, vals).dom().contains(
            t,
        ) by {
            let i = choose|i: int| 0 <= i < keys.len() && keys[i] == t;
            if i < keys.len() - 1 {
                assert(keys.drop_last()[i] == t);
                assert(keys.drop_last().to_set().contains(t));
            }
        }
        assert forall|t: u64| map_of(keys, vals).dom().contains(t) implies keys.to_set().contains(
            t,
        ) by {
            if t != keys.last() {
                let i = choose|i: int| 0 <= i < keys.drop_last().len() && keys.drop_last()[i] == t;
                assert(keys[i] == t);
            }
        }
        assert(map_of(keys, vals).dom() =~= keys.to_set());
    }
}

proof fn lemma_map_of_index<V>(keys: Seq<u64>, vals: Seq<V>, i: int)
    requires
        keys.len() == vals.len(),
        keys.no_duplicates(),
        0 <= i < keys.len(),
    ensures
        map_of(keys, vals).contains_key(keys[i]),
        map_of(keys, vals)[keys[i]] == vals[i],
    decreases keys.len(),
{
    if i == keys.len() - 1 {
    } else {
        lemma_map_of_index(keys.drop_last(), vals.drop_last(), i);
        assert(keys.drop_last()[i] == keys[i]);
        assert(keys[i] != keys.last());
    }
}

proof fn lemma_map_of_update<V>(keys: Seq<u64>, vals: Seq<V>, i: int, v: V)
    requires
        keys.len() == vals.len(),
        keys.no_duplicates(),
        0 <= i < keys.len(),
    ensures
        map_of(keys, vals.update(i, v)) == map_of(keys, vals).insert(keys[i], v),
    decreases keys.len(),
{
    if i == keys.len() - 1 {
        assert(vals.update(i, v).drop_last() =~= vals.drop_last());
        assert(vals.update(i, v).last() == v);
        assert(map_of(keys, vals.update(i, v)) =~= map_of(keys, vals).insert(keys[i], v));
    } else {
        lemma_map_of_update(keys.drop_last(), vals.drop_last(), i, v);
        assert(vals.update(i, v).drop_last() =~= vals.drop_last().update(i, v));
        assert(keys.drop_last()[i] == keys[i]);
        assert(keys[i] != keys.last());
        assert(map_of(keys, vals.update(i, v)) =~= map_of(keys, vals).insert(keys[i], v));
    }
}

proof fn lemma_map_of_update_all<V>(keys: Seq<u64>, vals: Seq<V>, i: int)
    requires
        keys.len() == vals.len(),
        keys.no_duplicates(),
        0 <= i < keys.len(),
    ensures
        forall|v: V| #[trigger] map_of(keys, vals.update(i, v)) == map_of(keys, vals).insert(
            keys[i],
            v,
        ),
{
    assert forall|v: V| #[trigger] map_of(keys, vals.update(i, v)) == map_of(keys, vals).insert(
        keys[i],
        v,
    ) by {
        lemma_map_of_update(keys, vals, i, v);
    }
}

proof fn lemma_map_of_push<V>(keys: Seq<u64>, vals: Seq<V>, t: u64, v: V)
    requires
        keys.len() == vals.len(),
    ensures
        map_of(keys.push(t), vals.push(v)) == map_of(keys, vals).insert(t, v),
{
    assert(keys.push(t).drop_last() =~= keys);
    assert(vals.push(v).drop_last() =~= vals);
    assert(keys.push(t).last() == t);
    assert(vals.push(v).last() == v);
}

/// Locates a token in a column of tokens.
fn find_key(keys: &Vec<u64>, t: u64) -> (r: Option<usize>)
    ensures
        match r {
            Some(i) => i < keys@.len() && keys@[i as int] == t,
            None => !keys@.contains(t),
        },
{
    let n = keys.len();
    let mut i: usize = 0;
    while i < n
        invariant
            i <= n,
            n == keys@.len(),
            forall|j: int| 0 <= j < i ==> keys@[j] != t,
        decreases n - i,
    {
        if keys[i] == t {
            return Some(i);
        }
        i += 1;
    }
    None
}

/// A store holding at most one value per type-identity token.
///
/// The store never learns which interfaces its values satisfy; it only hands
/// values out by token, and the registry does the narrowing.
pub struct Resources<V> {
    keys: Vec<u64>,
    vals: Vec<V>,
}

impl<V> View for Resources<V> {
    type V = Map<u64, V>;

    closed spec fn view(&self) -> Map<u64, V> {
        map_of(self.keys@, self.vals@)
    }
}

impl<V> Resources<V> {
    /// Every token is bound at most once, and each token has its value.
    pub closed spec fn wf(&self) -> bool {
        &&& self.keys@.no_duplicates()
        &&& self.keys@.len() == self.vals@.len()
    }

    /// Creates an empty store.
    pub fn new() -> (r: Self)
        ensures
            r.wf(),
            r@ == Map::<u64, V>::empty(),
    {
        Resources { keys: Vec::new(), vals: Vec::new() }
    }

    /// Inserts a value under its own reported token, replacing any value the
    /// token was bound to before.
    pub fn insert(&mut self, v: V) where V: Tagged
        requires
            old(self).wf(),
        ensures
            final(self).wf(),
            final(self)@ == old(self)@.insert(v.spec_tag(), v),
    {
        let t = v.type_tag();
        match find_key(&self.keys, t) {
            Some(i) => {
                proof {
                    lemma_map_of_update(self.keys@, self.vals@, i as int, v);
                }
                self.vals[i] = v;
            },
            None => {
                proof {
                    lemma_map_of_push(self.keys@, self.vals@, t, v);
                    assert(self.keys@.push(t).no_duplicates());
                }
                self.keys.push(t);
                self.vals.push(v);
            },
        }
    }

    /// Whether the store currently holds a value under the token.
    pub fn contains(&self, ty: u64) -> (b: bool)
        requires
            self.wf(),
        ensures
            b == self@.contains_key(ty),
    {
        proof {
            lemma_map_of_dom(self.keys@, self.vals@);
        }
        match find_key(&self.keys, ty) {
            Some(i) => {
                proof {
                    lemma_map_of_index(self.keys@, self.vals@, i as int);
                }
                true
            },
            None => false,
        }
    }

    /// The raw address of the value stored under the token, if any: the
    /// lookup half of the store's side of the contract.
    pub fn get_raw(&self, ty: u64) -> (r: Option<&V>)
        requires
            self.wf(),
        ensures
            match r {
                Some(p) => self@.contains_key(ty) && *p == self@[ty],
                None => !self@.contains_key(ty),
            },
    {
        proof {
            lemma_map_of_dom(self.keys@, self.vals@);
        }
        match find_key(&self.keys, ty) {
            Some(i) => {
                proof {
                    lemma_map_of_index(self.keys@, self.vals@, i as int);
                }
                Some(&self.vals[i])
            },
            None => None,
        }
    }

    /// The exclusive counterpart of [`Resources::get_raw`]: the store hands
    /// out at most this one live handle to the value.
    pub fn get_mut_raw(&mut self, ty: u64) -> (r: Option<&mut V>)
        requires
            old(self).wf(),
        ensures
            final(self).wf(),
            match r {
                Some(p) => old(self)@.contains_key(ty) && *p == old(self)@[ty] && final(self)@
                    == old(self)@.insert(ty, *final(p)),
                None => !old(self)@.contains_key(ty) && final(self)@ == old(self)@,
            },
    {
        proof {
            lemma_map_of_dom(self.keys@, self.vals@);
        }
        match find_key(&self.keys, ty) {
            Some(i) => {
                proof {
                    lemma_map_of_index(self.keys@, self.vals@, i as int);
                    lemma_map_of_update_all(self.keys@, self.vals@, i as int);
                }
                Some(&mut self.vals[i])
            },
            None => None,
        }
    }
}

} // verus!
