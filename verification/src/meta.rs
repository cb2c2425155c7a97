//! The capability registry: an ordered, deduplicated mapping from
//! type-identity tokens to the capability of narrowing a stored value to a
//! common interface, with keyed lookup and in-order iteration.

use std::collections::HashMap;
use std::hash::BuildHasherDefault;
use std::marker::PhantomData;
use vstd::prelude::*;

use crate::store::{Resources, Tagged};

verus! {

/// fxhash's hasher, declared so the registry's index map can be the same
/// `FxHashMap` the fast path calls for.
#[verifier::external_type_specification]
#[verifier::external_body]
pub struct ExFxHasher(fxhash::FxHasher);

/// `std::hash::BuildHasherDefault`, the builder `fxhash::FxBuildHasher`
/// abbreviates.
#[verifier::external_type_specification]
#[verifier::external_body]
#[verifier::reject_recursive_types(H)]
pub struct ExBuildHasherDefault<H>(BuildHasherDefault<H>);

/// The index map of the registry: token to position in registration order.
type FxIndexMap = HashMap<u64, usize, fxhash::FxBuildHasher>;

/// Relies on `fxhash::FxHashMap::default` (`std::collections::HashMap` with
/// the deterministic `FxHasher`): a freshly built map is empty.
#[verifier::external_body]
fn index_map_new() -> (r: FxIndexMap)
    ensures
        forall|k: u64| !(#[trigger] r@.contains_key(k)),
{
    fxhash::FxHashMap::default()
}

/// Relies on `std::collections::HashMap::insert` (with fxhash's
/// deterministic hasher): the key is bound to the value and other bindings
/// are untouched.
#[verifier::external_body]
fn index_map_insert(m: &mut FxIndexMap, k: u64, v: usize)
    ensures
        final(m)@ == old(m)@.insert(k, v),
{
    m.insert(k, v);
}

/// Relies on `std::collections::HashMap::get` (with fxhash's deterministic
/// hasher): the value bound to the key, or absence.
#[verifier::external_body]
fn index_map_get(m: &FxIndexMap, k: u64) -> (r: Option<usize>)
    ensures
        r == (if m@.contains_key(k) {
            Some(m@[k])
        } else {
            None::<usize>
        }),
{
    m.get(&k).copied()
}

/// The adapter capability: a value of type `T` can be narrowed to the
/// interface carrier `Self`.
///
/// Declared once per interface, by whoever owns the interface; the registry
/// never needs to know the interface's method set. `spec_cast` is the
/// narrowing as specifications see it, and `spec_embed` says how a write
/// through the narrowed reference lands back in the wider value, so that
/// mutation through the registry stays visible in the store.
pub trait CastFrom<T>: Sized {
    /// The narrowed image of a wider value.
    spec fn spec_cast(t: T) -> Self;

    /// The wider value after the narrowed part has been overwritten.
    spec fn spec_embed(t: T, v: Self) -> T;

    /// Casts an immutable `T` reference to the interface carrier.
    fn cast(t: &T) -> (r: &Self)
        ensures
            *r == Self::spec_cast(*t),
    ;

    /// Casts a mutable `T` reference to the interface carrier.
    fn cast_mut(t: &mut T) -> (r: &mut Self)
        ensures
            *r == Self::spec_cast(*old(t)),
            *final(t) == Self::spec_embed(*old(t), *final(r)),
    ;
}

/// What a registration leaves behind: a fresh identity token is appended,
/// a token already present keeps its original position.
pub open spec fn register_model(tags: Seq<u64>, t: u64) -> Seq<u64> {
    if tags.contains(t) {
        tags
    } else {
        tags.push(t)
    }
}

/// The registry: an ordered, deduplicated record of which type-identity
/// tokens may be narrowed to the interface carrier `T`.
///
/// Values are registered once per concrete type; afterwards any value
/// reporting a registered token can be narrowed, however it reached the
/// store. Lookup for an unregistered token is a normal absence, never an
/// error.
pub struct MetaTable<T> {
    indices: FxIndexMap,
    tys: Vec<u64>,
    marker: PhantomData<T>,
}

impl<T> MetaTable<T> {
    /// The registered identity tokens, in registration order.
    pub closed spec fn tags(&self) -> Seq<u64> {
        self.tys@
    }

    /// Whether the token has been registered.
    pub open spec fn registered(&self, t: u64) -> bool {
        self.tags().contains(t)
    }

    /// Each token is recorded once, and the index map mirrors the positions
    /// of the ordered token list.
    pub closed spec fn wf(&self) -> bool {
        &&& self.tys@.no_duplicates()
        &&& self.indices@.dom() == self.tys@.to_set()
        &&& forall|i: int|
            0 <= i < self.tys@.len() ==> #[trigger] self.indices@[self.tys@[i]] == i
    }

    /// Creates an empty registry.
    pub fn new() -> (r: Self)
        ensures
            r.wf(),
            r.tags() == Seq::<u64>::empty(),
    {
        let r = MetaTable { indices: index_map_new(), tys: Vec::new(), marker: PhantomData };
        proof {
            assert(r.indices@.dom() =~= r.tys@.to_set());
        }
        r
    }

    /// Registers the concrete type of the sample `r`: any instance of the
    /// type will do, only its identity token is kept. Registering a token
    /// again leaves the registry as it was, at the token's original
    /// position; the narrowing capability itself lives in the
    /// [`CastFrom`] adapter and needs no per-type witness here.
    pub fn register<R: Tagged>(&mut self, r: &R)
        requires
            old(self).wf(),
        ensures
            final(self).wf(),
            final(self).tags() == register_model(old(self).tags(), r.spec_tag()),
    {
        let t = r.type_tag();
        match index_map_get(&self.indices, t) {
            Some(_ind) => {
                proof {
                    assert(self.tys@.to_set().contains(t));
                }
            },
            None => {
                let ind = self.tys.len();
                proof {
                    assert(!self.tys@.to_set().contains(t));
                }
                index_map_insert(&mut self.indices, t, ind);
                self.tys.push(t);
                proof {
                    let tys0 = old(self).tys@;
                    let tys1 = self.tys@;
                    assert forall|x: u64| tys1.contains(x) implies (tys0.contains(x) || x == t) by {
                        let i = choose|i: int| 0 <= i < tys1.len() && tys1[i] == x;
                        if i < tys0.len() {
                            assert(tys0[i] == x);
                        }
                    }
                    assert forall|x: u64| tys0.contains(x) implies tys1.contains(x) by {
                        let i = choose|i: int| 0 <= i < tys0.len() && tys0[i] == x;
                        assert(tys1[i] == x);
                    }
                    assert(tys1[tys0.len() as int] == t);
                    assert(self.tys@.to_set() =~= self.indices@.dom());
                    assert(self.tys@.no_duplicates());
                }
            },
        }
    }

    /// Tries to narrow `res` to the interface carrier. Succeeds exactly when
    /// the token `res` reports was registered; an unregistered token is a
    /// normal absence.
    pub fn get<'a, V>(&self, res: &'a V) -> (r: Option<&'a T>) where V: Tagged, T: CastFrom<V>
        requires
            self.wf(),
        ensures
            match r {
                Some(p) => self.registered(res.spec_tag()) && *p == T::spec_cast(*res),
                None => !self.registered(res.spec_tag()),
            },
    {
        let t = res.type_tag();
        match index_map_get(&self.indices, t) {
            Some(_ind) => {
                proof {
                    assert(self.tys@.to_set().contains(t));
                }
                Some(T::cast(res))
            },
            None => {
                proof {
                    if self.tys@.contains(t) {
                        assert(self.tys@.to_set().contains(t));
                    }
                }
                None
            },
        }
    }

    /// The exclusive counterpart of [`MetaTable::get`]: the same lookup, and
    /// a write through the returned reference lands back in `res`.
    pub fn get_mut<'a, V>(&self, res: &'a mut V) -> (r: Option<&'a mut T>) where
        V: Tagged,
        T: CastFrom<V>,

        requires
            self.wf(),
        ensures
            match r {
                Some(p) => self.registered(old(res).spec_tag()) && *p == T::spec_cast(*old(res))
                    && *final(res) == T::spec_embed(*old(res), *final(p)),
                None => !self.registered(old(res).spec_tag()) && *final(res) == *old(res),
            },
    {
        let t = res.type_tag();
        match index_map_get(&self.indices, t) {
            Some(_ind) => {
                proof {
                    assert(self.tys@.to_set().contains(t));
                }
                Some(T::cast_mut(res))
            },
            None => {
                proof {
                    if self.tys@.contains(t) {
                        assert(self.tys@.to_set().contains(t));
                    }
                }
                None
            },
        }
    }
}

/// The identity tokens a full walk over the registry yields, in
/// registration order: tokens the store holds no value for are skipped
/// without ending the walk.
pub open spec fn visited_tags(tags: Seq<u64>, present: Set<u64>) -> Seq<u64>
    decreases tags.len(),
{
    if tags.len() == 0 {
        Seq::empty()
    } else if present.contains(tags[0]) {
        seq![tags[0]] + visited_tags(tags.drop_first(), present)
    } else {
        visited_tags(tags.drop_first(), present)
    }
}

/// How one step of a walk relates to the whole: at a held token the walk
/// yields it and goes on behind it, at an absent token it moves on as if
/// the token were not there.
proof fn lemma_visited_skip_one(tags: Seq<u64>, present: Set<u64>, i: int)
    requires
        0 <= i < tags.len(),
    ensures
        present.contains(tags[i]) ==> visited_tags(tags.skip(i), present) == seq![tags[i]]
            + visited_tags(tags.skip(i + 1), present),
        !present.contains(tags[i]) ==> visited_tags(tags.skip(i), present) == visited_tags(
            tags.skip(i + 1),
            present,
        ),
{
    assert(tags.skip(i).len() > 0);
    assert(tags.skip(i)[0] == tags[i]);
    assert(tags.skip(i).drop_first() =~= tags.skip(i + 1));
}

/// An in-order walk over the values the store holds for the registered
/// types, already narrowed to the interface carrier.
///
/// The walk is forward-only and not restartable: a fresh one must be made
/// to iterate again.
pub struct MetaIter<'a, T, V> {
    table: &'a MetaTable<T>,
    res: &'a Resources<V>,
    index: usize,
}

impl<'a, T, V> MetaIter<'a, T, V> {
    /// The walk reads a well-formed registry and store, and its cursor
    /// never passes the end of the token list.
    pub closed spec fn wf(&self) -> bool {
        &&& self.table.wf()
        &&& self.res.wf()
        &&& self.index <= self.table.tags().len()
    }

    /// The contents of the store the walk was created over.
    pub closed spec fn store_map(&self) -> Map<u64, V> {
        self.res@
    }

    /// The tokens the rest of the walk will yield values for, in order.
    pub closed spec fn remaining_tags(&self) -> Seq<u64> {
        visited_tags(self.table.tags().skip(self.index as int), self.res@.dom())
    }
}

impl<'a, T, V> MetaIter<'a, T, V> where T: CastFrom<V> {
    /// Yields the narrowed reference for the next registered type the store
    /// holds, or nothing once every registered token has been passed.
    pub fn next(&mut self) -> (r: Option<&'a T>)
        requires
            old(self).wf(),
        ensures
            final(self).wf(),
            final(self).store_map() == old(self).store_map(),
            ({
                let rem = old(self).remaining_tags();
                match r {
                    None => rem.len() == 0 && final(self).remaining_tags().len() == 0,
                    Some(p) => rem.len() > 0 && *p == T::spec_cast(
                        old(self).store_map()[rem[0]],
                    ) && final(self).remaining_tags() == rem.drop_first(),
                }
            }),
    {
        let n = self.table.tys.len();
        while self.index < n
            invariant
                self.wf(),
                self.table == old(self).table,
                self.res == old(self).res,
                n == self.table.tags().len(),
                visited_tags(self.table.tags().skip(self.index as int), self.res@.dom())
                    == old(self).remaining_tags(),
            decreases n - self.index,
        {
            let t = self.table.tys[self.index];
            proof {
                lemma_visited_skip_one(self.table.tags(), self.res@.dom(), self.index as int);
            }
            if self.res.contains(t) {
                self.index += 1;
                proof {
                    let rem = old(self).remaining_tags();
                    assert(rem[0] == t);
                    assert(rem.drop_first() =~= visited_tags(
                        self.table.tags().skip(self.index as int),
                        self.res@.dom(),
                    ));
                }
                match self.res.get_raw(t) {
                    Some(v) => {
                        return Some(T::cast(v));
                    },
                    None => {
                        return None;
                    },
                }
            } else {
                self.index += 1;
            }
        }
        None
    }
}

/// The exclusive walk: like [`MetaIter`], but each step borrows the store
/// exclusively and yields a reference that writes back into it.
///
/// The walk holds no store of its own; the caller lends the store to every
/// step, which keeps the store's exclusivity discipline in the caller's
/// hands.
pub struct MetaIterMut<'a, T> {
    table: &'a MetaTable<T>,
    index: usize,
}

impl<'a, T> MetaIterMut<'a, T> {
    /// The walk reads a well-formed registry and its cursor never passes
    /// the end of the token list.
    pub closed spec fn wf(&self) -> bool {
        &&& self.table.wf()
        &&& self.index <= self.table.tags().len()
    }

    /// The registered tokens the walk runs along.
    pub closed spec fn table_tags(&self) -> Seq<u64> {
        self.table.tags()
    }

    /// How far the walk has come.
    pub closed spec fn cursor(&self) -> int {
        self.index as int
    }

    /// Yields an exclusive narrowed reference for the next registered type
    /// the store holds; a write through it lands in the store.
    pub fn next<'b, V>(&mut self, res: &'b mut Resources<V>) -> (r: Option<&'b mut T>) where
        T: CastFrom<V>,

        requires
            old(self).wf(),
            old(res).wf(),
        ensures
            final(self).wf(),
            final(self).table_tags() == old(self).table_tags(),
            final(res).wf(),
            ({
                let rem = visited_tags(
                    old(self).table_tags().skip(old(self).cursor()),
                    old(res)@.dom(),
                );
                let rem2 = visited_tags(
                    final(self).table_tags().skip(final(self).cursor()),
                    old(res)@.dom(),
                );
                match r {
                    None => rem.len() == 0 && rem2.len() == 0 && final(res)@ == old(res)@,
                    Some(p) => rem.len() > 0 && *p == T::spec_cast(old(res)@[rem[0]])
                        && final(res)@ == old(res)@.insert(
                        rem[0],
                        T::spec_embed(old(res)@[rem[0]], *final(p)),
                    ) && rem2 == rem.drop_first(),
                }
            }),
    {
        let n = self.table.tys.len();
        while self.index < n
            invariant
                self.wf(),
                res.wf(),
                self.table == old(self).table,
                res@ == old(res)@,
                n == self.table.tags().len(),
                visited_tags(self.table.tags().skip(self.index as int), res@.dom())
                    == visited_tags(
                    old(self).table_tags().skip(old(self).cursor()),
                    old(res)@.dom(),
                ),
            decreases n - self.index,
        {
            let t = self.table.tys[self.index];
            proof {
                lemma_visited_skip_one(self.table.tags(), res@.dom(), self.index as int);
            }
            if res.contains(t) {
                self.index += 1;
                proof {
                    let rem = visited_tags(
                        old(self).table_tags().skip(old(self).cursor()),
                        old(res)@.dom(),
                    );
                    assert(rem[0] == t);
                    assert(rem.drop_first() =~= visited_tags(
                        self.table.tags().skip(self.index as int),
                        res@.dom(),
                    ));
                }
                match res.get_mut_raw(t) {
                    Some(v) => {
                        return Some(T::cast_mut(v));
                    },
                    None => {
                        return None;
                    },
                }
            } else {
                self.index += 1;
            }
        }
        None
    }
}

impl<T> MetaTable<T> {
    /// Begins an in-order shared walk over the values `res` holds for the
    /// registered types.
    pub fn iter<'a, V>(&'a self, res: &'a Resources<V>) -> (it: MetaIter<'a, T, V>)
        requires
            self.wf(),
            res.wf(),
        ensures
            it.wf(),
            it.store_map() == res@,
            it.remaining_tags() == visited_tags(self.tags(), res@.dom()),
    {
        proof {
            assert(self.tags().skip(0) =~= self.tags());
        }
        MetaIter { table: self, res, index: 0 }
    }

    /// Begins an in-order exclusive walk; the store is lent to every step
    /// of the walk rather than held by it.
    pub fn iter_mut<'a>(&'a self) -> (it: MetaIterMut<'a, T>)
        requires
            self.wf(),
        ensures
            it.wf(),
            it.table_tags() == self.tags(),
            it.cursor() == 0,
    {
        MetaIterMut { table: self, index: 0 }
    }
}

/// Law: registering a token that is already present changes nothing, so a
/// second registration of the same concrete type leaves exactly one entry,
/// at its original position.
pub proof fn lemma_register_idempotent(tags: Seq<u64>, t: u64)
    ensures
        register_model(register_model(tags, t), t) == register_model(tags, t),
        tags.contains(t) ==> register_model(tags, t) == tags,
{
    if !tags.contains(t) {
        assert(tags.push(t)[tags.len() as int] == t);
        assert(tags.push(t).contains(t));
    }
}

/// Law: a walk over an empty registry yields nothing, whatever the store
/// holds.
pub proof fn lemma_iteration_empty(present: Set<u64>)
    ensures
        visited_tags(Seq::<u64>::empty(), present) == Seq::<u64>::empty(),
{
}

/// Law: a registered type the store holds is visited; registered types the
/// store lacks are skipped without ending the walk early.
pub proof fn lemma_iteration_visits_present(tags: Seq<u64>, present: Set<u64>, k: int)
    requires
        0 <= k < tags.len(),
        present.contains(tags[k]),
    ensures
        visited_tags(tags, present).contains(tags[k]),
    decreases tags.len(),
{
    let v = visited_tags(tags, present);
    let v1 = visited_tags(tags.drop_first(), present);
    if k == 0 {
        assert(v[0] == tags[0]);
    } else {
        lemma_iteration_visits_present(tags.drop_first(), present, k - 1);
        assert(tags.drop_first()[k - 1] == tags[k]);
        let i = choose|i: int| 0 <= i < v1.len() && v1[i] == tags[k];
        if present.contains(tags[0]) {
            assert(v[i + 1] == tags[k]);
        }
    }
}

/// Law: a walk yields only registered tokens whose value the store holds;
/// nothing unregistered or absent is ever visited.
pub proof fn lemma_iteration_visits_only_present(tags: Seq<u64>, present: Set<u64>, x: u64)
    requires
        visited_tags(tags, present).contains(x),
    ensures
        tags.contains(x),
        present.contains(x),
    decreases tags.len(),
{
    let v = visited_tags(tags, present);
    let v1 = visited_tags(tags.drop_first(), present);
    if present.contains(tags[0]) && x == tags[0] {
        assert(tags.contains(x)) by {
            assert(tags[0] == x);
        }
    } else {
        if present.contains(tags[0]) {
            let i = choose|i: int| 0 <= i < v.len() && v[i] == x;
            assert(v1[i - 1] == x);
        }
        lemma_iteration_visits_only_present(tags.drop_first(), present, x);
        let j = choose|j: int| 0 <= j < tags.drop_first().len() && tags.drop_first()[j] == x;
        assert(tags[j + 1] == x);
    }
}

/// Law (registration order): of two types both registered and both held by
/// the store, the one registered first is yielded first.
pub proof fn lemma_iteration_order(tags: Seq<u64>, present: Set<u64>, i: int, j: int)
    requires
        0 <= i < j < tags.len(),
        present.contains(tags[i]),
        present.contains(tags[j]),
    ensures
        ({
            let v = visited_tags(tags, present);
            exists|p: int, q: int|
                0 <= p < q < v.len() && v[p] == tags[i] && v[q] == tags[j]
        }),
    decreases tags.len(),
{
    let v = visited_tags(tags, present);
    let v1 = visited_tags(tags.drop_first(), present);
    if i == 0 {
        lemma_iteration_visits_present(tags.drop_first(), present, j - 1);
        assert(tags.drop_first()[j - 1] == tags[j]);
        let q1 = choose|q1: int| 0 <= q1 < v1.len() && v1[q1] == tags[j];
        assert(v[0] == tags[i]);
        assert(v[q1 + 1] == tags[j]);
        assert(0 <= 0 < q1 + 1 < v.len());
    } else {
        assert(tags.drop_first()[i - 1] == tags[i]);
        assert(tags.drop_first()[j - 1] == tags[j]);
        lemma_iteration_order(tags.drop_first(), present, i - 1, j - 1);
        let (p1, q1): (int, int) = choose|p1: int, q1: int|
            0 <= p1 < q1 < v1.len() && v1[p1] == tags[i] && v1[q1] == tags[j];
        if present.contains(tags[0]) {
            assert(v[p1 + 1] == tags[i]);
            assert(v[q1 + 1] == tags[j]);
        } else {
            assert(v[p1] == tags[i]);
            assert(v[q1] == tags[j]);
        }
    }
}

/// States the expectation that a reference to the interface type `T` is two
/// words wide: a data address plus a dispatch-table address, the shape only
/// a dynamically sized interface type has. The narrowing this registry
/// hands out goes through [`CastFrom`] and never reads reference layout, so
/// nothing here depends on the check; it is offered to callers that want
/// the expectation stated once per interface type.
pub fn assert_unsized<T: ?Sized>()
    requires
        vstd::layout::size_of::<&T>() == 2 * vstd::layout::size_of::<usize>(),
{
    let r = core::mem::size_of::<&T>();
    let w = core::mem::size_of::<usize>();
    assert(r as nat == 2 * (w as nat));
}

impl<T> Default for MetaTable<T> {
    /// An empty registry.
    fn default() -> (r: Self)
        ensures
            r.wf(),
            r.tags() == Seq::<u64>::empty(),
    {
        Self::new()
    }
}

} // verus!
