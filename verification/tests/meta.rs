use metatable::meta::{CastFrom, MetaTable};
use metatable::store::{Resources, Tagged};

trait Object {
    fn method1(&self) -> i32;

    fn method2(&mut self, x: i32);
}

struct ImplementorA(i32);

impl Object for ImplementorA {
    fn method1(&self) -> i32 {
        self.0
    }

    fn method2(&mut self, x: i32) {
        self.0 += x;
    }
}

struct ImplementorB(i32);

impl Object for ImplementorB {
    fn method1(&self) -> i32 {
        self.0
    }

    fn method2(&mut self, x: i32) {
        self.0 *= x;
    }
}

const TAG_A: u64 = 1;
const TAG_B: u64 = 2;

impl Tagged for ImplementorA {
    fn spec_tag(&self) -> u64 {
        TAG_A
    }

    fn type_tag(&self) -> u64 {
        TAG_A
    }
}

impl Tagged for ImplementorB {
    fn spec_tag(&self) -> u64 {
        TAG_B
    }

    fn type_tag(&self) -> u64 {
        TAG_B
    }
}

/// The store's uniform value: one variant per concrete type it can hold.
enum Value {
    A(ImplementorA),
    B(ImplementorB),
}

impl Tagged for Value {
    fn spec_tag(&self) -> u64 {
        match self {
            Value::A(_) => TAG_A,
            Value::B(_) => TAG_B,
        }
    }

    fn type_tag(&self) -> u64 {
        match self {
            Value::A(_) => TAG_A,
            Value::B(_) => TAG_B,
        }
    }
}

impl Object for Value {
    fn method1(&self) -> i32 {
        match self {
            Value::A(a) => a.method1(),
            Value::B(b) => b.method1(),
        }
    }

    fn method2(&mut self, x: i32) {
        match self {
            Value::A(a) => a.method2(x),
            Value::B(b) => b.method2(x),
        }
    }
}

impl CastFrom<Value> for Value {
    fn spec_cast(t: Value) -> Value {
        t
    }

    fn spec_embed(_t: Value, v: Value) -> Value {
        v
    }

    fn cast(t: &Value) -> &Value {
        t
    }

    fn cast_mut(t: &mut Value) -> &mut Value {
        t
    }
}

#[test]
fn test_iter_all() {
    let mut res = Resources::new();

    res.insert(Value::A(ImplementorA(3)));
    res.insert(Value::B(ImplementorB(1)));

    let mut table = MetaTable::<Value>::new();
    table.register(&ImplementorA(125));
    table.register(&ImplementorB(111111));

    {
        let mut iter = table.iter(&res);
        assert_eq!(iter.next().unwrap().method1(), 3);
        assert_eq!(iter.next().unwrap().method1(), 1);
    }

    {
        let mut iter_mut = table.iter_mut();
        let obj = iter_mut.next(&mut res).unwrap();
        obj.method2(3);
        assert_eq!(obj.method1(), 6);
        let obj = iter_mut.next(&mut res).unwrap();
        obj.method2(4);
        assert_eq!(obj.method1(), 4);
    }
}

#[test]
fn mutation_through_iter_mut_is_seen_by_later_iter() {
    let mut res = Resources::new();
    res.insert(Value::A(ImplementorA(3)));
    res.insert(Value::B(ImplementorB(1)));

    let mut table = MetaTable::<Value>::new();
    table.register(&ImplementorA(125));
    table.register(&ImplementorB(111111));

    {
        let mut iter_mut = table.iter_mut();
        iter_mut.next(&mut res).unwrap().method2(3);
        iter_mut.next(&mut res).unwrap().method2(4);
        assert!(iter_mut.next(&mut res).is_none());
    }

    let mut iter = table.iter(&res);
    assert_eq!(iter.next().unwrap().method1(), 6);
    assert_eq!(iter.next().unwrap().method1(), 4);
    assert!(iter.next().is_none());
}

#[test]
fn get_returns_absent_for_unregistered_types() {
    let mut table = MetaTable::<Value>::new();
    table.register(&ImplementorA(0));

    let mut b = Value::B(ImplementorB(7));
    assert!(table.get(&b).is_none());
    assert!(table.get_mut(&mut b).is_none());
    // The lookup leaves the value alone.
    assert_eq!(b.method1(), 7);
}

#[test]
fn get_narrows_registered_values_and_get_mut_writes_back() {
    let mut table = MetaTable::<Value>::new();
    table.register(&ImplementorA(125));

    let mut a = Value::A(ImplementorA(3));
    assert_eq!(table.get(&a).unwrap().method1(), 3);

    table.get_mut(&mut a).unwrap().method2(10);
    // The write through the narrowed reference is seen by a later lookup.
    assert_eq!(table.get(&a).unwrap().method1(), 13);
}

#[test]
fn iteration_skips_types_absent_from_store() {
    let mut res = Resources::new();
    // Only `B` is in the store, though `A` was registered first.
    res.insert(Value::B(ImplementorB(1)));

    let mut table = MetaTable::<Value>::new();
    table.register(&ImplementorA(125));
    table.register(&ImplementorB(111111));

    let mut iter = table.iter(&res);
    // The walk passes over `A` without ending, and still reaches `B`.
    assert_eq!(iter.next().unwrap().method1(), 1);
    assert!(iter.next().is_none());
}

#[test]
fn registering_twice_keeps_one_entry_at_its_place() {
    let mut res = Resources::new();
    res.insert(Value::A(ImplementorA(3)));
    res.insert(Value::B(ImplementorB(1)));

    let mut table = MetaTable::<Value>::new();
    table.register(&ImplementorA(125));
    table.register(&ImplementorB(111111));
    // A different sample instance of the same concrete type.
    table.register(&ImplementorA(999));

    let mut iter = table.iter(&res);
    // Still first in iteration order, and yielded exactly once.
    assert_eq!(iter.next().unwrap().method1(), 3);
    assert_eq!(iter.next().unwrap().method1(), 1);
    assert!(iter.next().is_none());
}

#[test]
fn empty_registry_yields_nothing_and_finds_nothing() {
    let mut res = Resources::new();
    res.insert(Value::A(ImplementorA(3)));
    res.insert(Value::B(ImplementorB(1)));

    let table = MetaTable::<Value>::new();

    let mut iter = table.iter(&res);
    assert!(iter.next().is_none());

    let a = Value::A(ImplementorA(3));
    assert!(table.get(&a).is_none());

    let mut iter_mut = table.iter_mut();
    assert!(iter_mut.next(&mut res).is_none());
}

#[test]
fn store_replaces_value_of_same_type() {
    let mut res = Resources::new();
    res.insert(Value::A(ImplementorA(3)));
    res.insert(Value::A(ImplementorA(42)));

    assert_eq!(res.get_raw(TAG_A).unwrap().method1(), 42);
    assert!(res.get_raw(TAG_B).is_none());
    assert!(res.contains(TAG_A));
    assert!(!res.contains(TAG_B));

    res.get_mut_raw(TAG_A).unwrap().method2(8);
    assert_eq!(res.get_raw(TAG_A).unwrap().method1(), 50);
}

/// A wider store value than the interface carrier: narrowing projects out
/// the carried part, so a narrowing that handed its argument back unchanged
/// could not satisfy it.
struct Labelled {
    label: &'static str,
    inner: Value,
}

impl Tagged for Labelled {
    fn spec_tag(&self) -> u64 {
        self.inner.type_tag()
    }

    fn type_tag(&self) -> u64 {
        self.inner.type_tag()
    }
}

impl CastFrom<Labelled> for Value {
    fn spec_cast(t: Labelled) -> Value {
        t.inner
    }

    fn spec_embed(t: Labelled, v: Value) -> Labelled {
        Labelled { label: t.label, inner: v }
    }

    fn cast(t: &Labelled) -> &Value {
        &t.inner
    }

    fn cast_mut(t: &mut Labelled) -> &mut Value {
        &mut t.inner
    }
}

#[test]
fn narrowing_projects_the_carried_part() {
    let mut res = Resources::new();
    res.insert(Labelled { label: "a", inner: Value::A(ImplementorA(3)) });

    let mut table = MetaTable::<Value>::new();
    table.register(&ImplementorA(125));

    {
        let mut iter_mut = table.iter_mut();
        let obj: &mut Value = iter_mut.next(&mut res).unwrap();
        obj.method2(5);
    }

    let stored = res.get_raw(TAG_A).unwrap();
    assert_eq!(stored.label, "a");
    assert_eq!(stored.inner.method1(), 8);

    let wide = Labelled { label: "b", inner: Value::B(ImplementorB(4)) };
    assert!(table.get(&wide).is_none());
}

#[test]
fn default_registry_is_empty() {
    let table: MetaTable<Value> = Default::default();
    let res = Resources::<Value>::new();
    let mut iter = table.iter(&res);
    assert!(iter.next().is_none());
}

#[test]
fn reference_to_an_unsized_interface_is_two_words() {
    metatable::meta::assert_unsized::<dyn Object>();
    metatable::meta::assert_unsized::<[u8]>();
}
