//! The lattice engine: typed merges, diffs, and delta validation.

use swindon::lattice::{
    merge_delta, Delta, FieldValue, RawDelta, RawField, Values,
};

fn counter_cell(key: &[u8], n: u64) -> Values {
    Values { fields: vec![(key.to_vec(), FieldValue::Counter(n))] }
}

fn delta1(key: &[u8], cell: Values) -> Delta {
    Delta { items: vec![(key.to_vec(), cell)] }
}

fn cell_field(values: &Vec<(Vec<u8>, Values)>, key: &[u8], field: &[u8]) -> Option<FieldValue> {
    for (k, cell) in values {
        if k.as_slice() == key {
            for (f, v) in &cell.fields {
                if f.as_slice() == field {
                    return Some(v.clone());
                }
            }
        }
    }
    None
}

#[test]
fn counter_merge_takes_maximum() {
    let mut values: Vec<(Vec<u8>, Values)> = Vec::new();
    merge_delta(&mut values, &delta1(b"k1", counter_cell(b"msg_counter", 5)));
    let diff = merge_delta(&mut values, &delta1(b"k1", counter_cell(b"msg_counter", 3)));
    assert_eq!(
        cell_field(&values, b"k1", b"msg_counter"),
        Some(FieldValue::Counter(5))
    );
    assert!(diff.items.is_empty());
}

#[test]
fn merge_is_order_independent() {
    // The same two deltas in either order leave the same cell: the merge
    // commutes.
    let mut a: Vec<(Vec<u8>, Values)> = Vec::new();
    merge_delta(&mut a, &delta1(b"k1", counter_cell(b"msg_counter", 5)));
    merge_delta(&mut a, &delta1(b"k1", counter_cell(b"msg_counter", 3)));
    let mut b: Vec<(Vec<u8>, Values)> = Vec::new();
    merge_delta(&mut b, &delta1(b"k1", counter_cell(b"msg_counter", 3)));
    merge_delta(&mut b, &delta1(b"k1", counter_cell(b"msg_counter", 5)));
    assert_eq!(
        cell_field(&a, b"k1", b"msg_counter"),
        cell_field(&b, b"k1", b"msg_counter")
    );
}

#[test]
fn merge_is_idempotent() {
    let mut values: Vec<(Vec<u8>, Values)> = Vec::new();
    let d = delta1(b"k1", counter_cell(b"msg_counter", 7));
    let first = merge_delta(&mut values, &d);
    let again = merge_delta(&mut values, &d);
    assert_eq!(first.items.len(), 1);
    assert!(again.items.is_empty());
    assert_eq!(
        cell_field(&values, b"k1", b"msg_counter"),
        Some(FieldValue::Counter(7))
    );
}

#[test]
fn set_merge_takes_union() {
    let cell_a = Values {
        fields: vec![(
            b"members_set".to_vec(),
            FieldValue::StrSet(vec![b"ann".to_vec(), b"bob".to_vec()]),
        )],
    };
    let cell_b = Values {
        fields: vec![(
            b"members_set".to_vec(),
            FieldValue::StrSet(vec![b"bob".to_vec(), b"cat".to_vec()]),
        )],
    };
    let mut values: Vec<(Vec<u8>, Values)> = Vec::new();
    merge_delta(&mut values, &delta1(b"room", cell_a));
    let diff = merge_delta(&mut values, &delta1(b"room", cell_b));
    match cell_field(&values, b"room", b"members_set") {
        Some(FieldValue::StrSet(items)) => {
            assert_eq!(items.len(), 3);
            assert!(items.contains(&b"ann".to_vec()));
            assert!(items.contains(&b"bob".to_vec()));
            assert!(items.contains(&b"cat".to_vec()));
        }
        other => panic!("not a set: {:?}", other),
    }
    assert_eq!(diff.items.len(), 1);
}

#[test]
fn register_merge_keeps_newest_version() {
    let old = Values {
        fields: vec![(b"name_register".to_vec(), FieldValue::Register(2, b"new".to_vec()))],
    };
    let newer = Values {
        fields: vec![(b"name_register".to_vec(), FieldValue::Register(1, b"old".to_vec()))],
    };
    let mut values: Vec<(Vec<u8>, Values)> = Vec::new();
    merge_delta(&mut values, &delta1(b"u", old));
    let diff = merge_delta(&mut values, &delta1(b"u", newer));
    assert_eq!(
        cell_field(&values, b"u", b"name_register"),
        Some(FieldValue::Register(2, b"new".to_vec()))
    );
    assert!(diff.items.is_empty());
}

#[test]
fn register_tie_breaks_lexicographically() {
    let a = Values {
        fields: vec![(b"name_register".to_vec(), FieldValue::Register(3, b"apple".to_vec()))],
    };
    let b = Values {
        fields: vec![(b"name_register".to_vec(), FieldValue::Register(3, b"berry".to_vec()))],
    };
    let mut values: Vec<(Vec<u8>, Values)> = Vec::new();
    merge_delta(&mut values, &delta1(b"u", a));
    merge_delta(&mut values, &delta1(b"u", b));
    assert_eq!(
        cell_field(&values, b"u", b"name_register"),
        Some(FieldValue::Register(3, b"berry".to_vec()))
    );
}

#[test]
fn empty_delta_is_a_no_op() {
    let mut values: Vec<(Vec<u8>, Values)> = Vec::new();
    merge_delta(&mut values, &delta1(b"k1", counter_cell(b"msg_counter", 4)));
    let before = cell_field(&values, b"k1", b"msg_counter");
    let diff = merge_delta(&mut values, &Delta::empty());
    assert!(diff.items.is_empty());
    assert_eq!(cell_field(&values, b"k1", b"msg_counter"), before);
}

#[test]
fn diff_carries_only_changed_fields() {
    let both = Values {
        fields: vec![
            (b"a_counter".to_vec(), FieldValue::Counter(5)),
            (b"b_counter".to_vec(), FieldValue::Counter(5)),
        ],
    };
    let bump_one = Values {
        fields: vec![
            (b"a_counter".to_vec(), FieldValue::Counter(9)),
            (b"b_counter".to_vec(), FieldValue::Counter(1)),
        ],
    };
    let mut values: Vec<(Vec<u8>, Values)> = Vec::new();
    merge_delta(&mut values, &delta1(b"k", both));
    let diff = merge_delta(&mut values, &delta1(b"k", bump_one));
    assert_eq!(diff.items.len(), 1);
    let (_, cell) = &diff.items[0];
    assert_eq!(cell.fields.len(), 1);
    assert_eq!(cell.fields[0].0, b"a_counter".to_vec());
    assert_eq!(cell.fields[0].1, FieldValue::Counter(9));
}

#[test]
fn from_raw_types_fields_by_suffix() {
    let raw = RawDelta {
        cells: vec![(
            b"k1".to_vec(),
            vec![
                (b"msg_counter".to_vec(), RawField::Uint(5)),
                (b"tags_set".to_vec(), RawField::List(vec![b"x".to_vec()])),
                (b"name_register".to_vec(), RawField::Pair(1, b"v".to_vec())),
            ],
        )],
    };
    let d = Delta::from_raw(&raw).expect("well-typed delta");
    assert_eq!(d.items.len(), 1);
    assert_eq!(d.items[0].1.fields.len(), 3);
}

#[test]
fn from_raw_rejects_unknown_suffix() {
    let raw = RawDelta {
        cells: vec![(b"k1".to_vec(), vec![(b"weird_thing".to_vec(), RawField::Uint(5))])],
    };
    assert!(Delta::from_raw(&raw).is_err());
}

#[test]
fn from_raw_rejects_mismatched_shape() {
    let raw = RawDelta {
        cells: vec![(
            b"k1".to_vec(),
            vec![(b"msg_counter".to_vec(), RawField::List(vec![b"x".to_vec()]))],
        )],
    };
    assert!(Delta::from_raw(&raw).is_err());
}

#[test]
fn from_raw_rejects_duplicate_keys() {
    let raw = RawDelta {
        cells: vec![(
            b"k1".to_vec(),
            vec![
                (b"msg_counter".to_vec(), RawField::Uint(1)),
                (b"msg_counter".to_vec(), RawField::Uint(2)),
            ],
        )],
    };
    assert!(Delta::from_raw(&raw).is_err());
}
