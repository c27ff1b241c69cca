use operational_transform::edit::TextOperation;
use operational_transform::op::Operation;

#[test]
fn lengths() {
    let mut o = TextOperation::default();
    assert_eq!(o.base_len, 0);
    assert_eq!(o.target_len, 0);
    o.retain(5);
    assert_eq!(o.base_len, 5);
    assert_eq!(o.target_len, 5);
    o.insert("abc".to_owned());
    assert_eq!(o.base_len, 5);
    assert_eq!(o.target_len, 8);
    o.retain(2);
    assert_eq!(o.base_len, 7);
    assert_eq!(o.target_len, 10);
    o.delete(2);
    assert_eq!(o.base_len, 9);
    assert_eq!(o.target_len, 10);
}

#[test]
fn sequence() {
    let mut o = TextOperation::default();
    o.retain(5);
    o.retain(0);
    o.insert("lorem".to_owned());
    o.insert("".to_owned());
    o.delete(3);
    o.delete(0);
    assert_eq!(o.ops.len(), 3);
}

#[test]
fn empty_ops() {
    let mut o = TextOperation::default();
    o.retain(0);
    o.insert("".to_owned());
    o.delete(0);
    assert_eq!(o.ops.len(), 0);
}

#[test]
fn eq() {
    let mut o1 = TextOperation::default();
    o1.delete(1);
    o1.insert("lo".to_owned());
    o1.retain(2);
    o1.retain(3);
    let mut o2 = TextOperation::default();
    o2.delete(1);
    o2.insert("l".to_owned());
    o2.insert("o".to_owned());
    o2.retain(5);
    assert_eq!(o1, o2);
    o1.delete(1);
    o2.retain(1);
    assert_ne!(o1, o2);
}

#[test]
fn ops_merging() {
    let mut o = TextOperation::default();
    assert_eq!(o.ops.len(), 0);
    o.retain(2);
    assert_eq!(o.ops.len(), 1);
    assert_eq!(o.ops.last(), Some(&Operation::Retain(2)));
    o.retain(3);
    assert_eq!(o.ops.len(), 1);
    assert_eq!(o.ops.last(), Some(&Operation::Retain(5)));
    o.insert("abc".to_owned());
    assert_eq!(o.ops.len(), 2);
    assert_eq!(o.ops.last(), Some(&Operation::Insert("abc".to_owned())));
    o.insert("xyz".to_owned());
    assert_eq!(o.ops.len(), 2);
    assert_eq!(o.ops.last(), Some(&Operation::Insert("abcxyz".to_owned())));
    o.delete(1);
    assert_eq!(o.ops.len(), 3);
    assert_eq!(o.ops.last(), Some(&Operation::Delete(1)));
    o.delete(1);
    assert_eq!(o.ops.len(), 3);
    assert_eq!(o.ops.last(), Some(&Operation::Delete(2)));
}

#[test]
fn is_noop() {
    let mut o = TextOperation::default();
    assert!(o.is_noop());
    o.retain(5);
    assert!(o.is_noop());
    o.retain(3);
    assert!(o.is_noop());
    o.insert("lorem".to_owned());
    assert!(!o.is_noop());
}

#[test]
fn apply_scenario() {
    let mut edit = TextOperation::default();
    edit.retain(5);
    edit.insert("lorem".to_owned());
    edit.retain(2);
    edit.delete(2);
    assert_eq!(edit.base_len, 9);
    assert_eq!(edit.target_len, 12);
    assert_eq!(edit.apply("abcdefghi"), "abcdeloremfg");
}

#[test]
fn ops_merge_scenario() {
    let mut o = TextOperation::default();
    o.retain(2);
    o.retain(3);
    o.insert("abc".to_owned());
    o.insert("xyz".to_owned());
    o.delete(1);
    o.delete(1);
    assert_eq!(
        o.ops,
        vec![
            Operation::Retain(5),
            Operation::Insert("abcxyz".to_owned()),
            Operation::Delete(2),
        ]
    );
}

#[test]
fn invert_scenario() {
    let s = "hello world";
    let mut edit = TextOperation::default();
    edit.retain(6);
    edit.delete(5);
    edit.insert("there".to_owned());
    let applied = edit.apply(s);
    assert_eq!(applied, "hello there");
    let inv = edit.invert(s);
    assert_eq!(
        inv.ops,
        vec![
            Operation::Retain(6),
            Operation::Insert("world".to_owned()),
            Operation::Delete(5),
        ]
    );
    assert_eq!(inv.base_len, edit.target_len);
    assert_eq!(inv.target_len, edit.base_len);
    assert_eq!(inv.apply(&applied), "hello world");
}

#[test]
fn compose_scenario() {
    let mut a = TextOperation::default();
    a.retain(3);
    a.insert("de".to_owned());
    assert_eq!(a.apply("abc"), "abcde");
    let mut b = TextOperation::default();
    b.delete(1);
    b.retain(4);
    assert_eq!(b.apply("abcde"), "bcde");
    let ab = a.compose(&b);
    assert_eq!(ab.base_len, a.base_len);
    assert_eq!(ab.target_len, b.target_len);
    assert_eq!(ab.apply("abc"), "bcde");
}

#[test]
fn transform_scenario() {
    let mut a = TextOperation::default();
    a.insert("x".to_owned());
    a.retain(3);
    let mut b = TextOperation::default();
    b.retain(3);
    b.insert("y".to_owned());
    let (a_prime, b_prime) = a.transform(&b);
    let ab_prime = a.compose(&b_prime);
    let ba_prime = b.compose(&a_prime);
    assert_eq!(ab_prime, ba_prime);
    assert_eq!(ab_prime.apply("abc"), "xabcy");
    assert_eq!(ba_prime.apply("abc"), "xabcy");
}

#[test]
fn insert_reorders_before_delete() {
    let mut o = TextOperation::default();
    o.retain(1);
    o.delete(2);
    o.insert("ab".to_owned());
    assert_eq!(
        o.ops,
        vec![
            Operation::Retain(1),
            Operation::Insert("ab".to_owned()),
            Operation::Delete(2),
        ]
    );
    let mut p = TextOperation::default();
    p.retain(1);
    p.insert("ab".to_owned());
    p.delete(2);
    assert_eq!(o, p);
}

#[test]
fn zero_scenarios_keep_value() {
    let mut o = TextOperation::default();
    o.retain(4);
    o.insert("hi".to_owned());
    let snapshot = format!("{:?}", o);
    o.retain(0);
    o.delete(0);
    o.insert("".to_owned());
    assert_eq!(snapshot, format!("{:?}", o));
}
