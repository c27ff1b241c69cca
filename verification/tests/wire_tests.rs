use operational_transform::edit::TextOperation;
use operational_transform::op::Operation;

fn sample_edit() -> TextOperation {
    let mut o = TextOperation::default();
    o.retain(3);
    o.insert("a\"b\\c\nd".to_owned());
    o.delete(2);
    o.retain(1);
    o
}

#[test]
fn serde() {
    let o: TextOperation = TextOperation::decode("[1,-1,\"abc\"]").unwrap();
    let mut o_exp = TextOperation::default();
    o_exp.retain(1);
    o_exp.delete(1);
    o_exp.insert("abc".to_owned());
    assert_eq!(o, o_exp);
    let mut rng_state: u64 = 23;
    for _ in 0..1000 {
        let mut step = |n: u64| {
            rng_state = rng_state
                .wrapping_mul(6364136223846793005)
                .wrapping_add(1442695040888963407);
            (rng_state >> 33) % n
        };
        let mut o = TextOperation::default();
        for _ in 0..step(8) {
            match step(3) {
                0 => o.retain(1 + step(9) as u32),
                1 => o.delete(1 + step(9) as u32),
                _ => {
                    let palette = ['x', '"', '\\', '\n', 'é', '🦀'];
                    let mut s = String::new();
                    for _ in 0..(1 + step(6)) {
                        s.push(palette[step(palette.len() as u64) as usize]);
                    }
                    o.insert(s)
                }
            }
        }
        let encoded = o.encode();
        let decoded = TextOperation::decode(&encoded).unwrap();
        assert_eq!(o, decoded);
    }
}

#[test]
fn wire_scenario() {
    let o = TextOperation::decode("[1, -1, \"abc\"]").unwrap();
    let mut built = TextOperation::default();
    built.retain(1);
    built.delete(1);
    built.insert("abc".to_owned());
    assert_eq!(o, built);
    assert_eq!(
        o.ops,
        vec![
            Operation::Retain(1),
            Operation::Insert("abc".to_owned()),
            Operation::Delete(1),
        ]
    );
}

#[test]
fn encode_exact() {
    let o = sample_edit();
    assert_eq!(o.encode(), "[3,\"a\\\"b\\\\c\nd\",-2,1]");
    let mut empty = TextOperation::default();
    assert_eq!(empty.encode(), "[]");
    empty.retain(0);
    assert_eq!(empty.encode(), "[]");
}

#[test]
fn wire_round_trip_exact() {
    let o = sample_edit();
    assert_eq!(TextOperation::decode(&o.encode()).unwrap(), o);
    let empty = TextOperation::default();
    assert_eq!(TextOperation::decode(&empty.encode()).unwrap(), empty);
}

#[test]
fn decode_normalizes() {
    let o = TextOperation::decode("[0, 2, 3, \"\", -1, -2, \"ab\"]").unwrap();
    assert_eq!(
        o.ops,
        vec![
            Operation::Retain(5),
            Operation::Insert("ab".to_owned()),
            Operation::Delete(3),
        ]
    );
    assert_eq!(o.base_len, 8);
    assert_eq!(o.target_len, 7);
}

#[test]
fn decode_named_escapes() {
    let o = TextOperation::decode("[\"a\\n\\t\\r\\\"\\\\\\/\"]").unwrap();
    assert_eq!(o.ops, vec![Operation::Insert("a\n\t\r\"\\/".to_owned())]);
}

#[test]
fn decode_rejects_malformed() {
    assert_eq!(TextOperation::decode(""), None);
    assert_eq!(TextOperation::decode("1"), None);
    assert_eq!(TextOperation::decode("["), None);
    assert_eq!(TextOperation::decode("[1"), None);
    assert_eq!(TextOperation::decode("[1 2]"), None);
    assert_eq!(TextOperation::decode("[1,]"), None);
    assert_eq!(TextOperation::decode("[-]"), None);
    assert_eq!(TextOperation::decode("[\"a]"), None);
    assert_eq!(TextOperation::decode("[\"a\\q\"]"), None);
    assert_eq!(TextOperation::decode("[1] x"), None);
    assert_eq!(TextOperation::decode("[1]]"), None);
    assert_eq!(
        TextOperation::decode("[99999999999999999999999999999999999999]"),
        None
    );
}

#[test]
fn decode_zero_elements() {
    let o = TextOperation::decode("[ ]").unwrap();
    assert!(o.ops.is_empty());
    assert_eq!(o.base_len, 0);
    assert_eq!(o.target_len, 0);
    let z = TextOperation::decode("[-0]").unwrap();
    assert!(z.ops.is_empty());
    assert!(z.is_noop());
}

#[test]
fn decode_accepts_whitespace() {
    let o = TextOperation::decode(" [ 2 ,\t-1 ,\n\"q\" ] ").unwrap();
    assert_eq!(
        o.ops,
        vec![
            Operation::Retain(2),
            Operation::Insert("q".to_owned()),
            Operation::Delete(1),
        ]
    );
}
