use operational_transform::edit::TextOperation;
use operational_transform::op::Operation;

/// A small deterministic generator, so the randomized laws run the same
/// way everywhere.
struct Rng(u64);

impl Rng {
    fn next(&mut self) -> u64 {
        self.0 = self
            .0
            .wrapping_mul(6364136223846793005)
            .wrapping_add(1442695040888963407);
        self.0 >> 33
    }

    fn below(&mut self, n: u64) -> u64 {
        self.next() % n
    }
}

const PALETTE: [char; 16] = [
    'a', 'b', 'c', 'd', 'e', 'z', ' ', '0', '"', '\\', '\n', '\t', 'é', 'ß', '語', '🦀',
];

fn random_string(rng: &mut Rng, len: usize) -> String {
    let mut s = String::new();
    for _ in 0..len {
        s.push(PALETTE[rng.below(PALETTE.len() as u64) as usize]);
    }
    s
}

fn random_text_operation(rng: &mut Rng, s: &str) -> TextOperation {
    let mut op = TextOperation::default();
    loop {
        let left: usize = s.chars().count() - op.base_len;
        if left == 0 {
            break;
        }
        let i: usize = if left == 1 {
            1
        } else {
            1 + rng.below(std::cmp::min(left - 1, 20) as u64) as usize
        };
        match rng.below(10) {
            0 | 1 => {
                op.insert(random_string(rng, i));
            }
            2 | 3 => {
                op.delete(i as u32);
            }
            _ => {
                op.retain(i as u32);
            }
        }
    }
    if rng.below(10) < 3 {
        op.insert("1".to_owned() + &random_string(rng, 10));
    }
    op
}

#[test]
fn apply() {
    let mut rng = Rng(7);
    for _ in 0..1000 {
        let s = random_string(&mut rng, 50);
        let o = random_text_operation(&mut rng, &s);
        assert_eq!(s.chars().count(), o.base_len);
        assert_eq!(o.apply(&s).chars().count(), o.target_len);
    }
}

#[test]
fn invert() {
    let mut rng = Rng(11);
    for _ in 0..1000 {
        let s = random_string(&mut rng, 50);
        let o = random_text_operation(&mut rng, &s);
        let p = o.invert(&s);
        assert_eq!(o.base_len, p.target_len);
        assert_eq!(o.target_len, p.base_len);
        assert_eq!(p.apply(&o.apply(&s)), s);
    }
}

#[test]
fn compose() {
    let mut rng = Rng(13);
    for _ in 0..1000 {
        let s = random_string(&mut rng, 20);
        let a = random_text_operation(&mut rng, &s);
        let after_a = a.apply(&s);
        assert_eq!(a.target_len, after_a.chars().count());
        let b = random_text_operation(&mut rng, &after_a);
        let after_b = b.apply(&after_a);
        assert_eq!(b.target_len, after_b.chars().count());
        let ab = a.compose(&b);
        assert_eq!(ab.target_len, b.target_len);
        assert_eq!(ab.base_len, a.base_len);
        let after_ab = ab.apply(&s);
        assert_eq!(after_b, after_ab);
    }
}

#[test]
fn transform() {
    let mut rng = Rng(17);
    for _ in 0..1000 {
        let s = random_string(&mut rng, 20);
        let a = random_text_operation(&mut rng, &s);
        let b = random_text_operation(&mut rng, &s);
        let (a_prime, b_prime) = a.transform(&b);
        let ab_prime = a.compose(&b_prime);
        let ba_prime = b.compose(&a_prime);
        let after_ab_prime = ab_prime.apply(&s);
        let after_ba_prime = ba_prime.apply(&s);
        assert_eq!(ab_prime, ba_prime);
        assert_eq!(after_ab_prime, after_ba_prime);
    }
}

fn assert_canonical(o: &TextOperation) {
    let mut base: usize = 0;
    let mut target: usize = 0;
    for (i, op) in o.ops.iter().enumerate() {
        match op {
            Operation::Retain(n) => {
                assert!(*n > 0);
                base += n;
                target += n;
            }
            Operation::Delete(n) => {
                assert!(*n > 0);
                base += n;
            }
            Operation::Insert(s) => {
                assert!(!s.is_empty());
                target += s.chars().count();
            }
        }
        if i + 1 < o.ops.len() {
            let next = &o.ops[i + 1];
            let same = matches!(
                (op, next),
                (Operation::Retain(_), Operation::Retain(_))
                    | (Operation::Delete(_), Operation::Delete(_))
                    | (Operation::Insert(_), Operation::Insert(_))
            );
            assert!(!same);
            assert!(!matches!(
                (op, next),
                (Operation::Delete(_), Operation::Insert(_))
            ));
        }
    }
    assert_eq!(base, o.base_len);
    assert_eq!(target, o.target_len);
}

#[test]
fn canonical_form_everywhere() {
    let mut rng = Rng(19);
    for _ in 0..200 {
        let s = random_string(&mut rng, 20);
        let a = random_text_operation(&mut rng, &s);
        let b = random_text_operation(&mut rng, &s);
        assert_canonical(&a);
        assert_canonical(&b);
        assert_canonical(&a.invert(&s));
        let (a_prime, b_prime) = a.transform(&b);
        assert_canonical(&a_prime);
        assert_canonical(&b_prime);
        let merged = a.compose(&b_prime);
        assert_canonical(&merged);
    }
}
