//! The laws of the edit algebra, stated and proved over the models that
//! the public contracts use.

use vstd::prelude::*;

use crate::op::{
    OpView, op_base, op_target, op_nonzero, same_kind, sum_base, sum_target, all_nonzero,
    no_adjacent_same, insert_before_delete, canonical_ops, append_retain, append_delete,
    append_insert, append_op, build_from, build_ops, lemma_append_op, lemma_sums_push,
    lemma_build_from, lemma_build_from_push, lemma_canonical_take, lemma_sums_split,
    lemma_skip_step,
};
use crate::apply::{apply_ops, invert_from, lemma_apply_ops_len};
use crate::compose::{compose_from, compose_ops};
use crate::wire::{parse_wire, encode_wire, op_bounded, lemma_parse_encode};
use crate::edit::TextOperation;
use crate::op::{hd, tl, head_weight, seq_weight, op_size};

verus! {

/// Length consistency: a well-formed edit's two lengths are the analytic
/// sums of its primitives' measures.
pub proof fn lemma_length_consistency(o: TextOperation)
    requires
        o.well_formed(),
    ensures
        o.base_len == sum_base(o@),
        o.target_len == sum_target(o@),
{
}

/// Canonical form: a well-formed edit stores no zero-length primitive, no
/// two adjacent primitives of one variant, and never an insert right
/// after a delete.
pub proof fn lemma_canonical_form(o: TextOperation)
    requires
        o.well_formed(),
    ensures
        all_nonzero(o@),
        no_adjacent_same(o@),
        insert_before_delete(o@),
{
}

/// Builder idempotence on zero: appending `Retain(0)`, `Delete(0)` or an
/// empty insert changes nothing.
pub proof fn lemma_append_zero(ops: Seq<OpView>)
    ensures
        append_retain(ops, 0) == ops,
        append_delete(ops, 0) == ops,
        append_insert(ops, Seq::empty()) == ops,
{
}


/// Feeding an already-canonical sequence through the builder changes
/// nothing: round-tripping through the builder is idempotent.
pub proof fn lemma_build_canonical(ops: Seq<OpView>)
    requires
        canonical_ops(ops),
    ensures
        build_ops(ops) == ops,
    decreases ops.len(),
{
    if ops.len() == 0 {
    } else {
        let init = ops.drop_last();
        let last = ops.last();
        assert(init =~= ops.take(ops.len() - 1));
        lemma_canonical_take(ops, ops.len() - 1);
        lemma_build_canonical(init);
        lemma_build_from_push(Seq::empty(), init, last);
        assert(init.push(last) =~= ops);
        assert(op_nonzero(ops[ops.len() - 1]));
        if init.len() > 0 {
            assert(init.last() == ops[ops.len() - 2]);
            assert(!same_kind(ops[ops.len() - 2], ops[ops.len() - 1]));
            assert(!(ops[ops.len() - 2] is Delete && ops[ops.len() - 1] is Insert));
        }
        assert(append_op(init, last) == init.push(last));
    }
}

/// Applying a concatenation splits at the first part's base length: the
/// first part consumes exactly its base characters, the second the rest.
pub proof fn lemma_apply_split(ops1: Seq<OpView>, ops2: Seq<OpView>, x: Seq<char>)
    requires
        sum_base(ops1) <= x.len(),
    ensures
        apply_ops(ops1 + ops2, x) == apply_ops(ops1, x.take(sum_base(ops1) as int)) + apply_ops(
            ops2,
            x.skip(sum_base(ops1) as int),
        ),
    decreases ops1.len(),
{
    if ops1.len() == 0 {
        assert(ops1 + ops2 =~= ops2);
        assert(x.take(0) =~= Seq::<char>::empty());
        assert(x.skip(0) =~= x);
        assert(apply_ops(ops1, Seq::empty()) == Seq::<char>::empty());
        assert(Seq::<char>::empty() + apply_ops(ops2, x) =~= apply_ops(ops2, x));
    } else {
        let r1 = ops1.drop_first();
        let cat = ops1 + ops2;
        assert(cat[0] == ops1[0]);
        assert(cat.drop_first() =~= r1 + ops2);
        assert(sum_base(ops1) == op_base(ops1[0]) + sum_base(r1));
        let sb = sum_base(ops1) as int;
        match ops1[0] {
            OpView::Retain(n) => {
                lemma_apply_split(r1, ops2, x.skip(n as int));
                let sb1 = sum_base(r1) as int;
                assert(x.skip(n as int).take(sb1) =~= x.take(sb).skip(n as int));
                assert(x.skip(n as int).skip(sb1) =~= x.skip(sb));
                assert(x.take(sb).take(n as int) =~= x.take(n as int));
                assert(apply_ops(ops1, x.take(sb)) == x.take(sb).take(n as int) + apply_ops(
                    r1,
                    x.take(sb).skip(n as int),
                ));
                let m1 = apply_ops(r1, x.take(sb).skip(n as int));
                let m2 = apply_ops(ops2, x.skip(sb));
                assert((x.take(n as int) + m1) + m2 =~= x.take(n as int) + (m1 + m2));
            },
            OpView::Delete(n) => {
                lemma_apply_split(r1, ops2, x.skip(n as int));
                let sb1 = sum_base(r1) as int;
                assert(x.skip(n as int).take(sb1) =~= x.take(sb).skip(n as int));
                assert(x.skip(n as int).skip(sb1) =~= x.skip(sb));
                assert(apply_ops(ops1, x.take(sb)) == apply_ops(r1, x.take(sb).skip(n as int)));
            },
            OpView::Insert(t) => {
                lemma_apply_split(r1, ops2, x);
                let sb1 = sum_base(r1) as int;
                assert(x.take(sb1) =~= x.take(sb).skip(0));
                assert(x.take(sb).skip(0) =~= x.take(sb));
                assert(apply_ops(ops1, x.take(sb)) == t + apply_ops(r1, x.take(sb)));
                assert(apply_ops(r1, x.take(sb)) == apply_ops(r1, x.take(sb1)));
                let m1 = apply_ops(r1, x.take(sb1));
                let m2 = apply_ops(ops2, x.skip(sb));
                assert((t + m1) + m2 =~= t + (m1 + m2));
            },
        }
    }
}

/// A builder append means the same as pushing the primitive: the
/// normalizing merges and the insert-before-delete reorder never change
/// what an edit does to a string.
pub proof fn lemma_append_semantics(acc: Seq<OpView>, op: OpView, x: Seq<char>)
    requires
        sum_base(acc) + op_base(op) <= x.len(),
    ensures
        apply_ops(append_op(acc, op), x) == apply_ops(acc.push(op), x),
{
    let sb = sum_base(acc) as int;
    if acc.len() == 0 {
        match op {
            OpView::Retain(n) => {
                if n == 0 {
                    lemma_apply_unit_zero(acc, op, x);
                }
            },
            OpView::Delete(n) => {
                if n == 0 {
                    lemma_apply_unit_zero(acc, op, x);
                }
            },
            OpView::Insert(t) => {
                if t.len() == 0 {
                    lemma_apply_unit_zero(acc, op, x);
                }
            },
        }
    } else {
        let last = acc.last();
        let init = acc.drop_last();
        assert(acc =~= init.push(last));
        crate::op::lemma_sums_drop_last(acc);
        let sbi = sum_base(init) as int;
        match op {
            OpView::Retain(n) => {
                if n == 0 {
                    lemma_apply_unit_zero(acc, op, x);
                } else {
                    match last {
                        OpView::Retain(k) => {
                            let u1 = seq![OpView::Retain((k + n) as nat)];
                            let u2 = seq![OpView::Retain(k), OpView::Retain(n)];
                            assert(append_retain(acc, n) =~= init + u1);
                            assert(acc.push(op) =~= init + u2);
                            lemma_apply_split(init, u1, x);
                            lemma_apply_split(init, u2, x);
                            lemma_units_merge_retain(k, n, x.skip(sbi));
                        },
                        _ => {},
                    }
                }
            },
            OpView::Delete(n) => {
                if n == 0 {
                    lemma_apply_unit_zero(acc, op, x);
                } else {
                    match last {
                        OpView::Delete(k) => {
                            let u1 = seq![OpView::Delete((k + n) as nat)];
                            let u2 = seq![OpView::Delete(k), OpView::Delete(n)];
                            assert(append_delete(acc, n) =~= init + u1);
                            assert(acc.push(op) =~= init + u2);
                            lemma_apply_split(init, u1, x);
                            lemma_apply_split(init, u2, x);
                            lemma_units_merge_delete(k, n, x.skip(sbi));
                        },
                        _ => {},
                    }
                }
            },
            OpView::Insert(t) => {
                if t.len() == 0 {
                    lemma_apply_unit_zero(acc, op, x);
                } else {
                    match last {
                        OpView::Insert(u) => {
                            let u1 = seq![OpView::Insert(u + t)];
                            let u2 = seq![OpView::Insert(u), OpView::Insert(t)];
                            assert(append_insert(acc, t) =~= init + u1);
                            assert(acc.push(op) =~= init + u2);
                            lemma_apply_split(init, u1, x);
                            lemma_apply_split(init, u2, x);
                            lemma_units_merge_insert(u, t, x.skip(sbi));
                        },
                        OpView::Delete(d) => {
                            if acc.len() >= 2 && acc[acc.len() - 2] is Insert {
                                match acc[acc.len() - 2] {
                                    OpView::Insert(u) => {
                                        let init2 = init.drop_last();
                                        assert(init.last() == acc[acc.len() - 2]);
                                        crate::op::lemma_sums_drop_last(init);
                                        let u1 = seq![
                                            OpView::Insert(u + t),
                                            OpView::Delete(d),
                                        ];
                                        let u2 = seq![
                                            OpView::Insert(u),
                                            OpView::Delete(d),
                                            OpView::Insert(t),
                                        ];
                                        assert(append_insert(acc, t) =~= init2 + u1);
                                        assert(acc.push(op) =~= init2 + u2);
                                        lemma_apply_split(init2, u1, x);
                                        lemma_apply_split(init2, u2, x);
                                        lemma_units_merge_behind(
                                            u,
                                            t,
                                            d,
                                            x.skip(sum_base(init2) as int),
                                        );
                                    },
                                    _ => {},
                                }
                            } else {
                                let u1 = seq![OpView::Insert(t), OpView::Delete(d)];
                                let u2 = seq![OpView::Delete(d), OpView::Insert(t)];
                                assert(append_insert(acc, t) =~= init + u1);
                                assert(acc.push(op) =~= init + u2);
                                lemma_apply_split(init, u1, x);
                                lemma_apply_split(init, u2, x);
                                lemma_units_reorder(t, d, x.skip(sbi));
                            }
                        },
                        OpView::Retain(_) => {},
                    }
                }
            },
        }
    }
}

/// Appending a zero-length primitive neither changes the sequence nor
/// what a push of it would do.
proof fn lemma_apply_unit_zero(acc: Seq<OpView>, op: OpView, x: Seq<char>)
    requires
        op_base(op) == 0 && op_target(op) == 0,
        sum_base(acc) <= x.len(),
    ensures
        apply_ops(acc.push(op), x) == apply_ops(acc, x),
{
    let unit = seq![op];
    assert(acc.push(op) =~= acc + unit);
    lemma_apply_split(acc, unit, x);
    let z = x.skip(sum_base(acc) as int);
    assert(unit.drop_first() =~= Seq::<OpView>::empty());
    let e = Seq::<OpView>::empty();
    match op {
        OpView::Retain(n) => {
            assert(apply_ops(unit, z) == z.take(n as int) + apply_ops(e, z.skip(n as int)));
            assert(z.take(0) =~= Seq::<char>::empty());
            assert(apply_ops(unit, z) =~= Seq::<char>::empty());
        },
        OpView::Delete(n) => {
            assert(apply_ops(unit, z) == apply_ops(e, z.skip(n as int)));
        },
        OpView::Insert(t) => {
            assert(apply_ops(unit, z) == t + apply_ops(e, z));
            assert(t =~= Seq::<char>::empty());
            assert(apply_ops(unit, z) =~= Seq::<char>::empty());
        },
    }
    assert(apply_ops(acc, x.take(sum_base(acc) as int)) + Seq::<char>::empty() =~= apply_ops(
        acc,
        x.take(sum_base(acc) as int),
    ));
    lemma_apply_take_base(acc, x);
}

/// Applying an edit reads only the first `sum_base` characters.
pub proof fn lemma_apply_take_base(ops: Seq<OpView>, x: Seq<char>)
    requires
        sum_base(ops) <= x.len(),
    ensures
        apply_ops(ops, x.take(sum_base(ops) as int)) == apply_ops(ops, x),
    decreases ops.len(),
{
    if ops.len() == 0 {
    } else {
        let r1 = ops.drop_first();
        assert(sum_base(ops) == op_base(ops[0]) + sum_base(r1));
        let sb = sum_base(ops) as int;
        match ops[0] {
            OpView::Retain(n) => {
                lemma_apply_take_base(r1, x.skip(n as int));
                assert(x.take(sb).take(n as int) =~= x.take(n as int));
                assert(x.take(sb).skip(n as int) =~= x.skip(n as int).take(sum_base(r1) as int));
            },
            OpView::Delete(n) => {
                lemma_apply_take_base(r1, x.skip(n as int));
                assert(x.take(sb).skip(n as int) =~= x.skip(n as int).take(sum_base(r1) as int));
            },
            OpView::Insert(t) => {
                lemma_apply_take_base(r1, x);
                assert(x.take(sb) =~= x.take(sum_base(r1) as int));
            },
        }
    }
}


/// A merged retain reads the same characters as the two retains it
/// replaced.
proof fn lemma_units_merge_retain(k: nat, n: nat, z: Seq<char>)
    requires
        k + n <= z.len(),
    ensures
        apply_ops(seq![OpView::Retain((k + n) as nat)], z) == apply_ops(
            seq![OpView::Retain(k), OpView::Retain(n)],
            z,
        ),
{
    let u1 = seq![OpView::Retain((k + n) as nat)];
    let u2 = seq![OpView::Retain(k), OpView::Retain(n)];
    let e = Seq::<OpView>::empty();
    assert(u1.drop_first() =~= e);
    assert(u2.drop_first() =~= seq![OpView::Retain(n)]);
    assert(u2.drop_first().drop_first() =~= e);
    assert(apply_ops(u1, z) == z.take((k + n) as int) + apply_ops(e, z.skip((k + n) as int)));
    assert(apply_ops(u2, z) == z.take(k as int) + apply_ops(u2.drop_first(), z.skip(k as int)));
    assert(apply_ops(u2.drop_first(), z.skip(k as int)) == z.skip(k as int).take(n as int)
        + apply_ops(e, z.skip(k as int).skip(n as int)));
    assert(z.take(k as int) + (z.skip(k as int).take(n as int) + Seq::<char>::empty()) =~= z.take(
        (k + n) as int,
    ));
    assert(z.take((k + n) as int) + Seq::<char>::empty() =~= z.take((k + n) as int));
}

/// A merged delete drops the same characters as the two deletes it
/// replaced.
proof fn lemma_units_merge_delete(k: nat, n: nat, z: Seq<char>)
    ensures
        apply_ops(seq![OpView::Delete((k + n) as nat)], z) == apply_ops(
            seq![OpView::Delete(k), OpView::Delete(n)],
            z,
        ),
{
    let u1 = seq![OpView::Delete((k + n) as nat)];
    let u2 = seq![OpView::Delete(k), OpView::Delete(n)];
    let e = Seq::<OpView>::empty();
    assert(u1.drop_first() =~= e);
    assert(u2.drop_first() =~= seq![OpView::Delete(n)]);
    assert(u2.drop_first().drop_first() =~= e);
    assert(apply_ops(u1, z) == apply_ops(e, z.skip((k + n) as int)));
    assert(apply_ops(u2, z) == apply_ops(u2.drop_first(), z.skip(k as int)));
    assert(apply_ops(u2.drop_first(), z.skip(k as int)) == apply_ops(
        e,
        z.skip(k as int).skip(n as int),
    ));
}

/// A merged insert writes the same characters as the two inserts it
/// replaced.
proof fn lemma_units_merge_insert(u: Seq<char>, t: Seq<char>, z: Seq<char>)
    ensures
        apply_ops(seq![OpView::Insert(u + t)], z) == apply_ops(
            seq![OpView::Insert(u), OpView::Insert(t)],
            z,
        ),
{
    let u1 = seq![OpView::Insert(u + t)];
    let u2 = seq![OpView::Insert(u), OpView::Insert(t)];
    let e = Seq::<OpView>::empty();
    assert(u1.drop_first() =~= e);
    assert(u2.drop_first() =~= seq![OpView::Insert(t)]);
    assert(u2.drop_first().drop_first() =~= e);
    assert(apply_ops(u1, z) == (u + t) + apply_ops(e, z));
    assert(apply_ops(u2, z) == u + apply_ops(u2.drop_first(), z));
    assert(apply_ops(u2.drop_first(), z) == t + apply_ops(e, z));
    assert((u + t) + Seq::<char>::empty() =~= u + (t + Seq::<char>::empty()));
}

/// An insert placed before a delete writes and drops the same as the
/// delete followed by the insert.
proof fn lemma_units_reorder(t: Seq<char>, d: nat, z: Seq<char>)
    ensures
        apply_ops(seq![OpView::Insert(t), OpView::Delete(d)], z) == apply_ops(
            seq![OpView::Delete(d), OpView::Insert(t)],
            z,
        ),
{
    let u1 = seq![OpView::Insert(t), OpView::Delete(d)];
    let u2 = seq![OpView::Delete(d), OpView::Insert(t)];
    let e = Seq::<OpView>::empty();
    assert(u1.drop_first() =~= seq![OpView::Delete(d)]);
    assert(u1.drop_first().drop_first() =~= e);
    assert(u2.drop_first() =~= seq![OpView::Insert(t)]);
    assert(u2.drop_first().drop_first() =~= e);
    assert(apply_ops(u1, z) == t + apply_ops(u1.drop_first(), z));
    assert(apply_ops(u1.drop_first(), z) == apply_ops(e, z.skip(d as int)));
    assert(apply_ops(u2, z) == apply_ops(u2.drop_first(), z.skip(d as int)));
    assert(apply_ops(u2.drop_first(), z.skip(d as int)) == t + apply_ops(e, z.skip(d as int)));
    assert(t + Seq::<char>::empty() =~= t);
}

/// Extending the insert that sits before a trailing delete writes the
/// same as appending a fresh insert after the delete.
proof fn lemma_units_merge_behind(u: Seq<char>, t: Seq<char>, d: nat, z: Seq<char>)
    ensures
        apply_ops(seq![OpView::Insert(u + t), OpView::Delete(d)], z) == apply_ops(
            seq![OpView::Insert(u), OpView::Delete(d), OpView::Insert(t)],
            z,
        ),
{
    let u1 = seq![OpView::Insert(u + t), OpView::Delete(d)];
    let u2 = seq![OpView::Insert(u), OpView::Delete(d), OpView::Insert(t)];
    let e = Seq::<OpView>::empty();
    assert(u1.drop_first() =~= seq![OpView::Delete(d)]);
    assert(u1.drop_first().drop_first() =~= e);
    assert(u2.drop_first() =~= seq![OpView::Delete(d), OpView::Insert(t)]);
    assert(u2.drop_first().drop_first() =~= seq![OpView::Insert(t)]);
    assert(u2.drop_first().drop_first().drop_first() =~= e);
    assert(apply_ops(u1, z) == (u + t) + apply_ops(u1.drop_first(), z));
    assert(apply_ops(u1.drop_first(), z) == apply_ops(e, z.skip(d as int)));
    assert(apply_ops(u2, z) == u + apply_ops(u2.drop_first(), z));
    assert(apply_ops(u2.drop_first(), z) == apply_ops(u2.drop_first().drop_first(), z.skip(
        d as int,
    )));
    assert(apply_ops(u2.drop_first().drop_first(), z.skip(d as int)) == t + apply_ops(
        e,
        z.skip(d as int),
    ));
    assert((u + t) + Seq::<char>::empty() =~= u + (t + Seq::<char>::empty()));
}



/// A walker's head put back in front of what remains of its sequence.
pub open spec fn with_head(h: Option<OpView>, r: Seq<OpView>) -> Seq<OpView> {
    match h {
        Some(op) => seq![op] + r,
        None => r,
    }
}

/// How a primitive in front of a sequence shows up in its measures.
proof fn lemma_cons_facts(op: OpView, r: Seq<OpView>)
    ensures
        (seq![op] + r)[0] == op,
        (seq![op] + r).drop_first() == r,
        (seq![op] + r).len() == r.len() + 1,
        sum_base(seq![op] + r) == op_base(op) + sum_base(r),
        sum_target(seq![op] + r) == op_target(op) + sum_target(r),
        all_nonzero(seq![op] + r) <==> (op_nonzero(op) && all_nonzero(r)),
{
    let c = seq![op] + r;
    assert(c[0] == op);
    assert(c.drop_first() =~= r);
    assert(sum_base(c) == op_base(c[0]) + sum_base(c.drop_first()));
    assert(sum_target(c) == op_target(c[0]) + sum_target(c.drop_first()));
    if all_nonzero(c) {
        assert(op_nonzero(c[0]));
        assert forall|k: int| 0 <= k < r.len() implies op_nonzero(#[trigger] r[k]) by {
            assert(r[k] == c[k + 1]);
            assert(op_nonzero(c[k + 1]));
        }
    }
    if op_nonzero(op) && all_nonzero(r) {
        assert forall|k: int| 0 <= k < c.len() implies op_nonzero(#[trigger] c[k]) by {
            if k == 0 {
            } else {
                assert(c[k] == r[k - 1]);
                assert(op_nonzero(r[k - 1]));
            }
        }
    }
}

/// Putting a sequence's own head back in front restores the sequence.
proof fn lemma_head_restore(r: Seq<OpView>)
    ensures
        with_head(hd(r), tl(r)) == r,
        head_weight(hd(r)) + seq_weight(tl(r)) == seq_weight(r),
{
    if r.len() > 0 {
        assert(seq![r[0]] + r.drop_first() =~= r);
        assert(seq_weight(r) == op_size(r[0]) + 1 + seq_weight(r.drop_first()));
    }
}

/// Emitting one primitive through the builder extends the built edit's
/// output by exactly what the primitive does to the characters it takes.
proof fn lemma_emit(acc: Seq<OpView>, op: OpView, xa: Seq<char>, piece: Seq<char>)
    requires
        canonical_ops(acc),
        sum_base(acc) == xa.len(),
        op_base(op) == piece.len(),
    ensures
        apply_ops(append_op(acc, op), xa + piece) == apply_ops(acc, xa) + apply_ops(
            seq![op],
            piece,
        ),
        canonical_ops(append_op(acc, op)),
        sum_base(append_op(acc, op)) == xa.len() + piece.len(),
    decreases 0int,
{
    lemma_append_op(acc, op);
    lemma_append_semantics(acc, op, xa + piece);
    lemma_apply_split(acc, seq![op], xa + piece);
    assert(acc.push(op) =~= acc + seq![op]);
    assert((xa + piece).take(xa.len() as int) =~= xa);
    assert((xa + piece).skip(xa.len() as int) =~= piece);
    lemma_apply_take_base(acc, xa + piece);
}

/// What one primitive alone does to exactly the characters it consumes.
proof fn lemma_unit_apply(op: OpView, piece: Seq<char>)
    requires
        op_base(op) == piece.len(),
    ensures
        apply_ops(seq![op], piece) == (match op {
            OpView::Retain(_) => piece,
            OpView::Delete(_) => Seq::<char>::empty(),
            OpView::Insert(t) => t,
        }),
{
    let u = seq![op];
    assert(u.drop_first() =~= Seq::<OpView>::empty());
    match op {
        OpView::Retain(n) => {
            assert(apply_ops(u, piece) == piece.take(n as int) + apply_ops(
                Seq::<OpView>::empty(),
                piece.skip(n as int),
            ));
            assert(piece.take(n as int) =~= piece);
            assert(piece + Seq::<char>::empty() =~= piece);
        },
        OpView::Delete(n) => {
            assert(apply_ops(u, piece) == apply_ops(Seq::<OpView>::empty(), piece.skip(n as int)));
        },
        OpView::Insert(t) => {
            assert(apply_ops(u, piece) == t + apply_ops(Seq::<OpView>::empty(), piece));
            assert(t + Seq::<char>::empty() =~= t);
        },
    }
}

/// The raw inverse of a sequence against its pre-image, before
/// normalization: a retain stays, an insert becomes a delete of its
/// length, a delete becomes an insert of the characters it removed.
pub open spec fn invert_raw(ops: Seq<OpView>, s: Seq<char>) -> Seq<OpView>
    decreases ops.len(),
{
    if ops.len() == 0 {
        Seq::empty()
    } else {
        match ops[0] {
            OpView::Retain(n) => seq![OpView::Retain(n)] + invert_raw(
                ops.drop_first(),
                s.skip(n as int),
            ),
            OpView::Delete(n) => seq![OpView::Insert(s.take(n as int))] + invert_raw(
                ops.drop_first(),
                s.skip(n as int),
            ),
            OpView::Insert(t) => seq![OpView::Delete(t.len())] + invert_raw(ops.drop_first(), s),
        }
    }
}

/// The inverse walker is the raw inverse fed through the builder.
pub proof fn lemma_invert_from_build(ops: Seq<OpView>, s: Seq<char>, acc: Seq<OpView>)
    ensures
        invert_from(ops, s, acc) == build_from(acc, invert_raw(ops, s)),
    decreases ops.len(),
{
    if ops.len() == 0 {
        assert(build_from(acc, invert_raw(ops, s)) == acc);
    } else {
        let rest = ops.drop_first();
        let raw = invert_raw(ops, s);
        match ops[0] {
            OpView::Retain(n) => {
                assert(raw[0] == OpView::Retain(n));
                assert(raw.drop_first() =~= invert_raw(rest, s.skip(n as int)));
                lemma_invert_from_build(rest, s.skip(n as int), append_retain(acc, n));
                assert(append_op(acc, OpView::Retain(n)) == append_retain(acc, n));
            },
            OpView::Delete(n) => {
                assert(raw[0] == OpView::Insert(s.take(n as int)));
                assert(raw.drop_first() =~= invert_raw(rest, s.skip(n as int)));
                lemma_invert_from_build(
                    rest,
                    s.skip(n as int),
                    append_insert(acc, s.take(n as int)),
                );
                assert(append_op(acc, OpView::Insert(s.take(n as int))) == append_insert(
                    acc,
                    s.take(n as int),
                ));
            },
            OpView::Insert(t) => {
                assert(raw[0] == OpView::Delete(t.len()));
                assert(raw.drop_first() =~= invert_raw(rest, s));
                lemma_invert_from_build(rest, s, append_delete(acc, t.len()));
                assert(append_op(acc, OpView::Delete(t.len())) == append_delete(acc, t.len()));
            },
        }
    }
}

/// The raw inverse swaps the two analytic sums.
pub proof fn lemma_invert_raw_sums(ops: Seq<OpView>, s: Seq<char>)
    requires
        sum_base(ops) == s.len(),
    ensures
        sum_base(invert_raw(ops, s)) == sum_target(ops),
        sum_target(invert_raw(ops, s)) == sum_base(ops),
    decreases ops.len(),
{
    if ops.len() == 0 {
    } else {
        let rest = ops.drop_first();
        let raw = invert_raw(ops, s);
        assert(sum_base(ops) == op_base(ops[0]) + sum_base(rest));
        assert(sum_target(ops) == op_target(ops[0]) + sum_target(rest));
        match ops[0] {
            OpView::Retain(n) => {
                assert(raw[0] == OpView::Retain(n));
                assert(raw.drop_first() =~= invert_raw(rest, s.skip(n as int)));
                lemma_invert_raw_sums(rest, s.skip(n as int));
            },
            OpView::Delete(n) => {
                assert(raw[0] == OpView::Insert(s.take(n as int)));
                assert(raw.drop_first() =~= invert_raw(rest, s.skip(n as int)));
                assert(s.take(n as int).len() == n);
                lemma_invert_raw_sums(rest, s.skip(n as int));
            },
            OpView::Insert(t) => {
                assert(raw[0] == OpView::Delete(t.len()));
                assert(raw.drop_first() =~= invert_raw(rest, s));
                lemma_invert_raw_sums(rest, s);
            },
        }
        assert(sum_base(raw) == op_base(raw[0]) + sum_base(raw.drop_first()));
        assert(sum_target(raw) == op_target(raw[0]) + sum_target(raw.drop_first()));
    }
}

/// Applying the raw inverse to what the edit produced restores the
/// pre-image.
pub proof fn lemma_invert_raw_round(ops: Seq<OpView>, s: Seq<char>)
    requires
        sum_base(ops) == s.len(),
    ensures
        apply_ops(invert_raw(ops, s), apply_ops(ops, s)) == s,
    decreases ops.len(),
{
    let out = apply_ops(ops, s);
    if ops.len() == 0 {
        assert(s =~= Seq::<char>::empty());
    } else {
        let rest = ops.drop_first();
        let raw = invert_raw(ops, s);
        assert(sum_base(ops) == op_base(ops[0]) + sum_base(rest));
        match ops[0] {
            OpView::Retain(n) => {
                let srem = s.skip(n as int);
                assert(raw[0] == OpView::Retain(n));
                assert(raw.drop_first() =~= invert_raw(rest, srem));
                assert(out == s.take(n as int) + apply_ops(rest, srem));
                assert(apply_ops(raw, out) == out.take(n as int) + apply_ops(
                    raw.drop_first(),
                    out.skip(n as int),
                ));
                assert(out.take(n as int) =~= s.take(n as int));
                assert(out.skip(n as int) =~= apply_ops(rest, srem));
                lemma_invert_raw_round(rest, srem);
                assert(s.take(n as int) + srem =~= s);
            },
            OpView::Delete(n) => {
                let srem = s.skip(n as int);
                assert(raw[0] == OpView::Insert(s.take(n as int)));
                assert(raw.drop_first() =~= invert_raw(rest, srem));
                assert(out == apply_ops(rest, srem));
                assert(apply_ops(raw, out) == s.take(n as int) + apply_ops(
                    raw.drop_first(),
                    out,
                ));
                lemma_invert_raw_round(rest, srem);
                assert(s.take(n as int) + srem =~= s);
            },
            OpView::Insert(t) => {
                assert(raw[0] == OpView::Delete(t.len()));
                assert(raw.drop_first() =~= invert_raw(rest, s));
                assert(out == t + apply_ops(rest, s));
                assert(apply_ops(raw, out) == apply_ops(
                    raw.drop_first(),
                    out.skip(t.len() as int),
                ));
                assert(out.skip(t.len() as int) =~= apply_ops(rest, s));
                lemma_invert_raw_round(rest, s);
            },
        }
    }
}

/// Feeding primitives through the builder never changes what the edit
/// does to a string.
pub proof fn lemma_build_semantics(acc: Seq<OpView>, raw: Seq<OpView>, x: Seq<char>)
    requires
        canonical_ops(acc),
        sum_base(acc) + sum_base(raw) <= x.len(),
    ensures
        apply_ops(build_from(acc, raw), x) == apply_ops(acc + raw, x),
    decreases raw.len(),
{
    if raw.len() == 0 {
        assert(acc + raw =~= acc);
    } else {
        let r0 = raw[0];
        let rest = raw.drop_first();
        assert(sum_base(raw) == op_base(r0) + sum_base(rest));
        lemma_append_op(acc, r0);
        lemma_sums_push(acc, r0);
        let u = append_op(acc, r0);
        let v = acc.push(r0);
        lemma_build_semantics(u, rest, x);
        lemma_apply_split(u, rest, x);
        lemma_apply_split(v, rest, x);
        lemma_append_semantics(acc, r0, x.take(sum_base(u) as int));
        assert(x.take(sum_base(u) as int).len() == sum_base(u));
        assert(v + rest =~= acc + raw);
        assert(build_from(acc, raw) == build_from(u, rest));
    }
}

/// The invert law: against a string of the edit's base length, the
/// inverse undoes the edit — applying the edit and then its inverse
/// gives back the pre-image — and the inverse swaps the two lengths.
pub proof fn lemma_invert_round_trip(ops: Seq<OpView>, s: Seq<char>)
    requires
        sum_base(ops) == s.len(),
    ensures
        apply_ops(invert_from(ops, s, Seq::empty()), apply_ops(ops, s)) == s,
        sum_base(invert_from(ops, s, Seq::empty())) == sum_target(ops),
        sum_target(invert_from(ops, s, Seq::empty())) == sum_base(ops),
{
    let raw = invert_raw(ops, s);
    let out = apply_ops(ops, s);
    lemma_invert_from_build(ops, s, Seq::empty());
    lemma_invert_raw_sums(ops, s);
    lemma_invert_raw_round(ops, s);
    lemma_apply_ops_len(ops, s);
    lemma_build_from(Seq::empty(), raw);
    lemma_build_semantics(Seq::empty(), raw, out);
    assert(Seq::<OpView>::empty() + raw =~= raw);
}


#[verifier::rlimit(100)]
#[verifier::spinoff_prover]
proof fn lemma_compose_sem_rr(
    i: nat,
    j: nat,
    ar: Seq<OpView>,
    br: Seq<OpView>,
    acc: Seq<OpView>,
    xa: Seq<char>,
    xr: Seq<char>,
)
    requires
        canonical_ops(acc),
        sum_base(acc) == xa.len(),
        all_nonzero(with_head(Some(OpView::Retain(i)), ar)),
        all_nonzero(with_head(Some(OpView::Retain(j)), br)),
        sum_base(with_head(Some(OpView::Retain(i)), ar)) == xr.len(),
        sum_target(with_head(Some(OpView::Retain(i)), ar)) == sum_base(with_head(Some(OpView::Retain(j)), br)),
    ensures
        apply_ops(compose_from(Some(OpView::Retain(i)), ar, Some(OpView::Retain(j)), br, acc), xa + xr) == apply_ops(acc, xa)
            + apply_ops(with_head(Some(OpView::Retain(j)), br), apply_ops(with_head(Some(OpView::Retain(i)), ar), xr)),
    decreases head_weight(Some(OpView::Retain(i))) + seq_weight(ar) + head_weight(Some(OpView::Retain(j))) + seq_weight(br), 0int,
{
    let ha = Some(OpView::Retain(i));
    let hb = Some(OpView::Retain(j));
    let av = with_head(ha, ar);
    let bv = with_head(hb, br);
    let y = apply_ops(av, xr);
        lemma_cons_facts(OpView::Retain(i), ar);
        lemma_cons_facts(OpView::Retain(j), br);
        lemma_head_restore(ar);
        lemma_head_restore(br);
        let w = apply_ops(ar, xr.skip(i as int));
        lemma_apply_ops_len(ar, xr.skip(i as int));
        assert(y == xr.take(i as int) + w);
        if i < j {
            let piece = xr.take(i as int);
            let xr2 = xr.skip(i as int);
            let xa2 = xa + piece;
            let bv2 = seq![OpView::Retain((j - i) as nat)] + br;
            lemma_cons_facts(OpView::Retain((j - i) as nat), br);
            lemma_emit(acc, OpView::Retain(i), xa, piece);
            lemma_unit_apply(OpView::Retain(i), piece);
            lemma_compose_sem(
                hd(ar),
                tl(ar),
                Some(OpView::Retain((j - i) as nat)),
                br,
                append_retain(acc, i),
                xa2,
                xr2,
            );
            assert(xa2 + xr2 =~= xa + xr);
            assert(y.take(j as int) =~= piece + w.take(j - i));
            assert(y.skip(j as int) =~= w.skip(j - i));
            assert(apply_ops(bv2, w) == w.take(j - i) + apply_ops(br, w.skip(j - i)));
            assert(apply_ops(bv, y) == y.take(j as int) + apply_ops(br, y.skip(j as int)));
            assert((piece + w.take(j - i)) + apply_ops(br, w.skip(j - i)) =~= piece + (w.take(
                j - i,
            ) + apply_ops(br, w.skip(j - i))));
            assert((apply_ops(acc, xa) + piece) + apply_ops(bv2, w) =~= apply_ops(acc, xa) + (
            piece + apply_ops(bv2, w)));
            assert(compose_from(ha, ar, hb, br, acc) == compose_from(
                hd(ar),
                tl(ar),
                Some(OpView::Retain((j - i) as nat)),
                br,
                append_retain(acc, i),
            ));
        } else if i == j {
            let piece = xr.take(i as int);
            let xr2 = xr.skip(i as int);
            let xa2 = xa + piece;
            lemma_emit(acc, OpView::Retain(i), xa, piece);
            lemma_unit_apply(OpView::Retain(i), piece);
            lemma_compose_sem(
                hd(ar),
                tl(ar),
                hd(br),
                tl(br),
                append_retain(acc, i),
                xa2,
                xr2,
            );
            assert(xa2 + xr2 =~= xa + xr);
            assert(y.take(j as int) =~= piece);
            assert(y.skip(j as int) =~= w);
            assert(apply_ops(bv, y) == y.take(j as int) + apply_ops(br, y.skip(j as int)));
            assert((apply_ops(acc, xa) + piece) + apply_ops(br, w) =~= apply_ops(acc, xa) + (
            piece + apply_ops(br, w)));
            assert(compose_from(ha, ar, hb, br, acc) == compose_from(
                hd(ar),
                tl(ar),
                hd(br),
                tl(br),
                append_retain(acc, i),
            ));
        } else {
            let piece = xr.take(j as int);
            let xr2 = xr.skip(j as int);
            let xa2 = xa + piece;
            let av2 = seq![OpView::Retain((i - j) as nat)] + ar;
            lemma_cons_facts(OpView::Retain((i - j) as nat), ar);
            lemma_emit(acc, OpView::Retain(j), xa, piece);
            lemma_unit_apply(OpView::Retain(j), piece);
            lemma_compose_sem(
                Some(OpView::Retain((i - j) as nat)),
                ar,
                hd(br),
                tl(br),
                append_retain(acc, j),
                xa2,
                xr2,
            );
            assert(xa2 + xr2 =~= xa + xr);
            let w2 = apply_ops(av2, xr2);
            assert(xr2.take(i - j) =~= xr.subrange(j as int, i as int));
            assert(xr2.skip(i - j) =~= xr.skip(i as int));
            assert(w2 == xr.subrange(j as int, i as int) + apply_ops(ar, xr.skip(i as int)));
            assert(y.take(j as int) =~= piece);
            assert(y.skip(j as int) =~= w2);
            assert(apply_ops(bv, y) == y.take(j as int) + apply_ops(br, y.skip(j as int)));
            assert((apply_ops(acc, xa) + piece) + apply_ops(br, w2) =~= apply_ops(acc, xa) + (
            piece + apply_ops(br, w2)));
            assert(compose_from(ha, ar, hb, br, acc) == compose_from(
                Some(OpView::Retain((i - j) as nat)),
                ar,
                hd(br),
                tl(br),
                append_retain(acc, j),
            ));
        }
}

#[verifier::rlimit(100)]
#[verifier::spinoff_prover]
proof fn lemma_compose_sem_id(
    t: Seq<char>,
    j: nat,
    ar: Seq<OpView>,
    br: Seq<OpView>,
    acc: Seq<OpView>,
    xa: Seq<char>,
    xr: Seq<char>,
)
    requires
        canonical_ops(acc),
        sum_base(acc) == xa.len(),
        all_nonzero(with_head(Some(OpView::Insert(t)), ar)),
        all_nonzero(with_head(Some(OpView::Delete(j)), br)),
        sum_base(with_head(Some(OpView::Insert(t)), ar)) == xr.len(),
        sum_target(with_head(Some(OpView::Insert(t)), ar)) == sum_base(with_head(Some(OpView::Delete(j)), br)),
    ensures
        apply_ops(compose_from(Some(OpView::Insert(t)), ar, Some(OpView::Delete(j)), br, acc), xa + xr) == apply_ops(acc, xa)
            + apply_ops(with_head(Some(OpView::Delete(j)), br), apply_ops(with_head(Some(OpView::Insert(t)), ar), xr)),
    decreases head_weight(Some(OpView::Insert(t))) + seq_weight(ar) + head_weight(Some(OpView::Delete(j))) + seq_weight(br), 0int,
{
    let ha = Some(OpView::Insert(t));
    let hb = Some(OpView::Delete(j));
    let av = with_head(ha, ar);
    let bv = with_head(hb, br);
    let y = apply_ops(av, xr);
        lemma_cons_facts(OpView::Insert(t), ar);
        lemma_cons_facts(OpView::Delete(j), br);
        lemma_head_restore(ar);
        lemma_head_restore(br);
        let k = t.len();
        let w = apply_ops(ar, xr);
        lemma_apply_ops_len(ar, xr);
        assert(y == t + w);
        if k < j {
            let bv2 = seq![OpView::Delete((j - k) as nat)] + br;
            lemma_cons_facts(OpView::Delete((j - k) as nat), br);
            lemma_compose_sem(
                hd(ar),
                tl(ar),
                Some(OpView::Delete((j - k) as nat)),
                br,
                acc,
                xa,
                xr,
            );
            assert(y.skip(j as int) =~= w.skip(j - k));
            assert(apply_ops(bv, y) == apply_ops(br, y.skip(j as int)));
            assert(apply_ops(bv2, w) == apply_ops(br, w.skip(j - k)));
            assert(compose_from(ha, ar, hb, br, acc) == compose_from(
                hd(ar),
                tl(ar),
                Some(OpView::Delete((j - k) as nat)),
                br,
                acc,
            ));
        } else if k == j {
            lemma_compose_sem(hd(ar), tl(ar), hd(br), tl(br), acc, xa, xr);
            assert(y.skip(j as int) =~= w);
            assert(apply_ops(bv, y) == apply_ops(br, y.skip(j as int)));
            assert(compose_from(ha, ar, hb, br, acc) == compose_from(
                hd(ar),
                tl(ar),
                hd(br),
                tl(br),
                acc,
            ));
        } else {
            let av2 = seq![OpView::Insert(t.skip(j as int))] + ar;
            lemma_cons_facts(OpView::Insert(t.skip(j as int)), ar);
            lemma_compose_sem(
                Some(OpView::Insert(t.skip(j as int))),
                ar,
                hd(br),
                tl(br),
                acc,
                xa,
                xr,
            );
            let y2 = apply_ops(av2, xr);
            assert(y2 == t.skip(j as int) + w);
            assert(y.skip(j as int) =~= y2);
            assert(apply_ops(bv, y) == apply_ops(br, y.skip(j as int)));
            assert(compose_from(ha, ar, hb, br, acc) == compose_from(
                Some(OpView::Insert(t.skip(j as int))),
                ar,
                hd(br),
                tl(br),
                acc,
            ));
        }
}

#[verifier::rlimit(100)]
#[verifier::spinoff_prover]
proof fn lemma_compose_sem_ir(
    t: Seq<char>,
    j: nat,
    ar: Seq<OpView>,
    br: Seq<OpView>,
    acc: Seq<OpView>,
    xa: Seq<char>,
    xr: Seq<char>,
)
    requires
        canonical_ops(acc),
        sum_base(acc) == xa.len(),
        all_nonzero(with_head(Some(OpView::Insert(t)), ar)),
        all_nonzero(with_head(Some(OpView::Retain(j)), br)),
        sum_base(with_head(Some(OpView::Insert(t)), ar)) == xr.len(),
        sum_target(with_head(Some(OpView::Insert(t)), ar)) == sum_base(with_head(Some(OpView::Retain(j)), br)),
    ensures
        apply_ops(compose_from(Some(OpView::Insert(t)), ar, Some(OpView::Retain(j)), br, acc), xa + xr) == apply_ops(acc, xa)
            + apply_ops(with_head(Some(OpView::Retain(j)), br), apply_ops(with_head(Some(OpView::Insert(t)), ar), xr)),
    decreases head_weight(Some(OpView::Insert(t))) + seq_weight(ar) + head_weight(Some(OpView::Retain(j))) + seq_weight(br), 0int,
{
    let ha = Some(OpView::Insert(t));
    let hb = Some(OpView::Retain(j));
    let av = with_head(ha, ar);
    let bv = with_head(hb, br);
    let y = apply_ops(av, xr);
        lemma_cons_facts(OpView::Insert(t), ar);
        lemma_cons_facts(OpView::Retain(j), br);
        lemma_head_restore(ar);
        lemma_head_restore(br);
        let k = t.len();
        let w = apply_ops(ar, xr);
        lemma_apply_ops_len(ar, xr);
        assert(y == t + w);
        if k < j {
            let bv2 = seq![OpView::Retain((j - k) as nat)] + br;
            lemma_cons_facts(OpView::Retain((j - k) as nat), br);
            lemma_emit(acc, OpView::Insert(t), xa, Seq::<char>::empty());
            lemma_unit_apply(OpView::Insert(t), Seq::<char>::empty());
            assert(xa + Seq::<char>::empty() =~= xa);
            lemma_compose_sem(
                hd(ar),
                tl(ar),
                Some(OpView::Retain((j - k) as nat)),
                br,
                append_insert(acc, t),
                xa,
                xr,
            );
            assert(y.take(j as int) =~= t + w.take(j - k));
            assert(y.skip(j as int) =~= w.skip(j - k));
            assert(apply_ops(bv2, w) == w.take(j - k) + apply_ops(br, w.skip(j - k)));
            assert(apply_ops(bv, y) == y.take(j as int) + apply_ops(br, y.skip(j as int)));
            assert((t + w.take(j - k)) + apply_ops(br, w.skip(j - k)) =~= t + (w.take(j - k)
                + apply_ops(br, w.skip(j - k))));
            assert((apply_ops(acc, xa) + t) + apply_ops(bv2, w) =~= apply_ops(acc, xa) + (t
                + apply_ops(bv2, w)));
            assert(compose_from(ha, ar, hb, br, acc) == compose_from(
                hd(ar),
                tl(ar),
                Some(OpView::Retain((j - k) as nat)),
                br,
                append_insert(acc, t),
            ));
        } else if k == j {
            lemma_emit(acc, OpView::Insert(t), xa, Seq::<char>::empty());
            lemma_unit_apply(OpView::Insert(t), Seq::<char>::empty());
            assert(xa + Seq::<char>::empty() =~= xa);
            lemma_compose_sem(
                hd(ar),
                tl(ar),
                hd(br),
                tl(br),
                append_insert(acc, t),
                xa,
                xr,
            );
            assert(y.take(j as int) =~= t);
            assert(y.skip(j as int) =~= w);
            assert(apply_ops(bv, y) == y.take(j as int) + apply_ops(br, y.skip(j as int)));
            assert((apply_ops(acc, xa) + t) + apply_ops(br, w) =~= apply_ops(acc, xa) + (t
                + apply_ops(br, w)));
            assert(compose_from(ha, ar, hb, br, acc) == compose_from(
                hd(ar),
                tl(ar),
                hd(br),
                tl(br),
                append_insert(acc, t),
            ));
        } else {
            let av2 = seq![OpView::Insert(t.skip(j as int))] + ar;
            lemma_cons_facts(OpView::Insert(t.skip(j as int)), ar);
            lemma_emit(acc, OpView::Insert(t.take(j as int)), xa, Seq::<char>::empty());
            lemma_unit_apply(OpView::Insert(t.take(j as int)), Seq::<char>::empty());
            assert(xa + Seq::<char>::empty() =~= xa);
            lemma_compose_sem(
                Some(OpView::Insert(t.skip(j as int))),
                ar,
                hd(br),
                tl(br),
                append_insert(acc, t.take(j as int)),
                xa,
                xr,
            );
            let y2 = apply_ops(av2, xr);
            assert(y2 == t.skip(j as int) + w);
            assert(y.take(j as int) =~= t.take(j as int));
            assert(y.skip(j as int) =~= y2);
            assert(apply_ops(bv, y) == y.take(j as int) + apply_ops(br, y.skip(j as int)));
            assert((apply_ops(acc, xa) + t.take(j as int)) + apply_ops(br, y2) =~= apply_ops(
                acc,
                xa,
            ) + (t.take(j as int) + apply_ops(br, y2)));
            assert(compose_from(ha, ar, hb, br, acc) == compose_from(
                Some(OpView::Insert(t.skip(j as int))),
                ar,
                hd(br),
                tl(br),
                append_insert(acc, t.take(j as int)),
            ));
        }
}

#[verifier::rlimit(100)]
#[verifier::spinoff_prover]
proof fn lemma_compose_sem_rd(
    i: nat,
    j: nat,
    ar: Seq<OpView>,
    br: Seq<OpView>,
    acc: Seq<OpView>,
    xa: Seq<char>,
    xr: Seq<char>,
)
    requires
        canonical_ops(acc),
        sum_base(acc) == xa.len(),
        all_nonzero(with_head(Some(OpView::Retain(i)), ar)),
        all_nonzero(with_head(Some(OpView::Delete(j)), br)),
        sum_base(with_head(Some(OpView::Retain(i)), ar)) == xr.len(),
        sum_target(with_head(Some(OpView::Retain(i)), ar)) == sum_base(with_head(Some(OpView::Delete(j)), br)),
    ensures
        apply_ops(compose_from(Some(OpView::Retain(i)), ar, Some(OpView::Delete(j)), br, acc), xa + xr) == apply_ops(acc, xa)
            + apply_ops(with_head(Some(OpView::Delete(j)), br), apply_ops(with_head(Some(OpView::Retain(i)), ar), xr)),
    decreases head_weight(Some(OpView::Retain(i))) + seq_weight(ar) + head_weight(Some(OpView::Delete(j))) + seq_weight(br), 0int,
{
    let ha = Some(OpView::Retain(i));
    let hb = Some(OpView::Delete(j));
    let av = with_head(ha, ar);
    let bv = with_head(hb, br);
    let y = apply_ops(av, xr);
        lemma_cons_facts(OpView::Retain(i), ar);
        lemma_cons_facts(OpView::Delete(j), br);
        lemma_head_restore(ar);
        lemma_head_restore(br);
        let w = apply_ops(ar, xr.skip(i as int));
        lemma_apply_ops_len(ar, xr.skip(i as int));
        assert(y == xr.take(i as int) + w);
        if i < j {
            let piece = xr.take(i as int);
            let xr2 = xr.skip(i as int);
            let xa2 = xa + piece;
            let bv2 = seq![OpView::Delete((j - i) as nat)] + br;
            lemma_cons_facts(OpView::Delete((j - i) as nat), br);
            lemma_emit(acc, OpView::Delete(i), xa, piece);
            lemma_unit_apply(OpView::Delete(i), piece);
            lemma_compose_sem(
                hd(ar),
                tl(ar),
                Some(OpView::Delete((j - i) as nat)),
                br,
                append_delete(acc, i),
                xa2,
                xr2,
            );
            assert(xa2 + xr2 =~= xa + xr);
            assert(apply_ops(acc, xa) + Seq::<char>::empty() =~= apply_ops(acc, xa));
            assert(y.skip(j as int) =~= w.skip(j - i));
            assert(apply_ops(bv, y) == apply_ops(br, y.skip(j as int)));
            assert(apply_ops(bv2, w) == apply_ops(br, w.skip(j - i)));
            assert(compose_from(ha, ar, hb, br, acc) == compose_from(
                hd(ar),
                tl(ar),
                Some(OpView::Delete((j - i) as nat)),
                br,
                append_delete(acc, i),
            ));
        } else if i == j {
            let piece = xr.take(i as int);
            let xr2 = xr.skip(i as int);
            let xa2 = xa + piece;
            lemma_emit(acc, OpView::Delete(i), xa, piece);
            lemma_unit_apply(OpView::Delete(i), piece);
            lemma_compose_sem(
                hd(ar),
                tl(ar),
                hd(br),
                tl(br),
                append_delete(acc, i),
                xa2,
                xr2,
            );
            assert(xa2 + xr2 =~= xa + xr);
            assert(apply_ops(acc, xa) + Seq::<char>::empty() =~= apply_ops(acc, xa));
            assert(y.skip(j as int) =~= w);
            assert(apply_ops(bv, y) == apply_ops(br, y.skip(j as int)));
            assert(compose_from(ha, ar, hb, br, acc) == compose_from(
                hd(ar),
                tl(ar),
                hd(br),
                tl(br),
                append_delete(acc, i),
            ));
        } else {
            let piece = xr.take(j as int);
            let xr2 = xr.skip(j as int);
            let xa2 = xa + piece;
            let av2 = seq![OpView::Retain((i - j) as nat)] + ar;
            lemma_cons_facts(OpView::Retain((i - j) as nat), ar);
            lemma_emit(acc, OpView::Delete(j), xa, piece);
            lemma_unit_apply(OpView::Delete(j), piece);
            lemma_compose_sem(
                Some(OpView::Retain((i - j) as nat)),
                ar,
                hd(br),
                tl(br),
                append_delete(acc, j),
                xa2,
                xr2,
            );
            assert(xa2 + xr2 =~= xa + xr);
            assert(apply_ops(acc, xa) + Seq::<char>::empty() =~= apply_ops(acc, xa));
            let w2 = apply_ops(av2, xr2);
            assert(xr2.take(i - j) =~= xr.subrange(j as int, i as int));
            assert(xr2.skip(i - j) =~= xr.skip(i as int));
            assert(w2 == xr.subrange(j as int, i as int) + apply_ops(ar, xr.skip(i as int)));
            assert(y.skip(j as int) =~= w2);
            assert(apply_ops(bv, y) == apply_ops(br, y.skip(j as int)));
            assert(compose_from(ha, ar, hb, br, acc) == compose_from(
                Some(OpView::Retain((i - j) as nat)),
                ar,
                hd(br),
                tl(br),
                append_delete(acc, j),
            ));
        }
}

/// The composition walker, run from any balanced mid-state, produces an
/// edit that does to the whole input what the two remainders do in
/// sequence after what is already built.
#[verifier::rlimit(100)]
#[verifier::spinoff_prover]
proof fn lemma_compose_sem(
    ha: Option<OpView>,
    ar: Seq<OpView>,
    hb: Option<OpView>,
    br: Seq<OpView>,
    acc: Seq<OpView>,
    xa: Seq<char>,
    xr: Seq<char>,
)
    requires
        canonical_ops(acc),
        sum_base(acc) == xa.len(),
        ha is None ==> ar.len() == 0,
        hb is None ==> br.len() == 0,
        all_nonzero(with_head(ha, ar)),
        all_nonzero(with_head(hb, br)),
        sum_base(with_head(ha, ar)) == xr.len(),
        sum_target(with_head(ha, ar)) == sum_base(with_head(hb, br)),
    ensures
        apply_ops(compose_from(ha, ar, hb, br, acc), xa + xr) == apply_ops(acc, xa) + apply_ops(
            with_head(hb, br),
            apply_ops(with_head(ha, ar), xr),
        ),
    decreases head_weight(ha) + seq_weight(ar) + head_weight(hb) + seq_weight(br), 1int,
{
    let av = with_head(ha, ar);
    let bv = with_head(hb, br);
    let y = apply_ops(av, xr);
    match (ha, hb) {
        (None, None) => {
            assert(av =~= Seq::<OpView>::empty());
            assert(bv =~= Seq::<OpView>::empty());
            assert(xr =~= Seq::<char>::empty());
            assert(xa + xr =~= xa);
            assert(apply_ops(acc, xa) + Seq::<char>::empty() =~= apply_ops(acc, xa));
        },
        (Some(OpView::Delete(i)), _) => {
            lemma_cons_facts(OpView::Delete(i), ar);
            lemma_head_restore(ar);
            let piece = xr.take(i as int);
            let xr2 = xr.skip(i as int);
            let xa2 = xa + piece;
            lemma_emit(acc, OpView::Delete(i), xa, piece);
            lemma_unit_apply(OpView::Delete(i), piece);
            lemma_compose_sem(hd(ar), tl(ar), hb, br, append_delete(acc, i), xa2, xr2);
            assert(xa2 + xr2 =~= xa + xr);
            assert(apply_ops(acc, xa) + Seq::<char>::empty() =~= apply_ops(acc, xa));
            assert(y == apply_ops(ar, xr2));
            assert(compose_from(ha, ar, hb, br, acc) == compose_from(
                hd(ar),
                tl(ar),
                hb,
                br,
                append_delete(acc, i),
            ));
        },
        (_, Some(OpView::Insert(t))) => {
            lemma_cons_facts(OpView::Insert(t), br);
            lemma_head_restore(br);
            lemma_emit(acc, OpView::Insert(t), xa, Seq::<char>::empty());
            lemma_unit_apply(OpView::Insert(t), Seq::<char>::empty());
            assert(xa + Seq::<char>::empty() =~= xa);
            lemma_compose_sem(ha, ar, hd(br), tl(br), append_insert(acc, t), xa, xr);
            assert(apply_ops(bv, y) == t + apply_ops(br, y));
            assert((apply_ops(acc, xa) + t) + apply_ops(br, y) =~= apply_ops(acc, xa) + (t
                + apply_ops(br, y)));
            assert(compose_from(ha, ar, hb, br, acc) == compose_from(
                ha,
                ar,
                hd(br),
                tl(br),
                append_insert(acc, t),
            ));
        },
        (None, _) => {
            assert(av =~= Seq::<OpView>::empty());
            match hb {
                Some(op2) => {
                    lemma_cons_facts(op2, br);
                    assert(op_nonzero(op2));
                    assert(op_base(op2) >= 1);
                    assert(false);
                },
                None => {
                    assert(false);
                },
            }
        },
        (_, None) => {
            assert(bv =~= Seq::<OpView>::empty());
            match ha {
                Some(op1) => {
                    lemma_cons_facts(op1, ar);
                    assert(op_nonzero(op1));
                    assert(op_target(op1) >= 1);
                    assert(false);
                },
                None => {
                    assert(false);
                },
            }
        },
        (Some(OpView::Retain(i)), Some(OpView::Retain(j))) => {
            lemma_compose_sem_rr(i, j, ar, br, acc, xa, xr);
        },
        (Some(OpView::Insert(t)), Some(OpView::Delete(j))) => {
            lemma_compose_sem_id(t, j, ar, br, acc, xa, xr);
        },
        (Some(OpView::Insert(t)), Some(OpView::Retain(j))) => {
            lemma_compose_sem_ir(t, j, ar, br, acc, xa, xr);
        },
        (Some(OpView::Retain(i)), Some(OpView::Delete(j))) => {
            lemma_compose_sem_rd(i, j, ar, br, acc, xa, xr);
        },
    }
}

/// The compose law: on a string of the first edit's base length, the
/// composition does in one pass what the two edits do in sequence.
pub proof fn lemma_compose_law(a: Seq<OpView>, b: Seq<OpView>, s: Seq<char>)
    requires
        all_nonzero(a),
        all_nonzero(b),
        sum_base(a) == s.len(),
        sum_target(a) == sum_base(b),
    ensures
        apply_ops(compose_ops(a, b), s) == apply_ops(b, apply_ops(a, s)),
{
    lemma_head_restore(a);
    lemma_head_restore(b);
    if hd(a) is None {
        assert(a.len() == 0);
    }
    if hd(b) is None {
        assert(b.len() == 0);
    }
    lemma_compose_sem(hd(a), tl(a), hd(b), tl(b), Seq::empty(), Seq::empty(), s);
    assert(Seq::<char>::empty() + s =~= s);
    assert(apply_ops(Seq::<OpView>::empty(), Seq::<char>::empty())
        == Seq::<char>::empty());
    assert(Seq::<char>::empty() + apply_ops(b, apply_ops(a, s)) =~= apply_ops(
        b,
        apply_ops(a, s),
    ));
}


/// The wire round trip: any edit whose runs fit the machine encodes to a
/// form that decodes back to exactly the same canonical primitives.
pub proof fn lemma_wire_round_trip(ops: Seq<OpView>)
    requires
        canonical_ops(ops),
        sum_base(ops) <= usize::MAX,
        sum_target(ops) <= usize::MAX,
    ensures
        parse_wire(encode_wire(ops)) == Some(ops),
        build_ops(ops) == ops,
{
    assert forall|k: int| 0 <= k < ops.len() implies op_bounded(#[trigger] ops[k]) by {
        lemma_sums_split(ops, k);
        lemma_skip_step(ops, k);
        assert(op_base(ops[k]) <= sum_base(ops));
    }
    lemma_parse_encode(ops);
    lemma_build_canonical(ops);
}

} // verus!
