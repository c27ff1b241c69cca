//! Transformation of two concurrent edits over one base into a pair that
//! converges.

use vstd::prelude::*;

use crate::op::{
    Operation, OpView, op_base, op_target, op_nonzero, sum_base, sum_target, append_retain,
    append_delete, append_insert, hd, tl, opt_view, head_base, head_target, head_nonzero,
    head_weight, seq_weight, lemma_advance,
};
use crate::edit::{TextOperation, next_op};

verus! {

/// One step at a time, the transformation walker dispatches on the pair
/// of current heads. An insert of the left edit goes into the left output
/// and is retained by the right output — before any insert of the right
/// edit, which is the tie-break that makes concurrent inserts converge.
/// Matching retains are retained by both outputs; matching deletes need
/// nothing; a delete against a retain is kept by the side that deleted.
/// The walker stops when both sides are exhausted; an unbalanced state
/// returns the accumulators unchanged, and never arises from two edits
/// with one base length.
pub open spec fn transform_from(
    ha: Option<OpView>,
    ar: Seq<OpView>,
    hb: Option<OpView>,
    br: Seq<OpView>,
    acca: Seq<OpView>,
    accb: Seq<OpView>,
) -> (Seq<OpView>, Seq<OpView>)
    decreases head_weight(ha) + seq_weight(ar) + head_weight(hb) + seq_weight(br),
{
    match (ha, hb) {
        (None, None) => (acca, accb),
        (Some(OpView::Insert(s)), _) => transform_from(
            hd(ar),
            tl(ar),
            hb,
            br,
            append_insert(acca, s),
            append_retain(accb, s.len()),
        ),
        (_, Some(OpView::Insert(s))) => transform_from(
            ha,
            ar,
            hd(br),
            tl(br),
            append_retain(acca, s.len()),
            append_insert(accb, s),
        ),
        (None, _) => (acca, accb),
        (_, None) => (acca, accb),
        (Some(OpView::Retain(i)), Some(OpView::Retain(j))) => if i < j {
            transform_from(
                hd(ar),
                tl(ar),
                Some(OpView::Retain((j - i) as nat)),
                br,
                append_retain(acca, i),
                append_retain(accb, i),
            )
        } else if i == j {
            transform_from(
                hd(ar),
                tl(ar),
                hd(br),
                tl(br),
                append_retain(acca, i),
                append_retain(accb, i),
            )
        } else {
            transform_from(
                Some(OpView::Retain((i - j) as nat)),
                ar,
                hd(br),
                tl(br),
                append_retain(acca, j),
                append_retain(accb, j),
            )
        },
        (Some(OpView::Delete(i)), Some(OpView::Delete(j))) => if i < j {
            transform_from(hd(ar), tl(ar), Some(OpView::Delete((j - i) as nat)), br, acca, accb)
        } else if i == j {
            transform_from(hd(ar), tl(ar), hd(br), tl(br), acca, accb)
        } else {
            transform_from(Some(OpView::Delete((i - j) as nat)), ar, hd(br), tl(br), acca, accb)
        },
        (Some(OpView::Delete(i)), Some(OpView::Retain(j))) => if i < j {
            transform_from(
                hd(ar),
                tl(ar),
                Some(OpView::Retain((j - i) as nat)),
                br,
                append_delete(acca, i),
                accb,
            )
        } else if i == j {
            transform_from(hd(ar), tl(ar), hd(br), tl(br), append_delete(acca, i), accb)
        } else {
            transform_from(
                Some(OpView::Delete((i - j) as nat)),
                ar,
                hd(br),
                tl(br),
                append_delete(acca, j),
                accb,
            )
        },
        (Some(OpView::Retain(i)), Some(OpView::Delete(j))) => if i < j {
            transform_from(
                hd(ar),
                tl(ar),
                Some(OpView::Delete((j - i) as nat)),
                br,
                acca,
                append_delete(accb, i),
            )
        } else if i == j {
            transform_from(hd(ar), tl(ar), hd(br), tl(br), acca, append_delete(accb, i))
        } else {
            transform_from(
                Some(OpView::Retain((i - j) as nat)),
                ar,
                hd(br),
                tl(br),
                acca,
                append_delete(accb, j),
            )
        },
    }
}

/// The transformation of two primitive sequences over one base.
pub open spec fn transform_ops(a: Seq<OpView>, b: Seq<OpView>) -> (Seq<OpView>, Seq<OpView>) {
    transform_from(hd(a), tl(a), hd(b), tl(b), Seq::empty(), Seq::empty())
}

impl TextOperation {
    /// Transform this edit against a concurrent one over the same base:
    /// the first result applies after the other edit, the second after
    /// this one, and the two compositions converge. The two outputs
    /// produce one merged length.
    #[verifier::rlimit(100)]
    #[verifier::spinoff_prover]
    pub fn transform(&self, other: &Self) -> (r: (Self, Self))
        requires
            self.well_formed(),
            other.well_formed(),
            self.base_len == other.base_len,
            self.target_len + other.target_len <= usize::MAX,
        ensures
            r.0.well_formed(),
            r.1.well_formed(),
            (r.0@, r.1@) == transform_ops(self@, other@),
            r.0.base_len == other.target_len,
            r.1.base_len == self.target_len,
            r.0.target_len == r.1.target_len,
    {
        let ghost va = self@;
        let ghost vb = other@;
        let mut pa = TextOperation::default();
        let mut pb = TextOperation::default();
        let mut i: usize = 0;
        let mut j: usize = 0;
        proof {
            assert(va.skip(0) =~= va);
            assert(vb.skip(0) =~= vb);
            lemma_advance(va, 0);
            lemma_advance(vb, 0);
        }
        let mut ha = next_op(&self.ops, &mut i);
        let mut hb = next_op(&other.ops, &mut j);
        loop
            invariant
                self.well_formed(),
                other.well_formed(),
                self.base_len == other.base_len,
                self.target_len + other.target_len <= usize::MAX,
                va == self@,
                vb == other@,
                va.len() == self.ops.len(),
                vb.len() == other.ops.len(),
                i <= self.ops.len(),
                j <= other.ops.len(),
                pa.well_formed(),
                pb.well_formed(),
                head_nonzero(opt_view(ha)),
                head_nonzero(opt_view(hb)),
                ha is None ==> i == self.ops.len(),
                hb is None ==> j == other.ops.len(),
                head_base(opt_view(ha)) + sum_base(va.skip(i as int)) == head_base(opt_view(hb))
                    + sum_base(vb.skip(j as int)),
                pa.base_len + head_target(opt_view(hb)) + sum_target(vb.skip(j as int))
                    == other.target_len,
                pb.base_len + head_target(opt_view(ha)) + sum_target(va.skip(i as int))
                    == self.target_len,
                pa.target_len == pb.target_len,
                pa.target_len + head_target(opt_view(ha)) + sum_target(va.skip(i as int))
                    + head_target(opt_view(hb)) + sum_target(vb.skip(j as int)) <= self.target_len
                    + other.target_len,
                transform_from(
                    opt_view(ha),
                    va.skip(i as int),
                    opt_view(hb),
                    vb.skip(j as int),
                    pa@,
                    pb@,
                ) == transform_ops(va, vb),
            ensures
                ha is None,
                hb is None,
            decreases head_weight(opt_view(ha)) + seq_weight(va.skip(i as int)) + head_weight(
                opt_view(hb),
            ) + seq_weight(vb.skip(j as int)),
        {
            let ghost rav = va.skip(i as int);
            let ghost rbv = vb.skip(j as int);
            let ghost pa0 = pa@;
            let ghost pb0 = pb@;
            proof {
                lemma_advance(va, i as int);
                lemma_advance(vb, j as int);
                if i < va.len() {
                    assert(op_nonzero(va[i as int]));
                }
                if j < vb.len() {
                    assert(op_nonzero(vb[j as int]));
                }
            }
            match (&ha, &hb) {
                (None, None) => {
                    break;
                },
                (Some(Operation::Insert(s)), _) => {
                    let k = s.as_str().unicode_len();
                    let piece = s.clone();
                    proof {
                        assert(transform_from(opt_view(ha), rav, opt_view(hb), rbv, pa0, pb0)
                            == transform_from(
                            hd(rav),
                            tl(rav),
                            opt_view(hb),
                            rbv,
                            append_insert(pa0, piece@),
                            append_retain(pb0, piece@.len()),
                        ));
                    }
                    pa.insert(piece);
                    pb.retain_n(k);
                    ha = next_op(&self.ops, &mut i);
                },
                (_, Some(Operation::Insert(s))) => {
                    let k = s.as_str().unicode_len();
                    let piece = s.clone();
                    proof {
                        assert(transform_from(opt_view(ha), rav, opt_view(hb), rbv, pa0, pb0)
                            == transform_from(
                            opt_view(ha),
                            rav,
                            hd(rbv),
                            tl(rbv),
                            append_retain(pa0, piece@.len()),
                            append_insert(pb0, piece@),
                        ));
                    }
                    pa.retain_n(k);
                    pb.insert(piece);
                    hb = next_op(&other.ops, &mut j);
                },
                (None, _) => {
                    proof {
                        assert(rav =~= Seq::<OpView>::empty());
                        assert(head_base(opt_view(hb)) > 0);
                        assert(false);
                    }
                    break;
                },
                (_, None) => {
                    proof {
                        assert(rbv =~= Seq::<OpView>::empty());
                        assert(head_base(opt_view(ha)) > 0);
                        assert(false);
                    }
                    break;
                },
                (Some(Operation::Retain(x)), Some(Operation::Retain(y))) => {
                    let x: usize = *x;
                    let y: usize = *y;
                    if x < y {
                        proof {
                            assert(transform_from(opt_view(ha), rav, opt_view(hb), rbv, pa0, pb0)
                                == transform_from(
                                hd(rav),
                                tl(rav),
                                Some(OpView::Retain((y - x) as nat)),
                                rbv,
                                append_retain(pa0, x as nat),
                                append_retain(pb0, x as nat),
                            ));
                        }
                        pa.retain_n(x);
                        pb.retain_n(x);
                        ha = next_op(&self.ops, &mut i);
                        hb = Some(Operation::Retain(y - x));
                    } else if x == y {
                        proof {
                            assert(transform_from(opt_view(ha), rav, opt_view(hb), rbv, pa0, pb0)
                                == transform_from(
                                hd(rav),
                                tl(rav),
                                hd(rbv),
                                tl(rbv),
                                append_retain(pa0, x as nat),
                                append_retain(pb0, x as nat),
                            ));
                        }
                        pa.retain_n(x);
                        pb.retain_n(x);
                        ha = next_op(&self.ops, &mut i);
                        hb = next_op(&other.ops, &mut j);
                    } else {
                        proof {
                            assert(transform_from(opt_view(ha), rav, opt_view(hb), rbv, pa0, pb0)
                                == transform_from(
                                Some(OpView::Retain((x - y) as nat)),
                                rav,
                                hd(rbv),
                                tl(rbv),
                                append_retain(pa0, y as nat),
                                append_retain(pb0, y as nat),
                            ));
                        }
                        pa.retain_n(y);
                        pb.retain_n(y);
                        ha = Some(Operation::Retain(x - y));
                        hb = next_op(&other.ops, &mut j);
                    }
                },
                (Some(Operation::Delete(x)), Some(Operation::Delete(y))) => {
                    let x: usize = *x;
                    let y: usize = *y;
                    if x < y {
                        proof {
                            assert(transform_from(opt_view(ha), rav, opt_view(hb), rbv, pa0, pb0)
                                == transform_from(
                                hd(rav),
                                tl(rav),
                                Some(OpView::Delete((y - x) as nat)),
                                rbv,
                                pa0,
                                pb0,
                            ));
                        }
                        ha = next_op(&self.ops, &mut i);
                        hb = Some(Operation::Delete(y - x));
                    } else if x == y {
                        proof {
                            assert(transform_from(opt_view(ha), rav, opt_view(hb), rbv, pa0, pb0)
                                == transform_from(hd(rav), tl(rav), hd(rbv), tl(rbv), pa0, pb0));
                        }
                        ha = next_op(&self.ops, &mut i);
                        hb = next_op(&other.ops, &mut j);
                    } else {
                        proof {
                            assert(transform_from(opt_view(ha), rav, opt_view(hb), rbv, pa0, pb0)
                                == transform_from(
                                Some(OpView::Delete((x - y) as nat)),
                                rav,
                                hd(rbv),
                                tl(rbv),
                                pa0,
                                pb0,
                            ));
                        }
                        ha = Some(Operation::Delete(x - y));
                        hb = next_op(&other.ops, &mut j);
                    }
                },
                (Some(Operation::Delete(x)), Some(Operation::Retain(y))) => {
                    let x: usize = *x;
                    let y: usize = *y;
                    if x < y {
                        proof {
                            assert(transform_from(opt_view(ha), rav, opt_view(hb), rbv, pa0, pb0)
                                == transform_from(
                                hd(rav),
                                tl(rav),
                                Some(OpView::Retain((y - x) as nat)),
                                rbv,
                                append_delete(pa0, x as nat),
                                pb0,
                            ));
                        }
                        pa.delete_n(x);
                        ha = next_op(&self.ops, &mut i);
                        hb = Some(Operation::Retain(y - x));
                    } else if x == y {
                        proof {
                            assert(transform_from(opt_view(ha), rav, opt_view(hb), rbv, pa0, pb0)
                                == transform_from(
                                hd(rav),
                                tl(rav),
                                hd(rbv),
                                tl(rbv),
                                append_delete(pa0, x as nat),
                                pb0,
                            ));
                        }
                        pa.delete_n(x);
                        ha = next_op(&self.ops, &mut i);
                        hb = next_op(&other.ops, &mut j);
                    } else {
                        proof {
                            assert(transform_from(opt_view(ha), rav, opt_view(hb), rbv, pa0, pb0)
                                == transform_from(
                                Some(OpView::Delete((x - y) as nat)),
                                rav,
                                hd(rbv),
                                tl(rbv),
                                append_delete(pa0, y as nat),
                                pb0,
                            ));
                        }
                        pa.delete_n(y);
                        ha = Some(Operation::Delete(x - y));
                        hb = next_op(&other.ops, &mut j);
                    }
                },
                (Some(Operation::Retain(x)), Some(Operation::Delete(y))) => {
                    let x: usize = *x;
                    let y: usize = *y;
                    if x < y {
                        proof {
                            assert(transform_from(opt_view(ha), rav, opt_view(hb), rbv, pa0, pb0)
                                == transform_from(
                                hd(rav),
                                tl(rav),
                                Some(OpView::Delete((y - x) as nat)),
                                rbv,
                                pa0,
                                append_delete(pb0, x as nat),
                            ));
                        }
                        pb.delete_n(x);
                        ha = next_op(&self.ops, &mut i);
                        hb = Some(Operation::Delete(y - x));
                    } else if x == y {
                        proof {
                            assert(transform_from(opt_view(ha), rav, opt_view(hb), rbv, pa0, pb0)
                                == transform_from(
                                hd(rav),
                                tl(rav),
                                hd(rbv),
                                tl(rbv),
                                pa0,
                                append_delete(pb0, x as nat),
                            ));
                        }
                        pb.delete_n(x);
                        ha = next_op(&self.ops, &mut i);
                        hb = next_op(&other.ops, &mut j);
                    } else {
                        proof {
                            assert(transform_from(opt_view(ha), rav, opt_view(hb), rbv, pa0, pb0)
                                == transform_from(
                                Some(OpView::Retain((x - y) as nat)),
                                rav,
                                hd(rbv),
                                tl(rbv),
                                pa0,
                                append_delete(pb0, y as nat),
                            ));
                        }
                        pb.delete_n(y);
                        ha = Some(Operation::Retain(x - y));
                        hb = next_op(&other.ops, &mut j);
                    }
                },
            }
        }
        proof {
            assert(va.skip(i as int) =~= Seq::<OpView>::empty());
            assert(vb.skip(j as int) =~= Seq::<OpView>::empty());
        }
        (pa, pb)
    }
}

} // verus!
