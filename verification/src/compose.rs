//! Sequential composition of two edits into one with the same effect.

use vstd::prelude::*;

use crate::op::{
    Operation, OpView, op_base, op_target, op_nonzero, sum_base, sum_target, append_retain, append_delete,
    append_insert, hd, tl, opt_view, head_base, head_target, head_nonzero, head_weight,
    seq_weight, lemma_advance,
};
use crate::edit::{TextOperation, next_op};

verus! {

/// One step at a time, the composition walker dispatches on the pair of
/// current heads: a delete of the first edit passes through, an insert of
/// the second passes through, and otherwise the shorter head is consumed
/// against the longer one, which is shrunk by the common run. The walker
/// stops when both sides are exhausted; an unbalanced state returns the
/// accumulator unchanged, and never arises from two edits whose lengths
/// agree.
pub open spec fn compose_from(
    ha: Option<OpView>,
    ar: Seq<OpView>,
    hb: Option<OpView>,
    br: Seq<OpView>,
    acc: Seq<OpView>,
) -> Seq<OpView>
    decreases head_weight(ha) + seq_weight(ar) + head_weight(hb) + seq_weight(br),
{
    match (ha, hb) {
        (None, None) => acc,
        (Some(OpView::Delete(i)), _) => compose_from(
            hd(ar),
            tl(ar),
            hb,
            br,
            append_delete(acc, i),
        ),
        (_, Some(OpView::Insert(s))) => compose_from(
            ha,
            ar,
            hd(br),
            tl(br),
            append_insert(acc, s),
        ),
        (None, _) => acc,
        (_, None) => acc,
        (Some(OpView::Retain(i)), Some(OpView::Retain(j))) => if i < j {
            compose_from(
                hd(ar),
                tl(ar),
                Some(OpView::Retain((j - i) as nat)),
                br,
                append_retain(acc, i),
            )
        } else if i == j {
            compose_from(hd(ar), tl(ar), hd(br), tl(br), append_retain(acc, i))
        } else {
            compose_from(
                Some(OpView::Retain((i - j) as nat)),
                ar,
                hd(br),
                tl(br),
                append_retain(acc, j),
            )
        },
        (Some(OpView::Insert(s)), Some(OpView::Delete(j))) => if s.len() < j {
            compose_from(hd(ar), tl(ar), Some(OpView::Delete((j - s.len()) as nat)), br, acc)
        } else if s.len() == j {
            compose_from(hd(ar), tl(ar), hd(br), tl(br), acc)
        } else {
            compose_from(Some(OpView::Insert(s.skip(j as int))), ar, hd(br), tl(br), acc)
        },
        (Some(OpView::Insert(s)), Some(OpView::Retain(j))) => if s.len() < j {
            compose_from(
                hd(ar),
                tl(ar),
                Some(OpView::Retain((j - s.len()) as nat)),
                br,
                append_insert(acc, s),
            )
        } else if s.len() == j {
            compose_from(hd(ar), tl(ar), hd(br), tl(br), append_insert(acc, s))
        } else {
            compose_from(
                Some(OpView::Insert(s.skip(j as int))),
                ar,
                hd(br),
                tl(br),
                append_insert(acc, s.take(j as int)),
            )
        },
        (Some(OpView::Retain(i)), Some(OpView::Delete(j))) => if i < j {
            compose_from(
                hd(ar),
                tl(ar),
                Some(OpView::Delete((j - i) as nat)),
                br,
                append_delete(acc, i),
            )
        } else if i == j {
            compose_from(hd(ar), tl(ar), hd(br), tl(br), append_delete(acc, i))
        } else {
            compose_from(
                Some(OpView::Retain((i - j) as nat)),
                ar,
                hd(br),
                tl(br),
                append_delete(acc, j),
            )
        },
    }
}

/// The composition of two primitive sequences.
pub open spec fn compose_ops(a: Seq<OpView>, b: Seq<OpView>) -> Seq<OpView> {
    compose_from(hd(a), tl(a), hd(b), tl(b), Seq::empty())
}

impl TextOperation {
    /// Compose this edit with one that applies to its output: the result
    /// takes this edit's input straight to the other's output. The other
    /// edit's base length must equal this edit's target length.
    #[verifier::rlimit(100)]
    #[verifier::spinoff_prover]
    pub fn compose(&self, other: &Self) -> (r: Self)
        requires
            self.well_formed(),
            other.well_formed(),
            self.target_len == other.base_len,
        ensures
            r.well_formed(),
            r@ == compose_ops(self@, other@),
            r.base_len == self.base_len,
            r.target_len == other.target_len,
    {
        let ghost va = self@;
        let ghost vb = other@;
        let mut out = TextOperation::default();
        let mut i: usize = 0;
        let mut j: usize = 0;
        proof {
            assert(va.skip(0) =~= va);
            assert(vb.skip(0) =~= vb);
            lemma_advance(va, 0);
            lemma_advance(vb, 0);
        }
        let mut ha = next_op(&self.ops, &mut i);
        let mut hb = next_op(&other.ops, &mut j);
        loop
            invariant
                self.well_formed(),
                other.well_formed(),
                self.target_len == other.base_len,
                va == self@,
                vb == other@,
                va.len() == self.ops.len(),
                vb.len() == other.ops.len(),
                i <= self.ops.len(),
                j <= other.ops.len(),
                out.well_formed(),
                head_nonzero(opt_view(ha)),
                head_nonzero(opt_view(hb)),
                ha is None ==> i == self.ops.len(),
                hb is None ==> j == other.ops.len(),
                head_target(opt_view(ha)) + sum_target(va.skip(i as int)) == head_base(
                    opt_view(hb),
                ) + sum_base(vb.skip(j as int)),
                out.base_len + head_base(opt_view(ha)) + sum_base(va.skip(i as int))
                    == self.base_len,
                out.target_len + head_target(opt_view(hb)) + sum_target(vb.skip(j as int))
                    == other.target_len,
                compose_from(
                    opt_view(ha),
                    va.skip(i as int),
                    opt_view(hb),
                    vb.skip(j as int),
                    out@,
                ) == compose_ops(va, vb),
            ensures
                ha is None,
                hb is None,
            decreases head_weight(opt_view(ha)) + seq_weight(va.skip(i as int)) + head_weight(
                opt_view(hb),
            ) + seq_weight(vb.skip(j as int)),
        {
            let ghost rav = va.skip(i as int);
            let ghost rbv = vb.skip(j as int);
            let ghost out0 = out@;
            proof {
                lemma_advance(va, i as int);
                lemma_advance(vb, j as int);
                if i < va.len() {
                    assert(op_nonzero(va[i as int]));
                }
                if j < vb.len() {
                    assert(op_nonzero(vb[j as int]));
                }
            }
            match (&ha, &hb) {
                (None, None) => {
                    break;
                },
                (Some(Operation::Delete(n)), _) => {
                    let n: usize = *n;
                    proof {
                        assert(compose_from(opt_view(ha), rav, opt_view(hb), rbv, out0)
                            == compose_from(
                            hd(rav),
                            tl(rav),
                            opt_view(hb),
                            rbv,
                            append_delete(out0, n as nat),
                        ));
                    }
                    out.delete_n(n);
                    ha = next_op(&self.ops, &mut i);
                },
                (_, Some(Operation::Insert(s))) => {
                    let piece = s.clone();
                    proof {
                        assert(compose_from(opt_view(ha), rav, opt_view(hb), rbv, out0)
                            == compose_from(
                            opt_view(ha),
                            rav,
                            hd(rbv),
                            tl(rbv),
                            append_insert(out0, piece@),
                        ));
                    }
                    out.insert(piece);
                    hb = next_op(&other.ops, &mut j);
                },
                (None, _) => {
                    proof {
                        assert(rav =~= Seq::<OpView>::empty());
                        assert(head_base(opt_view(hb)) > 0);
                        assert(false);
                    }
                    break;
                },
                (_, None) => {
                    proof {
                        assert(rbv =~= Seq::<OpView>::empty());
                        assert(head_target(opt_view(ha)) > 0);
                        assert(false);
                    }
                    break;
                },
                (Some(Operation::Retain(x)), Some(Operation::Retain(y))) => {
                    let x: usize = *x;
                    let y: usize = *y;
                    if x < y {
                        proof {
                            assert(compose_from(opt_view(ha), rav, opt_view(hb), rbv, out0)
                                == compose_from(
                                hd(rav),
                                tl(rav),
                                Some(OpView::Retain((y - x) as nat)),
                                rbv,
                                append_retain(out0, x as nat),
                            ));
                        }
                        out.retain_n(x);
                        ha = next_op(&self.ops, &mut i);
                        hb = Some(Operation::Retain(y - x));
                    } else if x == y {
                        proof {
                            assert(compose_from(opt_view(ha), rav, opt_view(hb), rbv, out0)
                                == compose_from(
                                hd(rav),
                                tl(rav),
                                hd(rbv),
                                tl(rbv),
                                append_retain(out0, x as nat),
                            ));
                        }
                        out.retain_n(x);
                        ha = next_op(&self.ops, &mut i);
                        hb = next_op(&other.ops, &mut j);
                    } else {
                        proof {
                            assert(compose_from(opt_view(ha), rav, opt_view(hb), rbv, out0)
                                == compose_from(
                                Some(OpView::Retain((x - y) as nat)),
                                rav,
                                hd(rbv),
                                tl(rbv),
                                append_retain(out0, y as nat),
                            ));
                        }
                        out.retain_n(y);
                        ha = Some(Operation::Retain(x - y));
                        hb = next_op(&other.ops, &mut j);
                    }
                },
                (Some(Operation::Insert(s)), Some(Operation::Delete(y))) => {
                    let k = s.as_str().unicode_len();
                    let y: usize = *y;
                    if k < y {
                        proof {
                            assert(compose_from(opt_view(ha), rav, opt_view(hb), rbv, out0)
                                == compose_from(
                                hd(rav),
                                tl(rav),
                                Some(OpView::Delete((y - k) as nat)),
                                rbv,
                                out0,
                            ));
                        }
                        ha = next_op(&self.ops, &mut i);
                        hb = Some(Operation::Delete(y - k));
                    } else if k == y {
                        proof {
                            assert(compose_from(opt_view(ha), rav, opt_view(hb), rbv, out0)
                                == compose_from(hd(rav), tl(rav), hd(rbv), tl(rbv), out0));
                        }
                        ha = next_op(&self.ops, &mut i);
                        hb = next_op(&other.ops, &mut j);
                    } else {
                        let tail = String::from_str(s.as_str().substring_char(y, k));
                        proof {
                            assert(compose_from(opt_view(ha), rav, opt_view(hb), rbv, out0)
                                == compose_from(
                                Some(OpView::Insert(tail@)),
                                rav,
                                hd(rbv),
                                tl(rbv),
                                out0,
                            ));
                            assert(tail@ =~= s@.skip(y as int));
                        }
                        ha = Some(Operation::Insert(tail));
                        hb = next_op(&other.ops, &mut j);
                    }
                },
                (Some(Operation::Insert(s)), Some(Operation::Retain(y))) => {
                    let k = s.as_str().unicode_len();
                    let y: usize = *y;
                    if k < y {
                        let piece = s.clone();
                        proof {
                            assert(compose_from(opt_view(ha), rav, opt_view(hb), rbv, out0)
                                == compose_from(
                                hd(rav),
                                tl(rav),
                                Some(OpView::Retain((y - k) as nat)),
                                rbv,
                                append_insert(out0, piece@),
                            ));
                        }
                        out.insert(piece);
                        ha = next_op(&self.ops, &mut i);
                        hb = Some(Operation::Retain(y - k));
                    } else if k == y {
                        let piece = s.clone();
                        proof {
                            assert(compose_from(opt_view(ha), rav, opt_view(hb), rbv, out0)
                                == compose_from(
                                hd(rav),
                                tl(rav),
                                hd(rbv),
                                tl(rbv),
                                append_insert(out0, piece@),
                            ));
                        }
                        out.insert(piece);
                        ha = next_op(&self.ops, &mut i);
                        hb = next_op(&other.ops, &mut j);
                    } else {
                        let piece = String::from_str(s.as_str().substring_char(0, y));
                        let tail = String::from_str(s.as_str().substring_char(y, k));
                        proof {
                            assert(piece@ =~= s@.take(y as int));
                            assert(tail@ =~= s@.skip(y as int));
                            assert(compose_from(opt_view(ha), rav, opt_view(hb), rbv, out0)
                                == compose_from(
                                Some(OpView::Insert(tail@)),
                                rav,
                                hd(rbv),
                                tl(rbv),
                                append_insert(out0, piece@),
                            ));
                        }
                        out.insert(piece);
                        ha = Some(Operation::Insert(tail));
                        hb = next_op(&other.ops, &mut j);
                    }
                },
                (Some(Operation::Retain(x)), Some(Operation::Delete(y))) => {
                    let x: usize = *x;
                    let y: usize = *y;
                    if x < y {
                        proof {
                            assert(compose_from(opt_view(ha), rav, opt_view(hb), rbv, out0)
                                == compose_from(
                                hd(rav),
                                tl(rav),
                                Some(OpView::Delete((y - x) as nat)),
                                rbv,
                                append_delete(out0, x as nat),
                            ));
                        }
                        out.delete_n(x);
                        ha = next_op(&self.ops, &mut i);
                        hb = Some(Operation::Delete(y - x));
                    } else if x == y {
                        proof {
                            assert(compose_from(opt_view(ha), rav, opt_view(hb), rbv, out0)
                                == compose_from(
                                hd(rav),
                                tl(rav),
                                hd(rbv),
                                tl(rbv),
                                append_delete(out0, x as nat),
                            ));
                        }
                        out.delete_n(x);
                        ha = next_op(&self.ops, &mut i);
                        hb = next_op(&other.ops, &mut j);
                    } else {
                        proof {
                            assert(compose_from(opt_view(ha), rav, opt_view(hb), rbv, out0)
                                == compose_from(
                                Some(OpView::Retain((x - y) as nat)),
                                rav,
                                hd(rbv),
                                tl(rbv),
                                append_delete(out0, y as nat),
                            ));
                        }
                        out.delete_n(y);
                        ha = Some(Operation::Retain(x - y));
                        hb = next_op(&other.ops, &mut j);
                    }
                },
            }
        }
        proof {
            assert(va.skip(i as int) =~= Seq::<OpView>::empty());
            assert(vb.skip(j as int) =~= Seq::<OpView>::empty());
        }
        out
    }
}

} // verus!
