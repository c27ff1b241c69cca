//! Applying an edit to a string, and inverting an edit against its
//! pre-image.

use vstd::prelude::*;

use crate::op::{
    Operation, OpView, op_base, op_target, sum_base, sum_target, append_retain, append_delete,
    append_insert, lemma_sums_split, lemma_sums_push,
};
use crate::edit::TextOperation;

verus! {

/// The string an edit produces from an input string: walk the primitives
/// in order, copying retained runs, skipping deleted runs, and appending
/// inserted text. Meaningful when `sum_base(ops) == s.len()`.
pub open spec fn apply_ops(ops: Seq<OpView>, s: Seq<char>) -> Seq<char>
    decreases ops.len(),
{
    if ops.len() == 0 {
        Seq::empty()
    } else {
        match ops[0] {
            OpView::Retain(n) => s.take(n as int) + apply_ops(ops.drop_first(), s.skip(n as int)),
            OpView::Delete(n) => apply_ops(ops.drop_first(), s.skip(n as int)),
            OpView::Insert(t) => t + apply_ops(ops.drop_first(), s),
        }
    }
}

/// On a string of exactly the base length, an edit produces exactly the
/// target length.
pub proof fn lemma_apply_ops_len(ops: Seq<OpView>, s: Seq<char>)
    requires
        sum_base(ops) == s.len(),
    ensures
        apply_ops(ops, s).len() == sum_target(ops),
    decreases ops.len(),
{
    if ops.len() == 0 {
    } else {
        match ops[0] {
            OpView::Retain(n) => {
                assert(sum_base(ops) == op_base(ops[0]) + sum_base(ops.drop_first()));
                assert(n <= s.len());
                lemma_apply_ops_len(ops.drop_first(), s.skip(n as int));
            },
            OpView::Delete(n) => {
                assert(sum_base(ops) == op_base(ops[0]) + sum_base(ops.drop_first()));
                assert(n <= s.len());
                lemma_apply_ops_len(ops.drop_first(), s.skip(n as int));
            },
            OpView::Insert(t) => {
                assert(sum_base(ops) == op_base(ops[0]) + sum_base(ops.drop_first()));
                lemma_apply_ops_len(ops.drop_first(), s);
            },
        }
    }
}

/// The inverse built by walking the primitives with a cursor into the
/// pre-image: a retain stays, an insert becomes a delete of its length,
/// a delete becomes an insert of the deleted characters; every primitive
/// flows through the builder starting from `acc`.
pub open spec fn invert_from(ops: Seq<OpView>, s: Seq<char>, acc: Seq<OpView>) -> Seq<OpView>
    decreases ops.len(),
{
    if ops.len() == 0 {
        acc
    } else {
        match ops[0] {
            OpView::Retain(n) => invert_from(
                ops.drop_first(),
                s.skip(n as int),
                append_retain(acc, n),
            ),
            OpView::Delete(n) => invert_from(
                ops.drop_first(),
                s.skip(n as int),
                append_insert(acc, s.take(n as int)),
            ),
            OpView::Insert(t) => invert_from(ops.drop_first(), s, append_delete(acc, t.len())),
        }
    }
}

impl TextOperation {
    /// Apply the edit to a string whose character count is exactly
    /// `base_len`; the result has exactly `target_len` characters.
    pub fn apply(&self, s: &str) -> (r: String)
        requires
            self.well_formed(),
            s@.len() == self.base_len,
        ensures
            r@ == apply_ops(self@, s@),
            r@.len() == self.target_len,
    {
        let ghost va = self@;
        let mut out = String::new();
        let mut pos: usize = 0;
        let mut i: usize = 0;
        proof {
            assert(va.skip(0) =~= va);
            assert(s@.skip(0) =~= s@);
            assert(va.take(0) =~= Seq::<OpView>::empty());
        }
        while i < self.ops.len()
            invariant
                self.well_formed(),
                s@.len() == self.base_len,
                va == self@,
                i <= self.ops.len(),
                va.len() == self.ops.len(),
                pos == sum_base(va.take(i as int)),
                pos <= s@.len(),
                out@ + apply_ops(va.skip(i as int), s@.skip(pos as int)) == apply_ops(va, s@),
            decreases self.ops.len() - i,
        {
            proof {
                assert(va.skip(i as int)[0] == va[i as int]);
                assert(va[i as int] == self.ops@[i as int]@);
                assert(va.skip(i as int).drop_first() =~= va.skip(i + 1));
                assert(va.take(i as int).push(va[i as int]) =~= va.take(i + 1));
                lemma_sums_push(va.take(i as int), va[i as int]);
                lemma_sums_split(va, i + 1);
            }
            match &self.ops[i] {
                Operation::Retain(n) => {
                    proof {
                        assert(s@.skip(pos as int).take(*n as int) =~= s@.subrange(
                            pos as int,
                            pos + *n,
                        ));
                        assert(s@.skip(pos as int).skip(*n as int) =~= s@.skip(pos + *n));
                    }
                    let ghost out0 = out@;
                    let piece = s.substring_char(pos, pos + *n);
                    out.append(piece);
                    proof {
                        let sub = s@.subrange(pos as int, pos + *n);
                        let rest = apply_ops(va.skip(i + 1), s@.skip(pos + *n));
                        assert((out0 + sub) + rest =~= out0 + (sub + rest));
                    }
                    pos = pos + *n;
                },
                Operation::Delete(n) => {
                    proof {
                        assert(s@.skip(pos as int).skip(*n as int) =~= s@.skip(pos + *n));
                    }
                    pos = pos + *n;
                },
                Operation::Insert(t) => {
                    let ghost out0 = out@;
                    out.append(t.as_str());
                    proof {
                        let rest = apply_ops(va.skip(i + 1), s@.skip(pos as int));
                        assert((out0 + t@) + rest =~= out0 + (t@ + rest));
                    }
                },
            }
            i = i + 1;
        }
        proof {
            assert(va.skip(va.len() as int) =~= Seq::<OpView>::empty());
            assert(out@ + Seq::<char>::empty() =~= out@);
            assert(va.take(va.len() as int) =~= va);
            lemma_apply_ops_len(va, s@);
        }
        out
    }

    /// Invert the edit against the string it was made for: applying the
    /// edit and then its inverse restores the pre-image. The inverse
    /// swaps the two lengths.
    pub fn invert(&self, s: &str) -> (r: TextOperation)
        requires
            self.well_formed(),
            s@.len() == self.base_len,
        ensures
            r.well_formed(),
            r@ == invert_from(self@, s@, Seq::empty()),
            r.base_len == self.target_len,
            r.target_len == self.base_len,
    {
        let ghost va = self@;
        let mut r = TextOperation::default();
        let mut pos: usize = 0;
        let mut i: usize = 0;
        proof {
            assert(va.skip(0) =~= va);
            assert(s@.skip(0) =~= s@);
            assert(va.take(0) =~= Seq::<OpView>::empty());
        }
        while i < self.ops.len()
            invariant
                self.well_formed(),
                s@.len() == self.base_len,
                va == self@,
                i <= self.ops.len(),
                va.len() == self.ops.len(),
                pos == sum_base(va.take(i as int)),
                pos <= s@.len(),
                r.well_formed(),
                r.base_len == sum_target(va.take(i as int)),
                r.target_len == sum_base(va.take(i as int)),
                invert_from(va.skip(i as int), s@.skip(pos as int), r@) == invert_from(
                    va,
                    s@,
                    Seq::empty(),
                ),
            decreases self.ops.len() - i,
        {
            proof {
                assert(va.skip(i as int)[0] == va[i as int]);
                assert(va[i as int] == self.ops@[i as int]@);
                assert(va.skip(i as int).drop_first() =~= va.skip(i + 1));
                assert(va.take(i as int).push(va[i as int]) =~= va.take(i + 1));
                lemma_sums_push(va.take(i as int), va[i as int]);
                lemma_sums_split(va, i + 1);
                lemma_sums_split(va, i as int);
            }
            match &self.ops[i] {
                Operation::Retain(n) => {
                    proof {
                        assert(s@.skip(pos as int).skip(*n as int) =~= s@.skip(pos + *n));
                    }
                    r.retain_n(*n);
                    pos = pos + *n;
                },
                Operation::Insert(t) => {
                    r.delete_n(t.as_str().unicode_len());
                },
                Operation::Delete(n) => {
                    proof {
                        assert(s@.skip(pos as int).take(*n as int) =~= s@.subrange(
                            pos as int,
                            pos + *n,
                        ));
                        assert(s@.skip(pos as int).skip(*n as int) =~= s@.skip(pos + *n));
                    }
                    let piece = String::from_str(s.substring_char(pos, pos + *n));
                    r.insert(piece);
                    pos = pos + *n;
                },
            }
            i = i + 1;
        }
        proof {
            assert(va.skip(va.len() as int) =~= Seq::<OpView>::empty());
            assert(va.take(va.len() as int) =~= va);
        }
        r
    }
}

} // verus!
