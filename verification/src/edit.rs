//! The edit value and its normalizing builder.
//!
//! A [`TextOperation`] is an ordered sequence of primitives together with
//! the two derived lengths: `base_len`, the required character count of any
//! input string, and `target_len`, the character count of the output. The
//! builder keeps the sequence in canonical form: no zero-length primitive,
//! no two adjacent primitives of one variant, and an insert always before
//! a delete at the same position.

use vstd::prelude::*;

use crate::op::{
    Operation, OpView, ops_view, op_base, op_target, sum_base, sum_target, canonical_ops,
    append_retain, append_delete, append_insert, append_op, build_ops, build_from,
    lemma_sums_drop_last, lemma_sums_split, lemma_ops_view_push, lemma_ops_view_drop_last,
    lemma_append_retain, lemma_append_delete, lemma_append_insert, lemma_build_from,
    lemma_build_from_push,
};

verus! {

/// An edit: a canonical sequence of primitives with its derived lengths.
#[derive(Debug, PartialEq)]
pub struct TextOperation {
    /// The consecutive primitives to be applied to an input string.
    pub ops: Vec<Operation>,
    /// The required character count of a string the edit applies to.
    pub base_len: usize,
    /// The character count of the resulting string.
    pub target_len: usize,
}

impl View for TextOperation {
    type V = Seq<OpView>;

    open spec fn view(&self) -> Seq<OpView> {
        ops_view(self.ops@)
    }
}

impl Default for TextOperation {
    /// The empty edit.
    fn default() -> (r: Self)
        ensures
            r.well_formed(),
            r@ == Seq::<OpView>::empty(),
            r.base_len == 0,
            r.target_len == 0,
    {
        let r = TextOperation { ops: Vec::new(), base_len: 0, target_len: 0 };
        proof {
            assert(r@ =~= Seq::<OpView>::empty());
        }
        r
    }
}

/// An exact copy of a primitive.
pub fn clone_op(op: &Operation) -> (r: Operation)
    ensures
        r@ == op@,
{
    match op {
        Operation::Delete(n) => Operation::Delete(*n),
        Operation::Retain(n) => Operation::Retain(*n),
        Operation::Insert(s) => Operation::Insert(s.clone()),
    }
}

/// Hand a walker its next primitive: a copy of `ops[i]`, advancing `i`,
/// or nothing once the sequence is exhausted.
pub(crate) fn next_op(ops: &Vec<Operation>, i: &mut usize) -> (r: Option<Operation>)
    requires
        *old(i) <= ops.len(),
    ensures
        crate::op::opt_view(r) == crate::op::hd(ops_view(ops@).skip(*old(i) as int)),
        *final(i) == if *old(i) < ops.len() {
            *old(i) + 1
        } else {
            *old(i) as int
        },
        *final(i) <= ops.len(),
{
    if *i < ops.len() {
        let op = clone_op(&ops[*i]);
        proof {
            assert(ops_view(ops@).skip(*i as int)[0] == ops_view(ops@)[*i as int]);
        }
        *i = *i + 1;
        Some(op)
    } else {
        None
    }
}

impl TextOperation {
    /// The edit's sequence is canonical and its lengths are the sums of
    /// its primitives' measures.
    pub open spec fn well_formed(self) -> bool {
        &&& canonical_ops(self@)
        &&& self.base_len == sum_base(self@)
        &&& self.target_len == sum_target(self@)
    }

    /// Append `Retain(n)`, merging with a trailing retain.
    pub(crate) fn retain_n(&mut self, n: usize)
        requires
            old(self).well_formed(),
            old(self).base_len + n <= usize::MAX,
            old(self).target_len + n <= usize::MAX,
        ensures
            final(self).well_formed(),
            final(self)@ == append_retain(old(self)@, n as nat),
            final(self).base_len == old(self).base_len + n,
            final(self).target_len == old(self).target_len + n,
    {
        if n == 0 {
            return;
        }
        proof {
            lemma_append_retain(old(self)@, n as nat);
        }
        self.base_len = self.base_len + n;
        self.target_len = self.target_len + n;
        let last = self.ops.pop();
        match last {
            Some(Operation::Retain(k)) => {
                proof {
                    lemma_sums_drop_last(old(self)@);
                    lemma_ops_view_drop_last(old(self).ops@);
                    assert(old(self)@.last() == old(self).ops@.last()@);
                    assert(op_base(old(self)@.last()) == k as nat);
                }
                let merged: usize = k + n;
                self.ops.push(Operation::Retain(merged));
                proof {
                    lemma_ops_view_push(old(self).ops@.drop_last(), Operation::Retain(merged));
                }
            },
            Some(other) => {
                self.ops.push(other);
                self.ops.push(Operation::Retain(n));
                proof {
                    assert(old(self).ops@.drop_last().push(other) =~= old(self).ops@);
                    lemma_ops_view_push(old(self).ops@, Operation::Retain(n));
                    assert(old(self)@.last() == old(self).ops@.last()@);
                    assert(!(old(self)@.last() is Retain));
                }
            },
            None => {
                self.ops.push(Operation::Retain(n));
                proof {
                    lemma_ops_view_push(old(self).ops@, Operation::Retain(n));
                    assert(old(self)@ =~= Seq::<OpView>::empty());
                }
            },
        }
    }

    /// Append `Delete(n)`, merging with a trailing delete.
    pub(crate) fn delete_n(&mut self, n: usize)
        requires
            old(self).well_formed(),
            old(self).base_len + n <= usize::MAX,
        ensures
            final(self).well_formed(),
            final(self)@ == append_delete(old(self)@, n as nat),
            final(self).base_len == old(self).base_len + n,
            final(self).target_len == old(self).target_len,
    {
        if n == 0 {
            return;
        }
        proof {
            lemma_append_delete(old(self)@, n as nat);
        }
        self.base_len = self.base_len + n;
        let last = self.ops.pop();
        match last {
            Some(Operation::Delete(k)) => {
                proof {
                    lemma_sums_drop_last(old(self)@);
                    lemma_ops_view_drop_last(old(self).ops@);
                    assert(old(self)@.last() == old(self).ops@.last()@);
                    assert(op_base(old(self)@.last()) == k as nat);
                }
                let merged: usize = k + n;
                self.ops.push(Operation::Delete(merged));
                proof {
                    lemma_ops_view_push(old(self).ops@.drop_last(), Operation::Delete(merged));
                }
            },
            Some(other) => {
                self.ops.push(other);
                self.ops.push(Operation::Delete(n));
                proof {
                    assert(old(self).ops@.drop_last().push(other) =~= old(self).ops@);
                    lemma_ops_view_push(old(self).ops@, Operation::Delete(n));
                    assert(old(self)@.last() == old(self).ops@.last()@);
                    assert(!(old(self)@.last() is Delete));
                }
            },
            None => {
                self.ops.push(Operation::Delete(n));
                proof {
                    lemma_ops_view_push(old(self).ops@, Operation::Delete(n));
                    assert(old(self)@ =~= Seq::<OpView>::empty());
                }
            },
        }
    }

    /// Append `Retain(i)` characters to copy from the input unchanged.
    pub fn retain(&mut self, i: u32)
        requires
            old(self).well_formed(),
            old(self).base_len + i <= usize::MAX,
            old(self).target_len + i <= usize::MAX,
        ensures
            final(self).well_formed(),
            final(self)@ == append_retain(old(self)@, i as nat),
            final(self).base_len == old(self).base_len + i,
            final(self).target_len == old(self).target_len + i,
    {
        self.retain_n(i as usize);
    }

    /// Append `Delete(i)` characters to drop from the input.
    pub fn delete(&mut self, i: u32)
        requires
            old(self).well_formed(),
            old(self).base_len + i <= usize::MAX,
        ensures
            final(self).well_formed(),
            final(self)@ == append_delete(old(self)@, i as nat),
            final(self).base_len == old(self).base_len + i,
            final(self).target_len == old(self).target_len,
    {
        self.delete_n(i as usize);
    }

    /// Append `Insert(s)`: extend a trailing insert, extend an insert that
    /// sits before a trailing delete, or place a new insert before a
    /// trailing delete.
    pub fn insert(&mut self, s: String)
        requires
            old(self).well_formed(),
            old(self).target_len + s@.len() <= usize::MAX,
        ensures
            final(self).well_formed(),
            final(self)@ == append_insert(old(self)@, s@),
            final(self).base_len == old(self).base_len,
            final(self).target_len == old(self).target_len + s@.len(),
    {
        let n = s.as_str().unicode_len();
        if n == 0 {
            return;
        }
        proof {
            lemma_append_insert(old(self)@, s@);
        }
        self.target_len = self.target_len + n;
        let last = self.ops.pop();
        match last {
            Some(Operation::Insert(mut t)) => {
                proof {
                    lemma_ops_view_drop_last(old(self).ops@);
                    assert(old(self)@.last() == old(self).ops@.last()@);
                }
                t.append(s.as_str());
                self.ops.push(Operation::Insert(t));
                proof {
                    lemma_ops_view_push(old(self).ops@.drop_last(), Operation::Insert(t));
                }
            },
            Some(Operation::Delete(k)) => {
                proof {
                    assert(old(self)@.last() == old(self).ops@.last()@);
                }
                let prev = self.ops.pop();
                match prev {
                    Some(Operation::Insert(mut t)) => {
                        proof {
                            lemma_ops_view_drop_last(old(self).ops@);
                            lemma_ops_view_drop_last(old(self).ops@.drop_last());
                            assert(old(self).ops@.drop_last().last()@ == old(
                                self,
                            )@[old(self)@.len() - 2]);
                        }
                        t.append(s.as_str());
                        self.ops.push(Operation::Insert(t));
                        self.ops.push(Operation::Delete(k));
                        proof {
                            let init = old(self).ops@.drop_last().drop_last();
                            lemma_ops_view_push(init, Operation::Insert(t));
                            lemma_ops_view_push(
                                init.push(Operation::Insert(t)),
                                Operation::Delete(k),
                            );
                        }
                    },
                    Some(other2) => {
                        self.ops.push(other2);
                        self.ops.push(Operation::Insert(s));
                        self.ops.push(Operation::Delete(k));
                        proof {
                            lemma_ops_view_drop_last(old(self).ops@);
                            assert(old(self).ops@.drop_last().drop_last().push(other2)
                                =~= old(self).ops@.drop_last());
                            assert(old(self).ops@.drop_last().last()@ == old(
                                self,
                            )@[old(self)@.len() - 2]);
                            assert(!(old(self)@[old(self)@.len() - 2] is Insert));
                            lemma_ops_view_push(old(self).ops@.drop_last(), Operation::Insert(s));
                            lemma_ops_view_push(
                                old(self).ops@.drop_last().push(Operation::Insert(s)),
                                Operation::Delete(k),
                            );
                        }
                    },
                    None => {
                        self.ops.push(Operation::Insert(s));
                        self.ops.push(Operation::Delete(k));
                        proof {
                            lemma_ops_view_drop_last(old(self).ops@);
                            assert(old(self)@.len() == 1);
                            assert(old(self).ops@.drop_last() =~= Seq::<Operation>::empty());
                            lemma_ops_view_push(old(self).ops@.drop_last(), Operation::Insert(s));
                            lemma_ops_view_push(
                                old(self).ops@.drop_last().push(Operation::Insert(s)),
                                Operation::Delete(k),
                            );
                        }
                    },
                }
            },
            Some(Operation::Retain(k)) => {
                self.ops.push(Operation::Retain(k));
                self.ops.push(Operation::Insert(s));
                proof {
                    assert(old(self).ops@.drop_last().push(Operation::Retain(k)) =~= old(
                        self,
                    ).ops@);
                    lemma_ops_view_push(old(self).ops@, Operation::Insert(s));
                    assert(old(self)@.last() == old(self).ops@.last()@);
                    assert(old(self)@.last() is Retain);
                }
            },
            None => {
                self.ops.push(Operation::Insert(s));
                proof {
                    lemma_ops_view_push(old(self).ops@, Operation::Insert(s));
                    assert(old(self)@ =~= Seq::<OpView>::empty());
                }
            },
        }
    }

    /// Append any one primitive through the builder.
    pub fn add(&mut self, op: Operation)
        requires
            old(self).well_formed(),
            old(self).base_len + op_base(op@) <= usize::MAX,
            old(self).target_len + op_target(op@) <= usize::MAX,
        ensures
            final(self).well_formed(),
            final(self)@ == append_op(old(self)@, op@),
            final(self).base_len == old(self).base_len + op_base(op@),
            final(self).target_len == old(self).target_len + op_target(op@),
    {
        match op {
            Operation::Delete(n) => self.delete_n(n),
            Operation::Retain(n) => self.retain_n(n),
            Operation::Insert(s) => self.insert(s),
        }
    }

    /// Build an edit by feeding a sequence of primitives, in order,
    /// through the builder: the only construction path, so every edit is
    /// canonical.
    #[verifier::rlimit(50)]
    pub fn from_ops(raw: Vec<Operation>) -> (r: Self)
        requires
            sum_base(ops_view(raw@)) <= usize::MAX,
            sum_target(ops_view(raw@)) <= usize::MAX,
        ensures
            r.well_formed(),
            r@ == build_ops(ops_view(raw@)),
            r.base_len == sum_base(ops_view(raw@)),
            r.target_len == sum_target(ops_view(raw@)),
    {
        let ghost rv = ops_view(raw@);
        let mut r = TextOperation::default();
        proof {
            lemma_build_from(Seq::empty(), rv);
        }
        let mut i: usize = 0;
        while i < raw.len()
            invariant
                i <= raw.len(),
                rv == ops_view(raw@),
                rv.len() == raw.len(),
                sum_base(rv) <= usize::MAX,
                sum_target(rv) <= usize::MAX,
                r.well_formed(),
                r@ == build_ops(rv.take(i as int)),
                r.base_len == sum_base(rv.take(i as int)),
                r.target_len == sum_target(rv.take(i as int)),
            decreases raw.len() - i,
        {
            let op = clone_op(&raw[i]);
            proof {
                assert(op@ == rv[i as int]);
                lemma_sums_split(rv, i as int);
                lemma_sums_split(rv.skip(i as int), 1);
                assert(rv.skip(i as int).take(1) =~= seq![rv[i as int]]);
                assert(seq![rv[i as int]].drop_first() =~= Seq::<OpView>::empty());
                assert(sum_base(seq![rv[i as int]]) == op_base(rv[i as int]));
                assert(sum_target(seq![rv[i as int]]) == op_target(rv[i as int]));
                lemma_build_from_push(Seq::empty(), rv.take(i as int), rv[i as int]);
                crate::op::lemma_sums_push(rv.take(i as int), rv[i as int]);
                assert(rv.take(i as int).push(rv[i as int]) =~= rv.take(i + 1));
                lemma_sums_split(rv, i + 1);
            }
            r.add(op);
            i = i + 1;
        }
        proof {
            assert(rv.take(rv.len() as int) =~= rv);
        }
        r
    }

    /// True iff the edit leaves every input unchanged: an empty sequence
    /// or a single retain.
    pub fn is_noop(&self) -> (r: bool)
        ensures
            r == (self@.len() == 0 || (self@.len() == 1 && self@[0] is Retain)),
    {
        if self.ops.len() == 0 {
            true
        } else if self.ops.len() == 1 {
            let r = matches!(&self.ops[0], Operation::Retain(_));
            proof {
                assert(self@[0] == self.ops@[0]@);
            }
            r
        } else {
            false
        }
    }
}

} // verus!
