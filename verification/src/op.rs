//! The primitive of an edit and its mathematical model.
//!
//! An edit is an ordered sequence of primitives; each primitive either
//! retains a run of input characters, deletes a run, or inserts new text.
//! The model of a primitive ([`OpView`]) measures runs as naturals and
//! inserted text as a sequence of characters. All lengths count Unicode
//! scalar values, never bytes.

use vstd::prelude::*;

verus! {

/// A single primitive of an edit.
#[derive(Debug, PartialEq)]
pub enum Operation {
    /// Advance the input cursor, discarding the characters.
    Delete(usize),
    /// Advance the input cursor, copying the characters to the output.
    Retain(usize),
    /// Append the characters of the string to the output.
    Insert(String),
}

/// The mathematical model of a primitive.
pub enum OpView {
    Delete(nat),
    Retain(nat),
    Insert(Seq<char>),
}

impl View for Operation {
    type V = OpView;

    open spec fn view(&self) -> OpView {
        match self {
            Operation::Delete(n) => OpView::Delete(*n as nat),
            Operation::Retain(n) => OpView::Retain(*n as nat),
            Operation::Insert(s) => OpView::Insert(s@),
        }
    }
}

/// The model of a sequence of primitives.
pub open spec fn ops_view(ops: Seq<Operation>) -> Seq<OpView> {
    ops.map_values(|op: Operation| op@)
}

/// How many input characters the primitive consumes.
pub open spec fn op_base(op: OpView) -> nat {
    match op {
        OpView::Delete(n) => n,
        OpView::Retain(n) => n,
        OpView::Insert(_) => 0,
    }
}

/// How many output characters the primitive produces.
pub open spec fn op_target(op: OpView) -> nat {
    match op {
        OpView::Delete(_) => 0,
        OpView::Retain(n) => n,
        OpView::Insert(s) => s.len(),
    }
}

/// The primitive is not a zero-length no-op.
pub open spec fn op_nonzero(op: OpView) -> bool {
    match op {
        OpView::Delete(n) => n > 0,
        OpView::Retain(n) => n > 0,
        OpView::Insert(s) => s.len() > 0,
    }
}

/// Total number of input characters the sequence consumes.
pub open spec fn sum_base(ops: Seq<OpView>) -> nat
    decreases ops.len(),
{
    if ops.len() == 0 {
        0
    } else {
        op_base(ops[0]) + sum_base(ops.drop_first())
    }
}

/// Total number of output characters the sequence produces.
pub open spec fn sum_target(ops: Seq<OpView>) -> nat
    decreases ops.len(),
{
    if ops.len() == 0 {
        0
    } else {
        op_target(ops[0]) + sum_target(ops.drop_first())
    }
}

/// Two primitives are of the same variant.
pub open spec fn same_kind(a: OpView, b: OpView) -> bool {
    ||| (a is Delete && b is Delete)
    ||| (a is Retain && b is Retain)
    ||| (a is Insert && b is Insert)
}

/// Canonical form, first invariant: no primitive is a zero-length no-op.
pub open spec fn all_nonzero(ops: Seq<OpView>) -> bool {
    forall|i: int| 0 <= i < ops.len() ==> op_nonzero(#[trigger] ops[i])
}

/// Canonical form, second invariant: no two adjacent primitives share a variant.
pub open spec fn no_adjacent_same(ops: Seq<OpView>) -> bool {
    forall|i: int| 0 <= i && i + 1 < ops.len() ==> !same_kind(#[trigger] ops[i], ops[i + 1])
}

/// Canonical form, third invariant: at a shared position an insert comes
/// before a delete, so a delete is never immediately followed by an insert.
pub open spec fn insert_before_delete(ops: Seq<OpView>) -> bool {
    forall|i: int| 0 <= i && i + 1 < ops.len() ==> !(#[trigger] ops[i] is Delete && ops[i + 1] is Insert)
}

/// The canonical form every edit built through the builder obeys.
pub open spec fn canonical_ops(ops: Seq<OpView>) -> bool {
    all_nonzero(ops) && no_adjacent_same(ops) && insert_before_delete(ops)
}

/// What appending `Retain(n)` through the builder does to a sequence:
/// zero is dropped, a trailing retain is merged, anything else is appended.
pub open spec fn append_retain(ops: Seq<OpView>, n: nat) -> Seq<OpView> {
    if n == 0 {
        ops
    } else if ops.len() == 0 {
        ops.push(OpView::Retain(n))
    } else {
        match ops.last() {
            OpView::Retain(k) => ops.drop_last().push(OpView::Retain(k + n)),
            _ => ops.push(OpView::Retain(n)),
        }
    }
}

/// What appending `Delete(n)` through the builder does to a sequence.
pub open spec fn append_delete(ops: Seq<OpView>, n: nat) -> Seq<OpView> {
    if n == 0 {
        ops
    } else if ops.len() == 0 {
        ops.push(OpView::Delete(n))
    } else {
        match ops.last() {
            OpView::Delete(k) => ops.drop_last().push(OpView::Delete(k + n)),
            _ => ops.push(OpView::Delete(n)),
        }
    }
}

/// What appending `Insert(s)` through the builder does to a sequence:
/// an empty string is dropped, a trailing insert is extended, an insert
/// sitting before a trailing delete is extended, and a new insert is
/// placed before a trailing delete.
pub open spec fn append_insert(ops: Seq<OpView>, s: Seq<char>) -> Seq<OpView> {
    if s.len() == 0 {
        ops
    } else if ops.len() == 0 {
        ops.push(OpView::Insert(s))
    } else {
        match ops.last() {
            OpView::Insert(t) => ops.drop_last().push(OpView::Insert(t + s)),
            OpView::Delete(d) => {
                if ops.len() >= 2 && ops[ops.len() - 2] is Insert {
                    match ops[ops.len() - 2] {
                        OpView::Insert(t) => ops.drop_last().drop_last().push(
                            OpView::Insert(t + s),
                        ).push(OpView::Delete(d)),
                        _ => ops,
                    }
                } else {
                    ops.drop_last().push(OpView::Insert(s)).push(OpView::Delete(d))
                }
            },
            OpView::Retain(_) => ops.push(OpView::Insert(s)),
        }
    }
}

/// Appending any one primitive through the builder.
pub open spec fn append_op(ops: Seq<OpView>, op: OpView) -> Seq<OpView> {
    match op {
        OpView::Delete(n) => append_delete(ops, n),
        OpView::Retain(n) => append_retain(ops, n),
        OpView::Insert(s) => append_insert(ops, s),
    }
}

/// Feeding a sequence of primitives through the builder, starting from `acc`.
pub open spec fn build_from(acc: Seq<OpView>, raw: Seq<OpView>) -> Seq<OpView>
    decreases raw.len(),
{
    if raw.len() == 0 {
        acc
    } else {
        build_from(append_op(acc, raw[0]), raw.drop_first())
    }
}

/// The canonical sequence obtained by feeding `raw` through the builder.
pub open spec fn build_ops(raw: Seq<OpView>) -> Seq<OpView> {
    build_from(Seq::empty(), raw)
}

/// Pushing a primitive adds its measures to the sums.
pub proof fn lemma_sums_push(s: Seq<OpView>, x: OpView)
    ensures
        sum_base(s.push(x)) == sum_base(s) + op_base(x),
        sum_target(s.push(x)) == sum_target(s) + op_target(x),
    decreases s.len(),
{
    if s.len() == 0 {
        assert(s.push(x)[0] == x);
        assert(s.push(x).drop_first() =~= Seq::<OpView>::empty());
        assert(sum_base(s.push(x)) == op_base(x) + sum_base(Seq::<OpView>::empty()));
        assert(sum_target(s.push(x)) == op_target(x) + sum_target(Seq::<OpView>::empty()));
    } else {
        assert(s.push(x).drop_first() =~= s.drop_first().push(x));
        assert(s.push(x)[0] == s[0]);
        lemma_sums_push(s.drop_first(), x);
        assert(sum_base(s.push(x)) == op_base(s[0]) + sum_base(s.drop_first().push(x)));
        assert(sum_base(s) == op_base(s[0]) + sum_base(s.drop_first()));
        assert(sum_target(s.push(x)) == op_target(s[0]) + sum_target(s.drop_first().push(x)));
        assert(sum_target(s) == op_target(s[0]) + sum_target(s.drop_first()));
    }
}

/// A nonempty sequence splits as its prefix plus its last primitive.
pub proof fn lemma_sums_drop_last(s: Seq<OpView>)
    requires
        s.len() > 0,
    ensures
        sum_base(s) == sum_base(s.drop_last()) + op_base(s.last()),
        sum_target(s) == sum_target(s.drop_last()) + op_target(s.last()),
{
    assert(s =~= s.drop_last().push(s.last()));
    lemma_sums_push(s.drop_last(), s.last());
}

/// The sums split at any index.
pub proof fn lemma_sums_split(s: Seq<OpView>, i: int)
    requires
        0 <= i <= s.len(),
    ensures
        sum_base(s) == sum_base(s.take(i)) + sum_base(s.skip(i)),
        sum_target(s) == sum_target(s.take(i)) + sum_target(s.skip(i)),
    decreases i,
{
    if i == 0 {
        assert(s.take(0) =~= Seq::<OpView>::empty());
        assert(s.skip(0) =~= s);
    } else {
        lemma_sums_split(s.drop_first(), i - 1);
        assert(s.take(i)[0] == s[0]);
        assert(s.take(i).drop_first() =~= s.drop_first().take(i - 1));
        assert(s.skip(i) =~= s.drop_first().skip(i - 1));
        assert(sum_base(s) == op_base(s[0]) + sum_base(s.drop_first()));
    }
}

/// The first primitive of a sequence, if any: what a walker holds as its
/// current head when it starts on the sequence.
pub open spec fn hd(ops: Seq<OpView>) -> Option<OpView> {
    if ops.len() > 0 {
        Some(ops[0])
    } else {
        None
    }
}

/// What remains of a sequence after a walker takes its head.
pub open spec fn tl(ops: Seq<OpView>) -> Seq<OpView> {
    if ops.len() > 0 {
        ops.drop_first()
    } else {
        ops
    }
}

/// The model of the optional primitive a walker holds.
pub open spec fn opt_view(h: Option<Operation>) -> Option<OpView> {
    match h {
        Some(op) => Some(op@),
        None => None,
    }
}

/// Input characters a walker's head still consumes.
pub open spec fn head_base(h: Option<OpView>) -> nat {
    match h {
        Some(op) => op_base(op),
        None => 0,
    }
}

/// Output characters a walker's head still produces.
pub open spec fn head_target(h: Option<OpView>) -> nat {
    match h {
        Some(op) => op_target(op),
        None => 0,
    }
}

/// A walker's head, if present, is not a zero-length no-op.
pub open spec fn head_nonzero(h: Option<OpView>) -> bool {
    match h {
        Some(op) => op_nonzero(op),
        None => true,
    }
}

/// How much character load a primitive carries, for termination measures.
pub open spec fn op_size(op: OpView) -> nat {
    match op {
        OpView::Delete(n) => n,
        OpView::Retain(n) => n,
        OpView::Insert(s) => s.len(),
    }
}

/// The termination weight of a walker's head.
pub open spec fn head_weight(h: Option<OpView>) -> nat {
    match h {
        Some(op) => op_size(op) + 1,
        None => 0,
    }
}

/// The termination weight of a sequence still to walk.
pub open spec fn seq_weight(ops: Seq<OpView>) -> nat
    decreases ops.len(),
{
    if ops.len() == 0 {
        0
    } else {
        op_size(ops[0]) + 1 + seq_weight(ops.drop_first())
    }
}

/// Stepping a walker from index `i`: the head it picks up, the rest it
/// leaves, and how the measures regroup.
pub proof fn lemma_skip_step(v: Seq<OpView>, i: int)
    requires
        0 <= i < v.len(),
    ensures
        hd(v.skip(i)) == Some(v[i]),
        tl(v.skip(i)) == v.skip(i + 1),
        sum_base(v.skip(i)) == op_base(v[i]) + sum_base(v.skip(i + 1)),
        sum_target(v.skip(i)) == op_target(v[i]) + sum_target(v.skip(i + 1)),
        seq_weight(v.skip(i)) == op_size(v[i]) + 1 + seq_weight(v.skip(i + 1)),
{
    assert(v.skip(i)[0] == v[i]);
    assert(v.skip(i).drop_first() =~= v.skip(i + 1));
    assert(sum_base(v.skip(i)) == op_base(v.skip(i)[0]) + sum_base(v.skip(i).drop_first()));
    assert(sum_target(v.skip(i)) == op_target(v.skip(i)[0]) + sum_target(v.skip(i).drop_first()));
    assert(seq_weight(v.skip(i)) == op_size(v.skip(i)[0]) + 1 + seq_weight(v.skip(i).drop_first()));
}

/// How a walker's measures regroup when it takes the head of what remains
/// of a sequence at index `i`.
pub proof fn lemma_advance(v: Seq<OpView>, i: int)
    requires
        0 <= i <= v.len(),
    ensures
        head_base(hd(v.skip(i))) + sum_base(tl(v.skip(i))) == sum_base(v.skip(i)),
        head_target(hd(v.skip(i))) + sum_target(tl(v.skip(i))) == sum_target(v.skip(i)),
        head_weight(hd(v.skip(i))) + seq_weight(tl(v.skip(i))) == seq_weight(v.skip(i)),
        i < v.len() ==> hd(v.skip(i)) == Some(v[i]),
        tl(v.skip(i)) == v.skip(
            if i < v.len() {
                i + 1
            } else {
                i
            },
        ),
        i == v.len() ==> v.skip(i) =~= Seq::<OpView>::empty(),
{
    if i < v.len() {
        lemma_skip_step(v, i);
    } else {
        assert(v.skip(i) =~= Seq::<OpView>::empty());
    }
}

/// The model of a pushed sequence is the model with the primitive's model pushed.
pub proof fn lemma_ops_view_push(s: Seq<Operation>, op: Operation)
    ensures
        ops_view(s.push(op)) == ops_view(s).push(op@),
{
    assert(ops_view(s.push(op)) =~= ops_view(s).push(op@));
}

/// Dropping the last primitive commutes with taking the model.
pub proof fn lemma_ops_view_drop_last(s: Seq<Operation>)
    requires
        s.len() > 0,
    ensures
        ops_view(s.drop_last()) == ops_view(s).drop_last(),
{
    assert(ops_view(s.drop_last()) =~= ops_view(s).drop_last());
}

/// A prefix of a canonical sequence is canonical.
pub proof fn lemma_canonical_take(s: Seq<OpView>, i: int)
    requires
        canonical_ops(s),
        0 <= i <= s.len(),
    ensures
        canonical_ops(s.take(i)),
{
    assert forall|j: int| 0 <= j < s.take(i).len() implies op_nonzero(#[trigger] s.take(i)[j]) by {
        assert(s.take(i)[j] == s[j]);
        assert(op_nonzero(s[j]));
    }
    assert forall|j: int| 0 <= j && j + 1 < s.take(i).len() implies !same_kind(
        #[trigger] s.take(i)[j],
        s.take(i)[j + 1],
    ) by {
        assert(s.take(i)[j] == s[j]);
        assert(s.take(i)[j + 1] == s[j + 1]);
        assert(!same_kind(s[j], s[j + 1]));
    }
    assert forall|j: int| 0 <= j && j + 1 < s.take(i).len() implies !(#[trigger] s.take(i)[j] is Delete
        && s.take(i)[j + 1] is Insert) by {
        assert(s.take(i)[j] == s[j]);
        assert(s.take(i)[j + 1] == s[j + 1]);
        assert(!(s[j] is Delete && s[j + 1] is Insert));
    }
}

/// Pushing a nonzero primitive that neither repeats the last variant nor
/// puts an insert right after a delete keeps the sequence canonical.
pub proof fn lemma_canonical_push(s: Seq<OpView>, x: OpView)
    requires
        canonical_ops(s),
        op_nonzero(x),
        s.len() > 0 ==> !same_kind(s.last(), x),
        s.len() > 0 ==> !(s.last() is Delete && x is Insert),
    ensures
        canonical_ops(s.push(x)),
{
    let r = s.push(x);
    assert forall|j: int| 0 <= j < r.len() implies op_nonzero(#[trigger] r[j]) by {
        if j < s.len() {
            assert(r[j] == s[j]);
            assert(op_nonzero(s[j]));
        } else {
            assert(r[j] == x);
        }
    }
    assert forall|j: int| 0 <= j && j + 1 < r.len() implies !same_kind(#[trigger] r[j], r[j + 1]) by {
        if j + 1 < s.len() {
            assert(r[j] == s[j]);
            assert(r[j + 1] == s[j + 1]);
            assert(!same_kind(s[j], s[j + 1]));
        } else {
            assert(r[j] == s[j]);
            assert(s[j] == s.last());
            assert(r[j + 1] == x);
        }
    }
    assert forall|j: int| 0 <= j && j + 1 < r.len() implies !(#[trigger] r[j] is Delete && r[j + 1] is Insert) by {
        if j + 1 < s.len() {
            assert(r[j] == s[j]);
            assert(r[j + 1] == s[j + 1]);
            assert(!(s[j] is Delete && s[j + 1] is Insert));
        } else {
            assert(r[j] == s.last());
            assert(r[j + 1] == x);
        }
    }
}

/// Appending a retain keeps the sequence canonical and adds the run to
/// both sums.
pub proof fn lemma_append_retain(ops: Seq<OpView>, n: nat)
    requires
        canonical_ops(ops),
    ensures
        canonical_ops(append_retain(ops, n)),
        sum_base(append_retain(ops, n)) == sum_base(ops) + n,
        sum_target(append_retain(ops, n)) == sum_target(ops) + n,
{
    if n == 0 {
    } else if ops.len() == 0 {
        lemma_canonical_push(ops, OpView::Retain(n));
        lemma_sums_push(ops, OpView::Retain(n));
    } else {
        match ops.last() {
            OpView::Retain(k) => {
                let init = ops.drop_last();
                assert(init =~= ops.take(ops.len() - 1));
                lemma_canonical_take(ops, ops.len() - 1);
                if init.len() > 0 {
                    assert(init.last() == ops[ops.len() - 2]);
                    assert(!same_kind(ops[ops.len() - 2], ops[ops.len() - 1]));
                }
                lemma_canonical_push(init, OpView::Retain(k + n));
                lemma_sums_drop_last(ops);
                lemma_sums_push(init, OpView::Retain(k + n));
            },
            _ => {
                lemma_canonical_push(ops, OpView::Retain(n));
                lemma_sums_push(ops, OpView::Retain(n));
            },
        }
    }
}

/// Appending a delete keeps the sequence canonical and adds the run to
/// the base sum.
pub proof fn lemma_append_delete(ops: Seq<OpView>, n: nat)
    requires
        canonical_ops(ops),
    ensures
        canonical_ops(append_delete(ops, n)),
        sum_base(append_delete(ops, n)) == sum_base(ops) + n,
        sum_target(append_delete(ops, n)) == sum_target(ops),
{
    if n == 0 {
    } else if ops.len() == 0 {
        lemma_canonical_push(ops, OpView::Delete(n));
        lemma_sums_push(ops, OpView::Delete(n));
    } else {
        match ops.last() {
            OpView::Delete(k) => {
                let init = ops.drop_last();
                assert(init =~= ops.take(ops.len() - 1));
                lemma_canonical_take(ops, ops.len() - 1);
                if init.len() > 0 {
                    assert(init.last() == ops[ops.len() - 2]);
                    assert(!same_kind(ops[ops.len() - 2], ops[ops.len() - 1]));
                    assert(!(ops[ops.len() - 2] is Delete && ops[ops.len() - 1] is Insert));
                }
                lemma_canonical_push(init, OpView::Delete(k + n));
                lemma_sums_drop_last(ops);
                lemma_sums_push(init, OpView::Delete(k + n));
            },
            _ => {
                lemma_canonical_push(ops, OpView::Delete(n));
                lemma_sums_push(ops, OpView::Delete(n));
            },
        }
    }
}

/// Appending an insert keeps the sequence canonical and adds the string's
/// length to the target sum.
pub proof fn lemma_append_insert(ops: Seq<OpView>, s: Seq<char>)
    requires
        canonical_ops(ops),
    ensures
        canonical_ops(append_insert(ops, s)),
        sum_base(append_insert(ops, s)) == sum_base(ops),
        sum_target(append_insert(ops, s)) == sum_target(ops) + s.len(),
{
    if s.len() == 0 {
    } else if ops.len() == 0 {
        lemma_canonical_push(ops, OpView::Insert(s));
        lemma_sums_push(ops, OpView::Insert(s));
    } else {
        match ops.last() {
            OpView::Insert(t) => {
                let init = ops.drop_last();
                assert(init =~= ops.take(ops.len() - 1));
                lemma_canonical_take(ops, ops.len() - 1);
                if init.len() > 0 {
                    assert(init.last() == ops[ops.len() - 2]);
                    assert(!same_kind(ops[ops.len() - 2], ops[ops.len() - 1]));
                    assert(!(ops[ops.len() - 2] is Delete && ops[ops.len() - 1] is Insert));
                }
                lemma_canonical_push(init, OpView::Insert(t + s));
                lemma_sums_drop_last(ops);
                lemma_sums_push(init, OpView::Insert(t + s));
            },
            OpView::Delete(d) => {
                if ops.len() >= 2 && ops[ops.len() - 2] is Insert {
                    match ops[ops.len() - 2] {
                        OpView::Insert(t) => {
                            let init = ops.drop_last().drop_last();
                            assert(init =~= ops.take(ops.len() - 2));
                            lemma_canonical_take(ops, ops.len() - 2);
                            if init.len() > 0 {
                                assert(init.last() == ops[ops.len() - 3]);
                                assert(!same_kind(ops[ops.len() - 3], ops[ops.len() - 2]));
                                assert(!(ops[ops.len() - 3] is Delete && ops[ops.len() - 2] is Insert));
                            }
                            lemma_canonical_push(init, OpView::Insert(t + s));
                            let mid = init.push(OpView::Insert(t + s));
                            lemma_canonical_push(mid, OpView::Delete(d));
                            assert(op_nonzero(ops[ops.len() - 1]));
                            lemma_sums_drop_last(ops);
                            lemma_sums_drop_last(ops.drop_last());
                            assert(ops.drop_last().last() == ops[ops.len() - 2]);
                            lemma_sums_push(init, OpView::Insert(t + s));
                            lemma_sums_push(mid, OpView::Delete(d));
                        },
                        _ => {},
                    }
                } else {
                    let init = ops.drop_last();
                    assert(init =~= ops.take(ops.len() - 1));
                    lemma_canonical_take(ops, ops.len() - 1);
                    if init.len() > 0 {
                        assert(init.last() == ops[ops.len() - 2]);
                        assert(!same_kind(ops[ops.len() - 2], ops[ops.len() - 1]));
                        assert(!(ops[ops.len() - 2] is Insert));
                    }
                    lemma_canonical_push(init, OpView::Insert(s));
                    let mid = init.push(OpView::Insert(s));
                    lemma_canonical_push(mid, OpView::Delete(d));
                    assert(op_nonzero(ops[ops.len() - 1]));
                    lemma_sums_drop_last(ops);
                    lemma_sums_push(init, OpView::Insert(s));
                    lemma_sums_push(mid, OpView::Delete(d));
                }
            },
            OpView::Retain(_) => {
                lemma_canonical_push(ops, OpView::Insert(s));
                lemma_sums_push(ops, OpView::Insert(s));
            },
        }
    }
}

/// Appending any primitive keeps the sequence canonical and adds the
/// primitive's measures to the sums.
pub proof fn lemma_append_op(ops: Seq<OpView>, op: OpView)
    requires
        canonical_ops(ops),
    ensures
        canonical_ops(append_op(ops, op)),
        sum_base(append_op(ops, op)) == sum_base(ops) + op_base(op),
        sum_target(append_op(ops, op)) == sum_target(ops) + op_target(op),
{
    match op {
        OpView::Delete(n) => lemma_append_delete(ops, n),
        OpView::Retain(n) => lemma_append_retain(ops, n),
        OpView::Insert(s) => lemma_append_insert(ops, s),
    }
}

/// Feeding a sequence through the builder keeps the accumulator canonical
/// and adds the sequence's sums to it.
pub proof fn lemma_build_from(acc: Seq<OpView>, raw: Seq<OpView>)
    requires
        canonical_ops(acc),
    ensures
        canonical_ops(build_from(acc, raw)),
        sum_base(build_from(acc, raw)) == sum_base(acc) + sum_base(raw),
        sum_target(build_from(acc, raw)) == sum_target(acc) + sum_target(raw),
    decreases raw.len(),
{
    if raw.len() == 0 {
    } else {
        lemma_append_op(acc, raw[0]);
        lemma_build_from(append_op(acc, raw[0]), raw.drop_first());
    }
}

/// Folding one more primitive at the end is one more builder append.
pub proof fn lemma_build_from_push(acc: Seq<OpView>, raw: Seq<OpView>, x: OpView)
    ensures
        build_from(acc, raw.push(x)) == append_op(build_from(acc, raw), x),
    decreases raw.len(),
{
    if raw.len() == 0 {
        assert(raw.push(x)[0] == x);
        assert(raw.push(x).drop_first() =~= Seq::<OpView>::empty());
        assert(build_from(acc, raw.push(x)) == build_from(append_op(acc, x), Seq::empty()));
        assert(build_from(acc, raw) == acc);
    } else {
        assert(raw.push(x)[0] == raw[0]);
        assert(raw.push(x).drop_first() =~= raw.drop_first().push(x));
        lemma_build_from_push(append_op(acc, raw[0]), raw.drop_first(), x);
        assert(build_from(acc, raw.push(x)) == build_from(
            append_op(acc, raw[0]),
            raw.drop_first().push(x),
        ));
        assert(build_from(acc, raw) == build_from(append_op(acc, raw[0]), raw.drop_first()));
    }
}

} // verus!
