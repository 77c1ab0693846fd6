//! Compute graphs as data.
//!
//! A [`GraphPlan`] lists the operations of a compute graph. Every operation names its operands by
//! their place in the list, always an earlier one, so that an executor runs down the list once.

use vstd::prelude::*;

use crate::expr;
use crate::expr::{Expr, PassDims};
use crate::weights;
use crate::weights::{LayerWeight, TensorIndex, Weight};

verus! {

/// The rotary mode: neighbouring elements are rotated in pairs.
pub const ROPE_MODE: i32 = 0;

/// The context length that the rotary embedding was trained for.
pub const ROPE_CTX: i32 = 131072;

/// One operation of a compute graph. Operands are places of earlier operations.
#[derive(Clone, Copy, Debug, PartialEq, Eq, Structural)]
pub enum Op {
    Weight(Weight),
    Tokens,
    Positions,
    Mask,
    CacheK(usize),
    CacheV(usize),
    GetRows(usize, usize),
    RmsNorm(usize, u32),
    Mul(usize, usize),
    MulMat(usize, usize),
    Add(usize, usize),
    Silu(usize),
    Reshape2(usize, i64, i64),
    Reshape3(usize, i64, i64, i64),
    Rope(usize, usize, i64, u32),
    Cont(usize),
    View1(usize, i64, usize),
    View2(usize, i64, i64, usize, usize),
    Cpy(usize, usize),
    Permute(usize, u8, u8, u8, u8),
    InvSqrtScale(usize, i64),
    SoftMax(usize),
    SoftMaxMasked(usize, usize),
}

/// All operands of `op` are places below `n`.
pub open spec fn operands_below(op: Op, n: int) -> bool {
    match op {
        Op::Weight(_) | Op::Tokens | Op::Positions | Op::Mask | Op::CacheK(_) | Op::CacheV(_) => true,
        Op::GetRows(a, b) | Op::Mul(a, b) | Op::MulMat(a, b) | Op::Add(a, b) | Op::Cpy(a, b)
        | Op::SoftMaxMasked(a, b) => a < n && b < n,
        Op::Rope(a, b, _, _) => a < n && b < n,
        Op::RmsNorm(a, _) => a < n,
        Op::Silu(a) | Op::Cont(a) | Op::SoftMax(a) => a < n,
        Op::Reshape2(a, _, _) => a < n,
        Op::Reshape3(a, _, _, _) => a < n,
        Op::View1(a, _, _) => a < n,
        Op::View2(a, _, _, _, _) => a < n,
        Op::Permute(a, _, _, _, _) => a < n,
        Op::InvSqrtScale(a, _) => a < n,
    }
}

/// The operation at place `i` is an operand of `op`.
pub open spec fn takes(op: Op, i: int) -> bool {
    match op {
        Op::Weight(_) | Op::Tokens | Op::Positions | Op::Mask | Op::CacheK(_) | Op::CacheV(_) => {
            false
        },
        Op::GetRows(a, b) | Op::Mul(a, b) | Op::MulMat(a, b) | Op::Add(a, b) | Op::Cpy(a, b)
        | Op::SoftMaxMasked(a, b) => i == a || i == b,
        Op::Rope(a, b, _, _) => i == a || i == b,
        Op::RmsNorm(a, _) => i == a,
        Op::Silu(a) | Op::Cont(a) | Op::SoftMax(a) => i == a,
        Op::Reshape2(a, _, _) => i == a,
        Op::Reshape3(a, _, _, _) => i == a,
        Op::View1(a, _, _) => i == a,
        Op::View2(a, _, _, _, _) => i == a,
        Op::Permute(a, _, _, _, _) => i == a,
        Op::InvSqrtScale(a, _) => i == a,
    }
}

/// What a pass may ask for: the layers of the model, the projection to logits, and whether there
/// is a mask.
pub struct Needs {
    pub layers: nat,
    pub head: Weight,
    pub masked: bool,
}

impl Needs {
    /// The pass may ask for a weight.
    pub open spec fn weight(self, w: Weight) -> bool {
        w == self.head || match w {
            Weight::TokenEmbd | Weight::OutputNorm => true,
            Weight::Layer(l, _) => l < self.layers,
            Weight::Output => false,
        }
    }

    /// The pass may ask for what an operation gives.
    pub open spec fn op(self, op: Op) -> bool {
        match op {
            Op::Weight(w) => self.weight(w),
            Op::CacheK(l) | Op::CacheV(l) => l < self.layers,
            Op::Mask => self.masked,
            _ => true,
        }
    }
}

/// The expression of `op`, where `below` holds the expressions of the earlier operations.
pub open spec fn meaning(op: Op, below: Seq<Expr>) -> Expr {
    match op {
        Op::Weight(w) => Expr::Weight(w),
        Op::Tokens => Expr::Tokens,
        Op::Positions => Expr::Positions,
        Op::Mask => Expr::Mask,
        Op::CacheK(l) => Expr::CacheK(l),
        Op::CacheV(l) => Expr::CacheV(l),
        Op::GetRows(a, b) => Expr::GetRows(Box::new(below[a as int]), Box::new(below[b as int])),
        Op::RmsNorm(a, eps) => Expr::RmsNorm(Box::new(below[a as int]), eps),
        Op::Mul(a, b) => Expr::Mul(Box::new(below[a as int]), Box::new(below[b as int])),
        Op::MulMat(a, b) => Expr::MulMat(Box::new(below[a as int]), Box::new(below[b as int])),
        Op::Add(a, b) => Expr::Add(Box::new(below[a as int]), Box::new(below[b as int])),
        Op::Silu(a) => Expr::Silu(Box::new(below[a as int])),
        Op::Reshape2(a, x, y) => Expr::Reshape2(Box::new(below[a as int]), x, y),
        Op::Reshape3(a, x, y, z) => Expr::Reshape3(Box::new(below[a as int]), x, y, z),
        Op::Rope(a, b, n, f) => Expr::Rope(
            Box::new(below[a as int]),
            Box::new(below[b as int]),
            n,
            f,
        ),
        Op::Cont(a) => Expr::Cont(Box::new(below[a as int])),
        Op::View1(a, n, at) => Expr::View1(Box::new(below[a as int]), n, at),
        Op::View2(a, w, r, s, at) => Expr::View2(Box::new(below[a as int]), w, r, s, at),
        Op::Cpy(a, b) => Expr::Cpy(Box::new(below[a as int]), Box::new(below[b as int])),
        Op::Permute(a, p, q, r, s) => Expr::Permute(Box::new(below[a as int]), p, q, r, s),
        Op::InvSqrtScale(a, n) => Expr::InvSqrtScale(Box::new(below[a as int]), n),
        Op::SoftMax(a) => Expr::SoftMax(Box::new(below[a as int])),
        Op::SoftMaxMasked(a, b) => Expr::SoftMaxMasked(
            Box::new(below[a as int]),
            Box::new(below[b as int]),
        ),
    }
}

/// The expressions of a list of operations.
pub open spec fn meanings(ops: Seq<Op>) -> Seq<Expr>
    decreases ops.len(),
{
    if ops.len() == 0 {
        Seq::empty()
    } else {
        let below = meanings(ops.drop_last());
        below.push(meaning(ops.last(), below))
    }
}

/// There is one expression for each operation.
pub proof fn lemma_meanings_len(ops: Seq<Op>)
    ensures
        meanings(ops).len() == ops.len(),
    decreases ops.len(),
{
    if ops.len() > 0 {
        lemma_meanings_len(ops.drop_last());
    }
}

/// Operands come before their operations.
pub open spec fn ordered(ops: Seq<Op>) -> bool {
    forall|i: int| 0 <= i < ops.len() ==> operands_below(#[trigger] ops[i], i)
}

/// The operation at place `i` is scheduled, or another one needs it.
pub open spec fn needed(ops: Seq<Op>, schedule: Seq<usize>, i: int) -> bool {
    ||| exists|j: int| 0 <= j < schedule.len() && #[trigger] schedule[j] == i
    ||| exists|j: int| 0 <= j < ops.len() && #[trigger] takes(ops[j], i)
}

/// The places of the operations that nothing needs.
pub open spec fn unneeded(ops: Seq<Op>, schedule: Seq<usize>) -> Set<int> {
    Set::new(|i: int| 0 <= i < ops.len() && !needed(ops, schedule, i))
}

/// `b` begins with `a`.
pub open spec fn extends(a: Seq<Expr>, b: Seq<Expr>) -> bool {
    &&& a.len() <= b.len()
    &&& forall|i: int| 0 <= i < a.len() ==> #[trigger] b[i] == a[i]
}

/// The expression `a` is `e`, or a part of it.
pub open spec fn part_of(a: Expr, e: Expr) -> bool
    decreases e,
{
    a == e || match e {
        Expr::Weight(_)
        | Expr::Tokens
        | Expr::Positions
        | Expr::Mask
        | Expr::CacheK(_)
        | Expr::CacheV(_) => false,
        Expr::GetRows(x, y)
        | Expr::Mul(x, y)
        | Expr::MulMat(x, y)
        | Expr::Add(x, y)
        | Expr::Cpy(x, y)
        | Expr::SoftMaxMasked(x, y)
        | Expr::Rope(x, y, _, _) => part_of(a, *x) || part_of(a, *y),
        Expr::RmsNorm(x, _)
        | Expr::Silu(x)
        | Expr::Cont(x)
        | Expr::SoftMax(x)
        | Expr::Reshape2(x, _, _)
        | Expr::Reshape3(x, _, _, _)
        | Expr::View1(x, _, _)
        | Expr::View2(x, _, _, _, _)
        | Expr::Permute(x, _, _, _, _)
        | Expr::InvSqrtScale(x, _) => part_of(a, *x),
    }
}

/// A part of a part is a part.
proof fn lemma_part(a: Expr, b: Expr, e: Expr)
    requires
        part_of(a, b),
        part_of(b, e),
    ensures
        part_of(a, e),
    decreases e,
{
    if b != e {
        match e {
            Expr::GetRows(x, y)
            | Expr::Mul(x, y)
            | Expr::MulMat(x, y)
            | Expr::Add(x, y)
            | Expr::Cpy(x, y)
            | Expr::SoftMaxMasked(x, y)
            | Expr::Rope(x, y, _, _) => {
                if part_of(b, *x) {
                    lemma_part(a, b, *x);
                } else {
                    lemma_part(a, b, *y);
                }
            },
            Expr::RmsNorm(x, _)
            | Expr::Silu(x)
            | Expr::Cont(x)
            | Expr::SoftMax(x)
            | Expr::Reshape2(x, _, _)
            | Expr::Reshape3(x, _, _, _)
            | Expr::View1(x, _, _)
            | Expr::View2(x, _, _, _, _)
            | Expr::Permute(x, _, _, _, _)
            | Expr::InvSqrtScale(x, _) => {
                lemma_part(a, b, *x);
            },
            _ => {},
        }
    }
}

/// The expressions of the first operations do not depend on those after them, and an operation
/// means what it means over the ones before it.
pub proof fn lemma_meaning_at(ops: Seq<Op>, i: int)
    requires
        0 <= i < ops.len(),
        ordered(ops),
    ensures
        meanings(ops).len() == ops.len(),
        meanings(ops)[i] == meaning(ops[i], meanings(ops)),
    decreases ops.len(),
{
    let front = ops.drop_last();
    lemma_meanings_len(front);
    lemma_meanings_len(ops);
    assert(operands_below(ops[i], i));
    if i < front.len() {
        assert forall|j: int| 0 <= j < front.len() implies operands_below(#[trigger] front[j], j) by {
            assert(operands_below(ops[j], j));
        }
        lemma_meaning_at(front, i);
        assert(front[i] == ops[i]);
    }
}

/// A compute graph.
pub struct GraphPlan {
    /// The operations.
    pub ops: Vec<Op>,
    /// The operations that the graph must compute, in the order in which they were requested:
    /// what an earlier one needs runs before what a later one needs.
    pub schedule: Vec<usize>,
    /// The operation whose result is read back.
    pub output: usize,
}

impl GraphPlan {
    /// The expression of each operation.
    pub open spec fn exprs(&self) -> Seq<Expr> {
        meanings(self.ops@)
    }

    /// The expressions that the graph computes, in order.
    pub open spec fn scheduled(&self) -> Seq<Expr> {
        self.schedule@.map_values(|i: usize| self.exprs()[i as int])
    }

    /// Operands come before their operations, and scheduled operations exist.
    pub open spec fn well_formed(&self) -> bool {
        &&& ordered(self.ops@)
        &&& self.exprs().len() == self.ops@.len()
        &&& forall|i: int|
            0 <= i < self.schedule@.len() ==> (#[trigger] self.schedule@[i]) < self.ops@.len()
    }

    /// The operations that nothing needs.
    pub open spec fn idle(&self) -> Set<int> {
        unneeded(self.ops@, self.schedule@)
    }

    /// Every operation is one that a pass may ask for.
    pub open spec fn asks(&self, needs: Needs) -> bool {
        forall|i: int| 0 <= i < self.ops@.len() ==> needs.op(#[trigger] self.ops@[i])
    }

    /// The file holds every weight that the plan asks for.
    pub open spec fn served_by(&self, index: &TensorIndex) -> bool {
        forall|i: int|
            0 <= i < self.ops@.len() ==> (#[trigger] self.ops@[i] matches Op::Weight(w)
                ==> index.has(w))
    }

    /// The result that is read back is the last that is computed, and no operation is made that
    /// the computation does not need.
    pub open spec fn complete(&self) -> bool {
        &&& 0 < self.schedule@.len()
        &&& self.schedule@.last() == self.output
        &&& self.idle() == Set::<int>::empty()
    }

    /// The operations that were added to `before` ask for weights and caches of a layer alone, and
    /// for a mask where there is one.
    pub open spec fn asks_as(&self, before: &GraphPlan, masked: bool, layer: int) -> bool {
        forall|needs: Needs|
            before.asks(needs) && layer < needs.layers && (masked ==> needs.masked)
                ==> #[trigger] self.asks(needs)
    }

    /// The operations that were added to `before` are needed, all but the one at place `at`, and
    /// need the one at place `x`.
    pub open spec fn rests_on(&self, before: &GraphPlan, x: int, at: int) -> bool {
        self.idle().subset_of(before.idle().remove(x).insert(at))
    }

    /// This plan is `before` with more operations, none of them requested yet.
    pub open spec fn grown(&self, before: &GraphPlan) -> bool {
        &&& self.well_formed()
        &&& extends(before.exprs(), self.exprs())
        &&& self.scheduled() == before.scheduled()
        &&& self.schedule@ == before.schedule@
        &&& self.output == before.output
    }

    /// More operations leave what is scheduled as it was.
    proof fn lemma_scheduled(&self, before: &GraphPlan)
        requires
            before.well_formed(),
            extends(before.exprs(), self.exprs()),
            self.schedule@ == before.schedule@,
        ensures
            self.scheduled() == before.scheduled(),
    {
        assert(self.scheduled() =~= before.scheduled());
    }

    /// Appends an operation.
    fn push(&mut self, op: Op) -> (at: usize)
        requires
            old(self).well_formed(),
            operands_below(op, old(self).ops@.len() as int),
        ensures
            final(self).well_formed(),
            at == old(self).ops@.len(),
            final(self).ops@.len() == at + 1,
            final(self).ops@ == old(self).ops@.push(op),
            final(self).exprs() == old(self).exprs().push(meaning(op, old(self).exprs())),
            final(self).grown(old(self)),
            forall|i: int| #[trigger]
                final(self).idle().contains(i) ==> i == at || (old(self).idle().contains(i)
                    && !takes(op, i)),
            forall|needs: Needs|
                old(self).asks(needs) && needs.op(op) ==> #[trigger] final(self).asks(needs),
    {
        let at: usize = self.ops.len();
        let ghost before = self.ops@;
        self.ops.push(op);
        assert(self.ops@.drop_last() =~= before);
        proof {
            self.lemma_scheduled(old(self));
            assert forall|i: int| #[trigger] self.idle().contains(i) implies i == at || (old(
                self,
            ).idle().contains(i) && !takes(op, i)) by {
                assert(self.ops@[at as int] == op);
                if i != at && needed(before, self.schedule@, i) {
                    if exists|j: int| 0 <= j < before.len() && #[trigger] takes(before[j], i) {
                        let j = choose|j: int| 0 <= j < before.len() && #[trigger] takes(before[j], i);
                        assert(takes(self.ops@[j], i));
                    }
                }
            }
        }
        at
    }

    /// Requests the result of an operation.
    fn request(&mut self, at: usize)
        requires
            old(self).well_formed(),
            at < old(self).ops@.len(),
        ensures
            final(self).well_formed(),
            final(self).ops@ == old(self).ops@,
            final(self).exprs() == old(self).exprs(),
            final(self).schedule@ == old(self).schedule@.push(at),
            final(self).scheduled() == old(self).scheduled().push(old(self).exprs()[at as int]),
            final(self).output == old(self).output,
            forall|i: int| #[trigger]
                final(self).idle().contains(i) ==> i != at && old(self).idle().contains(i),
    {
        let ghost before = *self;
        self.schedule.push(at);
        proof {
            assert forall|i: int| #[trigger] self.idle().contains(i) implies i != at
                && before.idle().contains(i) by {
                assert(self.schedule@[before.schedule@.len() as int] == at);
                if needed(before.ops@, before.schedule@, i) {
                    if exists|j: int|
                        0 <= j < before.schedule@.len() && #[trigger] before.schedule@[j] == i {
                        let j = choose|j: int|
                            0 <= j < before.schedule@.len() && #[trigger] before.schedule@[j] == i;
                        assert(self.schedule@[j] == i);
                    }
                }
            }
        }
        assert(self.scheduled() =~= before.scheduled().push(before.exprs()[at as int]));
    }

    /// Appends a normalisation scaled by a weight.
    fn norm(&mut self, d: &PassDims, x: usize, w: Weight) -> (at: usize)
        requires
            old(self).well_formed(),
            x < old(self).ops@.len(),
        ensures
            final(self).grown(old(self)),
            at < final(self).ops@.len(),
            final(self).exprs()[at as int] == expr::norm(*d, old(self).exprs()[x as int], w),
            final(self).rests_on(old(self), x as int, at as int),
            forall|needs: Needs|
                old(self).asks(needs) && needs.weight(w) ==> #[trigger] final(self).asks(needs),
    {
        let r: usize = self.push(Op::RmsNorm(x, d.eps));
        let w: usize = self.push(Op::Weight(w));
        self.push(Op::Mul(r, w))
    }

    /// Appends a projection by a weight, split into heads.
    fn heads(&mut self, d: &PassDims, x: usize, layer: usize, w: LayerWeight, n: i64) -> (at: usize)
        requires
            old(self).well_formed(),
            x < old(self).ops@.len(),
        ensures
            final(self).grown(old(self)),
            at < final(self).ops@.len(),
            final(self).exprs()[at as int] == expr::heads(
                *d,
                old(self).exprs()[x as int],
                layer,
                w,
                n,
            ),
            final(self).rests_on(old(self), x as int, at as int),
            final(self).asks_as(old(self), d.masked, layer as int),
    {
        let w: usize = self.push(Op::Weight(Weight::Layer(layer, w)));
        let p: usize = self.push(Op::MulMat(w, x));
        self.push(Op::Reshape3(p, d.head_dim, n, d.n_tokens))
    }

    /// Appends a rotary embedding.
    fn rope(&mut self, d: &PassDims, x: usize) -> (at: usize)
        requires
            old(self).well_formed(),
            x < old(self).ops@.len(),
        ensures
            final(self).grown(old(self)),
            at < final(self).ops@.len(),
            final(self).exprs()[at as int] == expr::rope(*d, old(self).exprs()[x as int]),
            final(self).rests_on(old(self), x as int, at as int),
            forall|needs: Needs| old(self).asks(needs) ==> #[trigger] final(self).asks(needs),
    {
        let pos: usize = self.push(Op::Positions);
        self.push(Op::Rope(x, pos, d.n_rot, d.freq_base))
    }

    /// Appends a write of per-head rows into a cache, and requests it.
    fn write(&mut self, d: &PassDims, x: usize, cache: Op) -> (at: usize)
        requires
            old(self).well_formed(),
            d.row_fits(),
            x < old(self).ops@.len(),
            operands_below(cache, 0),
        ensures
            final(self).well_formed(),
            extends(old(self).exprs(), final(self).exprs()),
            final(self).output == old(self).output,
            at < final(self).ops@.len(),
            ({
                let write = Expr::Cpy(
                    Box::new(expr::flatten(*d, old(self).exprs()[x as int])),
                    Box::new(expr::write_slot(*d, meaning(cache, Seq::empty()))),
                );
                &&& final(self).exprs()[at as int] == write
                &&& final(self).scheduled() == old(self).scheduled().push(write)
            }),
            final(self).idle().subset_of(old(self).idle().remove(x as int)),
            forall|needs: Needs|
                old(self).asks(needs) && needs.op(cache) ==> #[trigger] final(self).asks(needs),
    {
        let row: i64 = d.n_head_kv * d.head_dim;
        let c: usize = self.push(Op::Cont(x));
        let flat: usize = self.push(Op::Reshape2(c, row, d.n_tokens));
        let cache: usize = self.push(cache);
        let slot: usize = self.push(Op::View2(cache, row, d.n_tokens, d.stride, d.offset));
        let at: usize = self.push(Op::Cpy(flat, slot));
        self.request(at);
        at
    }

    /// Appends the cache rows that attention reads, split into heads and permuted.
    fn cached(&mut self, d: &PassDims, cache: Op, p: u8, q: u8, r: u8) -> (at: usize)
        requires
            old(self).well_formed(),
            d.row_fits(),
            operands_below(cache, 0),
        ensures
            final(self).grown(old(self)),
            at < final(self).ops@.len(),
            final(self).exprs()[at as int] == Expr::Cont(
                Box::new(
                    Expr::Permute(
                        Box::new(expr::cached_heads(*d, meaning(cache, Seq::empty()))),
                        p,
                        q,
                        r,
                        3u8,
                    ),
                ),
            ),
            final(self).idle().subset_of(old(self).idle().insert(at as int)),
            forall|needs: Needs|
                old(self).asks(needs) && needs.op(cache) ==> #[trigger] final(self).asks(needs),
    {
        let row: i64 = d.n_head_kv * d.head_dim;
        let cache: usize = self.push(cache);
        let view: usize = self.push(Op::View2(cache, row, d.n_read, d.stride, 0));
        let cont: usize = self.push(Op::Cont(view));
        let split: usize = self.push(Op::Reshape3(cont, d.head_dim, d.n_head_kv, d.n_read));
        let turned: usize = self.push(Op::Permute(split, p, q, r, 3));
        self.push(Op::Cont(turned))
    }

    /// Appends the attention of queries to cached keys.
    fn attention(&mut self, d: &PassDims, layer: usize, q: usize) -> (at: usize)
        requires
            old(self).well_formed(),
            d.row_fits(),
            q < old(self).ops@.len(),
        ensures
            final(self).grown(old(self)),
            at < final(self).ops@.len(),
            forall|x: Expr|
                old(self).exprs()[q as int] == #[trigger] expr::queries(*d, x, layer)
                    ==> final(self).exprs()[at as int] == expr::attention(*d, x, layer),
            final(self).rests_on(old(self), q as int, at as int),
            final(self).asks_as(old(self), d.masked, layer as int),
    {
        let k: usize = self.cached(d, Op::CacheK(layer), 0, 2, 1);
        let kq: usize = self.push(Op::MulMat(k, q));
        let scaled: usize = self.push(Op::InvSqrtScale(kq, d.head_dim));
        if d.masked {
            let mask: usize = self.push(Op::Mask);
            self.push(Op::SoftMaxMasked(scaled, mask))
        } else {
            self.push(Op::SoftMax(scaled))
        }
    }

    /// Appends the mix of the cached values by attention weights, projected and added to the
    /// hidden state.
    fn mix(&mut self, d: &PassDims, layer: usize, attn: usize, x: usize) -> (at: usize)
        requires
            old(self).well_formed(),
            d.row_fits(),
            attn < old(self).ops@.len(),
            x < old(self).ops@.len(),
            old(self).exprs()[attn as int] == expr::attention(
                *d,
                old(self).exprs()[x as int],
                layer,
            ),
        ensures
            final(self).grown(old(self)),
            at < final(self).ops@.len(),
            final(self).exprs()[at as int] == expr::after_attention(
                *d,
                old(self).exprs()[x as int],
                layer,
            ),
            final(self).idle().subset_of(
                old(self).idle().remove(x as int).remove(attn as int).insert(at as int),
            ),
            final(self).asks_as(old(self), d.masked, layer as int),
    {
        let v: usize = self.cached(d, Op::CacheV(layer), 1, 2, 0);
        let av: usize = self.push(Op::MulMat(v, attn));
        let turned: usize = self.push(Op::Permute(av, 0, 2, 1, 3));
        let cont: usize = self.push(Op::Cont(turned));
        let joined: usize = self.push(Op::Reshape2(cont, d.n_embd, d.n_tokens));
        let w: usize = self.push(Op::Weight(Weight::Layer(layer, LayerWeight::AttnOutput)));
        let out: usize = self.push(Op::MulMat(w, joined));
        self.push(Op::Add(x, out))
    }

    /// Appends the gated feed-forward network of a layer on a normalised hidden state.
    fn feed_forward(&mut self, layer: usize, h: usize) -> (at: usize)
        requires
            old(self).well_formed(),
            h < old(self).ops@.len(),
        ensures
            final(self).grown(old(self)),
            at < final(self).ops@.len(),
            final(self).exprs()[at as int] == expr::feed_forward(
                old(self).exprs()[h as int],
                layer,
            ),
            final(self).rests_on(old(self), h as int, at as int),
            final(self).asks_as(old(self), false, layer as int),
    {
        let gate_w: usize = self.push(Op::Weight(Weight::Layer(layer, LayerWeight::FfnGate)));
        let gate_in: usize = self.push(Op::MulMat(gate_w, h));
        let gate: usize = self.push(Op::Silu(gate_in));
        let up_w: usize = self.push(Op::Weight(Weight::Layer(layer, LayerWeight::FfnUp)));
        let up: usize = self.push(Op::MulMat(up_w, h));
        let gated: usize = self.push(Op::Mul(gate, up));
        let down_w: usize = self.push(Op::Weight(Weight::Layer(layer, LayerWeight::FfnDown)));
        self.push(Op::MulMat(down_w, gated))
    }

    /// Appends the projections of a layer, requests its cache writes and leaves the queries.
    fn project(&mut self, d: &PassDims, x: usize, layer: usize) -> (at: usize)
        requires
            old(self).well_formed(),
            d.row_fits(),
            x < old(self).ops@.len(),
        ensures
            final(self).well_formed(),
            extends(old(self).exprs(), final(self).exprs()),
            final(self).output == old(self).output,
            at < final(self).ops@.len(),
            final(self).exprs()[at as int] == expr::queries(
                *d,
                old(self).exprs()[x as int],
                layer,
            ),
            final(self).scheduled() == old(self).scheduled().push(
                expr::key_write(*d, old(self).exprs()[x as int], layer),
            ).push(expr::value_write(*d, old(self).exprs()[x as int], layer)),
            final(self).rests_on(old(self), x as int, at as int),
            final(self).asks_as(old(self), d.masked, layer as int),
    {
        let normed: usize = self.norm(d, x, Weight::Layer(layer, LayerWeight::AttnNorm));
        let q: usize = self.heads(d, normed, layer, LayerWeight::AttnQ, d.n_head);
        let k: usize = self.heads(d, normed, layer, LayerWeight::AttnK, d.n_head_kv);
        let v: usize = self.heads(d, normed, layer, LayerWeight::AttnV, d.n_head_kv);
        let q: usize = self.rope(d, q);
        let k: usize = self.rope(d, k);
        self.write(d, k, Op::CacheK(layer));
        self.write(d, v, Op::CacheV(layer));
        self.push(Op::Permute(q, 0, 2, 1, 3))
    }

    /// Appends a layer, with its cache writes requested ahead of its attention.
    fn layer(&mut self, d: &PassDims, x: usize, layer: usize) -> (at: usize)
        requires
            old(self).well_formed(),
            d.row_fits(),
            x < old(self).ops@.len(),
        ensures
            final(self).well_formed(),
            extends(old(self).exprs(), final(self).exprs()),
            final(self).output == old(self).output,
            at < final(self).ops@.len(),
            final(self).exprs()[at as int] == expr::layer_output(
                *d,
                old(self).exprs()[x as int],
                layer,
            ),
            final(self).scheduled() == old(self).scheduled().push(
                expr::key_write(*d, old(self).exprs()[x as int], layer),
            ).push(expr::value_write(*d, old(self).exprs()[x as int], layer)),
            final(self).rests_on(old(self), x as int, at as int),
            final(self).asks_as(old(self), d.masked, layer as int),
    {
        let ghost input = self.exprs()[x as int];
        let q: usize = self.project(d, x, layer);
        assert(self.exprs()[x as int] == input);
        let attn: usize = self.attention(d, layer, q);
        assert(self.exprs()[x as int] == input);
        let a: usize = self.mix(d, layer, attn, x);
        let ghost state = self.exprs()[a as int];
        let ffn_in: usize = self.norm(d, a, Weight::Layer(layer, LayerWeight::FfnNorm));
        let ffn: usize = self.feed_forward(layer, ffn_in);
        assert(self.exprs()[a as int] == state);
        self.push(Op::Add(a, ffn))
    }

    /// A plan with no operations.
    fn empty() -> (plan: GraphPlan)
        ensures
            plan.well_formed(),
            plan.ops@.len() == 0,
            plan.scheduled() == Seq::<Expr>::empty(),
            plan.idle() == Set::<int>::empty(),
            forall|needs: Needs| #[trigger] plan.asks(needs),
    {
        let plan = GraphPlan { ops: Vec::new(), schedule: Vec::new(), output: 0 };
        assert(plan.scheduled() =~= Seq::<Expr>::empty());
        plan
    }

    /// Appends the token embedding, `n` layers and the final normalisation.
    fn stack(&mut self, d: &PassDims, n: usize) -> (at: usize)
        requires
            old(self).well_formed(),
            old(self).scheduled() == Seq::<Expr>::empty(),
            d.row_fits(),
        ensures
            final(self).well_formed(),
            at < final(self).ops@.len(),
            final(self).exprs()[at as int] == expr::final_state(*d, n as nat),
            final(self).scheduled() == expr::cache_writes(*d, n as nat),
            final(self).idle().subset_of(old(self).idle().insert(at as int)),
            forall|needs: Needs|
                old(self).asks(needs) && n <= needs.layers && (d.masked ==> needs.masked)
                    ==> #[trigger] final(self).asks(needs),
    {
        let embd: usize = self.push(Op::Weight(Weight::TokenEmbd));
        let tokens: usize = self.push(Op::Tokens);
        let mut cur: usize = self.push(Op::GetRows(embd, tokens));
        let mut layer: usize = 0;
        while layer < n
            invariant
                layer <= n,
                d.row_fits(),
                self.well_formed(),
                cur < self.ops@.len(),
                self.exprs()[cur as int] == expr::hidden(*d, layer as nat),
                self.scheduled() == expr::cache_writes(*d, layer as nat),
                self.idle().subset_of(old(self).idle().insert(cur as int)),
                forall|needs: Needs|
                    old(self).asks(needs) && n <= needs.layers && (d.masked ==> needs.masked)
                        ==> #[trigger] self.asks(needs),
            decreases n - layer,
        {
            cur = self.layer(d, cur, layer);
            layer += 1;
        }
        self.norm(d, cur, Weight::OutputNorm)
    }

    /// The graph that computes the logits of every token of a pass through `n` layers.
    pub fn all_logits(d: &PassDims, n: usize, head: Weight) -> (plan: GraphPlan)
        requires
            d.row_fits(),
        ensures
            plan.well_formed(),
            plan.output < plan.ops@.len(),
            plan.exprs()[plan.output as int] == expr::all_logits(*d, n as nat, head),
            plan.scheduled() == expr::cache_writes(*d, n as nat).push(
                expr::all_logits(*d, n as nat, head),
            ),
            plan.complete(),
            plan.asks((Needs { layers: n as nat, head, masked: d.masked })),
    {
        let ghost needs = Needs { layers: n as nat, head, masked: d.masked };
        let mut plan = GraphPlan::empty();
        let state: usize = plan.stack(d, n);
        let head: usize = plan.push(Op::Weight(head));
        let logits: usize = plan.push(Op::MulMat(head, state));
        assert(plan.asks(needs));
        plan.request(logits);
        assert(plan.idle() =~= Set::<int>::empty());
        plan.output = logits;
        plan
    }

    /// The graph that computes the logits of the last token of a pass through `n` layers, whose
    /// final state begins at byte `last`.
    pub fn last_logits(d: &PassDims, n: usize, head: Weight, last: usize) -> (plan: GraphPlan)
        requires
            d.row_fits(),
        ensures
            plan.well_formed(),
            plan.output < plan.ops@.len(),
            plan.exprs()[plan.output as int] == expr::last_logits(*d, n as nat, head, last),
            plan.scheduled() == expr::cache_writes(*d, n as nat).push(
                expr::last_logits(*d, n as nat, head, last),
            ),
            plan.complete(),
            plan.asks((Needs { layers: n as nat, head, masked: d.masked })),
    {
        let ghost needs = Needs { layers: n as nat, head, masked: d.masked };
        let mut plan = GraphPlan::empty();
        let state: usize = plan.stack(d, n);
        let view: usize = plan.push(Op::View1(state, d.n_embd, last));
        let head: usize = plan.push(Op::Weight(head));
        let logits: usize = plan.push(Op::MulMat(head, view));
        assert(plan.asks(needs));
        plan.request(logits);
        assert(plan.idle() =~= Set::<int>::empty());
        plan.output = logits;
        plan
    }
}

/// Every operation of a complete plan takes part in what the plan computes: its expression is a
/// part of one that is scheduled.
pub proof fn operations_take_part(plan: GraphPlan, i: int) -> (t: int)
    requires
        plan.well_formed(),
        plan.complete(),
        0 <= i < plan.ops@.len(),
    ensures
        0 <= t < plan.scheduled().len(),
        part_of(plan.exprs()[i], plan.scheduled()[t]),
    decreases plan.ops@.len() - i,
{
    let ops = plan.ops@;
    let e = plan.exprs();
    assert(!plan.idle().contains(i));
    assert(needed(ops, plan.schedule@, i));
    if exists|j: int| 0 <= j < plan.schedule@.len() && #[trigger] plan.schedule@[j] == i {
        let j = choose|j: int| 0 <= j < plan.schedule@.len() && #[trigger] plan.schedule@[j] == i;
        assert(plan.scheduled()[j] == e[i]);
        j
    } else {
        let j = choose|j: int| 0 <= j < ops.len() && #[trigger] takes(ops[j], i);
        assert(operands_below(ops[j], j));
        assert(i < j);
        let t = operations_take_part(plan, j);
        lemma_meaning_at(ops, j);
        assert(part_of(e[i], e[i]));
        assert(part_of(e[i], e[j]));
        lemma_part(e[i], e[j], plan.scheduled()[t]);
        t
    }
}

/// A file that holds every weight which a pass may ask for serves every plan of the pass.
pub proof fn full_files_serve_every_plan(plan: GraphPlan, needs: Needs, index: &TensorIndex)
    requires
        plan.asks(needs),
        weights::first_missing(index, weights::stack_weights(needs.layers)) is None,
        needs.layers <= usize::MAX,
        index.has(Weight::TokenEmbd),
        index.has(Weight::OutputNorm),
        index.has(needs.head),
    ensures
        plan.served_by(index),
{
    assert forall|i: int| 0 <= i < plan.ops@.len() implies (#[trigger] plan.ops@[i] matches Op::Weight(
        w,
    ) ==> index.has(w)) by {
        assert(needs.op(plan.ops@[i]));
        if let Op::Weight(Weight::Layer(l, w)) = plan.ops@[i] {
            if Weight::Layer(l, w) != needs.head {
                weights::full_stack_has_every_weight(index, needs.layers, l, w);
            }
        }
    }
}

} // verus!
