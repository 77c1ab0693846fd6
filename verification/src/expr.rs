//! The mathematics of a Llama forward pass.
//!
//! An [`Expr`] is a tensor-valued expression. The functions below write down, as expressions,
//! what one transformer layer computes, what a stack of layers computes and what each layer
//! writes into the key/value cache. Nothing here is executable: the executable counterpart is a
//! [`crate::plan::GraphPlan`], whose nodes denote these expressions.

use vstd::prelude::*;

use crate::weights::{LayerWeight, Weight};

verus! {

/// A tensor-valued expression.
pub enum Expr {
    /// A weight of the model.
    Weight(Weight),
    /// The token ids of this pass.
    Tokens,
    /// The position of each token of this pass.
    Positions,
    /// The additive attention mask of this pass.
    Mask,
    /// The key cache of a layer.
    CacheK(usize),
    /// The value cache of a layer.
    CacheV(usize),
    /// The rows of the first operand that the second selects.
    GetRows(Box<Expr>, Box<Expr>),
    /// Root-mean-square normalisation with an epsilon, given by its bits.
    RmsNorm(Box<Expr>, u32),
    /// The elementwise product.
    Mul(Box<Expr>, Box<Expr>),
    /// The matrix product, contracting the first dimension of both operands.
    MulMat(Box<Expr>, Box<Expr>),
    /// The elementwise sum.
    Add(Box<Expr>, Box<Expr>),
    /// The elementwise SiLU.
    Silu(Box<Expr>),
    /// The same elements in two dimensions.
    Reshape2(Box<Expr>, i64, i64),
    /// The same elements in three dimensions.
    Reshape3(Box<Expr>, i64, i64, i64),
    /// Rotary embedding at given positions, over `n_rot` dimensions, with a frequency base,
    /// given by its bits.
    Rope(Box<Expr>, Box<Expr>, i64, u32),
    /// A contiguous copy.
    Cont(Box<Expr>),
    /// `len` elements from a byte offset on.
    View1(Box<Expr>, i64, usize),
    /// `rows` rows of `width` elements, `stride` bytes apart, from a byte offset on.
    View2(Box<Expr>, i64, i64, usize, usize),
    /// The first operand, written into the second.
    Cpy(Box<Expr>, Box<Expr>),
    /// The dimensions in another order.
    Permute(Box<Expr>, u8, u8, u8, u8),
    /// The operand times one over the square root of a number.
    InvSqrtScale(Box<Expr>, i64),
    /// The softmax over the first dimension.
    SoftMax(Box<Expr>),
    /// The softmax over the first dimension, of the first operand plus a mask.
    SoftMaxMasked(Box<Expr>, Box<Expr>),
}

/// What a forward pass depends on besides the weights.
#[derive(Clone, Copy, Debug)]
pub struct PassDims {
    /// Width of the hidden state.
    pub n_embd: i64,
    /// Number of query heads.
    pub n_head: i64,
    /// Number of key/value heads.
    pub n_head_kv: i64,
    /// Elements of one head.
    pub head_dim: i64,
    /// Number of tokens of this pass.
    pub n_tokens: i64,
    /// Number of cache rows that attention reads.
    pub n_read: i64,
    /// Bytes of one cache row.
    pub stride: usize,
    /// Byte offset of the first cache row that this pass writes.
    pub offset: usize,
    /// Number of rotated dimensions.
    pub n_rot: i64,
    /// Bits of the rotary frequency base.
    pub freq_base: u32,
    /// Bits of the normalisation epsilon.
    pub eps: u32,
    /// Whether attention adds a mask to the scores.
    pub masked: bool,
}

impl PassDims {
    /// Elements of one cache row.
    pub open spec fn row(self) -> i64 {
        (self.n_head_kv * self.head_dim) as i64
    }

    /// The width of a cache row is a machine integer.
    pub open spec fn row_fits(self) -> bool {
        i64::MIN <= self.n_head_kv * self.head_dim <= i64::MAX
    }
}

/// A weight of a layer.
pub open spec fn weight(layer: usize, w: LayerWeight) -> Box<Expr> {
    Box::new(Expr::Weight(Weight::Layer(layer, w)))
}

/// `x`, normalised and scaled by a weight.
pub open spec fn norm(d: PassDims, x: Expr, w: Weight) -> Expr {
    Expr::Mul(Box::new(Expr::RmsNorm(Box::new(x), d.eps)), Box::new(Expr::Weight(w)))
}

/// `x`, normalised for the attention of a layer.
pub open spec fn attn_norm(d: PassDims, x: Expr, layer: usize) -> Expr {
    norm(d, x, Weight::Layer(layer, LayerWeight::AttnNorm))
}

/// `x`, projected by a weight and split into heads.
pub open spec fn heads(d: PassDims, x: Expr, layer: usize, w: LayerWeight, n: i64) -> Expr {
    Expr::Reshape3(
        Box::new(Expr::MulMat(weight(layer, w), Box::new(x))),
        d.head_dim,
        n,
        d.n_tokens,
    )
}

/// `x`, rotated by the positions of its tokens.
pub open spec fn rope(d: PassDims, x: Expr) -> Expr {
    Expr::Rope(Box::new(x), Box::new(Expr::Positions), d.n_rot, d.freq_base)
}

/// Per-head rows of this pass, laid out as cache rows.
pub open spec fn flatten(d: PassDims, x: Expr) -> Expr {
    Expr::Reshape2(Box::new(Expr::Cont(Box::new(x))), d.row(), d.n_tokens)
}

/// The cache rows that this pass writes.
pub open spec fn write_slot(d: PassDims, cache: Expr) -> Expr {
    Expr::View2(Box::new(cache), d.row(), d.n_tokens, d.stride, d.offset)
}

/// The write of this pass's keys into the cache of a layer, where `x` enters the layer.
pub open spec fn key_write(d: PassDims, x: Expr, layer: usize) -> Expr {
    let k = rope(d, heads(d, attn_norm(d, x, layer), layer, LayerWeight::AttnK, d.n_head_kv));
    Expr::Cpy(
        Box::new(flatten(d, k)),
        Box::new(write_slot(d, Expr::CacheK(layer))),
    )
}

/// The write of this pass's values into the cache of a layer, where `x` enters the layer.
pub open spec fn value_write(d: PassDims, x: Expr, layer: usize) -> Expr {
    let v = heads(d, attn_norm(d, x, layer), layer, LayerWeight::AttnV, d.n_head_kv);
    Expr::Cpy(
        Box::new(flatten(d, v)),
        Box::new(write_slot(d, Expr::CacheV(layer))),
    )
}

/// The cache rows that attention reads, split into heads.
pub open spec fn cached_heads(d: PassDims, cache: Expr) -> Expr {
    Expr::Reshape3(
        Box::new(
            Expr::Cont(
                Box::new(Expr::View2(Box::new(cache), d.row(), d.n_read, d.stride, 0usize)),
            ),
        ),
        d.head_dim,
        d.n_head_kv,
        d.n_read,
    )
}

/// The query heads of a layer that `x` enters.
pub open spec fn queries(d: PassDims, x: Expr, layer: usize) -> Expr {
    Expr::Permute(
        Box::new(
            rope(d, heads(d, attn_norm(d, x, layer), layer, LayerWeight::AttnQ, d.n_head)),
        ),
        0u8,
        2u8,
        1u8,
        3u8,
    )
}

/// The cached keys of a layer, one matrix for each head.
pub open spec fn keys(d: PassDims, layer: usize) -> Expr {
    Expr::Cont(
        Box::new(
            Expr::Permute(
                Box::new(cached_heads(d, Expr::CacheK(layer))),
                0u8,
                2u8,
                1u8,
                3u8,
            ),
        ),
    )
}

/// The cached values of a layer, one transposed matrix for each head.
pub open spec fn values(d: PassDims, layer: usize) -> Expr {
    Expr::Cont(
        Box::new(
            Expr::Permute(
                Box::new(cached_heads(d, Expr::CacheV(layer))),
                1u8,
                2u8,
                0u8,
                3u8,
            ),
        ),
    )
}

/// The attention weights of a layer that `x` enters.
pub open spec fn attention(d: PassDims, x: Expr, layer: usize) -> Expr {
    let scores = Expr::InvSqrtScale(
        Box::new(
            Expr::MulMat(Box::new(keys(d, layer)), Box::new(queries(d, x, layer))),
        ),
        d.head_dim,
    );
    if d.masked {
        Expr::SoftMaxMasked(Box::new(scores), Box::new(Expr::Mask))
    } else {
        Expr::SoftMax(Box::new(scores))
    }
}

/// The attended values of a layer that `x` enters, with the heads joined again.
pub open spec fn attended(d: PassDims, x: Expr, layer: usize) -> Expr {
    let mixed = Expr::MulMat(
        Box::new(values(d, layer)),
        Box::new(attention(d, x, layer)),
    );
    Expr::Reshape2(
        Box::new(
            Expr::Cont(Box::new(Expr::Permute(Box::new(mixed), 0u8, 2u8, 1u8, 3u8))),
        ),
        d.n_embd,
        d.n_tokens,
    )
}

/// The hidden state after the attention of a layer that `x` enters.
pub open spec fn after_attention(d: PassDims, x: Expr, layer: usize) -> Expr {
    Expr::Add(
        Box::new(x),
        Box::new(
            Expr::MulMat(
                weight(layer, LayerWeight::AttnOutput),
                Box::new(attended(d, x, layer)),
            ),
        ),
    )
}

/// The gated feed-forward network of a layer, on a normalised hidden state.
pub open spec fn feed_forward(h: Expr, layer: usize) -> Expr {
    Expr::MulMat(
        weight(layer, LayerWeight::FfnDown),
        Box::new(
            Expr::Mul(
                Box::new(
                    Expr::Silu(
                        Box::new(
                            Expr::MulMat(weight(layer, LayerWeight::FfnGate), Box::new(h)),
                        ),
                    ),
                ),
                Box::new(Expr::MulMat(weight(layer, LayerWeight::FfnUp), Box::new(h))),
            ),
        ),
    )
}

/// The hidden state that leaves a layer that `x` enters.
pub open spec fn layer_output(d: PassDims, x: Expr, layer: usize) -> Expr {
    let a = after_attention(d, x, layer);
    Expr::Add(
        Box::new(a),
        Box::new(
            feed_forward(
                norm(d, a, Weight::Layer(layer, LayerWeight::FfnNorm)),
                layer,
            ),
        ),
    )
}

/// The hidden state after the first `n` layers.
pub open spec fn hidden(d: PassDims, n: nat) -> Expr
    decreases n,
{
    if n == 0 {
        Expr::GetRows(Box::new(Expr::Weight(Weight::TokenEmbd)), Box::new(Expr::Tokens))
    } else {
        layer_output(d, hidden(d, (n - 1) as nat), (n - 1) as usize)
    }
}

/// The cache writes of the first `n` layers, in the order in which they run.
pub open spec fn cache_writes(d: PassDims, n: nat) -> Seq<Expr>
    decreases n,
{
    if n == 0 {
        Seq::empty()
    } else {
        let x = hidden(d, (n - 1) as nat);
        let layer = (n - 1) as usize;
        cache_writes(d, (n - 1) as nat).push(key_write(d, x, layer)).push(
            value_write(d, x, layer),
        )
    }
}

/// The normalised hidden state after all `n` layers.
pub open spec fn final_state(d: PassDims, n: nat) -> Expr {
    norm(d, hidden(d, n), Weight::OutputNorm)
}

/// The logits of every token of the pass, by the projection `head`.
pub open spec fn all_logits(d: PassDims, n: nat, head: Weight) -> Expr {
    Expr::MulMat(Box::new(Expr::Weight(head)), Box::new(final_state(d, n)))
}

/// The logits of the last token of the pass, by the projection `head`: the final state is read
/// from byte `last` on.
pub open spec fn last_logits(d: PassDims, n: nat, head: Weight, last: usize) -> Expr {
    Expr::MulMat(
        Box::new(Expr::Weight(head)),
        Box::new(Expr::View1(Box::new(final_state(d, n)), d.n_embd, last)),
    )
}

/// Whether computing `e` reads the cache of a layer. A write into the cache does not read it.
pub open spec fn reads_cache(e: Expr, layer: usize) -> bool
    decreases e,
{
    match e {
        Expr::CacheK(l) | Expr::CacheV(l) => l == layer,
        Expr::Weight(_) | Expr::Tokens | Expr::Positions | Expr::Mask => false,
        Expr::GetRows(a, b) | Expr::Mul(a, b) | Expr::MulMat(a, b) | Expr::Add(a, b) => {
            reads_cache(*a, layer) || reads_cache(*b, layer)
        },
        Expr::SoftMaxMasked(a, b) => reads_cache(*a, layer) || reads_cache(*b, layer),
        Expr::Rope(a, b, _, _) => reads_cache(*a, layer) || reads_cache(*b, layer),
        Expr::RmsNorm(a, _) => reads_cache(*a, layer),
        Expr::Silu(a) | Expr::Cont(a) | Expr::SoftMax(a) => reads_cache(*a, layer),
        Expr::Reshape2(a, _, _) => reads_cache(*a, layer),
        Expr::Reshape3(a, _, _, _) => reads_cache(*a, layer),
        Expr::View1(a, _, _) => reads_cache(*a, layer),
        Expr::View2(a, _, _, _, _) => reads_cache(*a, layer),
        Expr::Cpy(a, _) => reads_cache(*a, layer),
        Expr::Permute(a, _, _, _, _) => reads_cache(*a, layer),
        Expr::InvSqrtScale(a, _) => reads_cache(*a, layer),
    }
}

/// Projections of `x` read what `x` reads.
proof fn lemma_heads_read(d: PassDims, x: Expr, layer: usize, w: LayerWeight, n: i64, other: usize)
    ensures
        reads_cache(heads(d, attn_norm(d, x, layer), layer, w, n), other) == reads_cache(x, other),
        reads_cache(rope(d, heads(d, attn_norm(d, x, layer), layer, w, n)), other) == reads_cache(
            x,
            other,
        ),
{
    let normed = attn_norm(d, x, layer);
    assert(reads_cache(Expr::RmsNorm(Box::new(x), d.eps), other) == reads_cache(x, other));
    assert(!reads_cache(Expr::Weight(Weight::Layer(layer, LayerWeight::AttnNorm)), other));
    assert(reads_cache(normed, other) == reads_cache(x, other));
    assert(!reads_cache(*weight(layer, w), other));
    let p = Expr::MulMat(weight(layer, w), Box::new(normed));
    assert(reads_cache(p, other) == reads_cache(x, other));
    assert(reads_cache(heads(d, normed, layer, w, n), other) == reads_cache(x, other));
    assert(!reads_cache(Expr::Positions, other));
}

/// The cache writes of a layer read what the state that enters the layer reads.
proof fn lemma_writes_read(d: PassDims, x: Expr, layer: usize, other: usize)
    ensures
        reads_cache(key_write(d, x, layer), other) == reads_cache(x, other),
        reads_cache(value_write(d, x, layer), other) == reads_cache(x, other),
{
    lemma_heads_read(d, x, layer, LayerWeight::AttnK, d.n_head_kv, other);
    lemma_heads_read(d, x, layer, LayerWeight::AttnV, d.n_head_kv, other);
    let k = rope(d, heads(d, attn_norm(d, x, layer), layer, LayerWeight::AttnK, d.n_head_kv));
    let v = heads(d, attn_norm(d, x, layer), layer, LayerWeight::AttnV, d.n_head_kv);
    assert(reads_cache(Expr::Cont(Box::new(k)), other) == reads_cache(x, other));
    assert(reads_cache(Expr::Cont(Box::new(v)), other) == reads_cache(x, other));
    assert(reads_cache(flatten(d, k), other) == reads_cache(x, other));
    assert(reads_cache(flatten(d, v), other) == reads_cache(x, other));
}

/// The cached heads of a layer read the cache of that layer alone.
proof fn lemma_cached_read(d: PassDims, layer: usize, other: usize)
    ensures
        reads_cache(keys(d, layer), other) == (layer == other),
        reads_cache(values(d, layer), other) == (layer == other),
{
    lemma_cached_heads_read(d, Expr::CacheK(layer), other);
    lemma_cached_heads_read(d, Expr::CacheV(layer), other);
    let k = cached_heads(d, Expr::CacheK(layer));
    let v = cached_heads(d, Expr::CacheV(layer));
    assert(reads_cache(Expr::Permute(Box::new(k), 0u8, 2u8, 1u8, 3u8), other) == reads_cache(
        k,
        other,
    ));
    assert(reads_cache(Expr::Permute(Box::new(v), 1u8, 2u8, 0u8, 3u8), other) == reads_cache(
        v,
        other,
    ));
}

proof fn lemma_cached_heads_read(d: PassDims, cache: Expr, other: usize)
    ensures
        reads_cache(cached_heads(d, cache), other) == reads_cache(cache, other),
{
    let view = Expr::View2(Box::new(cache), d.row(), d.n_read, d.stride, 0usize);
    assert(reads_cache(view, other) == reads_cache(cache, other));
    assert(reads_cache(Expr::Cont(Box::new(view)), other) == reads_cache(cache, other));
}

/// A layer reads what the state that enters it reads, and its own cache.
proof fn lemma_layer_reads(d: PassDims, x: Expr, layer: usize, other: usize)
    ensures
        reads_cache(layer_output(d, x, layer), other) == (reads_cache(x, other) || layer == other),
{
    lemma_heads_read(d, x, layer, LayerWeight::AttnQ, d.n_head, other);
    lemma_cached_read(d, layer, other);
    let q = rope(d, heads(d, attn_norm(d, x, layer), layer, LayerWeight::AttnQ, d.n_head));
    assert(reads_cache(queries(d, x, layer), other) == reads_cache(q, other));
    let kq = Expr::MulMat(Box::new(keys(d, layer)), Box::new(queries(d, x, layer)));
    assert(reads_cache(kq, other) == (reads_cache(x, other) || layer == other));
    let scores = Expr::InvSqrtScale(Box::new(kq), d.head_dim);
    assert(reads_cache(scores, other) == reads_cache(kq, other));
    assert(!reads_cache(Expr::Mask, other));
    let attn = attention(d, x, layer);
    assert(reads_cache(attn, other) == reads_cache(scores, other));
    let mixed = Expr::MulMat(Box::new(values(d, layer)), Box::new(attn));
    assert(reads_cache(mixed, other) == (reads_cache(x, other) || layer == other));
    let turned = Expr::Permute(Box::new(mixed), 0u8, 2u8, 1u8, 3u8);
    assert(reads_cache(turned, other) == reads_cache(mixed, other));
    assert(reads_cache(Expr::Cont(Box::new(turned)), other) == reads_cache(mixed, other));
    assert(reads_cache(attended(d, x, layer), other) == reads_cache(mixed, other));
    assert(!reads_cache(*weight(layer, LayerWeight::AttnOutput), other));
    let out = Expr::MulMat(
        weight(layer, LayerWeight::AttnOutput),
        Box::new(attended(d, x, layer)),
    );
    assert(reads_cache(out, other) == reads_cache(mixed, other));
    let a = after_attention(d, x, layer);
    assert(reads_cache(a, other) == (reads_cache(x, other) || layer == other));
    lemma_feed_forward_reads(d, a, layer, other);
}

proof fn lemma_feed_forward_reads(d: PassDims, a: Expr, layer: usize, other: usize)
    ensures
        reads_cache(
            feed_forward(norm(d, a, Weight::Layer(layer, LayerWeight::FfnNorm)), layer),
            other,
        ) == reads_cache(a, other),
{
    let h = norm(d, a, Weight::Layer(layer, LayerWeight::FfnNorm));
    assert(reads_cache(Expr::RmsNorm(Box::new(a), d.eps), other) == reads_cache(a, other));
    assert(!reads_cache(Expr::Weight(Weight::Layer(layer, LayerWeight::FfnNorm)), other));
    assert(reads_cache(h, other) == reads_cache(a, other));
    assert(!reads_cache(*weight(layer, LayerWeight::FfnGate), other));
    assert(!reads_cache(*weight(layer, LayerWeight::FfnUp), other));
    assert(!reads_cache(*weight(layer, LayerWeight::FfnDown), other));
    let gate_in = Expr::MulMat(weight(layer, LayerWeight::FfnGate), Box::new(h));
    let up = Expr::MulMat(weight(layer, LayerWeight::FfnUp), Box::new(h));
    assert(reads_cache(gate_in, other) == reads_cache(a, other));
    assert(reads_cache(up, other) == reads_cache(a, other));
    let gate = Expr::Silu(Box::new(gate_in));
    assert(reads_cache(gate, other) == reads_cache(a, other));
    let gated = Expr::Mul(Box::new(gate), Box::new(up));
    assert(reads_cache(gated, other) == reads_cache(a, other));
}

/// The hidden state after `n` layers reads the caches of these layers.
proof fn lemma_hidden_reads(d: PassDims, n: nat, other: usize)
    requires
        n <= usize::MAX,
    ensures
        reads_cache(hidden(d, n), other) == (other < n),
    decreases n,
{
    if n == 0 {
        assert(!reads_cache(Expr::Weight(Weight::TokenEmbd), other));
        assert(!reads_cache(Expr::Tokens, other));
    } else {
        lemma_hidden_reads(d, (n - 1) as nat, other);
        lemma_layer_reads(d, hidden(d, (n - 1) as nat), (n - 1) as usize, other);
    }
}

/// The two cache writes of layer `l` among those of the first `n` layers.
proof fn lemma_writes_at(d: PassDims, n: nat, l: nat)
    requires
        l < n <= usize::MAX,
    ensures
        cache_writes(d, n).len() == 2 * n,
        cache_writes(d, n)[2 * l as int] == key_write(d, hidden(d, l), l as usize),
        cache_writes(d, n)[2 * l as int + 1] == value_write(d, hidden(d, l), l as usize),
    decreases n,
{
    lemma_writes_len(d, n);
    lemma_writes_len(d, (n - 1) as nat);
    if l < n - 1 {
        lemma_writes_at(d, (n - 1) as nat, l);
    }
}

proof fn lemma_writes_len(d: PassDims, n: nat)
    ensures
        cache_writes(d, n).len() == 2 * n,
    decreases n,
{
    if n > 0 {
        lemma_writes_len(d, (n - 1) as nat);
    }
}

/// Every cache is written before it is read: what a pass computes at place `t` of its schedule
/// reads the cache of a layer only where the keys and the values of that layer were written
/// before. The logits, of every token or of the last one, stand at the end of the schedule.
pub proof fn caches_are_written_before_they_are_read(
    d: PassDims,
    n: nat,
    head: Weight,
    last: usize,
    t: int,
    layer: usize,
)
    requires
        n <= usize::MAX,
        0 <= t <= 2 * n,
    ensures
        cache_writes(d, n).len() == 2 * n,
        layer < n ==> cache_writes(d, n)[2 * layer as int] == key_write(
            d,
            hidden(d, layer as nat),
            layer,
        ) && cache_writes(d, n)[2 * layer + 1] == value_write(d, hidden(d, layer as nat), layer),
        reads_cache(cache_writes(d, n).push(all_logits(d, n, head))[t], layer) ==> layer < n && 2
            * layer + 1 < t,
        reads_cache(cache_writes(d, n).push(last_logits(d, n, head, last))[t], layer) ==> layer < n
            && 2 * layer + 1 < t,
{
    lemma_writes_len(d, n);
    if layer < n {
        lemma_writes_at(d, n, layer as nat);
    }
    if t < 2 * n {
        let l = (t / 2) as nat;
        lemma_writes_at(d, n, l);
        lemma_writes_read(d, hidden(d, l), l as usize, layer);
        lemma_hidden_reads(d, l, layer);
    } else {
        lemma_hidden_reads(d, n, layer);
        let x = hidden(d, n);
        assert(reads_cache(Expr::RmsNorm(Box::new(x), d.eps), layer) == reads_cache(x, layer));
        assert(!reads_cache(Expr::Weight(Weight::OutputNorm), layer));
        assert(!reads_cache(Expr::Weight(head), layer));
        let f = final_state(d, n);
        assert(reads_cache(f, layer) == reads_cache(x, layer));
        assert(reads_cache(Expr::View1(Box::new(f), d.n_embd, last), layer) == reads_cache(
            f,
            layer,
        ));
    }
}

} // verus!
