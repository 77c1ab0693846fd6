//! Shapes of the tensors of a forward pass.
//!
//! [`shape`] gives the dimensions of an expression, or nothing where an operation would not
//! accept its operands: a matrix product whose inner dimensions differ, a reshape that changes
//! the number of elements or whose operand is not contiguous, a view that leaves its tensor, a
//! write between tensors of different sizes. The theorems say that a pass over a model with the
//! usual weight shapes has none of these.

use vstd::prelude::*;

use crate::expr;
use crate::expr::{Expr, PassDims};
use crate::plan;
use crate::weights::{LayerWeight, Weight};

verus! {

/// The dimensions of a tensor, innermost first, and whether it is contiguous.
pub struct Shape {
    pub n0: int,
    pub n1: int,
    pub n2: int,
    pub n3: int,
    pub contiguous: bool,
}

/// A contiguous tensor of three dimensions.
pub open spec fn dense(n0: int, n1: int, n2: int) -> Shape {
    Shape { n0, n1, n2, n3: 1, contiguous: true }
}

impl Shape {
    /// The number of elements.
    pub open spec fn elements(self) -> int {
        self.n0 * self.n1 * self.n2 * self.n3
    }

    /// Whether this tensor can be repeated to the shape of `big`.
    pub open spec fn repeats_to(self, big: Shape) -> bool {
        &&& self.n0 > 0 && big.n0 % self.n0 == 0
        &&& self.n1 > 0 && big.n1 % self.n1 == 0
        &&& self.n2 > 0 && big.n2 % self.n2 == 0
        &&& self.n3 > 0 && big.n3 % self.n3 == 0
    }

    /// The dimension that a permutation moves to `place`.
    pub open spec fn moved(self, p: u8, q: u8, r: u8, s: u8, place: u8) -> int {
        if p == place {
            self.n0
        } else if q == place {
            self.n1
        } else if r == place {
            self.n2
        } else {
            self.n3
        }
    }

    /// The shape after a permutation of the dimensions.
    pub open spec fn permuted(self, p: u8, q: u8, r: u8, s: u8) -> Shape {
        Shape {
            n0: self.moved(p, q, r, s, 0),
            n1: self.moved(p, q, r, s, 1),
            n2: self.moved(p, q, r, s, 2),
            n3: self.moved(p, q, r, s, 3),
            contiguous: false,
        }
    }
}

/// The sizes of a model and of its cache.
pub struct ModelDims {
    pub n_embd: int,
    pub n_head: int,
    pub n_head_kv: int,
    pub head_dim: int,
    pub n_ff: int,
    pub n_vocab: int,
    pub n_ctx: int,
    pub n_tokens: int,
}

impl ModelDims {
    /// Elements of one cache row.
    pub open spec fn row(self) -> int {
        self.n_head_kv * self.head_dim
    }

    /// The shape of a weight.
    pub open spec fn weight(self, w: Weight) -> Shape {
        match w {
            Weight::TokenEmbd | Weight::Output => dense(self.n_embd, self.n_vocab, 1),
            Weight::OutputNorm => dense(self.n_embd, 1, 1),
            Weight::Layer(_, w) => match w {
                LayerWeight::AttnNorm | LayerWeight::FfnNorm => dense(self.n_embd, 1, 1),
                LayerWeight::AttnQ => dense(self.n_embd, self.n_head * self.head_dim, 1),
                LayerWeight::AttnK | LayerWeight::AttnV => dense(self.n_embd, self.row(), 1),
                LayerWeight::AttnOutput => dense(self.n_head * self.head_dim, self.n_embd, 1),
                LayerWeight::FfnGate | LayerWeight::FfnUp => dense(self.n_embd, self.n_ff, 1),
                LayerWeight::FfnDown => dense(self.n_ff, self.n_embd, 1),
            },
        }
    }

    /// The sizes are positive, the heads divide the hidden state, and the key/value heads divide
    /// the query heads.
    pub open spec fn consistent(self) -> bool {
        &&& self.n_head > 0 && self.n_head_kv > 0 && self.head_dim > 0
        &&& self.n_ff > 0 && self.n_vocab > 0 && self.n_ctx > 0 && self.n_tokens > 0
        &&& self.n_embd == self.n_head * self.head_dim
        &&& self.n_head % self.n_head_kv == 0
    }

    /// The pass `d` runs over this model: its sizes agree, it reads rows that the cache has, and
    /// the rows that it writes lie within the cache.
    pub open spec fn runs(self, d: PassDims) -> bool {
        &&& self.consistent()
        &&& d.row_fits()
        &&& d.n_embd == self.n_embd
        &&& d.n_head == self.n_head
        &&& d.n_head_kv == self.n_head_kv
        &&& d.head_dim == self.head_dim
        &&& d.n_tokens == self.n_tokens
        &&& d.stride == self.row() * 4
        &&& 0 < d.n_read <= self.n_ctx
        &&& d.masked ==> d.n_read == self.n_ctx
        &&& d.offset + d.n_tokens * d.stride <= self.n_ctx * d.stride
    }
}

/// The shape of an expression over a model, or nothing where an operation would not accept its
/// operands. Elements take four bytes.
pub open spec fn shape(m: ModelDims, e: Expr) -> Option<Shape>
    decreases e,
{
    match e {
        Expr::Weight(w) => Some(m.weight(w)),
        Expr::Tokens | Expr::Positions => Some(dense(m.n_tokens, 1, 1)),
        Expr::Mask => Some(dense(m.n_ctx, m.n_tokens, 1)),
        Expr::CacheK(_) | Expr::CacheV(_) => Some(dense(m.row(), m.n_ctx, 1)),
        Expr::GetRows(a, b) => match (shape(m, *a), shape(m, *b)) {
            (Some(a), Some(b)) => if a.n2 == 1 && a.n3 == 1 && b.n1 == 1 && b.n2 == 1 {
                Some(dense(a.n0, b.n0, 1))
            } else {
                None
            },
            _ => None,
        },
        Expr::RmsNorm(a, _) | Expr::InvSqrtScale(a, _) => match shape(m, *a) {
            Some(a) => Some(Shape { contiguous: true, ..a }),
            None => None,
        },
        Expr::Silu(a) | Expr::Cont(a) | Expr::SoftMax(a) => match shape(m, *a) {
            Some(a) => Some(Shape { contiguous: true, ..a }),
            None => None,
        },
        Expr::Mul(a, b) | Expr::Add(a, b) => match (shape(m, *a), shape(m, *b)) {
            (Some(a), Some(b)) => if b.repeats_to(a) {
                Some(Shape { contiguous: true, ..a })
            } else {
                None
            },
            _ => None,
        },
        Expr::MulMat(a, b) => match (shape(m, *a), shape(m, *b)) {
            (Some(a), Some(b)) => if a.contiguous && a.n0 == b.n0 && a.n2 > 0 && a.n3 > 0 && b.n2
                % a.n2 == 0 && b.n3 % a.n3 == 0 {
                Some(Shape { n0: a.n1, n1: b.n1, n2: b.n2, n3: b.n3, contiguous: true })
            } else {
                None
            },
            _ => None,
        },
        Expr::Reshape2(a, x, y) => match shape(m, *a) {
            Some(a) => if a.contiguous && a.elements() == x * y {
                Some(dense(x as int, y as int, 1))
            } else {
                None
            },
            None => None,
        },
        Expr::Reshape3(a, x, y, z) => match shape(m, *a) {
            Some(a) => if a.contiguous && a.elements() == x * y * z {
                Some(dense(x as int, y as int, z as int))
            } else {
                None
            },
            None => None,
        },
        Expr::Rope(a, b, _, _) => match (shape(m, *a), shape(m, *b)) {
            (Some(a), Some(b)) => if b.n0 == a.n2 && b.n1 == 1 && b.n2 == 1 {
                Some(Shape { contiguous: true, ..a })
            } else {
                None
            },
            _ => None,
        },
        Expr::View1(a, len, at) => match shape(m, *a) {
            Some(a) => if a.contiguous && at + len * 4 <= a.elements() * 4 {
                Some(dense(len as int, 1, 1))
            } else {
                None
            },
            None => None,
        },
        Expr::View2(a, width, rows, stride, at) => match shape(m, *a) {
            Some(a) => if a.contiguous && at + (rows - 1) * stride + width * 4 <= a.elements() * 4 {
                Some(
                    Shape {
                        n0: width as int,
                        n1: rows as int,
                        n2: 1,
                        n3: 1,
                        contiguous: false,
                    },
                )
            } else {
                None
            },
            None => None,
        },
        Expr::Cpy(a, b) => match (shape(m, *a), shape(m, *b)) {
            (Some(a), Some(b)) => if a.elements() == b.elements() {
                Some(b)
            } else {
                None
            },
            _ => None,
        },
        Expr::Permute(a, p, q, r, s) => match shape(m, *a) {
            Some(a) => Some(a.permuted(p, q, r, s)),
            None => None,
        },
        Expr::SoftMaxMasked(a, b) => match (shape(m, *a), shape(m, *b)) {
            (Some(a), Some(b)) => if b.n0 == a.n0 && b.n1 >= a.n1 {
                Some(Shape { contiguous: true, ..a })
            } else {
                None
            },
            _ => None,
        },
    }
}

/// The shape of a hidden state of the pass.
pub open spec fn state(m: ModelDims) -> Shape {
    dense(m.n_embd, m.n_tokens, 1)
}

proof fn lemma_self_mod(n: int)
    requires
        n > 0,
    ensures
        n % n == 0,
        n % 1 == 0,
{
    vstd::arithmetic::div_mod::lemma_mod_self_0(n);
}

proof fn lemma_norm(m: ModelDims, d: PassDims, x: Expr, w: Weight)
    requires
        m.runs(d),
        shape(m, x) == Some(state(m)),
        m.weight(w) == dense(m.n_embd, 1, 1),
    ensures
        shape(m, expr::norm(d, x, w)) == Some(state(m)),
{
    vstd::arithmetic::mul::lemma_mul_strictly_positive(m.n_head, m.head_dim);
    lemma_self_mod(m.n_embd);
    assert(shape(m, Expr::RmsNorm(Box::new(x), d.eps)) == Some(state(m)));
    assert(shape(m, Expr::Weight(w)) == Some(dense(m.n_embd, 1, 1)));
}

proof fn lemma_heads(m: ModelDims, d: PassDims, x: Expr, layer: usize, w: LayerWeight, n: i64)
    requires
        m.runs(d),
        shape(m, x) == Some(state(m)),
        n > 0,
        m.weight(Weight::Layer(layer, w)) == dense(m.n_embd, n * m.head_dim, 1),
    ensures
        shape(m, expr::heads(d, x, layer, w, n)) == Some(
            dense(m.head_dim, n as int, m.n_tokens),
        ),
{
    let p = Expr::MulMat(expr::weight(layer, w), Box::new(x));
    assert(shape(m, *expr::weight(layer, w)) == Some(dense(m.n_embd, n * m.head_dim, 1)));
    let s = dense(n * m.head_dim, m.n_tokens, 1);
    assert(shape(m, p) == Some(s));
    assert(s.elements() == d.head_dim * n * d.n_tokens) by {
        assert((n * m.head_dim) * m.n_tokens * 1 * 1 == m.head_dim * n * m.n_tokens)
            by (nonlinear_arith);
    }
}

proof fn lemma_rope(m: ModelDims, d: PassDims, x: Expr, n: int)
    requires
        m.runs(d),
        shape(m, x) == Some(dense(m.head_dim, n, m.n_tokens)),
    ensures
        shape(m, expr::rope(d, x)) == shape(m, x),
{
    assert(shape(m, Expr::Positions) == Some(dense(m.n_tokens, 1, 1)));
}

/// The write of per-head rows into a cache is a write between tensors of one size, and stays
/// within the cache.
proof fn lemma_write(m: ModelDims, d: PassDims, x: Expr, cache: Expr)
    requires
        m.runs(d),
        shape(m, x) == Some(dense(m.head_dim, m.n_head_kv, m.n_tokens)),
        shape(m, cache) == Some(dense(m.row(), m.n_ctx, 1)),
    ensures
        shape(
            m,
            Expr::Cpy(Box::new(expr::flatten(d, x)), Box::new(expr::write_slot(d, cache))),
        ) is Some,
{
    let row = m.row();
    let t = m.n_tokens;
    let c = Expr::Cont(Box::new(x));
    let s = dense(m.head_dim, m.n_head_kv, t);
    assert(shape(m, c) == Some(s));
    assert(d.row() == row);
    assert(s.elements() == d.row() * d.n_tokens) by {
        assert(m.head_dim * m.n_head_kv * t * 1 == (m.n_head_kv * m.head_dim) * t)
            by (nonlinear_arith);
    }
    assert(shape(m, expr::flatten(d, x)) == Some(dense(row, t, 1)));
    assert(d.offset + (d.n_tokens - 1) * d.stride + d.row() * 4 <= (row * m.n_ctx * 1 * 1) * 4) by {
        let stride = d.stride as int;
        assert((t - 1) * stride + stride == t * stride) by (nonlinear_arith);
        assert(m.n_ctx * stride == (row * m.n_ctx * 1 * 1) * 4) by (nonlinear_arith)
            requires
                stride == row * 4,
        ;
    }
    assert(shape(m, expr::write_slot(d, cache)) is Some);
}

/// The cache rows that attention reads are rows of the cache.
proof fn lemma_cached(m: ModelDims, d: PassDims, cache: Expr)
    requires
        m.runs(d),
        shape(m, cache) == Some(dense(m.row(), m.n_ctx, 1)),
    ensures
        shape(m, expr::cached_heads(d, cache)) == Some(
            dense(m.head_dim, m.n_head_kv, d.n_read as int),
        ),
{
    let row = m.row();
    let r = d.n_read as int;
    let v = Expr::View2(Box::new(cache), d.row(), d.n_read, d.stride, 0usize);
    assert(d.row() == row);
    assert(0 + (d.n_read - 1) * d.stride + d.row() * 4 <= (row * m.n_ctx * 1 * 1) * 4) by {
        let stride = d.stride as int;
        assert((r - 1) * stride + stride == r * stride) by (nonlinear_arith);
        assert(r * stride <= m.n_ctx * stride) by (nonlinear_arith)
            requires
                r <= m.n_ctx,
                stride >= 0,
        ;
        assert(m.n_ctx * stride == (row * m.n_ctx * 1 * 1) * 4) by (nonlinear_arith)
            requires
                stride == row * 4,
        ;
    }
    assert(shape(m, v) is Some);
    let c = Expr::Cont(Box::new(v));
    let s = dense(row, r, 1);
    assert(shape(m, c) == Some(s));
    assert(s.elements() == d.head_dim * d.n_head_kv * d.n_read) by {
        assert((m.n_head_kv * m.head_dim) * r * 1 * 1 == m.head_dim * m.n_head_kv * r)
            by (nonlinear_arith);
    }
}

proof fn lemma_attended(m: ModelDims, d: PassDims, x: Expr, layer: usize)
    requires
        m.runs(d),
        shape(m, x) == Some(state(m)),
    ensures
        shape(m, expr::attended(d, x, layer)) == Some(state(m)),
{
    let hd = m.head_dim;
    let t = m.n_tokens;
    let r = d.n_read as int;
    let normed = expr::attn_norm(d, x, layer);
    lemma_norm(m, d, x, Weight::Layer(layer, LayerWeight::AttnNorm));
    lemma_heads(m, d, normed, layer, LayerWeight::AttnQ, d.n_head);
    let q = expr::heads(d, normed, layer, LayerWeight::AttnQ, d.n_head);
    lemma_rope(m, d, q, m.n_head);
    let queries = expr::queries(d, x, layer);
    assert(shape(m, queries) == Some(
        Shape { n0: hd, n1: t, n2: m.n_head, n3: 1, contiguous: false },
    ));

    assert(shape(m, Expr::CacheK(layer)) == Some(dense(m.row(), m.n_ctx, 1)));
    assert(shape(m, Expr::CacheV(layer)) == Some(dense(m.row(), m.n_ctx, 1)));
    lemma_cached(m, d, Expr::CacheK(layer));
    lemma_cached(m, d, Expr::CacheV(layer));
    let ch = expr::cached_heads(d, Expr::CacheK(layer));
    assert(shape(m, Expr::Permute(Box::new(ch), 0u8, 2u8, 1u8, 3u8)) == Some(
        Shape { n0: hd, n1: r, n2: m.n_head_kv, n3: 1, contiguous: false },
    ));
    let keys = expr::keys(d, layer);
    assert(shape(m, keys) == Some(dense(hd, r, m.n_head_kv)));
    let cv = expr::cached_heads(d, Expr::CacheV(layer));
    assert(shape(m, Expr::Permute(Box::new(cv), 1u8, 2u8, 0u8, 3u8)) == Some(
        Shape { n0: r, n1: hd, n2: m.n_head_kv, n3: 1, contiguous: false },
    ));
    let values = expr::values(d, layer);
    assert(shape(m, values) == Some(dense(r, hd, m.n_head_kv)));

    let kq = Expr::MulMat(Box::new(keys), Box::new(queries));
    let scores_shape = dense(r, t, m.n_head);
    assert(shape(m, kq) == Some(scores_shape));
    let scaled = Expr::InvSqrtScale(Box::new(kq), d.head_dim);
    assert(shape(m, scaled) == Some(scores_shape));
    let attn = expr::attention(d, x, layer);
    if d.masked {
        assert(shape(m, Expr::Mask) == Some(dense(m.n_ctx, t, 1)));
    }
    assert(shape(m, attn) == Some(scores_shape));

    let mixed = Expr::MulMat(Box::new(values), Box::new(attn));
    assert(shape(m, mixed) == Some(dense(hd, t, m.n_head)));
    let turned = Expr::Permute(Box::new(mixed), 0u8, 2u8, 1u8, 3u8);
    assert(shape(m, turned) == Some(
        Shape { n0: hd, n1: m.n_head, n2: t, n3: 1, contiguous: false },
    ));
    let cont = Expr::Cont(Box::new(turned));
    let s = dense(hd, m.n_head, t);
    assert(shape(m, cont) == Some(s));
    assert(s.elements() == d.n_embd * d.n_tokens) by {
        assert(hd * m.n_head * t * 1 == (m.n_head * hd) * t) by (nonlinear_arith);
    }
}

proof fn lemma_residual(m: ModelDims, x: Expr, y: Expr)
    requires
        m.consistent(),
        shape(m, x) == Some(state(m)),
        shape(m, y) == Some(state(m)),
    ensures
        shape(m, Expr::Add(Box::new(x), Box::new(y))) == Some(state(m)),
{
    vstd::arithmetic::mul::lemma_mul_strictly_positive(m.n_head, m.head_dim);
    lemma_self_mod(m.n_embd);
    lemma_self_mod(m.n_tokens);
}

proof fn lemma_feed_forward(m: ModelDims, h: Expr, layer: usize)
    requires
        m.consistent(),
        shape(m, h) == Some(state(m)),
    ensures
        shape(m, expr::feed_forward(h, layer)) == Some(state(m)),
{
    let inner = dense(m.n_ff, m.n_tokens, 1);
    let gate_in = Expr::MulMat(expr::weight(layer, LayerWeight::FfnGate), Box::new(h));
    let up = Expr::MulMat(expr::weight(layer, LayerWeight::FfnUp), Box::new(h));
    assert(shape(m, *expr::weight(layer, LayerWeight::FfnGate)) == Some(
        dense(m.n_embd, m.n_ff, 1),
    ));
    assert(shape(m, *expr::weight(layer, LayerWeight::FfnUp)) == Some(
        dense(m.n_embd, m.n_ff, 1),
    ));
    assert(shape(m, *expr::weight(layer, LayerWeight::FfnDown)) == Some(
        dense(m.n_ff, m.n_embd, 1),
    ));
    assert(shape(m, gate_in) == Some(inner));
    assert(shape(m, up) == Some(inner));
    let gate = Expr::Silu(Box::new(gate_in));
    assert(shape(m, gate) == Some(inner));
    lemma_self_mod(m.n_ff);
    lemma_self_mod(m.n_tokens);
    let gated = Expr::Mul(Box::new(gate), Box::new(up));
    assert(shape(m, gated) == Some(inner));
}

proof fn lemma_layer(m: ModelDims, d: PassDims, x: Expr, layer: usize)
    requires
        m.runs(d),
        shape(m, x) == Some(state(m)),
    ensures
        shape(m, expr::layer_output(d, x, layer)) == Some(state(m)),
        shape(m, expr::key_write(d, x, layer)) is Some,
        shape(m, expr::value_write(d, x, layer)) is Some,
{
    let normed = expr::attn_norm(d, x, layer);
    lemma_norm(m, d, x, Weight::Layer(layer, LayerWeight::AttnNorm));
    lemma_heads(m, d, normed, layer, LayerWeight::AttnK, d.n_head_kv);
    lemma_heads(m, d, normed, layer, LayerWeight::AttnV, d.n_head_kv);
    let k = expr::heads(d, normed, layer, LayerWeight::AttnK, d.n_head_kv);
    let v = expr::heads(d, normed, layer, LayerWeight::AttnV, d.n_head_kv);
    lemma_rope(m, d, k, m.n_head_kv);
    assert(shape(m, Expr::CacheK(layer)) == Some(dense(m.row(), m.n_ctx, 1)));
    assert(shape(m, Expr::CacheV(layer)) == Some(dense(m.row(), m.n_ctx, 1)));
    lemma_write(m, d, expr::rope(d, k), Expr::CacheK(layer));
    lemma_write(m, d, v, Expr::CacheV(layer));

    lemma_attended(m, d, x, layer);
    let out = Expr::MulMat(
        expr::weight(layer, LayerWeight::AttnOutput),
        Box::new(expr::attended(d, x, layer)),
    );
    assert(shape(m, *expr::weight(layer, LayerWeight::AttnOutput)) == Some(
        dense(m.n_embd, m.n_embd, 1),
    ));
    assert(shape(m, out) == Some(state(m)));
    lemma_residual(m, x, out);
    let a = expr::after_attention(d, x, layer);
    let h = expr::norm(d, a, Weight::Layer(layer, LayerWeight::FfnNorm));
    lemma_norm(m, d, a, Weight::Layer(layer, LayerWeight::FfnNorm));
    lemma_feed_forward(m, h, layer);
    lemma_residual(m, a, expr::feed_forward(h, layer));
}

/// Every layer accepts what the layer before it leaves: the hidden state keeps one column of
/// `n_embd` elements for each token, however many layers it has passed.
pub proof fn hidden_state_keeps_its_shape(m: ModelDims, d: PassDims, n: nat)
    requires
        m.runs(d),
    ensures
        shape(m, expr::hidden(d, n)) == Some(dense(m.n_embd, m.n_tokens, 1)),
    decreases n,
{
    if n == 0 {
        assert(shape(m, Expr::Weight(Weight::TokenEmbd)) == Some(
            dense(m.n_embd, m.n_vocab, 1),
        ));
        assert(shape(m, Expr::Tokens) == Some(dense(m.n_tokens, 1, 1)));
    } else {
        hidden_state_keeps_its_shape(m, d, (n - 1) as nat);
        lemma_layer(m, d, expr::hidden(d, (n - 1) as nat), (n - 1) as usize);
    }
}

/// Every cache write of a pass fits: rows of one size, within the cache.
pub proof fn cache_writes_fit(m: ModelDims, d: PassDims, n: nat)
    requires
        m.runs(d),
    ensures
        expr::cache_writes(d, n).len() == 2 * n,
        forall|i: int|
            0 <= i < expr::cache_writes(d, n).len() ==> shape(
                m,
                #[trigger] expr::cache_writes(d, n)[i],
            ) is Some,
    decreases n,
{
    if n > 0 {
        cache_writes_fit(m, d, (n - 1) as nat);
        hidden_state_keeps_its_shape(m, d, (n - 1) as nat);
        lemma_layer(m, d, expr::hidden(d, (n - 1) as nat), (n - 1) as usize);
    }
}

/// A pass that keeps every position leaves one column of `n_vocab` logits for each token.
pub proof fn logits_of_every_token(m: ModelDims, d: PassDims, n: nat, head: Weight)
    requires
        m.runs(d),
        head == Weight::Output || head == Weight::TokenEmbd,
    ensures
        shape(m, expr::all_logits(d, n, head)) == Some(dense(m.n_vocab, m.n_tokens, 1)),
{
    hidden_state_keeps_its_shape(m, d, n);
    lemma_norm(m, d, expr::hidden(d, n), Weight::OutputNorm);
    assert(shape(m, Expr::Weight(head)) == Some(dense(m.n_embd, m.n_vocab, 1)));
}

/// A pass that keeps the last position alone leaves one column of `n_vocab` logits.
pub proof fn logits_of_the_last_token(
    m: ModelDims,
    d: PassDims,
    n: nat,
    head: Weight,
    last: usize,
)
    requires
        m.runs(d),
        head == Weight::Output || head == Weight::TokenEmbd,
        last == (m.n_tokens - 1) * m.n_embd * 4,
    ensures
        shape(m, expr::last_logits(d, n, head, last)) == Some(dense(m.n_vocab, 1, 1)),
{
    hidden_state_keeps_its_shape(m, d, n);
    lemma_norm(m, d, expr::hidden(d, n), Weight::OutputNorm);
    assert(shape(m, Expr::Weight(head)) == Some(dense(m.n_embd, m.n_vocab, 1)));
    let f = expr::final_state(d, n);
    assert(last + m.n_embd * 4 <= (m.n_embd * m.n_tokens * 1 * 1) * 4) by (nonlinear_arith)
        requires
            last == (m.n_tokens - 1) * m.n_embd * 4,
    ;
    assert(shape(m, Expr::View1(Box::new(f), d.n_embd, last)) == Some(dense(m.n_embd, 1, 1)));
}

/// Where an expression has a shape, each part of it has one: every operation in it accepts its
/// operands.
pub proof fn parts_are_well_shaped(m: ModelDims, a: Expr, e: Expr)
    requires
        shape(m, e) is Some,
        plan::part_of(a, e),
    ensures
        shape(m, a) is Some,
    decreases e,
{
    if a != e {
        match e {
            Expr::GetRows(x, y)
            | Expr::Mul(x, y)
            | Expr::MulMat(x, y)
            | Expr::Add(x, y)
            | Expr::Cpy(x, y)
            | Expr::SoftMaxMasked(x, y)
            | Expr::Rope(x, y, _, _) => {
                if plan::part_of(a, *x) {
                    parts_are_well_shaped(m, a, *x);
                } else {
                    parts_are_well_shaped(m, a, *y);
                }
            },
            Expr::RmsNorm(x, _)
            | Expr::Silu(x)
            | Expr::Cont(x)
            | Expr::SoftMax(x)
            | Expr::Reshape2(x, _, _)
            | Expr::Reshape3(x, _, _, _)
            | Expr::View1(x, _, _)
            | Expr::View2(x, _, _, _, _)
            | Expr::Permute(x, _, _, _, _)
            | Expr::InvSqrtScale(x, _) => {
                parts_are_well_shaped(m, a, *x);
            },
            _ => {},
        }
    }
}

} // verus!
