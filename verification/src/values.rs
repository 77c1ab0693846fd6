//! What a forward pass computes, number by number.
//!
//! [`value`] gives the elements of an expression over any [`Arithmetic`]: a choice of numbers, and
//! of what sums, products, inner products, norms, rotations and softmaxes are. An operation on a
//! column of a tensor does not depend on the columns beside it. The theorems hold in every
//! arithmetic in which a hidden key has no weight: the exponential of a score that the mask has
//! lowered is zero, and so is its product with any number. They say which numbers of two passes
//! agree.

use vstd::prelude::*;

use crate::expr;
use crate::expr::{Expr, PassDims};
use crate::plan;
use crate::plan::{GraphPlan, Op};
use crate::quantum::{HIDDEN, VISIBLE};
use crate::shapes::{ModelDims, Shape};
use crate::weights::{LayerWeight, Weight};

verus! {

/// Numbers of type `E`, and what is done with them.
#[verifier::reject_recursive_types(E)]
pub struct Arithmetic<E> {
    /// The number of the bits of a float.
    pub number: spec_fn(u32) -> E,
    /// The number of an integer.
    pub integer: spec_fn(i32) -> E,
    pub sum: spec_fn(E, E) -> E,
    pub product: spec_fn(E, E) -> E,
    pub silu: spec_fn(E) -> E,
    /// A number times one over the square root of an integer.
    pub shrink: spec_fn(E, i64) -> E,
    /// The inner product of two columns.
    pub dot: spec_fn(Seq<E>, Seq<E>) -> E,
    /// A column, normalised with an epsilon, given by its bits.
    pub norm: spec_fn(Seq<E>, u32) -> Seq<E>,
    /// A column, rotated by a position over some dimensions, with a frequency base.
    pub rotate: spec_fn(Seq<E>, i32, i64, u32) -> Seq<E>,
    pub softmax: spec_fn(Seq<E>) -> Seq<E>,
}

/// A tensor of up to three dimensions, innermost first, with its elements.
pub struct Tensor<E> {
    pub n0: int,
    pub n1: int,
    pub n2: int,
    pub at: spec_fn(int, int, int) -> E,
}

impl<E> Tensor<E> {
    /// A column of the tensor.
    pub open spec fn column(self, j: int, k: int) -> Seq<E> {
        Seq::new(self.n0 as nat, |i: int| (self.at)(i, j, k))
    }

    /// The element at a place of the contiguous order.
    pub open spec fn flat(self, i: int) -> E {
        (self.at)(i % self.n0, i / self.n0 % self.n1, i / self.n0 / self.n1)
    }

    /// The tensor has these dimensions.
    pub open spec fn sized(self, n0: int, n1: int, n2: int) -> bool {
        self.n0 == n0 && self.n1 == n1 && self.n2 == n2
    }

    /// The same elements, in the contiguous order, in other dimensions.
    pub open spec fn reshaped(self, x: int, y: int, z: int) -> Tensor<E> {
        Tensor { n0: x, n1: y, n2: z, at: |i: int, j: int, k: int| self.flat(i + x * (j + y * k)) }
    }

    /// `rows` rows of `width` elements, `stride` bytes apart, from byte `at` on.
    pub open spec fn viewed(self, width: int, rows: int, stride: int, at: int) -> Tensor<E> {
        Tensor {
            n0: width,
            n1: rows,
            n2: 1,
            at: |i: int, j: int, k: int| self.flat(at / 4 + stride / 4 * j + i),
        }
    }

    /// `len` elements of the contiguous order, from byte `at` on.
    pub open spec fn taken(self, at: int, len: int) -> Seq<E> {
        Seq::new(len as nat, |i: int| self.flat(at / 4 + i))
    }

    /// The dimensions in another order: the first moves to place `p`, the second to place `q`.
    pub open spec fn permuted(self, p: u8, q: u8, r: u8, s: u8) -> Tensor<E> {
        let sizes = Shape { n0: self.n0, n1: self.n1, n2: self.n2, n3: 1, contiguous: true };
        let moved = sizes.permuted(p, q, r, s);
        Tensor {
            n0: moved.n0,
            n1: moved.n1,
            n2: moved.n2,
            at: |i: int, j: int, k: int|
                (self.at)(pick(p, i, j, k), pick(q, i, j, k), pick(r, i, j, k)),
        }
    }

    /// The rows that some integers select.
    pub open spec fn rows(self, ids: Seq<i32>) -> Tensor<E> {
        Tensor {
            n0: self.n0,
            n1: ids.len() as int,
            n2: 1,
            at: |i: int, j: int, k: int| (self.at)(i, ids[j] as int, 0),
        }
    }
}

/// The index at a place, of three.
pub open spec fn pick(place: u8, i: int, j: int, k: int) -> int {
    if place == 0 {
        i
    } else if place == 1 {
        j
    } else if place == 2 {
        k
    } else {
        0
    }
}

impl<E> Arithmetic<E> {
    /// The columns, normalised.
    pub open spec fn normed(self, a: Tensor<E>, eps: u32) -> Tensor<E> {
        Tensor {
            at: |i: int, j: int, k: int| (self.norm)(a.column(j, k), eps)[i],
            ..a
        }
    }

    /// The elementwise product. The second operand is repeated as often as needed.
    pub open spec fn times(self, a: Tensor<E>, b: Tensor<E>) -> Tensor<E> {
        Tensor {
            at: |i: int, j: int, k: int|
                (self.product)((a.at)(i, j, k), (b.at)(i % b.n0, j % b.n1, k % b.n2)),
            ..a
        }
    }

    /// The elementwise sum. The second operand is repeated as often as needed.
    pub open spec fn plus(self, a: Tensor<E>, b: Tensor<E>) -> Tensor<E> {
        Tensor {
            at: |i: int, j: int, k: int|
                (self.sum)((a.at)(i, j, k), (b.at)(i % b.n0, j % b.n1, k % b.n2)),
            ..a
        }
    }

    /// The matrix product: inner products of the columns of both. The matrices of the first
    /// operand are repeated, each for as many of the second in a row.
    pub open spec fn mul_mat(self, a: Tensor<E>, b: Tensor<E>) -> Tensor<E> {
        Tensor {
            n0: a.n1,
            n1: b.n1,
            n2: b.n2,
            at: |i: int, j: int, k: int|
                (self.dot)(a.column(i, k / (b.n2 / a.n2)), b.column(j, k)),
        }
    }

    /// The elementwise SiLU.
    pub open spec fn silus(self, a: Tensor<E>) -> Tensor<E> {
        Tensor { at: |i: int, j: int, k: int| (self.silu)((a.at)(i, j, k)), ..a }
    }

    /// The elements times one over the square root of an integer.
    pub open spec fn shrunk(self, a: Tensor<E>, n: i64) -> Tensor<E> {
        Tensor { at: |i: int, j: int, k: int| (self.shrink)((a.at)(i, j, k), n), ..a }
    }

    /// The columns, rotated by the positions along the third dimension.
    pub open spec fn rotated(self, a: Tensor<E>, at: Seq<i32>, n_rot: i64, base: u32) -> Tensor<E> {
        Tensor {
            at: |i: int, j: int, k: int| (self.rotate)(a.column(j, k), at[k], n_rot, base)[i],
            ..a
        }
    }

    /// The softmax of the columns.
    pub open spec fn softmaxes(self, a: Tensor<E>) -> Tensor<E> {
        Tensor { at: |i: int, j: int, k: int| (self.softmax)(a.column(j, k))[i], ..a }
    }

    /// The columns plus the columns of a mask, which is the same along the third dimension.
    pub open spec fn lowered(self, a: Tensor<E>, mask: Tensor<E>) -> Tensor<E> {
        Tensor {
            at: |i: int, j: int, k: int| (self.sum)((a.at)(i, j, k), (mask.at)(i, j, 0)),
            ..a
        }
    }

    /// What a query gets from the values `v` of all keys, where its scores are `s` and it sees the
    /// keys up to `seen`.
    pub open spec fn attend(self, s: Seq<E>, v: Seq<E>, seen: int) -> E {
        let masked = Seq::new(
            s.len(),
            |k: int|
                (self.sum)(
                    s[k],
                    (self.number)(if k <= seen {
                        VISIBLE
                    } else {
                        HIDDEN
                    }),
                ),
        );
        let weights = Seq::new(s.len(), |k: int| (self.softmax)(masked)[k]);
        (self.dot)(v, weights)
    }

    /// Hidden keys have no weight: neither their scores nor their values make a difference.
    pub open spec fn hides(self) -> bool {
        forall|s: Seq<E>, t: Seq<E>, v: Seq<E>, w: Seq<E>, seen: int|
            #![trigger self.attend(s, v, seen), self.attend(t, w, seen)]
            {
                &&& s.len() == t.len()
                &&& s.len() == v.len()
                &&& s.len() == w.len()
                &&& 0 <= seen < s.len()
                &&& forall|k: int| 0 <= k <= seen ==> s[k] == #[trigger] t[k]
                &&& forall|k: int| 0 <= k <= seen ==> v[k] == #[trigger] w[k]
            } ==> self.attend(s, v, seen) == self.attend(t, w, seen)
    }
}

/// What the leaves of an expression stand for.
pub struct Values<E> {
    pub weights: spec_fn(Weight) -> Tensor<E>,
    pub tokens: Seq<i32>,
    pub positions: Seq<i32>,
    /// The bits of the mask, one column for each token.
    pub mask: Seq<u32>,
    /// Elements of one cache row.
    pub width: int,
    /// Number of cache rows.
    pub rows: int,
    /// The keys of every layer, row after row.
    pub k: Map<usize, Seq<E>>,
    /// The values of every layer, row after row.
    pub v: Map<usize, Seq<E>>,
}

/// The integers of an expression that stands for some.
pub open spec fn integers<E>(u: Values<E>, e: Expr) -> Seq<i32> {
    match e {
        Expr::Tokens => u.tokens,
        Expr::Positions => u.positions,
        _ => Seq::empty(),
    }
}

/// A cache as a tensor of rows.
pub open spec fn cache<E>(width: int, rows: int, held: Seq<E>) -> Tensor<E> {
    Tensor { n0: width, n1: rows, n2: 1, at: |i: int, j: int, k: int| held[i + width * j] }
}

/// Integers as a tensor.
pub open spec fn listed<E>(ar: Arithmetic<E>, ids: Seq<i32>) -> Tensor<E> {
    Tensor { n0: ids.len() as int, n1: 1, n2: 1, at: |i: int, j: int, k: int| (ar.integer)(ids[i]) }
}

/// A mask of columns of `n` entries.
pub open spec fn masked<E>(ar: Arithmetic<E>, bits: Seq<u32>, n: int, columns: int) -> Tensor<E> {
    Tensor {
        n0: n,
        n1: columns,
        n2: 1,
        at: |i: int, j: int, k: int| (ar.number)(bits[i + j * n]),
    }
}

/// The elements of an expression.
pub open spec fn value<E>(ar: Arithmetic<E>, u: Values<E>, e: Expr) -> Tensor<E>
    decreases e,
{
    match e {
        Expr::Weight(w) => (u.weights)(w),
        Expr::Tokens => listed(ar, u.tokens),
        Expr::Positions => listed(ar, u.positions),
        Expr::Mask => masked(ar, u.mask, u.rows, u.tokens.len() as int),
        Expr::CacheK(l) => cache(u.width, u.rows, u.k[l]),
        Expr::CacheV(l) => cache(u.width, u.rows, u.v[l]),
        Expr::GetRows(a, b) => value(ar, u, *a).rows(integers(u, *b)),
        Expr::RmsNorm(a, eps) => ar.normed(value(ar, u, *a), eps),
        Expr::Mul(a, b) => ar.times(value(ar, u, *a), value(ar, u, *b)),
        Expr::MulMat(a, b) => ar.mul_mat(value(ar, u, *a), value(ar, u, *b)),
        Expr::Add(a, b) => ar.plus(value(ar, u, *a), value(ar, u, *b)),
        Expr::Silu(a) => ar.silus(value(ar, u, *a)),
        Expr::Reshape2(a, x, y) => value(ar, u, *a).reshaped(x as int, y as int, 1),
        Expr::Reshape3(a, x, y, z) => value(ar, u, *a).reshaped(x as int, y as int, z as int),
        Expr::Rope(a, b, n_rot, base) => ar.rotated(value(ar, u, *a), integers(u, *b), n_rot, base),
        Expr::Cont(a) => value(ar, u, *a),
        Expr::View1(a, len, at) => value(ar, u, *a).viewed(len as int, 1, 0, at as int),
        Expr::View2(a, width, rows, stride, at) => value(ar, u, *a).viewed(
            width as int,
            rows as int,
            stride as int,
            at as int,
        ),
        Expr::Cpy(a, b) => value(ar, u, *a),
        Expr::Permute(a, p, q, r, s) => value(ar, u, *a).permuted(p, q, r, s),
        Expr::InvSqrtScale(a, n) => ar.shrunk(value(ar, u, *a), n),
        Expr::SoftMax(a) => ar.softmaxes(value(ar, u, *a)),
        Expr::SoftMaxMasked(a, b) => ar.softmaxes(ar.lowered(value(ar, u, *a), value(ar, u, *b))),
    }
}

/// A cache after a tensor was written into rows of it.
pub open spec fn written<E>(
    held: Seq<E>,
    source: Tensor<E>,
    width: int,
    rows: int,
    stride: int,
    at: int,
) -> Seq<E> {
    let s = stride / 4;
    Seq::new(
        held.len(),
        |f: int|
            {
                let g = f - at / 4;
                if 0 <= g && g / s < rows && g % s < width {
                    source.flat(g % s + width * (g / s))
                } else {
                    held[f]
                }
            },
    )
}

/// The leaves after an expression was computed: a write into a cache changes it.
pub open spec fn after<E>(ar: Arithmetic<E>, u: Values<E>, e: Expr) -> Values<E> {
    match e {
        Expr::Cpy(a, slot) => match *slot {
            Expr::View2(c, width, rows, stride, at) => {
                let source = value(ar, u, *a);
                match *c {
                    Expr::CacheK(l) => Values {
                        k: u.k.insert(
                            l,
                            written(
                                u.k[l],
                                source,
                                width as int,
                                rows as int,
                                stride as int,
                                at as int,
                            ),
                        ),
                        ..u
                    },
                    Expr::CacheV(l) => Values {
                        v: u.v.insert(
                            l,
                            written(
                                u.v[l],
                                source,
                                width as int,
                                rows as int,
                                stride as int,
                                at as int,
                            ),
                        ),
                        ..u
                    },
                    _ => u,
                }
            },
            _ => u,
        },
        _ => u,
    }
}

/// The leaves after a schedule has run.
pub open spec fn ran<E>(ar: Arithmetic<E>, u: Values<E>, schedule: Seq<Expr>) -> Values<E>
    decreases schedule.len(),
{
    if schedule.len() == 0 {
        u
    } else {
        after(ar, ran(ar, u, schedule.drop_last()), schedule.last())
    }
}

/// A masked pass over a model, with what it is given.
pub struct Pass<E> {
    pub d: PassDims,
    /// The sizes of the model and of the cache.
    pub m: ModelDims,
    /// The position of the first token.
    pub start: int,
    pub n_layer: nat,
    /// What the leaves stand for before the pass.
    pub given: Values<E>,
}

impl<E> Pass<E> {
    /// The pass runs over the model, and its inputs are those of consecutive tokens under a causal
    /// mask.
    pub open spec fn fits(self) -> bool {
        let u = self.given;
        let m = self.m;
        &&& m.runs(self.d)
        &&& self.d.masked
        &&& self.d.offset == self.start * self.d.stride
        &&& 0 <= self.start
        &&& self.start + m.n_tokens <= m.n_ctx
        &&& self.n_layer <= usize::MAX
        &&& u.width == m.row()
        &&& u.rows == m.n_ctx
        &&& u.tokens.len() == m.n_tokens
        &&& u.positions.len() == m.n_tokens
        &&& forall|i: int|
            0 <= i < m.n_tokens ==> #[trigger] u.positions[i] == (self.start + i) as i32
        &&& forall|q: int, k: int|
            0 <= q < m.n_tokens && 0 <= k < m.n_ctx ==> #[trigger] u.mask[k + q * m.n_ctx] == (if k
                <= self.start + q {
                VISIBLE
            } else {
                HIDDEN
            })
        &&& forall|w: Weight|
            (#[trigger] (u.weights)(w)).sized(m.weight(w).n0, m.weight(w).n1, m.weight(w).n2)
        &&& forall|l: usize|
            l < self.n_layer ==> (#[trigger] u.k[l]).len() == m.row() * m.n_ctx
        &&& forall|l: usize|
            l < self.n_layer ==> (#[trigger] u.v[l]).len() == m.row() * m.n_ctx
    }

    /// What the leaves stand for once the pass has run.
    pub open spec fn end(self, ar: Arithmetic<E>) -> Values<E> {
        ran(ar, self.given, expr::cache_writes(self.d, self.n_layer))
    }

    /// The logits of every token.
    pub open spec fn logits(self, ar: Arithmetic<E>, head: Weight) -> Tensor<E> {
        value(ar, self.end(ar), expr::all_logits(self.d, self.n_layer, head))
    }

    /// The hidden state after the first `n` layers.
    pub open spec fn state(self, ar: Arithmetic<E>, n: nat) -> Tensor<E> {
        value(ar, self.end(ar), expr::hidden(self.d, n))
    }

    /// The keys of a layer in a cache row, once the pass has run.
    pub open spec fn key_row(self, ar: Arithmetic<E>, l: usize, r: int) -> Seq<E> {
        row_of(self.end(ar).k[l], self.m.row(), r)
    }

    /// The values of a layer in a cache row, once the pass has run.
    pub open spec fn value_row(self, ar: Arithmetic<E>, l: usize, r: int) -> Seq<E> {
        row_of(self.end(ar).v[l], self.m.row(), r)
    }
}

/// A row of a cache.
pub open spec fn row_of<E>(held: Seq<E>, width: int, r: int) -> Seq<E> {
    Seq::new(width as nat, |c: int| held[c + width * r])
}

/// A place in a row of a table: the row and the place in it.
proof fn lemma_place(i: int, n: int, j: int)
    requires
        0 <= i < n,
        0 <= j,
    ensures
        (i + n * j) % n == i,
        (i + n * j) / n == j,
{
    assert(i + n * j == j * n + i) by (nonlinear_arith);
    vstd::arithmetic::div_mod::lemma_fundamental_div_mod_converse(i + n * j, n, j, i);
}

/// Values of expressions do not depend on caches that the expressions do not read.
proof fn lemma_unread<E>(ar: Arithmetic<E>, u: Values<E>, w: Values<E>, e: Expr)
    requires
        u == (Values { k: u.k, v: u.v, ..w }),
        forall|l: usize| #[trigger]
            expr::reads_cache(e, l) ==> u.k[l] == w.k[l] && u.v[l] == w.v[l],
    ensures
        value(ar, u, e) == value(ar, w, e),
    decreases e,
{
    match e {
        Expr::CacheK(l) | Expr::CacheV(l) => {
            assert(expr::reads_cache(e, l));
        },
        Expr::Weight(_) | Expr::Tokens | Expr::Positions | Expr::Mask => {},
        Expr::GetRows(a, b)
        | Expr::Mul(a, b)
        | Expr::MulMat(a, b)
        | Expr::Add(a, b)
        | Expr::SoftMaxMasked(a, b) => {
            assert(forall|l: usize| #[trigger]
                expr::reads_cache(*a, l) ==> expr::reads_cache(e, l));
            assert(forall|l: usize| #[trigger]
                expr::reads_cache(*b, l) ==> expr::reads_cache(e, l));
            lemma_unread(ar, u, w, *a);
            lemma_unread(ar, u, w, *b);
        },
        Expr::Rope(a, _, _, _)
        | Expr::RmsNorm(a, _)
        | Expr::Silu(a)
        | Expr::Cont(a)
        | Expr::SoftMax(a)
        | Expr::Reshape2(a, _, _)
        | Expr::Reshape3(a, _, _, _)
        | Expr::View1(a, _, _)
        | Expr::View2(a, _, _, _, _)
        | Expr::Cpy(a, _)
        | Expr::Permute(a, _, _, _, _)
        | Expr::InvSqrtScale(a, _) => {
            assert(forall|l: usize| #[trigger]
                expr::reads_cache(*a, l) ==> expr::reads_cache(e, l));
            lemma_unread(ar, u, w, *a);
        },
    }
}

/// The keys that a layer writes, as cache rows, where `x` enters the layer.
pub open spec fn new_keys(d: PassDims, x: Expr, layer: usize) -> Expr {
    expr::flatten(
        d,
        expr::rope(
            d,
            expr::heads(
                d,
                expr::attn_norm(d, x, layer),
                layer,
                LayerWeight::AttnK,
                d.n_head_kv,
            ),
        ),
    )
}

/// The values that a layer writes, as cache rows, where `x` enters the layer.
pub open spec fn new_values(d: PassDims, x: Expr, layer: usize) -> Expr {
    expr::flatten(
        d,
        expr::heads(d, expr::attn_norm(d, x, layer), layer, LayerWeight::AttnV, d.n_head_kv),
    )
}

/// A cache after a pass has written its rows.
pub open spec fn updated<E>(d: PassDims, held: Seq<E>, source: Tensor<E>) -> Seq<E> {
    written(held, source, d.row() as int, d.n_tokens as int, d.stride as int, d.offset as int)
}

/// The writes of a layer read the caches of earlier layers alone.
proof fn lemma_writes_read(d: PassDims, n: nat, l: usize, other: usize)
    requires
        l < n <= usize::MAX,
    ensures
        expr::reads_cache(new_keys(d, expr::hidden(d, l as nat), l), other) ==> other < l,
        expr::reads_cache(new_values(d, expr::hidden(d, l as nat), l), other) ==> other < l,
{
    let x = expr::hidden(d, l as nat);
    let head = Weight::Output;
    let all = expr::cache_writes(d, n).push(expr::all_logits(d, n, head));
    expr::caches_are_written_before_they_are_read(d, n, head, 0, 2 * l as int, other);
    expr::caches_are_written_before_they_are_read(d, n, head, 0, 2 * l as int + 1, other);
    expr::caches_are_written_before_they_are_read(d, n, head, 0, 2 * l as int, l);
    assert(all[2 * l as int] == expr::key_write(d, x, l));
    assert(all[2 * l as int + 1] == expr::value_write(d, x, l));
    assert(expr::reads_cache(expr::key_write(d, x, l), other) == expr::reads_cache(
        new_keys(d, x, l),
        other,
    ));
    assert(expr::reads_cache(expr::value_write(d, x, l), other) == expr::reads_cache(
        new_values(d, x, l),
        other,
    ));
}

/// What a schedule of cache writes leaves: every layer's cache holds the rows that the layer wrote,
/// computed from what the caches hold at the end, and nothing else has changed.
proof fn lemma_ran<E>(ar: Arithmetic<E>, u: Values<E>, d: PassDims, n: nat)
    requires
        n <= usize::MAX,
    ensures
        ({
            let w = ran(ar, u, expr::cache_writes(d, n));
            &&& w == (Values { k: w.k, v: w.v, ..u })
            &&& forall|l: usize| #![trigger w.k[l]]
                w.k[l] == (if l < n {
                    updated(d, u.k[l], value(ar, w, new_keys(d, expr::hidden(d, l as nat), l)))
                } else {
                    u.k[l]
                })
            &&& forall|l: usize| #![trigger w.v[l]]
                w.v[l] == (if l < n {
                    updated(d, u.v[l], value(ar, w, new_values(d, expr::hidden(d, l as nat), l)))
                } else {
                    u.v[l]
                })
        }),
    decreases n,
{
    if n > 0 {
        let p = (n - 1) as nat;
        let l0 = p as usize;
        let x = expr::hidden(d, p);
        lemma_ran(ar, u, d, p);
        let front = expr::cache_writes(d, p);
        let w0 = ran(ar, u, front);
        let kw = expr::key_write(d, x, l0);
        let vw = expr::value_write(d, x, l0);
        let w1 = after(ar, w0, kw);
        let w2 = after(ar, w1, vw);
        let all = expr::cache_writes(d, n);
        assert(all == front.push(kw).push(vw));
        assert(all.drop_last() =~= front.push(kw));
        assert(front.push(kw).drop_last() =~= front);
        assert(ran(ar, u, front.push(kw)) == w1);
        assert(ran(ar, u, all) == w2);
        assert forall|l: usize| l < n implies value(
            ar,
            w0,
            #[trigger] new_keys(d, expr::hidden(d, l as nat), l),
        ) == value(ar, w2, new_keys(d, expr::hidden(d, l as nat), l)) by {
            assert forall|o: usize| #[trigger]
                expr::reads_cache(
                    new_keys(d, expr::hidden(d, l as nat), l),
                    o,
                ) implies w0.k[o] == w2.k[o] && w0.v[o] == w2.v[o] by {
                lemma_writes_read(d, n, l, o);
            }
            lemma_unread(ar, w0, w2, new_keys(d, expr::hidden(d, l as nat), l));
        }
        assert forall|l: usize| l < n implies value(
            ar,
            w0,
            #[trigger] new_values(d, expr::hidden(d, l as nat), l),
        ) == value(ar, w2, new_values(d, expr::hidden(d, l as nat), l)) && value(
            ar,
            w1,
            new_values(d, expr::hidden(d, l as nat), l),
        ) == value(ar, w2, new_values(d, expr::hidden(d, l as nat), l)) by {
            let e = new_values(d, expr::hidden(d, l as nat), l);
            assert forall|o: usize| #[trigger] expr::reads_cache(e, o) implies w0.k[o] == w2.k[o]
                && w0.v[o] == w2.v[o] && w1.k[o] == w2.k[o] && w1.v[o] == w2.v[o] by {
                lemma_writes_read(d, n, l, o);
            }
            lemma_unread(ar, w0, w2, e);
            lemma_unread(ar, w1, w2, e);
        }
        let nk = new_keys(d, x, l0);
        let nv = new_values(d, x, l0);
        assert(w1.k == w0.k.insert(l0, updated(d, w0.k[l0], value(ar, w0, nk))));
        assert(w2.v == w1.v.insert(l0, updated(d, w1.v[l0], value(ar, w1, nv))));
    }
}

/// The rows of a cache after a pass has written its own: each of these is a column of what was
/// written, and all others are as before.
proof fn lemma_updated<E>(
    d: PassDims,
    m: ModelDims,
    start: int,
    held: Seq<E>,
    source: Tensor<E>,
    r: int,
)
    requires
        m.runs(d),
        d.offset == start * d.stride,
        0 <= start,
        start + m.n_tokens <= m.n_ctx,
        held.len() == m.row() * m.n_ctx,
        source.sized(m.row(), m.n_tokens, 1),
        0 <= r < m.n_ctx,
    ensures
        row_of(updated(d, held, source), m.row(), r) == (if start <= r < start + m.n_tokens {
            source.column(r - start, 0)
        } else {
            row_of(held, m.row(), r)
        }),
        updated(d, held, source).len() == held.len(),
{
    let w = m.row();
    let new = updated(d, held, source);
    assert(w > 0) by {
        vstd::arithmetic::mul::lemma_mul_strictly_positive(m.n_head_kv, m.head_dim);
    }
    assert(d.row() == w);
    assert(d.stride as int / 4 == w);
    assert(d.offset as int / 4 == w * start) by {
        assert(start * (w * 4) == (w * start) * 4) by (nonlinear_arith);
    }
    let right = if start <= r < start + m.n_tokens {
        source.column(r - start, 0)
    } else {
        row_of(held, w, r)
    };
    assert forall|c: int| 0 <= c < w implies row_of(new, w, r)[c] == right[c] by {
        let f = c + w * r;
        let g = f - w * start;
        assert(0 <= f < w * m.n_ctx) by (nonlinear_arith)
            requires
                0 <= c < w,
                0 <= r < m.n_ctx,
                f == c + w * r,
        ;
        if start <= r {
            assert(g == c + w * (r - start)) by (nonlinear_arith)
                requires
                    g == c + w * r - w * start,
            ;
            assert(g >= 0) by (nonlinear_arith)
                requires
                    g == c + w * (r - start),
                    r >= start,
                    c >= 0,
                    w > 0,
            ;
            lemma_place(c, w, r - start);
            if r < start + m.n_tokens {
                let t = r - start;
                lemma_place(c, w, t);
                vstd::arithmetic::div_mod::lemma_small_mod(t as nat, m.n_tokens as nat);
                vstd::arithmetic::div_mod::lemma_basic_div(t, m.n_tokens);
                assert(source.flat(c + w * t) == (source.at)(c, t, 0));
            }
        } else {
            assert(g < 0) by (nonlinear_arith)
                requires
                    g == c + w * r - w * start,
                    r + 1 <= start,
                    c < w,
                    w > 0,
            ;
        }
    }
    assert(row_of(new, w, r) =~= right);
}

proof fn lemma_column<E>(x: Tensor<E>, j: int, k: int, i: int)
    requires
        0 <= i < x.n0,
    ensures
        x.column(j, k)[i] == (x.at)(i, j, k),
{
}

/// A normalised and weighed column depends on the column alone.
proof fn lemma_norm<E>(
    ar: Arithmetic<E>,
    x: Tensor<E>,
    i: int,
    y: Tensor<E>,
    j: int,
    w: Tensor<E>,
    eps: u32,
)
    requires
        x.n0 == y.n0,
        w.n1 == 1,
        x.column(i, 0) == y.column(j, 0),
    ensures
        ar.times(ar.normed(x, eps), w).column(i, 0) == ar.times(ar.normed(y, eps), w).column(j, 0),
{
    assert(ar.times(ar.normed(x, eps), w).column(i, 0) =~= ar.times(ar.normed(y, eps), w).column(
        j,
        0,
    ));
}

/// A column that is multiplied by a matrix depends on the column alone.
proof fn lemma_mul_mat<E>(
    ar: Arithmetic<E>,
    w: Tensor<E>,
    x: Tensor<E>,
    i: int,
    y: Tensor<E>,
    j: int,
)
    requires
        x.n2 == y.n2,
        x.column(i, 0) == y.column(j, 0),
    ensures
        ar.mul_mat(w, x).column(i, 0) == ar.mul_mat(w, y).column(j, 0),
{
    assert(ar.mul_mat(w, x).column(i, 0) =~= ar.mul_mat(w, y).column(j, 0));
}

/// A column of a sum or of a product of tensors of one size depends on their columns alone.
proof fn lemma_pair<E>(
    ar: Arithmetic<E>,
    x: Tensor<E>,
    p: Tensor<E>,
    i: int,
    y: Tensor<E>,
    q: Tensor<E>,
    j: int,
)
    requires
        0 <= i < x.n1,
        0 <= j < y.n1,
        p.sized(x.n0, x.n1, 1),
        q.sized(y.n0, y.n1, 1),
        0 <= x.n0 == y.n0,
        x.column(i, 0) == y.column(j, 0),
        p.column(i, 0) == q.column(j, 0),
    ensures
        ar.plus(x, p).column(i, 0) == ar.plus(y, q).column(j, 0),
        ar.times(x, p).column(i, 0) == ar.times(y, q).column(j, 0),
{
    vstd::arithmetic::div_mod::lemma_small_mod(i as nat, x.n1 as nat);
    vstd::arithmetic::div_mod::lemma_small_mod(j as nat, y.n1 as nat);
    let sums = ar.plus(x, p).column(i, 0);
    let products = ar.times(x, p).column(i, 0);
    let others = ar.plus(y, q).column(j, 0);
    let more = ar.times(y, q).column(j, 0);
    assert forall|c: int| 0 <= c < x.n0 implies sums[c] == others[c] && products[c] == more[c] by {
        vstd::arithmetic::div_mod::lemma_small_mod(c as nat, x.n0 as nat);
        lemma_column(x, i, 0, c);
        lemma_column(y, j, 0, c);
        lemma_column(p, i, 0, c);
        lemma_column(q, j, 0, c);
        assert(0int % p.n2 == 0 && 0int % q.n2 == 0);
    }
    assert(sums =~= others);
    assert(products =~= more);
}

/// A place in a column of `n` heads of `hd` elements.
proof fn lemma_in_row(c: int, hd: int, g: int, n: int)
    requires
        0 <= c < hd,
        0 <= g < n,
    ensures
        0 <= c + hd * g < n * hd,
{
    assert(0 <= c + hd * g < n * hd) by (nonlinear_arith)
        requires
            0 <= c < hd,
            0 <= g < n,
    ;
}

/// Columns, split into heads: head `g` of column `t` is a part of that column.
proof fn lemma_split<E>(z: Tensor<E>, hd: int, n: int, count: int, g: int, t: int)
    requires
        z.sized(n * hd, count, 1),
        0 < hd,
        0 <= g < n,
        0 <= t < count,
    ensures
        z.reshaped(hd, n, count).column(g, t) == Seq::new(
            hd as nat,
            |c: int| z.column(t, 0)[c + hd * g],
        ),
{
    let right = Seq::new(hd as nat, |c: int| z.column(t, 0)[c + hd * g]);
    assert forall|c: int| 0 <= c < hd implies z.reshaped(hd, n, count).column(g, t)[c]
        == right[c] by {
        lemma_in_row(c, hd, g, n);
        let e = c + hd * g;
        assert(c + hd * (g + n * t) == e + (n * hd) * t) by (nonlinear_arith)
            requires
                e == c + hd * g,
        ;
        lemma_place(e, n * hd, t);
        vstd::arithmetic::div_mod::lemma_small_mod(t as nat, count as nat);
        vstd::arithmetic::div_mod::lemma_basic_div(t, count);
    }
    assert(z.reshaped(hd, n, count).column(g, t) =~= right);
}

/// Heads, joined to columns: column `t` holds the heads of `t` one after the other.
proof fn lemma_join<E>(k: Tensor<E>, hd: int, n: int, count: int, t: int)
    requires
        k.sized(hd, n, count),
        0 < hd,
        0 < n,
        0 <= t < count,
    ensures
        k.reshaped(n * hd, count, 1).column(t, 0) == Seq::new(
            (n * hd) as nat,
            |c: int| k.column(c / hd, t)[c % hd],
        ),
{
    let right = Seq::new((n * hd) as nat, |c: int| k.column(c / hd, t)[c % hd]);
    let left = k.reshaped(n * hd, count, 1).column(t, 0);
    assert forall|c: int| 0 <= c < n * hd implies left[c] == right[c] by {
        lemma_parts(c, hd, n);
        let e = c % hd;
        let h = c / hd;
        let f = c + (n * hd) * (t + count * 0);
        assert(count * 0 == 0);
        assert(f == e + hd * (h + n * t)) by (nonlinear_arith)
            requires
                f == c + (n * hd) * t,
                c == e + hd * h,
        ;
        assert(h + n * t >= 0) by (nonlinear_arith)
            requires
                h >= 0,
                n > 0,
                t >= 0,
        ;
        lemma_place(e, hd, h + n * t);
        lemma_place(h, n, t);
    }
    assert(left =~= right);
}

/// The head and the place in it of a place in a column.
proof fn lemma_parts(c: int, hd: int, n: int)
    requires
        0 <= c < n * hd,
        0 < hd,
    ensures
        c == c % hd + hd * (c / hd),
        0 <= c % hd < hd,
        0 <= c / hd < n,
{
    vstd::arithmetic::div_mod::lemma_fundamental_div_mod(c, hd);
    let q = c / hd;
    assert(0 <= q < n) by (nonlinear_arith)
        requires
            c == hd * q + c % hd,
            0 <= c % hd < hd,
            0 <= c < n * hd,
            0 < hd,
    ;
}

/// The cached heads that attention reads are parts of the cache rows.
proof fn lemma_cached<E>(d: PassDims, m: ModelDims, held: Seq<E>, g: int, r: int)
    requires
        m.runs(d),
        0 <= g < m.n_head_kv,
        0 <= r < d.n_read,
    ensures
        cached(d, m, held).column(g, r) == Seq::new(
            m.head_dim as nat,
            |c: int| row_of(held, m.row(), r)[c + m.head_dim * g],
        ),
        cached(d, m, held).sized(m.head_dim, m.n_head_kv, d.n_read as int),
{
    let w = m.row();
    let hd = m.head_dim;
    assert(w > 0) by {
        vstd::arithmetic::mul::lemma_mul_strictly_positive(m.n_head_kv, m.head_dim);
    }
    assert(d.row() == w);
    assert(d.stride as int / 4 == w);
    let z = cache(w, m.n_ctx, held).viewed(w, d.n_read as int, d.stride as int, 0);
    lemma_split(z, hd, m.n_head_kv, d.n_read as int, g, r);
    assert(z.column(r, 0) =~= row_of(held, w, r)) by {
        assert forall|c: int| 0 <= c < w implies z.column(r, 0)[c] == row_of(held, w, r)[c] by {
            lemma_place(c, w, r);
            vstd::arithmetic::div_mod::lemma_small_mod(r as nat, m.n_ctx as nat);
            assert(0int / 4 + w * r + c == c + w * r);
        }
    }
}

/// The cached heads of a layer as a tensor.
pub open spec fn cached<E>(d: PassDims, m: ModelDims, held: Seq<E>) -> Tensor<E> {
    cache(m.row(), m.n_ctx, held).viewed(
        d.row() as int,
        d.n_read as int,
        d.stride as int,
        0,
    ).reshaped(d.head_dim as int, d.n_head_kv as int, d.n_read as int)
}

/// The key/value head that serves a query head.
pub open spec fn group(m: ModelDims, h: int) -> int {
    h / (m.n_head / m.n_head_kv)
}

proof fn lemma_group(m: ModelDims, h: int)
    requires
        m.consistent(),
        0 <= h < m.n_head,
    ensures
        0 <= group(m, h) < m.n_head_kv,
{
    let s = m.n_head / m.n_head_kv;
    vstd::arithmetic::div_mod::lemma_fundamental_div_mod(m.n_head, m.n_head_kv);
    assert(s > 0) by (nonlinear_arith)
        requires
            m.n_head == m.n_head_kv * s,
            m.n_head > 0,
            m.n_head_kv > 0,
    ;
    vstd::arithmetic::div_mod::lemma_fundamental_div_mod(h, s);
    let q = h / s;
    assert(0 <= q < m.n_head_kv) by (nonlinear_arith)
        requires
            h == s * q + h % s,
            0 <= h % s < s,
            0 <= h < m.n_head,
            m.n_head == m.n_head_kv * s,
            s > 0,
    ;
}

/// The attended values of all heads, from queries, cached keys and cached values split into heads.
pub open spec fn mixed<E>(
    ar: Arithmetic<E>,
    q: Tensor<E>,
    k: Tensor<E>,
    v: Tensor<E>,
    mask: Tensor<E>,
    hd: i64,
) -> Tensor<E> {
    let scores = ar.shrunk(
        ar.mul_mat(k.permuted(0u8, 2u8, 1u8, 3u8), q.permuted(0u8, 2u8, 1u8, 3u8)),
        hd,
    );
    ar.mul_mat(v.permuted(1u8, 2u8, 0u8, 3u8), ar.softmaxes(ar.lowered(scores, mask)))
}

/// The scores of a query of head `h` for all keys.
pub open spec fn scores<E>(
    ar: Arithmetic<E>,
    m: ModelDims,
    q: Tensor<E>,
    k: Tensor<E>,
    t: int,
    h: int,
) -> Seq<E> {
    Seq::new(
        m.n_ctx as nat,
        |r: int|
            (ar.shrink)(
                (ar.dot)(k.column(group(m, h), r), q.column(h, t)),
                m.head_dim as i64,
            ),
    )
}

/// Element `c` of the values of all keys, for head `h`.
pub open spec fn offered<E>(m: ModelDims, v: Tensor<E>, c: int, h: int) -> Seq<E> {
    Seq::new(m.n_ctx as nat, |r: int| v.column(group(m, h), r)[c])
}

/// What attention gives to a query of head `h`, element by element.
proof fn lemma_mixed<E>(
    ar: Arithmetic<E>,
    m: ModelDims,
    q: Tensor<E>,
    k: Tensor<E>,
    v: Tensor<E>,
    mask: Tensor<E>,
    hd: i64,
    seen: int,
    c: int,
    t: int,
    h: int,
)
    requires
        m.consistent(),
        hd == m.head_dim,
        q.sized(m.head_dim, m.n_head, m.n_tokens),
        k.sized(m.head_dim, m.n_head_kv, m.n_ctx),
        v.sized(m.head_dim, m.n_head_kv, m.n_ctx),
        0 <= c < m.head_dim,
        0 <= t < m.n_tokens,
        0 <= h < m.n_head,
        forall|r: int|
            0 <= r < m.n_ctx ==> #[trigger] (mask.at)(r, t, 0) == (ar.number)(if r <= seen {
                VISIBLE
            } else {
                HIDDEN
            }),
    ensures
        mixed(ar, q, k, v, mask, hd).sized(m.head_dim, m.n_tokens, m.n_head),
        (mixed(ar, q, k, v, mask, hd).at)(c, t, h) == ar.attend(
            scores(ar, m, q, k, t, h),
            offered(m, v, c, h),
            seen,
        ),
{
    let g = group(m, h);
    lemma_group(m, h);
    let kp = k.permuted(0u8, 2u8, 1u8, 3u8);
    let qp = q.permuted(0u8, 2u8, 1u8, 3u8);
    let vp = v.permuted(1u8, 2u8, 0u8, 3u8);
    assert(kp.sized(m.head_dim, m.n_ctx, m.n_head_kv));
    assert(qp.sized(m.head_dim, m.n_tokens, m.n_head));
    assert(vp.sized(m.n_ctx, m.head_dim, m.n_head_kv));
    let raw = ar.shrunk(ar.mul_mat(kp, qp), hd);
    let s = scores(ar, m, q, k, t, h);
    assert(qp.column(t, h) =~= q.column(h, t));
    assert forall|r: int| 0 <= r < m.n_ctx implies (raw.at)(r, t, h) == s[r] by {
        assert(kp.column(r, g) =~= k.column(g, r));
    }
    let low = ar.lowered(raw, mask);
    let hidden = Seq::new(
        s.len(),
        |k: int|
            (ar.sum)(
                s[k],
                (ar.number)(if k <= seen {
                    VISIBLE
                } else {
                    HIDDEN
                }),
            ),
    );
    assert(low.column(t, h) =~= hidden);
    let soft = ar.softmaxes(low);
    assert(soft.column(t, h) =~= Seq::new(s.len(), |k: int| (ar.softmax)(hidden)[k]));
    assert(vp.column(c, g) =~= offered(m, v, c, h));
}

/// A hidden state, normalised, projected by a weight of a layer and split into heads.
pub open spec fn projected<E>(
    ar: Arithmetic<E>,
    u: Values<E>,
    d: PassDims,
    x: Tensor<E>,
    l: usize,
    w: LayerWeight,
    n: i64,
) -> Tensor<E> {
    let normed = ar.times(
        ar.normed(x, d.eps),
        (u.weights)(Weight::Layer(l, LayerWeight::AttnNorm)),
    );
    ar.mul_mat((u.weights)(Weight::Layer(l, w)), normed).reshaped(
        d.head_dim as int,
        n as int,
        d.n_tokens as int,
    )
}

/// The values of projections are projections.
proof fn lemma_value_heads<E>(
    ar: Arithmetic<E>,
    u: Values<E>,
    d: PassDims,
    x: Expr,
    l: usize,
    w: LayerWeight,
    n: i64,
)
    ensures
        ({
            let e = expr::heads(d, expr::attn_norm(d, x, l), l, w, n);
            let t = projected(ar, u, d, value(ar, u, x), l, w, n);
            &&& value(ar, u, e) == t
            &&& value(ar, u, expr::rope(d, e)) == ar.rotated(t, u.positions, d.n_rot, d.freq_base)
            &&& value(ar, u, expr::flatten(d, e)) == t.reshaped(
                d.row() as int,
                d.n_tokens as int,
                1,
            )
            &&& value(ar, u, expr::flatten(d, expr::rope(d, e))) == ar.rotated(
                t,
                u.positions,
                d.n_rot,
                d.freq_base,
            ).reshaped(d.row() as int, d.n_tokens as int, 1)
        }),
{
    let norm_w = Weight::Layer(l, LayerWeight::AttnNorm);
    let normed = expr::attn_norm(d, x, l);
    assert(value(ar, u, Expr::Weight(norm_w)) == (u.weights)(norm_w));
    assert(value(ar, u, Expr::RmsNorm(Box::new(x), d.eps)) == ar.normed(value(ar, u, x), d.eps));
    assert(value(ar, u, normed) == ar.times(
        ar.normed(value(ar, u, x), d.eps),
        (u.weights)(norm_w),
    ));
    assert(value(ar, u, *expr::weight(l, w)) == (u.weights)(Weight::Layer(l, w)));
    let p = Expr::MulMat(expr::weight(l, w), Box::new(normed));
    assert(value(ar, u, p) == ar.mul_mat(
        (u.weights)(Weight::Layer(l, w)),
        value(ar, u, normed),
    ));
    let e = expr::heads(d, normed, l, w, n);
    assert(value(ar, u, e) == projected(ar, u, d, value(ar, u, x), l, w, n));
    let r = expr::rope(d, e);
    assert(value(ar, u, r) == ar.rotated(value(ar, u, e), u.positions, d.n_rot, d.freq_base));
    assert(value(ar, u, Expr::Cont(Box::new(e))) == value(ar, u, e));
    assert(value(ar, u, Expr::Cont(Box::new(r))) == value(ar, u, r));
}

/// The queries of a layer, split into heads.
pub open spec fn asked<E>(
    ar: Arithmetic<E>,
    u: Values<E>,
    d: PassDims,
    x: Tensor<E>,
    l: usize,
) -> Tensor<E> {
    ar.rotated(
        projected(ar, u, d, x, l, LayerWeight::AttnQ, d.n_head),
        u.positions,
        d.n_rot,
        d.freq_base,
    )
}

/// What a layer attends to, with the heads joined again, where the state `x` enters it.
pub open spec fn gathered<E>(
    ar: Arithmetic<E>,
    u: Values<E>,
    d: PassDims,
    m: ModelDims,
    x: Tensor<E>,
    l: usize,
) -> Tensor<E> {
    mixed(
        ar,
        asked(ar, u, d, x, l),
        cached(d, m, u.k[l]),
        cached(d, m, u.v[l]),
        masked(ar, u.mask, u.rows, u.tokens.len() as int),
        d.head_dim,
    ).permuted(0u8, 2u8, 1u8, 3u8).reshaped(d.n_embd as int, d.n_tokens as int, 1)
}

/// The value of cached heads.
proof fn lemma_value_cached<E>(ar: Arithmetic<E>, u: Values<E>, d: PassDims, m: ModelDims, l: usize)
    requires
        u.width == m.row(),
        u.rows == m.n_ctx,
    ensures
        value(ar, u, expr::cached_heads(d, Expr::CacheK(l))) == cached(d, m, u.k[l]),
        value(ar, u, expr::cached_heads(d, Expr::CacheV(l))) == cached(d, m, u.v[l]),
{
    let ck = Expr::CacheK(l);
    let cv = Expr::CacheV(l);
    assert(value(ar, u, ck) == cache(u.width, u.rows, u.k[l]));
    assert(value(ar, u, cv) == cache(u.width, u.rows, u.v[l]));
    let kv = Expr::View2(Box::new(ck), d.row(), d.n_read, d.stride, 0usize);
    let vv = Expr::View2(Box::new(cv), d.row(), d.n_read, d.stride, 0usize);
    assert(value(ar, u, kv) == value(ar, u, ck).viewed(
        d.row() as int,
        d.n_read as int,
        d.stride as int,
        0,
    ));
    assert(value(ar, u, vv) == value(ar, u, cv).viewed(
        d.row() as int,
        d.n_read as int,
        d.stride as int,
        0,
    ));
    assert(value(ar, u, Expr::Cont(Box::new(kv))) == value(ar, u, kv));
    assert(value(ar, u, Expr::Cont(Box::new(vv))) == value(ar, u, vv));
}

/// The value of what a layer attends to.
proof fn lemma_value_attended<E>(
    ar: Arithmetic<E>,
    u: Values<E>,
    d: PassDims,
    m: ModelDims,
    x: Expr,
    l: usize,
)
    requires
        u.width == m.row(),
        u.rows == m.n_ctx,
        d.masked,
    ensures
        value(ar, u, expr::attended(d, x, l)) == gathered(ar, u, d, m, value(ar, u, x), l),
{
    let xt = value(ar, u, x);
    lemma_value_heads(ar, u, d, x, l, LayerWeight::AttnQ, d.n_head);
    lemma_value_cached(ar, u, d, m, l);
    let q = expr::rope(
        d,
        expr::heads(d, expr::attn_norm(d, x, l), l, LayerWeight::AttnQ, d.n_head),
    );
    assert(value(ar, u, q) == asked(ar, u, d, xt, l));
    assert(value(ar, u, expr::queries(d, x, l)) == value(ar, u, q).permuted(0u8, 2u8, 1u8, 3u8));
    let ck = expr::cached_heads(d, Expr::CacheK(l));
    let cv = expr::cached_heads(d, Expr::CacheV(l));
    let kp = Expr::Permute(Box::new(ck), 0u8, 2u8, 1u8, 3u8);
    let vp = Expr::Permute(Box::new(cv), 1u8, 2u8, 0u8, 3u8);
    assert(value(ar, u, kp) == value(ar, u, ck).permuted(0u8, 2u8, 1u8, 3u8));
    assert(value(ar, u, vp) == value(ar, u, cv).permuted(1u8, 2u8, 0u8, 3u8));
    assert(value(ar, u, expr::keys(d, l)) == value(ar, u, kp));
    assert(value(ar, u, expr::values(d, l)) == value(ar, u, vp));
    let kq = Expr::MulMat(Box::new(expr::keys(d, l)), Box::new(expr::queries(d, x, l)));
    assert(value(ar, u, kq) == ar.mul_mat(
        value(ar, u, expr::keys(d, l)),
        value(ar, u, expr::queries(d, x, l)),
    ));
    let sc = Expr::InvSqrtScale(Box::new(kq), d.head_dim);
    assert(value(ar, u, sc) == ar.shrunk(value(ar, u, kq), d.head_dim));
    assert(value(ar, u, Expr::Mask) == masked(ar, u.mask, u.rows, u.tokens.len() as int));
    let attn = expr::attention(d, x, l);
    assert(value(ar, u, attn) == ar.softmaxes(
        ar.lowered(value(ar, u, sc), value(ar, u, Expr::Mask)),
    ));
    let mix = Expr::MulMat(Box::new(expr::values(d, l)), Box::new(attn));
    assert(value(ar, u, mix) == ar.mul_mat(
        value(ar, u, expr::values(d, l)),
        value(ar, u, attn),
    ));
    let turned = Expr::Permute(Box::new(mix), 0u8, 2u8, 1u8, 3u8);
    assert(value(ar, u, turned) == value(ar, u, mix).permuted(0u8, 2u8, 1u8, 3u8));
    assert(value(ar, u, Expr::Cont(Box::new(turned))) == value(ar, u, turned));
}

/// The state after the attention of a layer.
pub open spec fn attentive<E>(
    ar: Arithmetic<E>,
    u: Values<E>,
    d: PassDims,
    m: ModelDims,
    x: Tensor<E>,
    l: usize,
) -> Tensor<E> {
    ar.plus(
        x,
        ar.mul_mat(
            (u.weights)(Weight::Layer(l, LayerWeight::AttnOutput)),
            gathered(ar, u, d, m, x, l),
        ),
    )
}

/// The state after the feed-forward network of a layer.
pub open spec fn fed_forward<E>(
    ar: Arithmetic<E>,
    u: Values<E>,
    d: PassDims,
    a: Tensor<E>,
    l: usize,
) -> Tensor<E> {
    let h = ar.times(
        ar.normed(a, d.eps),
        (u.weights)(Weight::Layer(l, LayerWeight::FfnNorm)),
    );
    let gate = ar.silus(ar.mul_mat((u.weights)(Weight::Layer(l, LayerWeight::FfnGate)), h));
    let up = ar.mul_mat((u.weights)(Weight::Layer(l, LayerWeight::FfnUp)), h);
    ar.plus(
        a,
        ar.mul_mat((u.weights)(Weight::Layer(l, LayerWeight::FfnDown)), ar.times(gate, up)),
    )
}

/// The value of the state that leaves a layer.
proof fn lemma_value_layer<E>(
    ar: Arithmetic<E>,
    u: Values<E>,
    d: PassDims,
    m: ModelDims,
    x: Expr,
    l: usize,
)
    requires
        u.width == m.row(),
        u.rows == m.n_ctx,
        d.masked,
    ensures
        value(ar, u, expr::layer_output(d, x, l)) == fed_forward(
            ar,
            u,
            d,
            attentive(ar, u, d, m, value(ar, u, x), l),
            l,
        ),
{
    lemma_value_attended(ar, u, d, m, x, l);
    let wo = expr::weight(l, LayerWeight::AttnOutput);
    assert(value(ar, u, *wo) == (u.weights)(Weight::Layer(l, LayerWeight::AttnOutput)));
    let out = Expr::MulMat(wo, Box::new(expr::attended(d, x, l)));
    assert(value(ar, u, out) == ar.mul_mat(
        value(ar, u, *wo),
        value(ar, u, expr::attended(d, x, l)),
    ));
    let a = expr::after_attention(d, x, l);
    assert(value(ar, u, a) == attentive(ar, u, d, m, value(ar, u, x), l));
    let nw = Weight::Layer(l, LayerWeight::FfnNorm);
    let h = expr::norm(d, a, nw);
    assert(value(ar, u, Expr::Weight(nw)) == (u.weights)(nw));
    assert(value(ar, u, Expr::RmsNorm(Box::new(a), d.eps)) == ar.normed(value(ar, u, a), d.eps));
    assert(value(ar, u, h) == ar.times(ar.normed(value(ar, u, a), d.eps), (u.weights)(nw)));
    let gw = expr::weight(l, LayerWeight::FfnGate);
    let uw = expr::weight(l, LayerWeight::FfnUp);
    let dw = expr::weight(l, LayerWeight::FfnDown);
    assert(value(ar, u, *gw) == (u.weights)(Weight::Layer(l, LayerWeight::FfnGate)));
    assert(value(ar, u, *uw) == (u.weights)(Weight::Layer(l, LayerWeight::FfnUp)));
    assert(value(ar, u, *dw) == (u.weights)(Weight::Layer(l, LayerWeight::FfnDown)));
    let gi = Expr::MulMat(gw, Box::new(h));
    let up = Expr::MulMat(uw, Box::new(h));
    assert(value(ar, u, gi) == ar.mul_mat(value(ar, u, *gw), value(ar, u, h)));
    assert(value(ar, u, up) == ar.mul_mat(value(ar, u, *uw), value(ar, u, h)));
    let gate = Expr::Silu(Box::new(gi));
    assert(value(ar, u, gate) == ar.silus(value(ar, u, gi)));
    let gated = Expr::Mul(Box::new(gate), Box::new(up));
    assert(value(ar, u, gated) == ar.times(value(ar, u, gate), value(ar, u, up)));
    let ff = expr::feed_forward(h, l);
    assert(value(ar, u, ff) == ar.mul_mat(value(ar, u, *dw), value(ar, u, gated)));
}

/// Two passes over one model with one set of weights.
pub open spec fn alike<E>(a: Pass<E>, b: Pass<E>) -> bool {
    &&& a.fits()
    &&& b.fits()
    &&& a.m == (ModelDims { n_tokens: a.m.n_tokens, ..b.m })
    &&& a.n_layer == b.n_layer
    &&& a.given.weights == b.given.weights
    &&& a.d.eps == b.d.eps
    &&& a.d.n_rot == b.d.n_rot
    &&& a.d.freq_base == b.d.freq_base
}

/// Token `i` of one pass and token `j` of another have one id and stand at one position.
pub open spec fn meet<E>(a: Pass<E>, i: int, b: Pass<E>, j: int) -> bool {
    &&& 0 <= i < a.m.n_tokens
    &&& 0 <= j < b.m.n_tokens
    &&& a.start + i == b.start + j
    &&& a.given.tokens[i] == b.given.tokens[j]
}

/// Both passes leave the same in a cache row of a layer.
pub open spec fn agree<E>(ar: Arithmetic<E>, a: Pass<E>, b: Pass<E>, l: usize, r: int) -> bool {
    &&& a.key_row(ar, l, r) == b.key_row(ar, l, r)
    &&& a.value_row(ar, l, r) == b.value_row(ar, l, r)
}

/// What a pass leaves in a cache row: what it wrote there, or what was there before.
proof fn lemma_end<E>(ar: Arithmetic<E>, a: Pass<E>, l: usize, r: int)
    requires
        a.fits(),
        l < a.n_layer,
        0 <= r < a.m.n_ctx,
    ensures
        ({
            let u = a.end(ar);
            let x = expr::hidden(a.d, l as nat);
            let own = a.start <= r < a.start + a.m.n_tokens;
            let t = r - a.start;
            &&& u == (Values { k: u.k, v: u.v, ..a.given })
            &&& u.k[l].len() == a.given.k[l].len()
            &&& u.v[l].len() == a.given.v[l].len()
            &&& a.key_row(ar, l, r) == (if own {
                value(ar, u, new_keys(a.d, x, l)).column(t, 0)
            } else {
                row_of(a.given.k[l], a.m.row(), r)
            })
            &&& a.value_row(ar, l, r) == (if own {
                value(ar, u, new_values(a.d, x, l)).column(t, 0)
            } else {
                row_of(a.given.v[l], a.m.row(), r)
            })
        }),
{
    let u = a.end(ar);
    let x = expr::hidden(a.d, l as nat);
    lemma_ran(ar, a.given, a.d, a.n_layer);
    lemma_value_heads(ar, u, a.d, x, l, LayerWeight::AttnK, a.d.n_head_kv);
    lemma_value_heads(ar, u, a.d, x, l, LayerWeight::AttnV, a.d.n_head_kv);
    let nk = value(ar, u, new_keys(a.d, x, l));
    let nv = value(ar, u, new_values(a.d, x, l));
    assert(u.k[l] == updated(a.d, a.given.k[l], nk));
    assert(u.v[l] == updated(a.d, a.given.v[l], nv));
    lemma_updated(a.d, a.m, a.start, a.given.k[l], nk, r);
    lemma_updated(a.d, a.m, a.start, a.given.v[l], nv, r);
}

/// A pass keeps the sizes of the caches.
pub proof fn caches_keep_their_size<E>(ar: Arithmetic<E>, a: Pass<E>)
    requires
        a.fits(),
    ensures
        forall|l: usize|
            l < a.n_layer ==> (#[trigger] a.end(ar).k[l]).len() == a.given.k[l].len(),
        forall|l: usize|
            l < a.n_layer ==> (#[trigger] a.end(ar).v[l]).len() == a.given.v[l].len(),
{
    assert forall|l: usize| l < a.n_layer implies (#[trigger] a.end(ar).k[l]).len()
        == a.given.k[l].len() by {
        lemma_end(ar, a, l, 0);
    }
    assert forall|l: usize| l < a.n_layer implies (#[trigger] a.end(ar).v[l]).len()
        == a.given.v[l].len() by {
        lemma_end(ar, a, l, 0);
    }
}

/// What a pass is given beside the caches stays.
proof fn lemma_stays<E>(ar: Arithmetic<E>, a: Pass<E>)
    requires
        a.fits(),
    ensures
        a.end(ar) == (Values { k: a.end(ar).k, v: a.end(ar).v, ..a.given }),
{
    lemma_ran(ar, a.given, a.d, a.n_layer);
}

/// Projections of equal columns are equal, also once they are rotated.
proof fn lemma_projected<E>(
    ar: Arithmetic<E>,
    a: Pass<E>,
    i: int,
    x: Tensor<E>,
    b: Pass<E>,
    j: int,
    y: Tensor<E>,
    l: usize,
    w: LayerWeight,
    n: i64,
    g: int,
)
    requires
        alike(a, b),
        meet(a, i, b, j),
        x.sized(a.m.n_embd, a.m.n_tokens, 1),
        y.sized(b.m.n_embd, b.m.n_tokens, 1),
        x.column(i, 0) == y.column(j, 0),
        a.m.weight(Weight::Layer(l, w)).n1 == n * a.m.head_dim,
        0 <= g < n,
    ensures
        ({
            let u = a.end(ar);
            let v = b.end(ar);
            let p = projected(ar, u, a.d, x, l, w, n);
            let q = projected(ar, v, b.d, y, l, w, n);
            let rp = ar.rotated(p, u.positions, a.d.n_rot, a.d.freq_base);
            let rq = ar.rotated(q, v.positions, b.d.n_rot, b.d.freq_base);
            &&& p.sized(a.m.head_dim, n as int, a.m.n_tokens)
            &&& q.sized(b.m.head_dim, n as int, b.m.n_tokens)
            &&& rp.sized(a.m.head_dim, n as int, a.m.n_tokens)
            &&& rq.sized(b.m.head_dim, n as int, b.m.n_tokens)
            &&& p.column(g, i) == q.column(g, j)
            &&& rp.column(g, i) == rq.column(g, j)
        }),
{
    lemma_stays(ar, a);
    lemma_stays(ar, b);
    let u = a.end(ar);
    let v = b.end(ar);
    let hd = a.m.head_dim;
    let nw = (u.weights)(Weight::Layer(l, LayerWeight::AttnNorm));
    let ww = (u.weights)(Weight::Layer(l, w));
    lemma_norm(ar, x, i, y, j, nw, a.d.eps);
    let nx = ar.times(ar.normed(x, a.d.eps), nw);
    let ny = ar.times(ar.normed(y, a.d.eps), nw);
    lemma_mul_mat(ar, ww, nx, i, ny, j);
    let zx = ar.mul_mat(ww, nx);
    let zy = ar.mul_mat(ww, ny);
    assert(zx.sized(n * hd, a.m.n_tokens, 1));
    assert(zy.sized(n * hd, b.m.n_tokens, 1));
    lemma_split(zx, hd, n as int, a.m.n_tokens, g, i);
    lemma_split(zy, hd, n as int, b.m.n_tokens, g, j);
    let p = projected(ar, u, a.d, x, l, w, n);
    let q = projected(ar, v, b.d, y, l, w, n);
    assert(p.column(g, i) =~= q.column(g, j));
    assert(u.positions[i] == v.positions[j]);
    assert(ar.rotated(p, u.positions, a.d.n_rot, a.d.freq_base).column(g, i) =~= ar.rotated(
        q,
        v.positions,
        b.d.n_rot,
        b.d.freq_base,
    ).column(g, j));
}

/// Joined heads that are equal are equal columns.
proof fn lemma_joined<E>(
    p: Tensor<E>,
    i: int,
    np: int,
    q: Tensor<E>,
    j: int,
    nq: int,
    hd: int,
    n: int,
)
    requires
        p.sized(hd, n, np),
        q.sized(hd, n, nq),
        0 < hd,
        0 < n,
        0 <= i < np,
        0 <= j < nq,
        forall|g: int| 0 <= g < n ==> #[trigger] p.column(g, i) == q.column(g, j),
    ensures
        p.reshaped(n * hd, np, 1).column(i, 0) == q.reshaped(n * hd, nq, 1).column(j, 0),
{
    lemma_join(p, hd, n, np, i);
    lemma_join(q, hd, n, nq, j);
    let left = p.reshaped(n * hd, np, 1).column(i, 0);
    let right = q.reshaped(n * hd, nq, 1).column(j, 0);
    assert(n * hd >= 0) by (nonlinear_arith)
        requires
            n > 0,
            hd > 0,
    ;
    assert forall|c: int| 0 <= c < n * hd implies left[c] == right[c] by {
        lemma_parts(c, hd, n);
        assert(p.column(c / hd, i) == q.column(c / hd, j));
    }
    assert(left =~= right);
}

/// Where equal columns enter a layer, equal keys and values are written to the row of the token.
proof fn lemma_new_rows<E>(ar: Arithmetic<E>, a: Pass<E>, i: int, b: Pass<E>, j: int, l: usize)
    requires
        alike(a, b),
        meet(a, i, b, j),
        l < a.n_layer,
        a.state(ar, l as nat).sized(a.m.n_embd, a.m.n_tokens, 1),
        b.state(ar, l as nat).sized(b.m.n_embd, b.m.n_tokens, 1),
        a.state(ar, l as nat).column(i, 0) == b.state(ar, l as nat).column(j, 0),
    ensures
        agree(ar, a, b, l, a.start + i),
{
    let m = a.m;
    let hd = m.head_dim;
    let n = a.d.n_head_kv;
    let u = a.end(ar);
    let v = b.end(ar);
    let ex = expr::hidden(a.d, l as nat);
    let ey = expr::hidden(b.d, l as nat);
    let x = a.state(ar, l as nat);
    let y = b.state(ar, l as nat);
    lemma_end(ar, a, l, a.start + i);
    lemma_end(ar, b, l, b.start + j);
    lemma_value_heads(ar, u, a.d, ex, l, LayerWeight::AttnK, n);
    lemma_value_heads(ar, u, a.d, ex, l, LayerWeight::AttnV, n);
    lemma_value_heads(ar, v, b.d, ey, l, LayerWeight::AttnK, n);
    lemma_value_heads(ar, v, b.d, ey, l, LayerWeight::AttnV, n);
    assert forall|g: int| 0 <= g < n implies #[trigger] ar.rotated(
        projected(ar, u, a.d, x, l, LayerWeight::AttnK, n),
        u.positions,
        a.d.n_rot,
        a.d.freq_base,
    ).column(g, i) == ar.rotated(
        projected(ar, v, b.d, y, l, LayerWeight::AttnK, n),
        v.positions,
        b.d.n_rot,
        b.d.freq_base,
    ).column(g, j) by {
        lemma_projected(ar, a, i, x, b, j, y, l, LayerWeight::AttnK, n, g);
    }
    assert forall|g: int| 0 <= g < n implies #[trigger] projected(
        ar,
        u,
        a.d,
        x,
        l,
        LayerWeight::AttnV,
        n,
    ).column(g, i) == projected(ar, v, b.d, y, l, LayerWeight::AttnV, n).column(g, j) by {
        lemma_projected(ar, a, i, x, b, j, y, l, LayerWeight::AttnV, n, g);
    }
    lemma_projected(ar, a, i, x, b, j, y, l, LayerWeight::AttnK, n, 0);
    lemma_projected(ar, a, i, x, b, j, y, l, LayerWeight::AttnV, n, 0);
    lemma_joined(
        ar.rotated(
            projected(ar, u, a.d, x, l, LayerWeight::AttnK, n),
            u.positions,
            a.d.n_rot,
            a.d.freq_base,
        ),
        i,
        a.m.n_tokens,
        ar.rotated(
            projected(ar, v, b.d, y, l, LayerWeight::AttnK, n),
            v.positions,
            b.d.n_rot,
            b.d.freq_base,
        ),
        j,
        b.m.n_tokens,
        hd,
        n as int,
    );
    lemma_joined(
        projected(ar, u, a.d, x, l, LayerWeight::AttnV, n),
        i,
        a.m.n_tokens,
        projected(ar, v, b.d, y, l, LayerWeight::AttnV, n),
        j,
        b.m.n_tokens,
        hd,
        n as int,
    );
    assert(a.d.row() == m.row());
    assert(b.d.row() == m.row());
}

/// Where equal columns enter a layer and the visible cache rows agree, attention gives the same.
proof fn lemma_gathered<E>(ar: Arithmetic<E>, a: Pass<E>, i: int, b: Pass<E>, j: int, l: usize)
    requires
        ar.hides(),
        alike(a, b),
        meet(a, i, b, j),
        l < a.n_layer,
        a.state(ar, l as nat).sized(a.m.n_embd, a.m.n_tokens, 1),
        b.state(ar, l as nat).sized(b.m.n_embd, b.m.n_tokens, 1),
        a.state(ar, l as nat).column(i, 0) == b.state(ar, l as nat).column(j, 0),
        forall|r: int| 0 <= r <= a.start + i ==> #[trigger] agree(ar, a, b, l, r),
    ensures
        gathered(ar, a.end(ar), a.d, a.m, a.state(ar, l as nat), l).column(i, 0) == gathered(
            ar,
            b.end(ar),
            b.d,
            b.m,
            b.state(ar, l as nat),
            l,
        ).column(j, 0),
{
    let m = a.m;
    let hd = m.head_dim;
    let n = a.d.n_head;
    let u = a.end(ar);
    let v = b.end(ar);
    let x = a.state(ar, l as nat);
    let y = b.state(ar, l as nat);
    let seen = a.start + i;
    lemma_stays(ar, a);
    lemma_stays(ar, b);
    let qa = asked(ar, u, a.d, x, l);
    let qb = asked(ar, v, b.d, y, l);
    let ka = cached(a.d, a.m, u.k[l]);
    let kb = cached(b.d, b.m, v.k[l]);
    let va = cached(a.d, a.m, u.v[l]);
    let vb = cached(b.d, b.m, v.v[l]);
    let ma = masked(ar, u.mask, u.rows, u.tokens.len() as int);
    let mb = masked(ar, v.mask, v.rows, v.tokens.len() as int);
    let pa = mixed(ar, qa, ka, va, ma, a.d.head_dim);
    let pb = mixed(ar, qb, kb, vb, mb, b.d.head_dim);
    lemma_projected(ar, a, i, x, b, j, y, l, LayerWeight::AttnQ, n, 0);
    lemma_cached(a.d, a.m, u.k[l], 0, 0);
    lemma_cached(a.d, a.m, u.v[l], 0, 0);
    lemma_cached(b.d, b.m, v.k[l], 0, 0);
    lemma_cached(b.d, b.m, v.v[l], 0, 0);
    assert forall|r: int| 0 <= r < m.n_ctx implies #[trigger] (ma.at)(r, i, 0) == (ar.number)(
        if r <= seen {
            VISIBLE
        } else {
            HIDDEN
        },
    ) by {
        assert(a.given.mask[r + i * m.n_ctx] == (if r <= a.start + i {
            VISIBLE
        } else {
            HIDDEN
        }));
    }
    assert forall|r: int| 0 <= r < m.n_ctx implies #[trigger] (mb.at)(r, j, 0) == (ar.number)(
        if r <= seen {
            VISIBLE
        } else {
            HIDDEN
        },
    ) by {
        assert(b.given.mask[r + j * m.n_ctx] == (if r <= b.start + j {
            VISIBLE
        } else {
            HIDDEN
        }));
    }
    assert forall|c: int, h: int| 0 <= c < hd && 0 <= h < n implies #[trigger] (pa.at)(c, i, h)
        == (pb.at)(c, j, h) by {
        lemma_mixed(ar, a.m, qa, ka, va, ma, a.d.head_dim, seen, c, i, h);
        lemma_mixed(ar, b.m, qb, kb, vb, mb, b.d.head_dim, seen, c, j, h);
        lemma_projected(ar, a, i, x, b, j, y, l, LayerWeight::AttnQ, n, h);
        lemma_group(a.m, h);
        let g = group(a.m, h);
        assert(g == group(b.m, h));
        let sa = scores(ar, a.m, qa, ka, i, h);
        let sb = scores(ar, b.m, qb, kb, j, h);
        let oa = offered(a.m, va, c, h);
        let ob = offered(b.m, vb, c, h);
        assert forall|r: int| 0 <= r <= seen implies sa[r] == #[trigger] sb[r] && oa[r]
            == ob[r] by {
            assert(agree(ar, a, b, l, r));
            lemma_cached(a.d, a.m, u.k[l], g, r);
            lemma_cached(a.d, a.m, u.v[l], g, r);
            lemma_cached(b.d, b.m, v.k[l], g, r);
            lemma_cached(b.d, b.m, v.v[l], g, r);
            assert(ka.column(g, r) =~= kb.column(g, r));
            assert(va.column(g, r) =~= vb.column(g, r));
        }
        assert forall|r: int| 0 <= r <= seen implies oa[r] == #[trigger] ob[r] by {
            assert(sa[r] == sb[r]);
        }
        assert(ar.attend(sa, oa, seen) == ar.attend(sb, ob, seen));
    }
    lemma_mixed(ar, a.m, qa, ka, va, ma, a.d.head_dim, seen, 0, i, 0);
    lemma_mixed(ar, b.m, qb, kb, vb, mb, b.d.head_dim, seen, 0, j, 0);
    let ta = pa.permuted(0u8, 2u8, 1u8, 3u8);
    let tb = pb.permuted(0u8, 2u8, 1u8, 3u8);
    assert(ta.sized(hd, n as int, a.m.n_tokens));
    assert(tb.sized(hd, n as int, b.m.n_tokens));
    assert forall|g: int| 0 <= g < n implies #[trigger] ta.column(g, i) == tb.column(g, j) by {
        assert forall|c: int| 0 <= c < hd implies ta.column(g, i)[c] == tb.column(g, j)[c] by {
            assert((pa.at)(c, i, g) == (pb.at)(c, j, g));
        }
        assert(ta.column(g, i) =~= tb.column(g, j));
    }
    lemma_joined(ta, i, a.m.n_tokens, tb, j, b.m.n_tokens, hd, n as int);
}

/// Where equal columns enter a layer and the visible cache rows agree, equal columns leave it.
proof fn lemma_layer<E>(ar: Arithmetic<E>, a: Pass<E>, i: int, b: Pass<E>, j: int, l: usize)
    requires
        ar.hides(),
        alike(a, b),
        meet(a, i, b, j),
        l < a.n_layer,
        a.state(ar, l as nat).sized(a.m.n_embd, a.m.n_tokens, 1),
        b.state(ar, l as nat).sized(b.m.n_embd, b.m.n_tokens, 1),
        a.state(ar, l as nat).column(i, 0) == b.state(ar, l as nat).column(j, 0),
        forall|r: int| 0 <= r <= a.start + i ==> #[trigger] agree(ar, a, b, l, r),
    ensures
        a.state(ar, (l + 1) as nat).sized(a.m.n_embd, a.m.n_tokens, 1),
        b.state(ar, (l + 1) as nat).sized(b.m.n_embd, b.m.n_tokens, 1),
        a.state(ar, (l + 1) as nat).column(i, 0) == b.state(ar, (l + 1) as nat).column(j, 0),
{
    let u = a.end(ar);
    let v = b.end(ar);
    let x = a.state(ar, l as nat);
    let y = b.state(ar, l as nat);
    lemma_stays(ar, a);
    lemma_stays(ar, b);
    lemma_value_layer(ar, u, a.d, a.m, expr::hidden(a.d, l as nat), l);
    lemma_value_layer(ar, v, b.d, b.m, expr::hidden(b.d, l as nat), l);
    assert(expr::hidden(a.d, (l + 1) as nat) == expr::layer_output(
        a.d,
        expr::hidden(a.d, l as nat),
        l,
    ));
    assert(expr::hidden(b.d, (l + 1) as nat) == expr::layer_output(
        b.d,
        expr::hidden(b.d, l as nat),
        l,
    ));
    lemma_gathered(ar, a, i, b, j, l);
    let ga = gathered(ar, u, a.d, a.m, x, l);
    let gb = gathered(ar, v, b.d, b.m, y, l);
    let wo = (u.weights)(Weight::Layer(l, LayerWeight::AttnOutput));
    let wn = (u.weights)(Weight::Layer(l, LayerWeight::FfnNorm));
    let wg = (u.weights)(Weight::Layer(l, LayerWeight::FfnGate));
    let wu = (u.weights)(Weight::Layer(l, LayerWeight::FfnUp));
    let wd = (u.weights)(Weight::Layer(l, LayerWeight::FfnDown));
    assert(wo.sized(a.m.n_embd, a.m.n_embd, 1));
    assert(wn.sized(a.m.n_embd, 1, 1));
    assert(wg.sized(a.m.n_embd, a.m.n_ff, 1));
    assert(wu.sized(a.m.n_embd, a.m.n_ff, 1));
    assert(wd.sized(a.m.n_ff, a.m.n_embd, 1));
    lemma_mul_mat(ar, wo, ga, i, gb, j);
    lemma_pair(ar, x, ar.mul_mat(wo, ga), i, y, ar.mul_mat(wo, gb), j);
    let ta = attentive(ar, u, a.d, a.m, x, l);
    let tb = attentive(ar, v, b.d, b.m, y, l);
    assert(ta.column(i, 0) == tb.column(j, 0));
    lemma_norm(ar, ta, i, tb, j, wn, a.d.eps);
    let ha = ar.times(ar.normed(ta, a.d.eps), wn);
    let hb = ar.times(ar.normed(tb, b.d.eps), wn);
    lemma_mul_mat(ar, wg, ha, i, hb, j);
    lemma_mul_mat(ar, wu, ha, i, hb, j);
    let ra = ar.mul_mat(wg, ha);
    let rb = ar.mul_mat(wg, hb);
    let sa = ar.silus(ra);
    let sb = ar.silus(rb);
    assert(sa.column(i, 0) =~= sb.column(j, 0)) by {
        assert forall|c: int| 0 <= c < a.m.n_ff implies sa.column(i, 0)[c] == sb.column(j, 0)[c] by {
            lemma_column(ra, i, 0, c);
            lemma_column(rb, j, 0, c);
        }
    }
    let pa = ar.mul_mat(wu, ha);
    let pb = ar.mul_mat(wu, hb);
    lemma_pair(ar, sa, pa, i, sb, pb, j);
    let fa = ar.times(sa, pa);
    let fb = ar.times(sb, pb);
    lemma_mul_mat(ar, wd, fa, i, fb, j);
    lemma_pair(ar, ta, ar.mul_mat(wd, fa), i, tb, ar.mul_mat(wd, fb), j);
}

/// Where the cache rows before a token agree in every layer, the token has equal hidden states, and
/// equal keys and values are written to its row.
proof fn lemma_token<E>(ar: Arithmetic<E>, a: Pass<E>, i: int, b: Pass<E>, j: int, n: nat)
    requires
        ar.hides(),
        alike(a, b),
        meet(a, i, b, j),
        n <= a.n_layer,
        forall|l: usize, r: int|
            l < a.n_layer && 0 <= r < a.start + i ==> #[trigger] agree(ar, a, b, l, r),
    ensures
        a.state(ar, n).sized(a.m.n_embd, a.m.n_tokens, 1),
        b.state(ar, n).sized(b.m.n_embd, b.m.n_tokens, 1),
        a.state(ar, n).column(i, 0) == b.state(ar, n).column(j, 0),
        forall|l: usize| l < n ==> #[trigger] agree(ar, a, b, l, a.start + i),
    decreases n,
{
    if n == 0 {
        lemma_stays(ar, a);
        lemma_stays(ar, b);
        let table = (a.given.weights)(Weight::TokenEmbd);
        assert(value(ar, a.end(ar), Expr::Weight(Weight::TokenEmbd)) == table);
        assert(value(ar, b.end(ar), Expr::Weight(Weight::TokenEmbd)) == table);
        assert(a.state(ar, 0) == table.rows(a.given.tokens));
        assert(b.state(ar, 0) == table.rows(b.given.tokens));
        assert(table.sized(a.m.n_embd, a.m.n_vocab, 1));
        assert(a.state(ar, 0).column(i, 0) =~= b.state(ar, 0).column(j, 0));
    } else {
        let p = (n - 1) as nat;
        let l = p as usize;
        lemma_token(ar, a, i, b, j, p);
        lemma_new_rows(ar, a, i, b, j, l);
        lemma_layer(ar, a, i, b, j, l);
    }
}

/// A token has the same logits in two passes, and leaves the same keys and values, wherever the
/// cache rows before it agree.
pub proof fn tokens_see_what_lies_before_them<E>(
    ar: Arithmetic<E>,
    a: Pass<E>,
    i: int,
    b: Pass<E>,
    j: int,
    head: Weight,
)
    requires
        ar.hides(),
        alike(a, b),
        meet(a, i, b, j),
        forall|l: usize, r: int|
            l < a.n_layer && 0 <= r < a.start + i ==> #[trigger] agree(ar, a, b, l, r),
    ensures
        a.logits(ar, head).column(i, 0) == b.logits(ar, head).column(j, 0),
        a.logits(ar, head).sized(a.m.weight(head).n1, a.m.n_tokens, 1),
        b.logits(ar, head).sized(b.m.weight(head).n1, b.m.n_tokens, 1),
        forall|l: usize| l < a.n_layer ==> #[trigger] agree(ar, a, b, l, a.start + i),
{
    let n = a.n_layer;
    lemma_token(ar, a, i, b, j, n);
    lemma_stays(ar, a);
    lemma_stays(ar, b);
    let x = a.state(ar, n);
    let y = b.state(ar, n);
    let wn = (a.given.weights)(Weight::OutputNorm);
    let wh = (a.given.weights)(head);
    assert(wn.sized(a.m.n_embd, 1, 1));
    assert(wh.sized(a.m.weight(head).n0, a.m.weight(head).n1, a.m.weight(head).n2));
    lemma_value_logits(ar, a.end(ar), a.d, n, head);
    lemma_value_logits(ar, b.end(ar), b.d, n, head);
    lemma_norm(ar, x, i, y, j, wn, a.d.eps);
    lemma_mul_mat(
        ar,
        wh,
        ar.times(ar.normed(x, a.d.eps), wn),
        i,
        ar.times(ar.normed(y, b.d.eps), wn),
        j,
    );
}

/// The value of the logits.
proof fn lemma_value_logits<E>(ar: Arithmetic<E>, u: Values<E>, d: PassDims, n: nat, head: Weight)
    ensures
        value(ar, u, expr::all_logits(d, n, head)) == ar.mul_mat(
            (u.weights)(head),
            ar.times(
                ar.normed(value(ar, u, expr::hidden(d, n)), d.eps),
                (u.weights)(Weight::OutputNorm),
            ),
        ),
{
    let x = expr::hidden(d, n);
    let nw = Weight::OutputNorm;
    assert(value(ar, u, Expr::Weight(nw)) == (u.weights)(nw));
    assert(value(ar, u, Expr::Weight(head)) == (u.weights)(head));
    assert(value(ar, u, Expr::RmsNorm(Box::new(x), d.eps)) == ar.normed(value(ar, u, x), d.eps));
    let f = expr::final_state(d, n);
    assert(value(ar, u, f) == ar.times(ar.normed(value(ar, u, x), d.eps), (u.weights)(nw)));
}

/// Two passes over the same tokens at the same positions.
pub open spec fn twins<E>(a: Pass<E>, b: Pass<E>) -> bool {
    &&& alike(a, b)
    &&& a.start == b.start
    &&& a.given.tokens == b.given.tokens
}

/// The caches that two passes are given agree in a row of a layer.
pub open spec fn given_alike<E>(a: Pass<E>, b: Pass<E>, l: usize, r: int) -> bool {
    let w = a.m.row();
    &&& row_of(a.given.k[l], w, r) == row_of(b.given.k[l], w, r)
    &&& row_of(a.given.v[l], w, r) == row_of(b.given.v[l], w, r)
}

/// Passes over the same tokens have the same logits, and leave the same rows, where the caches
/// agree in the rows before the tokens. What the caches hold beyond these makes no difference.
pub proof fn twins_agree<E>(ar: Arithmetic<E>, a: Pass<E>, b: Pass<E>, head: Weight, n: int)
    requires
        ar.hides(),
        twins(a, b),
        0 <= n <= a.m.n_tokens,
        forall|l: usize, r: int|
            l < a.n_layer && 0 <= r < a.start ==> #[trigger] given_alike(a, b, l, r),
    ensures
        forall|l: usize, r: int|
            l < a.n_layer && 0 <= r < a.start + n ==> #[trigger] agree(ar, a, b, l, r),
        forall|i: int|
            0 <= i < n ==> #[trigger] a.logits(ar, head).column(i, 0) == b.logits(ar, head).column(
                i,
                0,
            ),
    decreases n,
{
    if n == 0 {
        assert forall|l: usize, r: int|
            l < a.n_layer && 0 <= r < a.start + n implies #[trigger] agree(ar, a, b, l, r) by {
            assert(given_alike(a, b, l, r));
            lemma_end(ar, a, l, r);
            lemma_end(ar, b, l, r);
        }
    } else {
        twins_agree(ar, a, b, head, n - 1);
        tokens_see_what_lies_before_them(ar, a, n - 1, b, n - 1, head);
    }
}

/// Passes over the tokens of a prompt one at a time, each with the caches that the one before it
/// has left.
pub open spec fn one_by_one<E>(ar: Arithmetic<E>, whole: Pass<E>, each: Seq<Pass<E>>) -> bool {
    &&& each.len() == whole.m.n_tokens
    &&& forall|i: int|
        0 <= i < each.len() ==> {
            &&& alike(whole, #[trigger] each[i])
            &&& each[i].m.n_tokens == 1
            &&& each[i].start == whole.start + i
            &&& each[i].given.tokens[0] == whole.given.tokens[i]
            &&& each[i].given.k == (if i == 0 {
                whole.given.k
            } else {
                each[i - 1].end(ar).k
            })
            &&& each[i].given.v == (if i == 0 {
                whole.given.v
            } else {
                each[i - 1].end(ar).v
            })
        }
}

/// After `n` of the single passes the rows up to the last token are those of the whole prompt, and
/// the rows after it are as they were.
proof fn lemma_one_by_one<E>(
    ar: Arithmetic<E>,
    whole: Pass<E>,
    each: Seq<Pass<E>>,
    head: Weight,
    n: int,
)
    requires
        ar.hides(),
        one_by_one(ar, whole, each),
        0 <= n < each.len(),
    ensures
        whole.logits(ar, head).column(n, 0) == each[n].logits(ar, head).column(0, 0),
        whole.logits(ar, head).sized(whole.m.weight(head).n1, whole.m.n_tokens, 1),
        each[n].logits(ar, head).sized(whole.m.weight(head).n1, 1, 1),
        forall|l: usize, r: int|
            l < whole.n_layer && 0 <= r <= whole.start + n ==> #[trigger] agree(
                ar,
                whole,
                each[n],
                l,
                r,
            ),
        forall|l: usize, r: int|
            #![trigger each[n].key_row(ar, l, r)]
            l < whole.n_layer && whole.start + n < r < whole.m.n_ctx ==> each[n].key_row(ar, l, r)
                == row_of(whole.given.k[l], whole.m.row(), r),
        forall|l: usize, r: int|
            #![trigger each[n].value_row(ar, l, r)]
            l < whole.n_layer && whole.start + n < r < whole.m.n_ctx ==> each[n].value_row(
                ar,
                l,
                r,
            ) == row_of(whole.given.v[l], whole.m.row(), r),
    decreases n,
{
    let one = each[n];
    assert(alike(whole, each[n]));
    if n > 0 {
        lemma_one_by_one(ar, whole, each, head, n - 1);
        assert(alike(whole, each[n - 1]));
    }
    assert forall|l: usize, r: int|
        l < whole.n_layer && 0 <= r < whole.start + n implies #[trigger] agree(
        ar,
        whole,
        one,
        l,
        r,
    ) by {
        lemma_end(ar, one, l, r);
        if n > 0 {
            assert(agree(ar, whole, each[n - 1], l, r));
        } else {
            lemma_end(ar, whole, l, r);
        }
    }
    tokens_see_what_lies_before_them(ar, whole, n, one, 0, head);
    assert forall|l: usize, r: int|
        l < whole.n_layer && 0 <= r <= whole.start + n implies #[trigger] agree(
        ar,
        whole,
        each[n],
        l,
        r,
    ) by {
        if r < whole.start + n {
            assert(agree(ar, whole, one, l, r));
        } else {
            assert(agree(ar, whole, one, l, whole.start + n));
        }
    }
    assert forall|l: usize, r: int|
        l < whole.n_layer && whole.start + n < r < whole.m.n_ctx implies #[trigger] each[n].key_row(
        ar,
        l,
        r,
    ) == row_of(whole.given.k[l], whole.m.row(), r) by {
        lemma_end(ar, one, l, r);
        if n > 0 {
            assert(each[n - 1].key_row(ar, l, r) == row_of(whole.given.k[l], whole.m.row(), r));
        }
    }
    assert forall|l: usize, r: int|
        l < whole.n_layer && whole.start + n < r
            < whole.m.n_ctx implies #[trigger] each[n].value_row(ar, l, r) == row_of(
        whole.given.v[l],
        whole.m.row(),
        r,
    ) by {
        lemma_end(ar, one, l, r);
        if n > 0 {
            assert(each[n - 1].value_row(ar, l, r) == row_of(whole.given.v[l], whole.m.row(), r));
        }
    }
}

/// Caches with the same rows are equal.
proof fn lemma_same_rows<E>(a: Seq<E>, b: Seq<E>, width: int, rows: int)
    requires
        0 < width,
        a.len() == width * rows,
        b.len() == width * rows,
        forall|r: int| 0 <= r < rows ==> #[trigger] row_of(a, width, r) == row_of(b, width, r),
    ensures
        a == b,
{
    assert forall|f: int| 0 <= f < a.len() implies a[f] == b[f] by {
        assert(rows * width == width * rows) by (nonlinear_arith);
        lemma_parts(f, width, rows);
        let r = f / width;
        let c = f % width;
        assert(row_of(a, width, r)[c] == row_of(b, width, r)[c]);
        assert(row_of(a, width, r)[c] == a[c + width * r]);
        assert(row_of(b, width, r)[c] == b[c + width * r]);
    }
    assert(a =~= b);
}

/// A pass over a whole prompt and passes over its tokens one at a time come to the same: each token
/// has the same logits either way, and in the end the caches hold the same.
pub proof fn prompt_is_its_tokens<E>(
    ar: Arithmetic<E>,
    whole: Pass<E>,
    each: Seq<Pass<E>>,
    head: Weight,
)
    requires
        ar.hides(),
        whole.fits(),
        one_by_one(ar, whole, each),
    ensures
        forall|i: int|
            0 <= i < each.len() ==> whole.logits(ar, head).column(i, 0) == (
            #[trigger] each[i]).logits(ar, head).column(0, 0),
        forall|l: usize|
            #![trigger whole.end(ar).k[l]]
            #![trigger whole.end(ar).v[l]]
            l < whole.n_layer ==> whole.end(ar).k[l] == each.last().end(ar).k[l] && whole.end(ar).v[l]
                == each.last().end(ar).v[l],
        whole.logits(ar, head).sized(whole.m.weight(head).n1, whole.m.n_tokens, 1),
        each.last().logits(ar, head).sized(whole.m.weight(head).n1, 1, 1),
{
    let n = each.len() - 1;
    assert forall|i: int| 0 <= i < each.len() implies whole.logits(ar, head).column(i, 0) == (
    #[trigger] each[i]).logits(ar, head).column(0, 0) by {
        lemma_one_by_one(ar, whole, each, head, i);
    }
    lemma_one_by_one(ar, whole, each, head, n);
    let last = each[n];
    assert(alike(whole, each[n]));
    let w = whole.m.row();
    assert(w > 0) by {
        vstd::arithmetic::mul::lemma_mul_strictly_positive(whole.m.n_head_kv, whole.m.head_dim);
    }
    assert forall|l: usize| l < whole.n_layer implies #[trigger] whole.end(ar).k[l] == last.end(
        ar,
    ).k[l] && whole.end(ar).v[l] == last.end(ar).v[l] by {
        assert forall|r: int| 0 <= r < whole.m.n_ctx implies #[trigger] agree(
            ar,
            whole,
            last,
            l,
            r,
        ) by {
            if r > whole.start + n {
                lemma_end(ar, whole, l, r);
                assert(last.key_row(ar, l, r) == row_of(whole.given.k[l], w, r));
                assert(last.value_row(ar, l, r) == row_of(whole.given.v[l], w, r));
            } else {
                assert(agree(ar, whole, each[n], l, r));
            }
        }
        lemma_end(ar, whole, l, 0);
        lemma_end(ar, last, l, 0);
        assert forall|r: int| 0 <= r < whole.m.n_ctx implies #[trigger] row_of(
            whole.end(ar).k[l],
            w,
            r,
        ) == row_of(last.end(ar).k[l], w, r) by {
            assert(agree(ar, whole, last, l, r));
        }
        assert forall|r: int| 0 <= r < whole.m.n_ctx implies #[trigger] row_of(
            whole.end(ar).v[l],
            w,
            r,
        ) == row_of(last.end(ar).v[l], w, r) by {
            assert(agree(ar, whole, last, l, r));
        }
        lemma_same_rows(whole.end(ar).k[l], last.end(ar).k[l], w, whole.m.n_ctx);
        lemma_same_rows(whole.end(ar).v[l], last.end(ar).v[l], w, whole.m.n_ctx);
    }
}

/// What is read from where the last column begins is that column.
pub proof fn last_column_is_read<E>(t: Tensor<E>, n: int, count: int)
    requires
        t.sized(n, count, 1),
        0 < n,
        0 < count,
    ensures
        t.taken((count - 1) * n * 4, n) == t.column(count - 1, 0),
{
    let left = t.taken((count - 1) * n * 4, n);
    let right = t.column(count - 1, 0);
    assert((count - 1) * n * 4 / 4 == (count - 1) * n);
    assert((count - 1) * n == n * (count - 1)) by (nonlinear_arith);
    assert forall|c: int| 0 <= c < n implies left[c] == right[c] by {
        lemma_place(c, n, count - 1);
        vstd::arithmetic::div_mod::lemma_small_mod((count - 1) as nat, count as nat);
        vstd::arithmetic::div_mod::lemma_basic_div(count - 1, count);
    }
    assert(left =~= right);
}

/// The hidden state before the first layer is the embedding of each token.
pub proof fn states_begin_with_the_embedding<E>(
    ar: Arithmetic<E>,
    u: Values<E>,
    d: PassDims,
    c: int,
    t: int,
)
    requires
        0 <= t < u.tokens.len(),
    ensures
        (value(ar, u, expr::hidden(d, 0)).at)(c, t, 0) == ((u.weights)(Weight::TokenEmbd).at)(
            c,
            u.tokens[t] as int,
            0,
        ),
        value(ar, u, expr::hidden(d, 0)).n0 == (u.weights)(Weight::TokenEmbd).n0,
        value(ar, u, expr::hidden(d, 0)).n1 == u.tokens.len(),
        value(ar, u, expr::hidden(d, 0)).n2 == 1,
{
    let e = Expr::Weight(Weight::TokenEmbd);
    assert(value(ar, u, e) == (u.weights)(Weight::TokenEmbd));
}

/// A normalised state is the norm of each column, with the epsilon of the pass, times the weight.
pub proof fn norms_are_weighed<E>(
    ar: Arithmetic<E>,
    u: Values<E>,
    d: PassDims,
    x: Expr,
    w: Weight,
    c: int,
    t: int,
)
    requires
        (u.weights)(w).n0 == value(ar, u, x).n0,
        (u.weights)(w).n1 == 1,
        (u.weights)(w).n2 == 1,
        0 <= c < value(ar, u, x).n0,
    ensures
        (value(ar, u, expr::norm(d, x, w)).at)(c, t, 0) == (ar.product)(
            (ar.norm)(
                Seq::new(
                    value(ar, u, x).n0 as nat,
                    |i: int| (value(ar, u, x).at)(i, t, 0),
                ),
                d.eps,
            )[c],
            ((u.weights)(w).at)(c, 0, 0),
        ),
        value(ar, u, expr::norm(d, x, w)).sized(
            value(ar, u, x).n0,
            value(ar, u, x).n1,
            value(ar, u, x).n2,
        ),
{
    let xt = value(ar, u, x);
    let r = Expr::RmsNorm(Box::new(x), d.eps);
    assert(value(ar, u, r) == ar.normed(xt, d.eps));
    assert(value(ar, u, Expr::Weight(w)) == (u.weights)(w));
    assert(value(ar, u, expr::norm(d, x, w)) == ar.times(
        value(ar, u, r),
        value(ar, u, Expr::Weight(w)),
    ));
    vstd::arithmetic::div_mod::lemma_small_mod(c as nat, xt.n0 as nat);
    assert(xt.column(t, 0) =~= Seq::new(xt.n0 as nat, |i: int| (xt.at)(i, t, 0)));
}

/// The feed-forward network of a layer, on a column `h`: SiLU is applied to what
/// `ffn_gate.weight` makes of it, the result is multiplied by what `ffn_up.weight` makes of it,
/// and the products are projected down by `ffn_down.weight`.
pub proof fn feed_forward_is_gated<E>(
    ar: Arithmetic<E>,
    u: Values<E>,
    h: Expr,
    l: usize,
    n_ff: int,
    o: int,
    t: int,
)
    requires
        value(ar, u, h).n2 == 1,
        0 <= n_ff,
        0 <= t < value(ar, u, h).n1,
        (u.weights)(Weight::Layer(l, LayerWeight::FfnGate)).n1 == n_ff,
        (u.weights)(Weight::Layer(l, LayerWeight::FfnGate)).n2 == 1,
        (u.weights)(Weight::Layer(l, LayerWeight::FfnUp)).n1 == n_ff,
        (u.weights)(Weight::Layer(l, LayerWeight::FfnUp)).n2 == 1,
        (u.weights)(Weight::Layer(l, LayerWeight::FfnDown)).n2 == 1,
    ensures
        ({
            let gate = (u.weights)(Weight::Layer(l, LayerWeight::FfnGate));
            let up = (u.weights)(Weight::Layer(l, LayerWeight::FfnUp));
            let down = (u.weights)(Weight::Layer(l, LayerWeight::FfnDown));
            let ht = value(ar, u, h);
            let col = Seq::new(ht.n0 as nat, |i: int| (ht.at)(i, t, 0));
            let inner = Seq::new(
                n_ff as nat,
                |i: int|
                    (ar.product)(
                        (ar.silu)(
                            (ar.dot)(Seq::new(gate.n0 as nat, |j: int| (gate.at)(j, i, 0)), col),
                        ),
                        (ar.dot)(Seq::new(up.n0 as nat, |j: int| (up.at)(j, i, 0)), col),
                    ),
            );
            &&& (value(ar, u, expr::feed_forward(h, l)).at)(o, t, 0) == (ar.dot)(
                Seq::new(down.n0 as nat, |j: int| (down.at)(j, o, 0)),
                inner,
            )
            &&& value(ar, u, expr::feed_forward(h, l)).n0 == down.n1
            &&& value(ar, u, expr::feed_forward(h, l)).n1 == ht.n1
            &&& value(ar, u, expr::feed_forward(h, l)).n2 == 1
        }),
{
    let gate = (u.weights)(Weight::Layer(l, LayerWeight::FfnGate));
    let up = (u.weights)(Weight::Layer(l, LayerWeight::FfnUp));
    let down = (u.weights)(Weight::Layer(l, LayerWeight::FfnDown));
    let ht = value(ar, u, h);
    let gw = expr::weight(l, LayerWeight::FfnGate);
    let uw = expr::weight(l, LayerWeight::FfnUp);
    let dw = expr::weight(l, LayerWeight::FfnDown);
    assert(value(ar, u, *gw) == gate);
    assert(value(ar, u, *uw) == up);
    assert(value(ar, u, *dw) == down);
    let gi = Expr::MulMat(gw, Box::new(h));
    let ui = Expr::MulMat(uw, Box::new(h));
    assert(value(ar, u, gi) == ar.mul_mat(gate, ht));
    assert(value(ar, u, ui) == ar.mul_mat(up, ht));
    let gs = Expr::Silu(Box::new(gi));
    assert(value(ar, u, gs) == ar.silus(value(ar, u, gi)));
    let gated = Expr::Mul(Box::new(gs), Box::new(ui));
    let gt = value(ar, u, gated);
    assert(gt == ar.times(value(ar, u, gs), value(ar, u, ui)));
    assert(value(ar, u, expr::feed_forward(h, l)) == ar.mul_mat(down, gt));
    let col = Seq::new(ht.n0 as nat, |i: int| (ht.at)(i, t, 0));
    assert(ht.column(t, 0) =~= col);
    let inner = Seq::new(
        n_ff as nat,
        |i: int|
            (ar.product)(
                (ar.silu)((ar.dot)(Seq::new(gate.n0 as nat, |j: int| (gate.at)(j, i, 0)), col)),
                (ar.dot)(Seq::new(up.n0 as nat, |j: int| (up.at)(j, i, 0)), col),
            ),
    );
    assert forall|i: int| 0 <= i < n_ff implies gt.column(t, 0)[i] == inner[i] by {
        vstd::arithmetic::div_mod::lemma_small_mod(i as nat, n_ff as nat);
        vstd::arithmetic::div_mod::lemma_small_mod(t as nat, ht.n1 as nat);
        assert(gate.column(i, 0) =~= Seq::new(gate.n0 as nat, |j: int| (gate.at)(j, i, 0)));
        assert(up.column(i, 0) =~= Seq::new(up.n0 as nat, |j: int| (up.at)(j, i, 0)));
        assert(0int % 1 == 0);
        assert(0int / (1int / 1int) == 0);
    }
    assert(gt.column(t, 0) =~= inner);
    assert(down.column(o, 0) =~= Seq::new(down.n0 as nat, |j: int| (down.at)(j, o, 0)));
}

/// The inner product of integers.
pub open spec fn inner_product(a: Seq<int>, b: Seq<int>) -> int
    decreases a.len(),
{
    if a.len() == 0 {
        0
    } else {
        inner_product(a.drop_last(), b) + a.last() * b[a.len() - 1]
    }
}

proof fn lemma_inner_scales(a: Seq<int>, b: Seq<int>, x: Seq<int>, y: Seq<int>, c: int)
    requires
        a.len() == x.len(),
        forall|i: int| 0 <= i < a.len() ==> #[trigger] x[i] * y[i] == c * (a[i] * b[i]),
    ensures
        inner_product(x, y) == c * inner_product(a, b),
    decreases a.len(),
{
    if a.len() > 0 {
        let n = a.len() - 1;
        let xs = x.drop_last();
        let asq = a.drop_last();
        assert forall|i: int| 0 <= i < n implies #[trigger] xs[i] * y[i] == c * (asq[i] * b[i]) by {
            assert(x[i] * y[i] == c * (a[i] * b[i]));
        }
        lemma_inner_scales(asq, b, xs, y, c);
        assert(x[n] * y[n] == c * (a[n] * b[n]));
        let p = inner_product(asq, b);
        let q = a[n] * b[n];
        assert(c * p + c * q == c * (p + q)) by (nonlinear_arith);
    } else {
        assert(c * 0 == 0) by (nonlinear_arith);
    }
}

/// In integer arithmetic the network of a layer is linear in `ffn_up.weight`, whatever SiLU is:
/// scaling that weight scales what the network gives.
pub proof fn feed_forward_is_linear_in_its_up_weight(
    ar: Arithmetic<int>,
    u: Values<int>,
    v: Values<int>,
    h: Expr,
    l: usize,
    n_ff: int,
    k: int,
    o: int,
    t: int,
)
    requires
        ar.dot == (|a: Seq<int>, b: Seq<int>| inner_product(a, b)),
        ar.product == (|a: int, b: int| a * b),
        value(ar, u, h).n2 == 1,
        value(ar, v, h) == value(ar, u, h),
        0 <= n_ff,
        0 <= t < value(ar, u, h).n1,
        (u.weights)(Weight::Layer(l, LayerWeight::FfnGate)).n1 == n_ff,
        (u.weights)(Weight::Layer(l, LayerWeight::FfnGate)).n2 == 1,
        (u.weights)(Weight::Layer(l, LayerWeight::FfnUp)).n0 >= 0,
        (u.weights)(Weight::Layer(l, LayerWeight::FfnUp)).n1 == n_ff,
        (u.weights)(Weight::Layer(l, LayerWeight::FfnUp)).n2 == 1,
        (u.weights)(Weight::Layer(l, LayerWeight::FfnDown)).n0 == n_ff,
        (u.weights)(Weight::Layer(l, LayerWeight::FfnDown)).n2 == 1,
        (v.weights)(Weight::Layer(l, LayerWeight::FfnGate)) == (u.weights)(
            Weight::Layer(l, LayerWeight::FfnGate),
        ),
        (v.weights)(Weight::Layer(l, LayerWeight::FfnDown)) == (u.weights)(
            Weight::Layer(l, LayerWeight::FfnDown),
        ),
        (v.weights)(Weight::Layer(l, LayerWeight::FfnUp)).sized(
            (u.weights)(Weight::Layer(l, LayerWeight::FfnUp)).n0,
            n_ff,
            1,
        ),
        forall|i: int, j: int| #[trigger]
            ((v.weights)(Weight::Layer(l, LayerWeight::FfnUp)).at)(i, j, 0) == k * ((u.weights)(
                Weight::Layer(l, LayerWeight::FfnUp),
            ).at)(i, j, 0),
    ensures
        (value(ar, v, expr::feed_forward(h, l)).at)(o, t, 0) == k * (value(
            ar,
            u,
            expr::feed_forward(h, l),
        ).at)(o, t, 0),
{
    feed_forward_is_gated(ar, u, h, l, n_ff, o, t);
    feed_forward_is_gated(ar, v, h, l, n_ff, o, t);
    let gate = (u.weights)(Weight::Layer(l, LayerWeight::FfnGate));
    let up = (u.weights)(Weight::Layer(l, LayerWeight::FfnUp));
    let more = (v.weights)(Weight::Layer(l, LayerWeight::FfnUp));
    let down = (u.weights)(Weight::Layer(l, LayerWeight::FfnDown));
    let ht = value(ar, u, h);
    let col = Seq::new(ht.n0 as nat, |i: int| (ht.at)(i, t, 0));
    let a = Seq::new(
        n_ff as nat,
        |i: int|
            (ar.product)(
                (ar.silu)((ar.dot)(Seq::new(gate.n0 as nat, |j: int| (gate.at)(j, i, 0)), col)),
                (ar.dot)(Seq::new(up.n0 as nat, |j: int| (up.at)(j, i, 0)), col),
            ),
    );
    let b = Seq::new(
        n_ff as nat,
        |i: int|
            (ar.product)(
                (ar.silu)((ar.dot)(Seq::new(gate.n0 as nat, |j: int| (gate.at)(j, i, 0)), col)),
                (ar.dot)(Seq::new(more.n0 as nat, |j: int| (more.at)(j, i, 0)), col),
            ),
    );
    let ds = Seq::new(down.n0 as nat, |j: int| (down.at)(j, o, 0));
    assert forall|i: int| 0 <= i < n_ff implies #[trigger] ds[i] * b[i] == k * (ds[i] * a[i]) by {
        let us = Seq::new(up.n0 as nat, |j: int| (up.at)(j, i, 0));
        let ms = Seq::new(more.n0 as nat, |j: int| (more.at)(j, i, 0));
        assert forall|j: int| 0 <= j < us.len() implies #[trigger] ms[j] * col[j] == k * (us[j]
            * col[j]) by {
            assert((more.at)(j, i, 0) == k * (up.at)(j, i, 0));
            assert((k * us[j]) * col[j] == k * (us[j] * col[j])) by (nonlinear_arith);
        }
        lemma_inner_scales(us, col, ms, col, k);
        let g = (ar.silu)((ar.dot)(Seq::new(gate.n0 as nat, |j: int| (gate.at)(j, i, 0)), col));
        let p = inner_product(us, col);
        assert(a[i] == g * p);
        assert(b[i] == g * (k * p));
        assert(ds[i] * (g * (k * p)) == k * (ds[i] * (g * p))) by (nonlinear_arith);
    }
    lemma_inner_scales(ds, a, ds, b, k);
}

/// A projection of a normalised state, split into heads, element by element.
proof fn lemma_projection<E>(
    ar: Arithmetic<E>,
    u: Values<E>,
    d: PassDims,
    m: ModelDims,
    x: Expr,
    l: usize,
    w: LayerWeight,
    n: i64,
    g: int,
    t: int,
)
    requires
        m.runs(d),
        u.width == m.row(),
        u.rows == m.n_ctx,
        forall|w: Weight|
            (#[trigger] (u.weights)(w)).sized(m.weight(w).n0, m.weight(w).n1, m.weight(w).n2),
        value(ar, u, x).sized(m.n_embd, m.n_tokens, 1),
        0 <= t < m.n_tokens,
        m.weight(Weight::Layer(l, w)).n1 == n * m.head_dim,
        m.weight(Weight::Layer(l, w)).n0 == m.n_embd,
        0 <= g < n,
    ensures
        ({
            let xt = value(ar, u, x);
            let nw = (u.weights)(Weight::Layer(l, LayerWeight::AttnNorm));
            let ww = (u.weights)(Weight::Layer(l, w));
            let col = Seq::new(m.n_embd as nat, |i: int| (xt.at)(i, t, 0));
            let normed = Seq::new(
                m.n_embd as nat,
                |i: int| (ar.product)((ar.norm)(col, d.eps)[i], (nw.at)(i, 0, 0)),
            );
            let p = projected(ar, u, d, xt, l, w, n);
            &&& p.sized(m.head_dim, n as int, m.n_tokens)
            &&& p.column(g, t) == Seq::new(
                m.head_dim as nat,
                |c: int|
                    (ar.dot)(
                        Seq::new(m.n_embd as nat, |j: int| (ww.at)(j, c + m.head_dim * g, 0)),
                        normed,
                    ),
            )
        }),
{
    let xt = value(ar, u, x);
    let hd = m.head_dim;
    let nw = (u.weights)(Weight::Layer(l, LayerWeight::AttnNorm));
    let ww = (u.weights)(Weight::Layer(l, w));
    let col = Seq::new(m.n_embd as nat, |i: int| (xt.at)(i, t, 0));
    let normed = Seq::new(
        m.n_embd as nat,
        |i: int| (ar.product)((ar.norm)(col, d.eps)[i], (nw.at)(i, 0, 0)),
    );
    vstd::arithmetic::mul::lemma_mul_strictly_positive(m.n_head, m.head_dim);
    let nt = ar.times(ar.normed(xt, d.eps), nw);
    assert(nt.column(t, 0) =~= normed) by {
        assert(xt.column(t, 0) =~= col);
        assert forall|i: int| 0 <= i < m.n_embd implies nt.column(t, 0)[i] == normed[i] by {
            vstd::arithmetic::div_mod::lemma_small_mod(i as nat, m.n_embd as nat);
        }
    }
    let z = ar.mul_mat(ww, nt);
    assert(z.sized(n * hd, m.n_tokens, 1));
    lemma_split(z, hd, n as int, m.n_tokens, g, t);
    let p = projected(ar, u, d, xt, l, w, n);
    let right = Seq::new(
        hd as nat,
        |c: int|
            (ar.dot)(Seq::new(m.n_embd as nat, |j: int| (ww.at)(j, c + hd * g, 0)), normed),
    );
    assert forall|c: int| 0 <= c < hd implies p.column(g, t)[c] == right[c] by {
        lemma_in_row(c, hd, g, n as int);
        let o = c + hd * g;
        assert(z.column(t, 0)[o] == (z.at)(o, t, 0));
        assert(ww.column(o, 0) =~= Seq::new(m.n_embd as nat, |j: int| (ww.at)(j, o, 0)));
    }
    assert(p.column(g, t) =~= right);
}

/// What a layer writes into its key cache: the normalised state of each token, projected by
/// `attn_k.weight` and rotated by the token's position, head after head. It goes to the rows of
/// the pass's tokens, in the key cache of the layer.
pub proof fn keys_are_projected_and_rotated<E>(
    ar: Arithmetic<E>,
    u: Values<E>,
    d: PassDims,
    m: ModelDims,
    x: Expr,
    l: usize,
    c: int,
    g: int,
    t: int,
)
    requires
        m.runs(d),
        u.width == m.row(),
        u.rows == m.n_ctx,
        forall|w: Weight|
            (#[trigger] (u.weights)(w)).sized(m.weight(w).n0, m.weight(w).n1, m.weight(w).n2),
        value(ar, u, x).sized(m.n_embd, m.n_tokens, 1),
        0 <= t < m.n_tokens,
        0 <= g < m.n_head_kv,
        0 <= c < m.head_dim,
    ensures
        ({
            let xt = value(ar, u, x);
            let nw = (u.weights)(Weight::Layer(l, LayerWeight::AttnNorm));
            let kw = (u.weights)(Weight::Layer(l, LayerWeight::AttnK));
            let col = Seq::new(m.n_embd as nat, |i: int| (xt.at)(i, t, 0));
            let normed = Seq::new(
                m.n_embd as nat,
                |i: int| (ar.product)((ar.norm)(col, d.eps)[i], (nw.at)(i, 0, 0)),
            );
            let raw = Seq::new(
                m.head_dim as nat,
                |i: int|
                    (ar.dot)(
                        Seq::new(m.n_embd as nat, |j: int| (kw.at)(j, i + m.head_dim * g, 0)),
                        normed,
                    ),
            );
            &&& expr::key_write(d, x, l) matches Expr::Cpy(a, slot)
            &&& (value(ar, u, *a).at)(c + m.head_dim * g, t, 0) == (ar.rotate)(
                raw,
                u.positions[t],
                d.n_rot,
                d.freq_base,
            )[c]
            &&& *slot == Expr::View2(
                Box::new(Expr::CacheK(l)),
                (d.n_head_kv * d.head_dim) as i64,
                d.n_tokens,
                d.stride,
                d.offset,
            )
        }),
{
    let xt = value(ar, u, x);
    let hd = m.head_dim;
    let n = d.n_head_kv;
    lemma_projection(ar, u, d, m, x, l, LayerWeight::AttnK, n, g, t);
    lemma_value_heads(ar, u, d, x, l, LayerWeight::AttnK, n);
    let p = projected(ar, u, d, xt, l, LayerWeight::AttnK, n);
    let r = ar.rotated(p, u.positions, d.n_rot, d.freq_base);
    lemma_join(r, hd, n as int, m.n_tokens, t);
    lemma_in_row(c, hd, g, n as int);
    lemma_place(c, hd, g);
    let z = r.reshaped(n * hd, m.n_tokens, 1);
    assert(d.row() == n * hd);
    assert((z.at)(c + hd * g, t, 0) == z.column(t, 0)[c + hd * g]);
    assert(r.column(g, t)[c] == (r.at)(c, g, t));
}

/// What a layer writes into its value cache: the normalised state of each token, projected by
/// `attn_v.weight`, head after head, not rotated.
pub proof fn values_are_projected<E>(
    ar: Arithmetic<E>,
    u: Values<E>,
    d: PassDims,
    m: ModelDims,
    x: Expr,
    l: usize,
    c: int,
    g: int,
    t: int,
)
    requires
        m.runs(d),
        u.width == m.row(),
        u.rows == m.n_ctx,
        forall|w: Weight|
            (#[trigger] (u.weights)(w)).sized(m.weight(w).n0, m.weight(w).n1, m.weight(w).n2),
        value(ar, u, x).sized(m.n_embd, m.n_tokens, 1),
        0 <= t < m.n_tokens,
        0 <= g < m.n_head_kv,
        0 <= c < m.head_dim,
    ensures
        ({
            let xt = value(ar, u, x);
            let nw = (u.weights)(Weight::Layer(l, LayerWeight::AttnNorm));
            let vw = (u.weights)(Weight::Layer(l, LayerWeight::AttnV));
            let col = Seq::new(m.n_embd as nat, |i: int| (xt.at)(i, t, 0));
            let normed = Seq::new(
                m.n_embd as nat,
                |i: int| (ar.product)((ar.norm)(col, d.eps)[i], (nw.at)(i, 0, 0)),
            );
            &&& expr::value_write(d, x, l) matches Expr::Cpy(a, slot)
            &&& (value(ar, u, *a).at)(c + m.head_dim * g, t, 0) == (ar.dot)(
                Seq::new(m.n_embd as nat, |j: int| (vw.at)(j, c + m.head_dim * g, 0)),
                normed,
            )
            &&& *slot == Expr::View2(
                Box::new(Expr::CacheV(l)),
                (d.n_head_kv * d.head_dim) as i64,
                d.n_tokens,
                d.stride,
                d.offset,
            )
        }),
{
    let xt = value(ar, u, x);
    let hd = m.head_dim;
    let n = d.n_head_kv;
    lemma_projection(ar, u, d, m, x, l, LayerWeight::AttnV, n, g, t);
    lemma_value_heads(ar, u, d, x, l, LayerWeight::AttnV, n);
    let p = projected(ar, u, d, xt, l, LayerWeight::AttnV, n);
    lemma_join(p, hd, n as int, m.n_tokens, t);
    lemma_in_row(c, hd, g, n as int);
    lemma_place(c, hd, g);
    let z = p.reshaped(n * hd, m.n_tokens, 1);
    assert(d.row() == n * hd);
    assert((z.at)(c + hd * g, t, 0) == z.column(t, 0)[c + hd * g]);
}

/// The attention weights of a pass, as a tensor.
proof fn lemma_value_mix<E>(
    ar: Arithmetic<E>,
    u: Values<E>,
    d: PassDims,
    m: ModelDims,
    x: Expr,
    l: usize,
)
    requires
        u.width == m.row(),
        u.rows == m.n_ctx,
    ensures
        ({
            let q = asked(ar, u, d, value(ar, u, x), l);
            let k = cached(d, m, u.k[l]);
            let v = cached(d, m, u.v[l]);
            let raw = ar.shrunk(
                ar.mul_mat(k.permuted(0u8, 2u8, 1u8, 3u8), q.permuted(0u8, 2u8, 1u8, 3u8)),
                d.head_dim,
            );
            let low = if d.masked {
                ar.lowered(raw, masked(ar, u.mask, u.rows, u.tokens.len() as int))
            } else {
                raw
            };
            value(ar, u, expr::attended(d, x, l)) == ar.mul_mat(
                v.permuted(1u8, 2u8, 0u8, 3u8),
                ar.softmaxes(low),
            ).permuted(0u8, 2u8, 1u8, 3u8).reshaped(d.n_embd as int, d.n_tokens as int, 1)
        }),
{
    let xt = value(ar, u, x);
    lemma_value_heads(ar, u, d, x, l, LayerWeight::AttnQ, d.n_head);
    lemma_value_cached(ar, u, d, m, l);
    let q = expr::rope(
        d,
        expr::heads(d, expr::attn_norm(d, x, l), l, LayerWeight::AttnQ, d.n_head),
    );
    assert(value(ar, u, q) == asked(ar, u, d, xt, l));
    assert(value(ar, u, expr::queries(d, x, l)) == value(ar, u, q).permuted(0u8, 2u8, 1u8, 3u8));
    let ck = expr::cached_heads(d, Expr::CacheK(l));
    let cv = expr::cached_heads(d, Expr::CacheV(l));
    let kp = Expr::Permute(Box::new(ck), 0u8, 2u8, 1u8, 3u8);
    let vp = Expr::Permute(Box::new(cv), 1u8, 2u8, 0u8, 3u8);
    assert(value(ar, u, kp) == value(ar, u, ck).permuted(0u8, 2u8, 1u8, 3u8));
    assert(value(ar, u, vp) == value(ar, u, cv).permuted(1u8, 2u8, 0u8, 3u8));
    assert(value(ar, u, expr::keys(d, l)) == value(ar, u, kp));
    assert(value(ar, u, expr::values(d, l)) == value(ar, u, vp));
    let kq = Expr::MulMat(Box::new(expr::keys(d, l)), Box::new(expr::queries(d, x, l)));
    assert(value(ar, u, kq) == ar.mul_mat(
        value(ar, u, expr::keys(d, l)),
        value(ar, u, expr::queries(d, x, l)),
    ));
    let sc = Expr::InvSqrtScale(Box::new(kq), d.head_dim);
    assert(value(ar, u, sc) == ar.shrunk(value(ar, u, kq), d.head_dim));
    assert(value(ar, u, Expr::Mask) == masked(ar, u.mask, u.rows, u.tokens.len() as int));
    let attn = expr::attention(d, x, l);
    if d.masked {
        assert(value(ar, u, attn) == ar.softmaxes(
            ar.lowered(value(ar, u, sc), value(ar, u, Expr::Mask)),
        ));
    } else {
        assert(value(ar, u, attn) == ar.softmaxes(value(ar, u, sc)));
    }
    let mix = Expr::MulMat(Box::new(expr::values(d, l)), Box::new(attn));
    assert(value(ar, u, mix) == ar.mul_mat(
        value(ar, u, expr::values(d, l)),
        value(ar, u, attn),
    ));
    let turned = Expr::Permute(Box::new(mix), 0u8, 2u8, 1u8, 3u8);
    assert(value(ar, u, turned) == value(ar, u, mix).permuted(0u8, 2u8, 1u8, 3u8));
    assert(value(ar, u, Expr::Cont(Box::new(turned))) == value(ar, u, turned));
}

/// What a token attends to in a layer, with head `h`. Its query is its normalised state, projected
/// by `attn_q.weight` and rotated by its position. The score of a cache row is the inner product
/// of the query and the key in that row, for the key/value head that serves `h`, over the square
/// root of the head's width. The scores, with the mask added where there is one, go through the
/// softmax over all rows that are read, and weigh the values in these rows.
pub proof fn attention_weighs_the_cached_values<E>(
    ar: Arithmetic<E>,
    u: Values<E>,
    d: PassDims,
    m: ModelDims,
    x: Expr,
    l: usize,
    c: int,
    h: int,
    t: int,
)
    requires
        m.runs(d),
        u.width == m.row(),
        u.rows == m.n_ctx,
        forall|w: Weight|
            (#[trigger] (u.weights)(w)).sized(m.weight(w).n0, m.weight(w).n1, m.weight(w).n2),
        value(ar, u, x).sized(m.n_embd, m.n_tokens, 1),
        0 <= t < m.n_tokens,
        0 <= h < m.n_head,
        0 <= c < m.head_dim,
    ensures
        ({
            let hd = m.head_dim;
            let row = m.n_head_kv * m.head_dim;
            let g = h / (m.n_head / m.n_head_kv);
            let xt = value(ar, u, x);
            let nw = (u.weights)(Weight::Layer(l, LayerWeight::AttnNorm));
            let qw = (u.weights)(Weight::Layer(l, LayerWeight::AttnQ));
            let col = Seq::new(m.n_embd as nat, |i: int| (xt.at)(i, t, 0));
            let normed = Seq::new(
                m.n_embd as nat,
                |i: int| (ar.product)((ar.norm)(col, d.eps)[i], (nw.at)(i, 0, 0)),
            );
            let raw = Seq::new(
                hd as nat,
                |i: int|
                    (ar.dot)(
                        Seq::new(m.n_embd as nat, |j: int| (qw.at)(j, i + hd * h, 0)),
                        normed,
                    ),
            );
            let query = Seq::new(
                hd as nat,
                |i: int| (ar.rotate)(raw, u.positions[t], d.n_rot, d.freq_base)[i],
            );
            let scores = Seq::new(
                d.n_read as nat,
                |r: int|
                    (ar.shrink)(
                        (ar.dot)(Seq::new(hd as nat, |i: int| u.k[l][i + hd * g + row * r]), query),
                        d.head_dim,
                    ),
            );
            let shares = (ar.softmax)(
                if d.masked {
                    Seq::new(
                        d.n_read as nat,
                        |r: int| (ar.sum)(scores[r], (ar.number)(u.mask[r + t * m.n_ctx])),
                    )
                } else {
                    scores
                },
            );
            (value(ar, u, expr::attended(d, x, l)).at)(c + hd * h, t, 0) == (ar.dot)(
                Seq::new(d.n_read as nat, |r: int| u.v[l][c + hd * g + row * r]),
                Seq::new(d.n_read as nat, |r: int| shares[r]),
            )
        }),
        value(ar, u, expr::attended(d, x, l)).sized(m.n_embd, m.n_tokens, 1),
{
    let hd = m.head_dim;
    let row = m.n_head_kv * m.head_dim;
    let g = h / (m.n_head / m.n_head_kv);
    let xt = value(ar, u, x);
    let n_read = d.n_read as int;
    lemma_group(m, h);
    assert(g == group(m, h));
    lemma_value_mix(ar, u, d, m, x, l);
    lemma_projection(ar, u, d, m, x, l, LayerWeight::AttnQ, d.n_head, h, t);
    let nw = (u.weights)(Weight::Layer(l, LayerWeight::AttnNorm));
    let qw = (u.weights)(Weight::Layer(l, LayerWeight::AttnQ));
    let col = Seq::new(m.n_embd as nat, |i: int| (xt.at)(i, t, 0));
    let normed = Seq::new(
        m.n_embd as nat,
        |i: int| (ar.product)((ar.norm)(col, d.eps)[i], (nw.at)(i, 0, 0)),
    );
    let raw_q = Seq::new(
        hd as nat,
        |i: int|
            (ar.dot)(Seq::new(m.n_embd as nat, |j: int| (qw.at)(j, i + hd * h, 0)), normed),
    );
    let query = Seq::new(
        hd as nat,
        |i: int| (ar.rotate)(raw_q, u.positions[t], d.n_rot, d.freq_base)[i],
    );
    let scores = Seq::new(
        n_read as nat,
        |r: int|
            (ar.shrink)(
                (ar.dot)(Seq::new(hd as nat, |i: int| u.k[l][i + hd * g + row * r]), query),
                d.head_dim,
            ),
    );
    let q = asked(ar, u, d, xt, l);
    let k = cached(d, m, u.k[l]);
    let v = cached(d, m, u.v[l]);
    assert(q.column(h, t) =~= query);
    lemma_cached(d, m, u.k[l], g, 0);
    lemma_cached(d, m, u.v[l], g, 0);
    let kp = k.permuted(0u8, 2u8, 1u8, 3u8);
    let qp = q.permuted(0u8, 2u8, 1u8, 3u8);
    let vp = v.permuted(1u8, 2u8, 0u8, 3u8);
    assert(kp.sized(hd, n_read, m.n_head_kv));
    assert(qp.sized(hd, m.n_tokens, m.n_head));
    assert(vp.sized(n_read, hd, m.n_head_kv));
    assert(qp.column(t, h) =~= q.column(h, t));
    let raw = ar.shrunk(ar.mul_mat(kp, qp), d.head_dim);
    assert forall|r: int| 0 <= r < n_read implies (raw.at)(r, t, h) == scores[r] by {
        lemma_cached(d, m, u.k[l], g, r);
        assert(kp.column(r, g) =~= k.column(g, r));
        assert(k.column(g, r) =~= Seq::new(hd as nat, |i: int| u.k[l][i + hd * g + row * r])) by {
            assert forall|i: int| 0 <= i < hd implies k.column(g, r)[i] == u.k[l][i + hd * g + row
                * r] by {
                lemma_in_row(i, hd, g, m.n_head_kv);
            }
        }
    }
    assert(raw.column(t, h) =~= scores);
    let low = if d.masked {
        ar.lowered(raw, masked(ar, u.mask, u.rows, u.tokens.len() as int))
    } else {
        raw
    };
    let fed = if d.masked {
        Seq::new(
            n_read as nat,
            |r: int| (ar.sum)(scores[r], (ar.number)(u.mask[r + t * m.n_ctx])),
        )
    } else {
        scores
    };
    assert(low.column(t, h) =~= fed);
    let soft = ar.softmaxes(low);
    let shares = (ar.softmax)(fed);
    assert(soft.column(t, h) =~= Seq::new(n_read as nat, |r: int| shares[r]));
    let held = Seq::new(n_read as nat, |r: int| u.v[l][c + hd * g + row * r]);
    assert forall|r: int| 0 <= r < n_read implies vp.column(c, g)[r] == held[r] by {
        lemma_cached(d, m, u.v[l], g, r);
        lemma_in_row(c, hd, g, m.n_head_kv);
        assert(v.column(g, r)[c] == (v.at)(c, g, r));
    }
    assert(vp.column(c, g) =~= held);
    let mix = ar.mul_mat(vp, soft);
    assert(mix.sized(hd, m.n_tokens, m.n_head));
    assert((mix.at)(c, t, h) == (ar.dot)(held, soft.column(t, h)));
    let turned = mix.permuted(0u8, 2u8, 1u8, 3u8);
    assert(turned.sized(hd, m.n_head, m.n_tokens));
    lemma_join(turned, hd, m.n_head, m.n_tokens, t);
    lemma_in_row(c, hd, h, m.n_head);
    lemma_place(c, hd, h);
    let z = turned.reshaped(m.n_head * hd, m.n_tokens, 1);
    assert((z.at)(c + hd * h, t, 0) == z.column(t, 0)[c + hd * h]);
    assert(turned.column(h, t)[c] == (turned.at)(c, h, t));
}

/// A layer adds what its attention gives, projected by `attn_output.weight`, to the state that
/// enters it, and then adds what its feed-forward network gives on the normalised sum.
pub proof fn layers_add_to_the_state<E>(
    ar: Arithmetic<E>,
    u: Values<E>,
    d: PassDims,
    m: ModelDims,
    x: Expr,
    l: usize,
    c: int,
    t: int,
)
    requires
        m.runs(d),
        u.width == m.row(),
        u.rows == m.n_ctx,
        forall|w: Weight|
            (#[trigger] (u.weights)(w)).sized(m.weight(w).n0, m.weight(w).n1, m.weight(w).n2),
        value(ar, u, x).sized(m.n_embd, m.n_tokens, 1),
        0 <= t < m.n_tokens,
        0 <= c < m.n_embd,
    ensures
        ({
            let xt = value(ar, u, x);
            let ow = (u.weights)(Weight::Layer(l, LayerWeight::AttnOutput));
            let seen = value(ar, u, expr::attended(d, x, l));
            let a = expr::after_attention(d, x, l);
            let at = value(ar, u, a);
            let ff = value(
                ar,
                u,
                expr::feed_forward(expr::norm(d, a, Weight::Layer(l, LayerWeight::FfnNorm)), l),
            );
            &&& (at.at)(c, t, 0) == (ar.sum)(
                (xt.at)(c, t, 0),
                (ar.dot)(
                    Seq::new(m.n_embd as nat, |j: int| (ow.at)(j, c, 0)),
                    Seq::new(m.n_embd as nat, |j: int| (seen.at)(j, t, 0)),
                ),
            )
            &&& at.sized(m.n_embd, m.n_tokens, 1)
            &&& (value(ar, u, expr::layer_output(d, x, l)).at)(c, t, 0) == (ar.sum)(
                (at.at)(c, t, 0),
                (ff.at)(c, t, 0),
            )
            &&& value(ar, u, expr::layer_output(d, x, l)).sized(m.n_embd, m.n_tokens, 1)
        }),
{
    vstd::arithmetic::mul::lemma_mul_strictly_positive(m.n_head, m.head_dim);
    let xt = value(ar, u, x);
    let wo = expr::weight(l, LayerWeight::AttnOutput);
    let ow = (u.weights)(Weight::Layer(l, LayerWeight::AttnOutput));
    attention_weighs_the_cached_values(ar, u, d, m, x, l, 0, 0, t);
    let seen = value(ar, u, expr::attended(d, x, l));
    assert(value(ar, u, *wo) == ow);
    let out = Expr::MulMat(wo, Box::new(expr::attended(d, x, l)));
    assert(value(ar, u, out) == ar.mul_mat(ow, seen));
    let a = expr::after_attention(d, x, l);
    let at = value(ar, u, a);
    assert(at == ar.plus(xt, value(ar, u, out)));
    vstd::arithmetic::div_mod::lemma_small_mod(c as nat, m.n_embd as nat);
    vstd::arithmetic::div_mod::lemma_small_mod(t as nat, m.n_tokens as nat);
    assert(0int % 1 == 0);
    assert(ow.column(c, 0) =~= Seq::new(m.n_embd as nat, |j: int| (ow.at)(j, c, 0)));
    assert(seen.column(t, 0) =~= Seq::new(m.n_embd as nat, |j: int| (seen.at)(j, t, 0)));
    let nw = Weight::Layer(l, LayerWeight::FfnNorm);
    let h = expr::norm(d, a, nw);
    norms_are_weighed(ar, u, d, a, nw, 0, t);
    feed_forward_is_gated(ar, u, h, l, m.n_ff, c, t);
    let ff = expr::feed_forward(h, l);
    assert(value(ar, u, expr::layer_output(d, x, l)) == ar.plus(at, value(ar, u, ff)));
}

/// The stack applies its layers in order, each to what the one before it leaves, and writes the
/// keys and then the values of each layer.
pub proof fn stacks_apply_layers_in_order(d: PassDims, n: nat)
    requires
        n < usize::MAX,
    ensures
        expr::hidden(d, n + 1) == expr::layer_output(d, expr::hidden(d, n), n as usize),
        expr::cache_writes(d, 0).len() == 0,
        expr::cache_writes(d, n + 1) == expr::cache_writes(d, n) + seq![
            expr::key_write(d, expr::hidden(d, n), n as usize),
            expr::value_write(d, expr::hidden(d, n), n as usize),
        ],
{
    assert(expr::cache_writes(d, n + 1) =~= expr::cache_writes(d, n) + seq![
        expr::key_write(d, expr::hidden(d, n), n as usize),
        expr::value_write(d, expr::hidden(d, n), n as usize),
    ]);
}

/// The logits of a token are inner products with its last state, normalised by
/// `output_norm.weight`: those of every token, or, where the state is read from the byte on at
/// which the last token's begins, those of the last one.
pub proof fn logits_project_the_last_state<E>(
    ar: Arithmetic<E>,
    u: Values<E>,
    d: PassDims,
    m: ModelDims,
    n: nat,
    head: Weight,
    last: usize,
    o: int,
    t: int,
)
    requires
        m.runs(d),
        forall|w: Weight|
            (#[trigger] (u.weights)(w)).sized(m.weight(w).n0, m.weight(w).n1, m.weight(w).n2),
        value(ar, u, expr::hidden(d, n)).sized(m.n_embd, m.n_tokens, 1),
        head == Weight::Output || head == Weight::TokenEmbd,
        0 <= t < m.n_tokens,
        last == (m.n_tokens - 1) * m.n_embd * 4,
    ensures
        ({
            let xt = value(ar, u, expr::hidden(d, n));
            let nw = (u.weights)(Weight::OutputNorm);
            let hw = (u.weights)(head);
            let logit = |q: int|
                {
                    let col = Seq::new(m.n_embd as nat, |i: int| (xt.at)(i, q, 0));
                    (ar.dot)(
                        Seq::new(m.n_embd as nat, |j: int| (hw.at)(j, o, 0)),
                        Seq::new(
                            m.n_embd as nat,
                            |i: int| (ar.product)((ar.norm)(col, d.eps)[i], (nw.at)(i, 0, 0)),
                        ),
                    )
                };
            &&& (value(ar, u, expr::all_logits(d, n, head)).at)(o, t, 0) == logit(t)
            &&& (value(ar, u, expr::last_logits(d, n, head, last)).at)(o, 0, 0) == logit(
                m.n_tokens - 1,
            )
        }),
{
    vstd::arithmetic::mul::lemma_mul_strictly_positive(m.n_head, m.head_dim);
    let x = expr::hidden(d, n);
    let xt = value(ar, u, x);
    let nw = (u.weights)(Weight::OutputNorm);
    let hw = (u.weights)(head);
    let f = expr::final_state(d, n);
    let ft = value(ar, u, f);
    lemma_value_logits(ar, u, d, n, head);
    assert(value(ar, u, Expr::Weight(head)) == hw);
    norms_are_weighed(ar, u, d, x, Weight::OutputNorm, 0, t);
    assert forall|q: int| #![trigger ft.column(q, 0)] ft.column(q, 0) == Seq::new(
        m.n_embd as nat,
        |i: int|
            (ar.product)(
                (ar.norm)(Seq::new(m.n_embd as nat, |k: int| (xt.at)(k, q, 0)), d.eps)[i],
                (nw.at)(i, 0, 0),
            ),
    ) by {
        let right = Seq::new(
            m.n_embd as nat,
            |i: int|
                (ar.product)(
                    (ar.norm)(Seq::new(m.n_embd as nat, |k: int| (xt.at)(k, q, 0)), d.eps)[i],
                    (nw.at)(i, 0, 0),
                ),
        );
        assert forall|i: int| 0 <= i < m.n_embd implies ft.column(q, 0)[i] == right[i] by {
            norms_are_weighed(ar, u, d, x, Weight::OutputNorm, i, q);
        }
        assert(ft.column(q, 0) =~= right);
    }
    assert(hw.column(o, 0) =~= Seq::new(m.n_embd as nat, |j: int| (hw.at)(j, o, 0)));
    let view = Expr::View1(Box::new(f), d.n_embd, last);
    let vt = value(ar, u, view);
    assert(vt == ft.viewed(m.n_embd, 1, 0, last as int));
    assert(value(ar, u, expr::last_logits(d, n, head, last)) == ar.mul_mat(hw, vt));
    let e = m.n_tokens - 1;
    assert(last as int / 4 == e * m.n_embd);
    assert(e * m.n_embd == m.n_embd * e) by (nonlinear_arith);
    assert forall|i: int| 0 <= i < m.n_embd implies vt.column(0, 0)[i] == ft.column(e, 0)[i] by {
        lemma_place(i, m.n_embd, e);
        vstd::arithmetic::div_mod::lemma_small_mod(e as nat, m.n_tokens as nat);
        vstd::arithmetic::div_mod::lemma_basic_div(e, m.n_tokens);
    }
    assert(vt.column(0, 0) =~= ft.column(e, 0));
}

/// What each operation of a plan does with the elements of its operands.
pub proof fn operations_do_what_they_say<E>(
    ar: Arithmetic<E>,
    u: Values<E>,
    graph: GraphPlan,
    at: int,
    i: int,
    j: int,
    k: int,
)
    requires
        graph.well_formed(),
        0 <= at < graph.ops@.len(),
    ensures
        ({
            let v = |a: usize| value(ar, u, graph.exprs()[a as int]);
            let x = (value(ar, u, graph.exprs()[at]).at)(i, j, k);
            match graph.ops@[at] {
                Op::Weight(w) => x == ((u.weights)(w).at)(i, j, k),
                Op::Tokens => x == (ar.integer)(u.tokens[i]),
                Op::Positions => x == (ar.integer)(u.positions[i]),
                Op::Mask => x == (ar.number)(u.mask[i + j * u.rows]),
                Op::CacheK(l) => x == u.k[l][i + u.width * j],
                Op::CacheV(l) => x == u.v[l][i + u.width * j],
                Op::GetRows(a, b) => graph.ops@[b as int] is Tokens ==> x == (v(a).at)(
                    i,
                    u.tokens[j] as int,
                    0,
                ),
                Op::RmsNorm(a, eps) => x == (ar.norm)(
                    Seq::new(v(a).n0 as nat, |c: int| (v(a).at)(c, j, k)),
                    eps,
                )[i],
                Op::Mul(a, b) => x == (ar.product)(
                    (v(a).at)(i, j, k),
                    (v(b).at)(i % v(b).n0, j % v(b).n1, k % v(b).n2),
                ),
                Op::Add(a, b) => x == (ar.sum)(
                    (v(a).at)(i, j, k),
                    (v(b).at)(i % v(b).n0, j % v(b).n1, k % v(b).n2),
                ),
                Op::MulMat(a, b) => x == (ar.dot)(
                    Seq::new(
                        v(a).n0 as nat,
                        |c: int| (v(a).at)(c, i, k / (v(b).n2 / v(a).n2)),
                    ),
                    Seq::new(v(b).n0 as nat, |c: int| (v(b).at)(c, j, k)),
                ),
                Op::Silu(a) => x == (ar.silu)((v(a).at)(i, j, k)),
                Op::Reshape2(a, n0, n1) => {
                    let f = i + n0 * (j + n1 * k);
                    x == (v(a).at)(f % v(a).n0, f / v(a).n0 % v(a).n1, f / v(a).n0 / v(a).n1)
                },
                Op::Reshape3(a, n0, n1, _) => {
                    let f = i + n0 * (j + n1 * k);
                    x == (v(a).at)(f % v(a).n0, f / v(a).n0 % v(a).n1, f / v(a).n0 / v(a).n1)
                },
                Op::Rope(a, b, n_rot, base) => graph.ops@[b as int] is Positions ==> x == (
                ar.rotate)(
                    Seq::new(v(a).n0 as nat, |c: int| (v(a).at)(c, j, k)),
                    u.positions[k],
                    n_rot,
                    base,
                )[i],
                Op::Cont(a) => x == (v(a).at)(i, j, k),
                Op::View1(a, _, byte) => {
                    let f = byte as int / 4 + i;
                    x == (v(a).at)(f % v(a).n0, f / v(a).n0 % v(a).n1, f / v(a).n0 / v(a).n1)
                },
                Op::View2(a, _, _, stride, byte) => {
                    let f = byte as int / 4 + stride as int / 4 * j + i;
                    x == (v(a).at)(f % v(a).n0, f / v(a).n0 % v(a).n1, f / v(a).n0 / v(a).n1)
                },
                Op::Cpy(a, _) => x == (v(a).at)(i, j, k),
                Op::Permute(a, p, q, r, s) => {
                    &&& p == 0 && q == 2 && r == 1 && s == 3 ==> x == (v(a).at)(i, k, j)
                    &&& p == 1 && q == 2 && r == 0 && s == 3 ==> x == (v(a).at)(j, k, i)
                },
                Op::InvSqrtScale(a, n) => x == (ar.shrink)((v(a).at)(i, j, k), n),
                Op::SoftMax(a) => x == (ar.softmax)(
                    Seq::new(v(a).n0 as nat, |c: int| (v(a).at)(c, j, k)),
                )[i],
                Op::SoftMaxMasked(a, b) => x == (ar.softmax)(
                    Seq::new(
                        v(a).n0 as nat,
                        |c: int| (ar.sum)((v(a).at)(c, j, k), (v(b).at)(c, j, 0)),
                    ),
                )[i],
            }
        }),
{
    let e = graph.exprs();
    plan::lemma_meaning_at(graph.ops@, at);
    assert(plan::operands_below(graph.ops@[at], at));
    match graph.ops@[at] {
        Op::GetRows(a, b) => {
            plan::lemma_meaning_at(graph.ops@, b as int);
        },
        Op::Rope(a, b, _, _) => {
            plan::lemma_meaning_at(graph.ops@, b as int);
            let at = value(ar, u, e[a as int]);
            assert(at.column(j, k) =~= Seq::new(at.n0 as nat, |c: int| (at.at)(c, j, k)));
        },
        Op::RmsNorm(a, _) | Op::SoftMax(a) => {
            let at = value(ar, u, e[a as int]);
            assert(at.column(j, k) =~= Seq::new(at.n0 as nat, |c: int| (at.at)(c, j, k)));
        },
        Op::MulMat(a, b) => {
            let at = value(ar, u, e[a as int]);
            let bt = value(ar, u, e[b as int]);
            let z = k / (bt.n2 / at.n2);
            assert(at.column(i, z) =~= Seq::new(at.n0 as nat, |c: int| (at.at)(c, i, z)));
            assert(bt.column(j, k) =~= Seq::new(bt.n0 as nat, |c: int| (bt.at)(c, j, k)));
        },
        Op::SoftMaxMasked(a, b) => {
            let at = value(ar, u, e[a as int]);
            let bt = value(ar, u, e[b as int]);
            assert(ar.lowered(at, bt).column(j, k) =~= Seq::new(
                at.n0 as nat,
                |c: int| (ar.sum)((at.at)(c, j, k), (bt.at)(c, j, 0)),
            ));
        },
        _ => {},
    }
}

} // verus!
