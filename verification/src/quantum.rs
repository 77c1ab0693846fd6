//! The forward pass under a causal mask.
//!
//! A [`ForwardPass`] reads the whole cache and hides what lies ahead of each query by a mask. It
//! keeps the handles of the compute graph that it built last. A pass begins with
//! [`ForwardPass::prefill`] or [`ForwardPass::decode_one`], goes on with [`ForwardPass::advance`]
//! for each reply of the compute library, and leaves its graph in place until the next pass gives
//! it back. Handles are addresses; zero stands for none.

use vstd::prelude::*;
use vstd::string::*;

use crate::arith;
use crate::expr;
use crate::expr::PassDims;
use crate::gguf;
use crate::gguf::{GgufValue, ModelHeader};
use crate::plan;
use crate::plan::{GraphPlan, Needs};
use crate::shapes;
use crate::shapes::ModelDims;
use crate::text;
use crate::values;
use crate::values::Tensor;
use crate::weights;
use crate::weights::{TensorIndex, Weight};

verus! {

/// The largest number of cache rows.
pub const MAX_CTX: i64 = 4096;

/// Bytes of the context of a compute graph.
pub const GRAPH_MEM_SIZE: usize = 536870912;

/// The most operations of a compute graph.
pub const GRAPH_NODES: usize = 65536;

/// Bytes of the context of the inputs.
pub const INPUT_MEM_SIZE: usize = 32768;

/// Bits of the rotary frequency base of a model that names none: 10000.
pub const DEFAULT_FREQ_BASE: u32 = 0x461C4000;

/// Bits of the normalisation epsilon of a model that names none: 0.000001.
pub const DEFAULT_EPS: u32 = 0x358637BD;

/// Bits of the mask of a position that a query sees: 0.
pub const VISIBLE: u32 = 0;

/// Bits of the mask of a position that a query does not see: -10000.
pub const HIDDEN: u32 = 0xC61C4000;

/// Why a forward pass failed.
pub enum ForwardError {
    Init(String),
    MissingTensor(String),
    ComputeFailed(i32),
    ContextFull,
    Internal(String),
}

impl ForwardError {
    /// The error in words.
    pub open spec fn words(self) -> Seq<char> {
        match self {
            ForwardError::Init(msg) => "[Z.3 INIT] "@ + msg@,
            ForwardError::MissingTensor(name) => "[Z.3 MISSING] tensor: "@ + name@,
            ForwardError::ComputeFailed(code) => "[Z.3 COMPUTE] failed with status "@
                + text::signed_decimal(code as int),
            ForwardError::ContextFull => "[Z.3 OVERFLOW] context window full"@,
            ForwardError::Internal(msg) => "[Z.3 INTERNAL] "@ + msg@,
        }
    }

    /// The error in words.
    pub fn message(&self) -> (r: String)
        ensures
            r@ == self.words(),
    {
        match self {
            ForwardError::Init(msg) => text::join("[Z.3 INIT] ", msg.as_str()),
            ForwardError::MissingTensor(name) => text::join("[Z.3 MISSING] tensor: ", name.as_str()),
            ForwardError::ComputeFailed(code) => {
                let mut out: String = "[Z.3 COMPUTE] failed with status ".to_owned();
                text::push_signed_decimal(&mut out, *code as i64);
                out
            },
            ForwardError::ContextFull => "[Z.3 OVERFLOW] context window full".to_owned(),
            ForwardError::Internal(msg) => text::join("[Z.3 INTERNAL] ", msg.as_str()),
        }
    }

    /// An internal error with these words.
    pub open spec fn internal(self, words: Seq<char>) -> bool {
        self matches ForwardError::Internal(msg) && msg@ == words
    }
}

/// What kept the engine from being made.
#[derive(Clone, Copy, Debug, PartialEq, Eq, Structural)]
pub enum InitFault {
    /// The compute backend could not be made.
    Backend,
    /// The cache buffer could not be allocated.
    CacheBuffer,
    /// The context of the cache tensors could not be made.
    CacheContext,
}

impl InitFault {
    /// The fault in words.
    pub open spec fn words(self) -> Seq<char> {
        match self {
            InitFault::Backend => "CPU backend init failed"@,
            InitFault::CacheBuffer => "KV buffer allocation failed"@,
            InitFault::CacheContext => "KV ggml_init failed"@,
        }
    }

    /// The fault in words.
    pub fn message(self) -> (r: String)
        ensures
            r@ == self.words(),
    {
        match self {
            InitFault::Backend => "CPU backend init failed".to_owned(),
            InitFault::CacheBuffer => "KV buffer allocation failed".to_owned(),
            InitFault::CacheContext => "KV ggml_init failed".to_owned(),
        }
    }
}

/// What kept a compute graph from being built.
#[derive(Clone, Copy, Debug, PartialEq, Eq, Structural)]
pub enum BuildFault {
    /// The input buffer could not be allocated.
    InputBuffer,
    /// The context of the inputs could not be made.
    InputContext,
    /// The context of the graph could not be made.
    GraphContext,
    /// The model lacks a weight.
    Missing(Weight),
    /// The graph could not be allocated.
    Allocation,
}

impl BuildFault {
    /// The fault in words; those of a whole prompt say so, but for a missing weight.
    pub open spec fn words(self, prefill: bool) -> Seq<char> {
        match self {
            BuildFault::InputBuffer => if prefill {
                "prefill input buffer alloc failed"@
            } else {
                "input buffer alloc failed"@
            },
            BuildFault::InputContext => if prefill {
                "prefill inp_ctx ggml_init failed"@
            } else {
                "inp_ctx ggml_init failed"@
            },
            BuildFault::GraphContext => if prefill {
                "prefill graph ctx ggml_init failed"@
            } else {
                "graph ctx ggml_init failed"@
            },
            BuildFault::Missing(w) => w.label() + " missing"@,
            BuildFault::Allocation => if prefill {
                "prefill gallocr_alloc_graph failed"@
            } else {
                "gallocr_alloc_graph failed"@
            },
        }
    }

    /// The fault in words.
    pub fn message(self, prefill: bool) -> (r: String)
        ensures
            r@ == self.words(prefill),
    {
        match self {
            BuildFault::InputBuffer => if prefill {
                "prefill input buffer alloc failed".to_owned()
            } else {
                "input buffer alloc failed".to_owned()
            },
            BuildFault::InputContext => if prefill {
                "prefill inp_ctx ggml_init failed".to_owned()
            } else {
                "inp_ctx ggml_init failed".to_owned()
            },
            BuildFault::GraphContext => if prefill {
                "prefill graph ctx ggml_init failed".to_owned()
            } else {
                "graph ctx ggml_init failed".to_owned()
            },
            BuildFault::Missing(w) => {
                let mut out: String = w.name();
                out.append(" missing");
                out
            },
            BuildFault::Allocation => if prefill {
                "prefill gallocr_alloc_graph failed".to_owned()
            } else {
                "gallocr_alloc_graph failed".to_owned()
            },
        }
    }
}

/// The parameters of a model.
pub struct ModelDNA {
    pub n_vocab: i64,
    pub n_embd: i64,
    pub n_head: i64,
    pub n_head_kv: i64,
    pub n_layer: i64,
    pub n_ff: i64,
    pub n_rot: i64,
    /// Bits of the rotary frequency base.
    pub freq_base: u32,
    /// Bits of the normalisation epsilon.
    pub rms_eps: u32,
    /// Whether the embedding serves as the output projection.
    pub has_tied_weights: bool,
}

impl ModelDNA {
    /// The size of the vocabulary: the number that the file names, or else the length of its
    /// token list, or else zero.
    pub open spec fn vocabulary(header: &ModelHeader) -> i64 {
        let m = &header.metadata;
        let named = match m.lookup(header.arch() + "."@ + "vocab_size"@) {
            Some(v) => v.u32_value(),
            None => None,
        };
        match named {
            Some(n) => n as i64,
            None => match m.lookup("tokenizer.ggml.tokens"@) {
                Some(GgufValue::Array(tokens)) => tokens@.len() as i64,
                _ => 0,
            },
        }
    }

    /// Whether the embedding of a model serves as its output projection: the file has an
    /// embedding and no projection, or its architecture always does so.
    pub open spec fn tied(header: &ModelHeader, index: &TensorIndex) -> bool {
        ||| !index.has(Weight::Output) && index.has(Weight::TokenEmbd)
        ||| header.arch() == "qwen2"@
    }

    /// The parameters are those of a model file.
    pub open spec fn read_from(&self, header: &ModelHeader, index: &TensorIndex) -> bool {
        let m = &header.metadata;
        let arch = header.arch() + "."@;
        &&& self.n_vocab == ModelDNA::vocabulary(header)
        &&& self.n_embd == m.integer(arch + "embedding_length"@)
        &&& self.n_head == m.integer(arch + "attention.head_count"@)
        &&& self.n_head_kv == m.integer(arch + "attention.head_count_kv"@)
        &&& self.n_layer == m.integer(arch + "block_count"@)
        &&& self.n_ff == m.integer(arch + "feed_forward_length"@)
        &&& self.n_rot == m.integer(arch + "rope.dimension_count"@)
        &&& self.freq_base == m.float(arch + "rope.freq_base"@, DEFAULT_FREQ_BASE)
        &&& self.rms_eps == m.float(arch + "attention.layer_norm_rms_epsilon"@, DEFAULT_EPS)
        &&& self.has_tied_weights == ModelDNA::tied(header, index)
    }

    /// Reads the parameters of a model file.
    pub fn from_model(header: &ModelHeader, index: &TensorIndex) -> (dna: ModelDNA)
        requires
            header.metadata.well_formed(),
        ensures
            dna.read_from(header, index),
    {
        let arch: String = header.arch_or_llama();
        let m = &header.metadata;
        let named: Option<u32> = match m.get(&gguf::arch_key(&arch, "vocab_size")) {
            Some(v) => v.as_u32(),
            None => None,
        };
        let n_vocab: i64 = match named {
            Some(n) => n as i64,
            None => match m.get(&"tokenizer.ggml.tokens".to_owned()) {
                Some(GgufValue::Array(tokens)) =>
                    #[verifier::truncate]
                    (tokens.len() as i64),
                _ => 0,
            },
        };
        let bare: bool = !index.has_weight(Weight::Output) && index.has_weight(Weight::TokenEmbd);
        let always: bool = text::same(arch.as_str(), "qwen2");
        ModelDNA {
            n_vocab,
            n_embd: m.get_u32(&gguf::arch_key(&arch, "embedding_length")),
            n_head: m.get_u32(&gguf::arch_key(&arch, "attention.head_count")),
            n_head_kv: m.get_u32(&gguf::arch_key(&arch, "attention.head_count_kv")),
            n_layer: m.get_u32(&gguf::arch_key(&arch, "block_count")),
            n_ff: m.get_u32(&gguf::arch_key(&arch, "feed_forward_length")),
            n_rot: m.get_u32(&gguf::arch_key(&arch, "rope.dimension_count")),
            freq_base: m.get_f32(&gguf::arch_key(&arch, "rope.freq_base"), DEFAULT_FREQ_BASE),
            rms_eps: m.get_f32(
                &gguf::arch_key(&arch, "attention.layer_norm_rms_epsilon"),
                DEFAULT_EPS,
            ),
            has_tied_weights: bare || always,
        }
    }

    /// No count is negative, and those that name a number of tensors, heads or elements are
    /// 32-bit unsigned integers.
    pub open spec fn well_formed(&self) -> bool {
        &&& 0 <= self.n_vocab
        &&& 0 <= self.n_embd <= u32::MAX
        &&& 0 <= self.n_head <= u32::MAX
        &&& 0 <= self.n_head_kv <= u32::MAX
        &&& 0 <= self.n_layer <= u32::MAX
        &&& 0 <= self.n_ff <= u32::MAX
        &&& 0 <= self.n_rot <= u32::MAX
    }

    /// Elements of one attention head; one where the model has no heads.
    pub open spec fn head_width(&self) -> int {
        if self.n_head == 0 {
            1
        } else {
            self.n_embd as int / self.n_head as int
        }
    }

    /// Elements of one attention head.
    pub fn head_dim(&self) -> (r: i64)
        requires
            0 <= self.n_embd,
            0 <= self.n_head,
        ensures
            r == self.head_width(),
            0 <= r,
            r <= 1 || r <= self.n_embd,
    {
        if self.n_head == 0 {
            1
        } else {
            let r: i64 = self.n_embd / self.n_head;
            proof {
                let n = self.n_embd as int;
                let h = self.n_head as int;
                assert(0 <= n / h <= n) by (nonlinear_arith)
                    requires
                        n >= 0,
                        h > 0,
                ;
            }
            r
        }
    }

    /// Elements of one cache row.
    pub open spec fn row(&self) -> int {
        self.n_head_kv * self.head_width()
    }

    /// The weight that projects the final state to logits.
    pub open spec fn projection(&self) -> Weight {
        if self.has_tied_weights {
            Weight::TokenEmbd
        } else {
            Weight::Output
        }
    }

    /// The tensors of a model with a cache of `n_ctx` rows are addressable: a cache row, the cache
    /// of a layer, the whole cache, the context of its tensors, and the logits of a full context.
    pub open spec fn addressable(&self, n_ctx: i64) -> bool {
        &&& 0 <= n_ctx <= MAX_CTX
        &&& self.row() * 4 <= usize::MAX && self.row() * 4 <= i64::MAX
        &&& self.row() * n_ctx <= i64::MAX
        &&& self.row() * n_ctx * 4 <= usize::MAX
        &&& self.row() * n_ctx * 4 * self.n_layer * 2 <= usize::MAX
        &&& (self.n_layer * 4 + 64) * 512 <= usize::MAX
        &&& self.n_vocab * n_ctx * 4 <= usize::MAX
        &&& self.n_vocab * 4 <= usize::MAX
    }

    /// Whether the parameters are counts of a model whose tensors are addressable with a cache of
    /// `n_ctx` rows.
    pub fn fits(&self, n_ctx: i64) -> (r: bool)
        ensures
            r == (self.well_formed() && self.addressable(n_ctx)),
    {
        let top: i64 = u32::MAX as i64;
        if !(0 <= self.n_vocab && 0 <= self.n_embd && self.n_embd <= top && 0 <= self.n_head
            && self.n_head <= top && 0 <= self.n_head_kv && self.n_head_kv <= top && 0
            <= self.n_layer && self.n_layer <= top && 0 <= self.n_ff && self.n_ff <= top && 0
            <= self.n_rot && self.n_rot <= top) {
            return false;
        }
        if n_ctx < 0 || n_ctx > MAX_CTX {
            return false;
        }
        let limit: u128 = usize::MAX as u128;
        let width: i64 = self.head_dim();
        proof {
            arith::lemma_product(
                self.n_head_kv as int,
                u32::MAX as int,
                width as int,
                u32::MAX as int,
            );
        }
        let row: u128 = self.n_head_kv as u128 * width as u128;
        if row * 4 > limit || row * 4 > i64::MAX as u128 {
            return false;
        }
        proof {
            arith::lemma_product(row as int, u64::MAX as int, n_ctx as int, MAX_CTX as int);
        }
        let layer: u128 = row * n_ctx as u128;
        if layer > i64::MAX as u128 || layer * 4 > limit {
            return false;
        }
        proof {
            arith::lemma_product(
                layer * 4,
                u64::MAX as int,
                self.n_layer as int,
                u32::MAX as int,
            );
            arith::lemma_product(
                self.n_vocab as int,
                i64::MAX as int,
                n_ctx as int,
                MAX_CTX as int,
            );
        }
        let total: u128 = layer * 4 * self.n_layer as u128 * 2;
        let context: u128 = (self.n_layer as u128 * 4 + 64) * 512;
        let logits: u128 = self.n_vocab as u128 * n_ctx as u128 * 4;
        total <= limit && context <= limit && logits <= limit && self.n_vocab as u128 * 4 <= limit
    }
}

/// The buffer of a key/value cache and the tensors in it.
#[derive(Clone, Copy, Debug)]
pub struct QuantumLayout {
    /// Number of layers.
    pub layers: usize,
    /// Elements of one row.
    pub width: i64,
    /// Rows of one tensor.
    pub rows: i64,
    /// Elements of one tensor.
    pub elements: usize,
    /// Bytes of one tensor.
    pub bytes: usize,
    /// Bytes of the buffer.
    pub total: usize,
    /// Bytes of the context of the tensors.
    pub context: usize,
    /// Bytes of one row.
    pub stride: usize,
}

impl QuantumLayout {
    /// The sizes agree: four bytes for each element, and room for keys and values of every layer.
    pub open spec fn well_formed(&self) -> bool {
        &&& self.width >= 0
        &&& self.rows >= 0
        &&& self.elements == self.width * self.rows
        &&& self.bytes == self.elements * 4
        &&& self.total == self.bytes * self.layers * 2
        &&& self.context == (self.layers * 4 + 64) * 512
        &&& self.stride == self.width * 4
    }

    /// Byte offset of the key tensor of a layer.
    pub open spec fn key_offset(&self, layer: int) -> int {
        layer * self.bytes
    }

    /// Byte offset of the value tensor of a layer.
    pub open spec fn value_offset(&self, layer: int) -> int {
        (self.layers + layer) * self.bytes
    }

    /// The bits that every key tensor and every value tensor is filled with at first: zeros.
    pub fn fill(&self) -> (r: Vec<u32>)
        ensures
            r@ == Seq::new(self.elements as nat, |i: int| 0u32),
    {
        let mut out: Vec<u32> = Vec::new();
        let mut i: usize = 0;
        while i < self.elements
            invariant
                i <= self.elements,
                out@ == Seq::new(i as nat, |j: int| 0u32),
            decreases self.elements - i,
        {
            out.push(0);
            i += 1;
        }
        out
    }

    /// Byte offset of the key tensor of a layer.
    pub fn k_at(&self, layer: usize) -> (r: usize)
        requires
            self.well_formed(),
            layer < self.layers,
        ensures
            r == self.key_offset(layer as int),
    {
        proof {
            cache_tensors_do_not_overlap(*self, layer as int, layer as int);
        }
        layer * self.bytes
    }

    /// Byte offset of the value tensor of a layer.
    pub fn v_at(&self, layer: usize) -> (r: usize)
        requires
            self.well_formed(),
            layer < self.layers,
        ensures
            r == self.value_offset(layer as int),
    {
        proof {
            cache_tensors_do_not_overlap(*self, layer as int, layer as int);
            assert(self.layers + layer <= self.context) by (nonlinear_arith)
                requires
                    layer < self.layers,
                    self.context == (self.layers * 4 + 64) * 512,
            ;
        }
        (self.layers + layer) * self.bytes
    }
}

/// The tensors of a cache lie in its buffer, and no two of them overlap: keys come before values,
/// and the tensors of a layer before those of the layers after it.
pub proof fn cache_tensors_do_not_overlap(l: QuantumLayout, i: int, j: int)
    requires
        l.well_formed(),
        0 <= i <= j < l.layers,
    ensures
        0 <= l.key_offset(i),
        l.key_offset(j) + l.bytes <= l.value_offset(i),
        l.value_offset(j) + l.bytes <= l.total,
        i < j ==> l.key_offset(i) + l.bytes <= l.key_offset(j),
        i < j ==> l.value_offset(i) + l.bytes <= l.value_offset(j),
{
    let n = l.layers as int;
    let b = l.bytes as int;
    assert(0 <= i * b) by (nonlinear_arith)
        requires
            0 <= i,
            0 <= b,
    ;
    assert(j * b + b <= (n + i) * b) by (nonlinear_arith)
        requires
            0 <= i,
            j + 1 <= n,
            0 <= b,
    ;
    assert((n + j) * b + b <= b * n * 2) by (nonlinear_arith)
        requires
            j + 1 <= n,
            0 <= b,
    ;
    if i < j {
        assert(i * b + b <= j * b) by (nonlinear_arith)
            requires
                i + 1 <= j,
                0 <= b,
        ;
        assert((n + i) * b + b <= (n + j) * b) by (nonlinear_arith)
            requires
                i + 1 <= j,
                0 <= b,
        ;
    }
}

/// What is given back to the compute library, with its handle.
#[derive(Clone, Copy, Debug, PartialEq, Eq, Structural)]
pub enum Release {
    Allocator(usize),
    Context(usize),
    Buffer(usize),
    Backend(usize),
}

/// The key/value cache, in one buffer.
pub struct QuantumKV {
    /// Handle of the context of the tensors.
    pub ctx: usize,
    /// Handle of the buffer.
    pub buf: usize,
    /// Handles of the key tensors.
    pub k_ptrs: Vec<usize>,
    /// Handles of the value tensors.
    pub v_ptrs: Vec<usize>,
    /// Number of rows.
    pub n_ctx: i64,
    /// The next row to be written.
    pub head: i64,
    /// Bytes of one row.
    pub stride: usize,
}

impl QuantumKV {
    /// The written rows are rows of the cache, and each layer has keys and values.
    pub open spec fn well_formed(&self) -> bool {
        &&& 0 <= self.head <= self.n_ctx
        &&& self.k_ptrs@.len() == self.v_ptrs@.len()
    }

    /// The buffer of a cache: keys of every layer, then values of every layer.
    pub fn layout(n_layers: usize, h_k: i64, h_d: i64, n_ctx: i64) -> (l: QuantumLayout)
        requires
            0 <= h_k,
            0 <= h_d,
            0 <= n_ctx,
            h_k * h_d * 4 <= usize::MAX,
            h_k * h_d * 4 <= i64::MAX,
            h_k * h_d * n_ctx <= i64::MAX,
            h_k * h_d * n_ctx * 4 <= usize::MAX,
            h_k * h_d * n_ctx * 4 * n_layers * 2 <= usize::MAX,
            (n_layers * 4 + 64) * 512 <= usize::MAX,
        ensures
            l.well_formed(),
            l.layers == n_layers,
            l.width == h_k * h_d,
            l.rows == n_ctx,
    {
        proof {
            arith::lemma_product(h_k as int, h_k as int, h_d as int, h_d as int);
            arith::lemma_product(h_k * h_d, h_k * h_d, n_ctx as int, n_ctx as int);
            let bytes = h_k * h_d * n_ctx * 4;
            arith::lemma_product(bytes, bytes, n_layers as int, n_layers as int);
        }
        let width: i64 = h_k * h_d;
        let elements: usize = (width * n_ctx) as usize;
        let bytes: usize = elements * 4;
        QuantumLayout {
            layers: n_layers,
            width,
            rows: n_ctx,
            elements,
            bytes,
            total: bytes * n_layers * 2,
            context: (n_layers * 4 + 64) * 512,
            stride: (width * 4) as usize,
        }
    }

    /// An empty cache over a buffer, a context and the tensors made in them.
    pub fn new(
        l: &QuantumLayout,
        buf: usize,
        ctx: usize,
        k_ptrs: Vec<usize>,
        v_ptrs: Vec<usize>,
    ) -> (r: Result<QuantumKV, InitFault>)
        requires
            l.well_formed(),
            buf != 0 && ctx != 0 ==> k_ptrs@.len() == l.layers && v_ptrs@.len() == l.layers,
        ensures
            match r {
                Ok(kv) => {
                    &&& buf != 0 && ctx != 0
                    &&& kv.well_formed()
                    &&& kv == (QuantumKV {
                        ctx,
                        buf,
                        k_ptrs,
                        v_ptrs,
                        n_ctx: l.rows,
                        head: 0,
                        stride: l.stride,
                    })
                },
                Err(InitFault::CacheBuffer) => buf == 0,
                Err(InitFault::CacheContext) => buf != 0 && ctx == 0,
                Err(InitFault::Backend) => false,
            },
    {
        if buf == 0 {
            return Err(InitFault::CacheBuffer);
        }
        if ctx == 0 {
            return Err(InitFault::CacheContext);
        }
        Ok(QuantumKV { ctx, buf, k_ptrs, v_ptrs, n_ctx: l.rows, head: 0, stride: l.stride })
    }

    /// Forgets every row.
    pub fn clear(&mut self)
        ensures
            *final(self) == (QuantumKV { head: 0, ..*old(self) }),
    {
        self.head = 0;
    }

    /// What a cache that is no longer needed gives back: its context, then its buffer.
    pub open spec fn gives_back(&self) -> Seq<Release> {
        optional(self.ctx, Release::Context(self.ctx)) + optional(
            self.buf,
            Release::Buffer(self.buf),
        )
    }

    /// What a cache that is no longer needed gives back.
    pub fn releases(&self) -> (r: Vec<Release>)
        ensures
            r@ == self.gives_back(),
    {
        let mut out: Vec<Release> = Vec::new();
        if self.ctx != 0 {
            out.push(Release::Context(self.ctx));
        }
        if self.buf != 0 {
            out.push(Release::Buffer(self.buf));
        }
        assert(out@ =~= self.gives_back());
        out
    }
}

/// One entry where there is a handle, and none where there is not.
pub open spec fn optional(handle: usize, entry: Release) -> Seq<Release> {
    if handle == 0 {
        Seq::empty()
    } else {
        seq![entry]
    }
}

/// The input buffer of a pass: token ids, their positions and the attention mask.
pub struct PassInputs {
    /// Bytes of the buffer.
    pub size: usize,
    /// Byte offset of the positions.
    pub pos_at: usize,
    /// Byte offset of the mask.
    pub mask_at: usize,
    /// The token ids, from the start of the buffer on.
    pub tokens: Vec<i32>,
    /// The position of each token.
    pub positions: Vec<i32>,
    /// The bits of the mask, one column of `n_ctx` entries for each token.
    pub mask: Vec<u32>,
}

/// The mask of entry `i`: the token of column `i / n_ctx` sees the keys up to its own position.
pub open spec fn mask_entry(n_ctx: int, start: int, i: int) -> u32 {
    if i % n_ctx <= start + i / n_ctx {
        VISIBLE
    } else {
        HIDDEN
    }
}

impl PassInputs {
    /// The inputs say that `tokens` stand at `start` and after it, and see what lies before them.
    pub open spec fn describes(&self, tokens: Seq<u32>, start: int, n_ctx: int) -> bool {
        &&& self.tokens@ == Seq::new(tokens.len(), |i: int| tokens[i] as i32)
        &&& self.positions@ == Seq::new(tokens.len(), |i: int| (start + i) as i32)
        &&& self.mask@ == Seq::new(
            (n_ctx * tokens.len()) as nat,
            |i: int| mask_entry(n_ctx, start, i),
        )
    }

    /// The places of the inputs of a whole prompt of `n` tokens.
    pub open spec fn placed_for_prompt(&self, n: int, n_ctx: int) -> bool {
        &&& self.size == n * 4 * 2 + n_ctx * n * 4 + 1024
        &&& self.pos_at == n * 4 + 64
        &&& self.mask_at == n * 4 * 2 + 128
    }

    /// The places of the inputs of a single token.
    pub open spec fn placed_for_token(&self, n_ctx: int) -> bool {
        &&& self.size == 1024 + n_ctx * 4 + 512
        &&& self.pos_at == 64
        &&& self.mask_at == 128
    }
}

/// The mask is causal: the token `q` of a pass sees the keys of every position up to its own, and
/// none after it.
pub proof fn mask_is_causal(inputs: PassInputs, tokens: Seq<u32>, start: int, n_ctx: int)
    requires
        inputs.describes(tokens, start, n_ctx),
        0 < n_ctx,
    ensures
        forall|q: int, k: int|
            0 <= q < tokens.len() && 0 <= k < n_ctx ==> #[trigger] inputs.mask@[k + q * n_ctx] == (
            if k <= start + q {
                VISIBLE
            } else {
                HIDDEN
            }),
{
    assert forall|q: int, k: int| 0 <= q < tokens.len() && 0 <= k < n_ctx implies #[trigger]
    inputs.mask@[k + q * n_ctx] == (if k <= start + q {
        VISIBLE
    } else {
        HIDDEN
    }) by {
        lemma_entry(n_ctx, tokens.len() as int, q, k);
    }
}

/// The entry of a token and a key: its place in the mask, and back.
proof fn lemma_entry(n_ctx: int, n: int, q: int, k: int)
    requires
        0 <= q < n,
        0 <= k < n_ctx,
    ensures
        0 <= k + q * n_ctx < n_ctx * n,
        (k + q * n_ctx) / n_ctx == q,
        (k + q * n_ctx) % n_ctx == k,
{
    assert(0 <= k + q * n_ctx < n_ctx * n) by (nonlinear_arith)
        requires
            0 <= q < n,
            0 <= k < n_ctx,
    ;
    vstd::arithmetic::div_mod::lemma_fundamental_div_mod_converse(k + q * n_ctx, n_ctx, q, k);
}

/// The inputs of a whole prompt lie in their buffer, and do not overlap.
pub proof fn prompt_inputs_do_not_overlap(
    inputs: PassInputs,
    tokens: Seq<u32>,
    start: int,
    n_ctx: int,
)
    requires
        inputs.describes(tokens, start, n_ctx),
        inputs.placed_for_prompt(tokens.len() as int, n_ctx),
        0 <= n_ctx,
    ensures
        inputs.tokens@.len() * 4 <= inputs.pos_at,
        inputs.pos_at + inputs.positions@.len() * 4 <= inputs.mask_at,
        inputs.mask_at + inputs.mask@.len() * 4 <= inputs.size,
{
    arith::lemma_product(n_ctx, n_ctx, tokens.len() as int, tokens.len() as int);
}

/// The inputs of a single token lie in their buffer, and do not overlap.
pub proof fn token_inputs_do_not_overlap(
    inputs: PassInputs,
    token: u32,
    start: int,
    n_ctx: int,
)
    requires
        inputs.describes(seq![token], start, n_ctx),
        inputs.placed_for_token(n_ctx),
        0 <= n_ctx,
    ensures
        inputs.tokens@.len() * 4 <= inputs.pos_at,
        inputs.pos_at + inputs.positions@.len() * 4 <= inputs.mask_at,
        inputs.mask_at + inputs.mask@.len() * 4 <= inputs.size,
{
    let one = seq![token].len() as int;
    assert(n_ctx * one == n_ctx) by (nonlinear_arith)
        requires
            one == 1,
    ;
}

/// The mask of `n` tokens, the first of which stands at `start`.
fn causal_mask(n_ctx: usize, n: usize, start: usize) -> (mask: Vec<u32>)
    requires
        0 < n_ctx,
        start + n <= usize::MAX,
    ensures
        mask@ == Seq::new((n_ctx * n) as nat, |i: int| mask_entry(n_ctx as int, start as int, i)),
{
    let mut mask: Vec<u32> = Vec::new();
    let mut q: usize = 0;
    while q < n
        invariant
            0 < n_ctx,
            q <= n,
            start + n <= usize::MAX,
            mask@ == Seq::new(
                (q * n_ctx) as nat,
                |i: int| mask_entry(n_ctx as int, start as int, i),
            ),
        decreases n - q,
    {
        let last: usize = start + q;
        let mut k: usize = 0;
        while k < n_ctx
            invariant
                0 < n_ctx,
                k <= n_ctx,
                q < n,
                last == start + q,
                mask@ == Seq::new(
                    (k + q * n_ctx) as nat,
                    |i: int| mask_entry(n_ctx as int, start as int, i),
                ),
            decreases n_ctx - k,
        {
            proof {
                lemma_entry(n_ctx as int, n as int, q as int, k as int);
            }
            mask.push(
                if k <= last {
                    VISIBLE
                } else {
                    HIDDEN
                },
            );
            k += 1;
        }
        assert(n_ctx + q * n_ctx == (q + 1) * n_ctx) by (nonlinear_arith);
        q += 1;
    }
    assert(n * n_ctx == n_ctx * n) by (nonlinear_arith);
    mask
}

/// A pass in flight.
#[derive(Clone, Copy, Debug)]
pub struct Batch {
    /// Whether it runs over a whole prompt.
    pub prefill: bool,
    /// Number of its tokens.
    pub n_tokens: i64,
    /// Position of its first token.
    pub start: i64,
}

/// A pass that has begun.
pub struct Started {
    pub batch: Batch,
    /// What the graph of the pass before gives back, in order.
    pub released: Vec<Release>,
    pub inputs: PassInputs,
}

/// A reply of the compute library.
#[derive(Clone, Copy, Debug)]
pub enum Reply {
    /// The input buffer, or zero.
    InputBuffer(usize),
    /// The context of the inputs, or zero.
    InputContext(usize),
    /// The input tensors.
    Inputs { token: usize, pos: usize, mask: usize },
    /// The context of the graph, or zero.
    GraphContext(usize),
    /// The graph, its logits and its allocator.
    Built { graph: usize, logits: usize, galloc: usize },
    /// Whether the graph was allocated.
    Allocated(bool),
    /// The status of the computation; zero is success.
    Status(i32),
}

/// What a pass asks next of the compute library.
pub enum Next {
    /// To make the context of the inputs.
    InputContext,
    /// To make the input tensors and fill in the mask.
    Inputs,
    /// To make the context of the graph.
    GraphContext,
    /// To build this graph and its allocator.
    Build(GraphPlan),
    /// To allocate the graph.
    Allocate,
    /// To fill in tokens and positions, and to compute the graph.
    Compute,
    /// To read `len` logits from a byte offset on.
    Read { offset: usize, len: usize },
}

/// The forward pass of a model, its cache, and the compute graph that it built last.
pub struct ForwardPass {
    pub dna: ModelDNA,
    /// Handle of the backend.
    pub backend: usize,
    pub kv: QuantumKV,
    /// Number of positions.
    pub n_ctx: i64,
    /// Handle of the context of the graph, which owns the graph.
    pub ctx: usize,
    /// Handle of the context of the inputs.
    pub inp_ctx: usize,
    /// Handle of the graph.
    pub graph: usize,
    /// Handle of the allocator of the graph.
    pub galloc: usize,
    /// Handle of the input buffer.
    pub inp_buf: usize,
    /// Handle of the token ids.
    pub d_token: usize,
    /// Handle of the positions.
    pub d_pos: usize,
    /// Handle of the mask.
    pub d_mask: usize,
    /// Handle of the logits.
    pub d_logits: usize,
    /// How many graphs were built.
    pub rebuild_count: u64,
}

impl ForwardPass {
    /// The parameters are addressable, the cache is one of this model, and there is no graph
    /// without a context that owns it.
    pub open spec fn well_formed(&self) -> bool {
        &&& self.dna.well_formed()
        &&& self.dna.addressable(self.n_ctx)
        &&& self.kv.well_formed()
        &&& self.kv.n_ctx == self.n_ctx
        &&& self.kv.stride == self.dna.row() * 4
        &&& self.kv.k_ptrs@.len() == self.dna.n_layer
        &&& self.ctx == 0 ==> self.graph == 0
    }

    /// The engine holds nothing of a graph.
    pub open spec fn bare(&self) -> bool {
        &&& self.galloc == 0
        &&& self.ctx == 0
        &&& self.graph == 0
        &&& self.inp_ctx == 0
        &&& self.inp_buf == 0
        &&& self.d_token == 0
        &&& self.d_pos == 0
        &&& self.d_mask == 0
        &&& self.d_logits == 0
    }

    /// Number of positions of an engine that was asked for `n_ctx`.
    pub open spec fn context_length(n_ctx: i64) -> i64 {
        if n_ctx <= MAX_CTX {
            n_ctx
        } else {
            MAX_CTX
        }
    }

    /// Number of positions of an engine that was asked for `n_ctx`.
    pub fn clamp_ctx(n_ctx: i64) -> (r: i64)
        ensures
            r == ForwardPass::context_length(n_ctx),
    {
        if n_ctx <= MAX_CTX {
            n_ctx
        } else {
            MAX_CTX
        }
    }

    /// The cache of an engine that was asked for `n_ctx` positions, once the backend is there.
    pub fn open(dna: &ModelDNA, n_ctx: i64, backend: usize) -> (r: Result<QuantumLayout, InitFault>)
        requires
            dna.well_formed(),
            dna.addressable(ForwardPass::context_length(n_ctx)),
        ensures
            match r {
                Ok(l) => {
                    &&& backend != 0
                    &&& l.well_formed()
                    &&& l.layers == dna.n_layer
                    &&& l.width == dna.row()
                    &&& l.rows == ForwardPass::context_length(n_ctx)
                },
                Err(fault) => backend == 0 && fault == InitFault::Backend,
            },
    {
        if backend == 0 {
            return Err(InitFault::Backend);
        }
        let rows: i64 = ForwardPass::clamp_ctx(n_ctx);
        let head_dim: i64 = dna.head_dim();
        proof {
            arith::lemma_product(
                dna.n_head_kv as int,
                u32::MAX as int,
                head_dim as int,
                u32::MAX as int,
            );
        }
        Ok(QuantumKV::layout(dna.n_layer as usize, dna.n_head_kv, head_dim, rows))
    }

    /// An engine without a graph, over a backend and a cache.
    pub fn new(dna: ModelDNA, n_ctx: i64, backend: usize, kv: QuantumKV) -> (f: ForwardPass)
        requires
            dna.well_formed(),
            dna.addressable(ForwardPass::context_length(n_ctx)),
            kv.well_formed(),
            kv.n_ctx == ForwardPass::context_length(n_ctx),
            kv.stride == dna.row() * 4,
            kv.k_ptrs@.len() == dna.n_layer,
        ensures
            f.well_formed(),
            f.dna == dna,
            f.backend == backend,
            f.kv == kv,
            f.n_ctx == ForwardPass::context_length(n_ctx),
            f.rebuild_count == 0,
            f.bare(),
    {
        ForwardPass {
            dna,
            backend,
            kv,
            n_ctx: ForwardPass::clamp_ctx(n_ctx),
            ctx: 0,
            inp_ctx: 0,
            graph: 0,
            galloc: 0,
            inp_buf: 0,
            d_token: 0,
            d_pos: 0,
            d_mask: 0,
            d_logits: 0,
            rebuild_count: 0,
        }
    }

    /// What the graph gives back: its allocator first, then its context, then the context and the
    /// buffer of the inputs.
    pub open spec fn graph_releases(&self) -> Seq<Release> {
        optional(self.galloc, Release::Allocator(self.galloc)) + optional(
            self.ctx,
            Release::Context(self.ctx),
        ) + optional(self.inp_ctx, Release::Context(self.inp_ctx)) + optional(
            self.inp_buf,
            Release::Buffer(self.inp_buf),
        )
    }

    /// The engine without its graph.
    pub open spec fn cleaned(self) -> ForwardPass {
        ForwardPass {
            galloc: 0,
            ctx: 0,
            graph: if self.ctx != 0 {
                0
            } else {
                self.graph
            },
            inp_ctx: 0,
            inp_buf: 0,
            d_token: 0,
            d_pos: 0,
            d_mask: 0,
            d_logits: 0,
            ..self
        }
    }

    /// Gives the graph back.
    pub fn cleanup_graph_resources(&mut self) -> (r: Vec<Release>)
        ensures
            r@ == old(self).graph_releases(),
            *final(self) == old(self).cleaned(),
            old(self).well_formed() ==> final(self).well_formed() && final(self).bare(),
    {
        let mut out: Vec<Release> = Vec::new();
        if self.galloc != 0 {
            out.push(Release::Allocator(self.galloc));
            self.galloc = 0;
        }
        if self.ctx != 0 {
            out.push(Release::Context(self.ctx));
            self.ctx = 0;
            self.graph = 0;
        }
        if self.inp_ctx != 0 {
            out.push(Release::Context(self.inp_ctx));
            self.inp_ctx = 0;
        }
        if self.inp_buf != 0 {
            out.push(Release::Buffer(self.inp_buf));
            self.inp_buf = 0;
        }
        self.d_token = 0;
        self.d_pos = 0;
        self.d_mask = 0;
        self.d_logits = 0;
        assert(out@ =~= old(self).graph_releases());
        out
    }

    /// What an engine that is no longer needed gives back: its graph, its backend, its cache.
    pub fn shutdown(&mut self) -> (r: Vec<Release>)
        ensures
            r@ == old(self).graph_releases() + optional(
                old(self).backend,
                Release::Backend(old(self).backend),
            ) + old(self).kv.gives_back(),
            *final(self) == old(self).cleaned(),
    {
        let mut out: Vec<Release> = self.cleanup_graph_resources();
        if self.backend != 0 {
            out.push(Release::Backend(self.backend));
        }
        let mut cache: Vec<Release> = self.kv.releases();
        out.append(&mut cache);
        out
    }

    /// The dimensions of a pass: it writes the rows of its tokens and reads the whole cache, under
    /// the mask.
    pub open spec fn pass(&self, batch: Batch) -> PassDims {
        PassDims {
            n_embd: self.dna.n_embd,
            n_head: self.dna.n_head,
            n_head_kv: self.dna.n_head_kv,
            head_dim: self.dna.head_width() as i64,
            n_tokens: batch.n_tokens,
            n_read: self.n_ctx,
            stride: self.kv.stride,
            offset: (batch.start * self.kv.stride) as usize,
            n_rot: self.dna.n_rot,
            freq_base: self.dna.freq_base,
            eps: self.dna.rms_eps,
            masked: true,
        }
    }

    /// The pass has tokens, and they stand within the context.
    pub open spec fn in_range(&self, batch: Batch) -> bool {
        &&& 0 < batch.n_tokens
        &&& 0 <= batch.start
        &&& batch.start + batch.n_tokens <= self.n_ctx
    }

    /// The first weight that the model lacks: the embedding, a weight of a layer, the output norm
    /// or the output projection.
    pub open spec fn lacking(&self, index: &TensorIndex) -> Option<Weight> {
        let stack = weights::first_missing(index, weights::stack_weights(self.dna.n_layer as nat));
        if !index.has(Weight::TokenEmbd) {
            Some(Weight::TokenEmbd)
        } else if stack is Some {
            stack
        } else if !index.has(Weight::OutputNorm) {
            Some(Weight::OutputNorm)
        } else if !index.has(self.dna.projection()) {
            Some(self.dna.projection())
        } else {
            None
        }
    }

    /// A plan computes the logits of every token of a pass, after the cache writes of every layer,
    /// and nothing that this does not need. What is read back is what is computed last.
    pub open spec fn planned(&self, batch: Batch, plan: &GraphPlan) -> bool {
        let d = self.pass(batch);
        let n = self.dna.n_layer as nat;
        let logits = expr::all_logits(d, n, self.dna.projection());
        &&& plan.well_formed()
        &&& plan.output < plan.ops@.len()
        &&& plan.exprs()[plan.output as int] == logits
        &&& plan.scheduled() == expr::cache_writes(d, n).push(logits)
        &&& plan.complete()
        &&& plan.asks((Needs { layers: n, head: self.dna.projection(), masked: true }))
    }

    /// Plans a pass.
    pub fn build_graph(&self, index: &TensorIndex, batch: Batch) -> (r: Result<
        GraphPlan,
        BuildFault,
    >)
        requires
            self.well_formed(),
            self.in_range(batch),
        ensures
            match r {
                Ok(plan) => {
                    &&& self.lacking(index) is None
                    &&& self.planned(batch, &plan)
                    &&& plan.served_by(index)
                },
                Err(fault) => fault matches BuildFault::Missing(w) && self.lacking(index) == Some(
                    w,
                ),
            },
    {
        if !index.has_weight(Weight::TokenEmbd) {
            return Err(BuildFault::Missing(Weight::TokenEmbd));
        }
        let layers: usize = self.dna.n_layer as usize;
        match weights::missing_in_stack(index, layers) {
            Some(w) => {
                return Err(BuildFault::Missing(w));
            },
            None => {},
        }
        if !index.has_weight(Weight::OutputNorm) {
            return Err(BuildFault::Missing(Weight::OutputNorm));
        }
        let head: Weight = if self.dna.has_tied_weights {
            Weight::TokenEmbd
        } else {
            Weight::Output
        };
        if !index.has_weight(head) {
            return Err(BuildFault::Missing(head));
        }
        let head_dim: i64 = self.dna.head_dim();
        proof {
            let row = self.dna.row();
            arith::lemma_product(
                self.dna.n_head_kv as int,
                u32::MAX as int,
                head_dim as int,
                u32::MAX as int,
            );
            arith::lemma_product(batch.start as int, self.n_ctx as int, row * 4, row * 4);
            assert(self.n_ctx * (row * 4) == row * self.n_ctx * 4) by (nonlinear_arith);
        }
        let d = PassDims {
            n_embd: self.dna.n_embd,
            n_head: self.dna.n_head,
            n_head_kv: self.dna.n_head_kv,
            head_dim,
            n_tokens: batch.n_tokens,
            n_read: self.n_ctx,
            stride: self.kv.stride,
            offset: batch.start as usize * self.kv.stride,
            n_rot: self.dna.n_rot,
            freq_base: self.dna.freq_base,
            eps: self.dna.rms_eps,
            masked: true,
        };
        assert(d == self.pass(batch));
        let plan = GraphPlan::all_logits(&d, layers, head);
        proof {
            plan::full_files_serve_every_plan(
                plan,
                Needs { layers: layers as nat, head, masked: true },
                index,
            );
        }
        Ok(plan)
    }

    /// The engine after a pass has begun: without the graph of the pass before, and with one more
    /// build on its count.
    pub open spec fn rebuilding(self) -> ForwardPass {
        ForwardPass { rebuild_count: (self.rebuild_count + 1) as u64, ..self.cleaned() }
    }

    /// Begins a pass over a whole prompt, which stands after what the cache holds.
    pub fn prefill(&mut self, token_ids: &Vec<u32>) -> (r: Result<Started, ForwardError>)
        requires
            old(self).well_formed(),
            old(self).rebuild_count < u64::MAX,
            token_ids@.len() * 4 <= isize::MAX,
        ensures
            ({
                let n = token_ids@.len() as int;
                let start = old(self).kv.head as int;
                match r {
                    Ok(s) => {
                        &&& 0 < n && start + n <= old(self).n_ctx
                        &&& *final(self) == old(self).rebuilding()
                        &&& final(self).well_formed()
                        &&& s.batch == (Batch {
                            prefill: true,
                            n_tokens: n as i64,
                            start: start as i64,
                        })
                        &&& final(self).in_range(s.batch)
                        &&& s.released@ == old(self).graph_releases()
                        &&& s.inputs.describes(token_ids@, start, old(self).n_ctx as int)
                        &&& s.inputs.placed_for_prompt(n, old(self).n_ctx as int)
                    },
                    Err(ForwardError::Init(msg)) => {
                        &&& n == 0
                        &&& msg@ == "empty prefill token list"@
                        &&& *final(self) == *old(self)
                    },
                    Err(ForwardError::ContextFull) => {
                        &&& n > 0 && start + n > old(self).n_ctx
                        &&& *final(self) == *old(self)
                    },
                    Err(_) => false,
                }
            }),
    {
        if token_ids.len() == 0 {
            return Err(ForwardError::Init("empty prefill token list".to_owned()));
        }
        let n: usize = token_ids.len();
        let n_tokens: i64 = n as i64;
        let start: i64 = self.kv.head;
        if start + n_tokens > self.n_ctx {
            return Err(ForwardError::ContextFull);
        }
        self.rebuild_count = self.rebuild_count + 1;
        let released: Vec<Release> = self.cleanup_graph_resources();
        let n_ctx: usize = self.n_ctx as usize;
        proof {
            arith::lemma_product(n_ctx as int, MAX_CTX as int, n as int, MAX_CTX as int);
        }
        let tok_bytes: usize = n * 4;
        let mask_bytes: usize = n_ctx * n * 4;
        let inputs = PassInputs {
            size: tok_bytes * 2 + mask_bytes + 1024,
            pos_at: tok_bytes + 64,
            mask_at: tok_bytes * 2 + 128,
            tokens: token_words(token_ids),
            positions: places(start, n),
            mask: causal_mask(n_ctx, n, start as usize),
        };
        Ok(Started { batch: Batch { prefill: true, n_tokens, start }, released, inputs })
    }

    /// Begins a pass over one token, which stands after what the cache holds.
    pub fn decode_one(&mut self, token_id: u32) -> (r: Result<Started, ForwardError>)
        requires
            old(self).well_formed(),
            old(self).rebuild_count < u64::MAX,
        ensures
            ({
                let pos = old(self).kv.head as int;
                match r {
                    Ok(s) => {
                        &&& pos < old(self).n_ctx
                        &&& *final(self) == old(self).rebuilding()
                        &&& final(self).well_formed()
                        &&& s.batch == (Batch { prefill: false, n_tokens: 1, start: pos as i64 })
                        &&& final(self).in_range(s.batch)
                        &&& s.released@ == old(self).graph_releases()
                        &&& s.inputs.describes(seq![token_id], pos, old(self).n_ctx as int)
                        &&& s.inputs.placed_for_token(old(self).n_ctx as int)
                    },
                    Err(ForwardError::ContextFull) => {
                        &&& pos >= old(self).n_ctx
                        &&& *final(self) == *old(self)
                    },
                    Err(_) => false,
                }
            }),
    {
        let pos: i64 = self.kv.head;
        if pos >= self.n_ctx {
            return Err(ForwardError::ContextFull);
        }
        self.rebuild_count = self.rebuild_count + 1;
        let released: Vec<Release> = self.cleanup_graph_resources();
        let n_ctx: usize = self.n_ctx as usize;
        let mut token_ids: Vec<u32> = Vec::new();
        token_ids.push(token_id);
        assert(token_ids@ =~= seq![token_id]);
        let inputs = PassInputs {
            size: 1024 + n_ctx * 4 + 512,
            pos_at: 64,
            mask_at: 128,
            tokens: token_words(&token_ids),
            positions: places(pos, 1),
            mask: causal_mask(n_ctx, 1, pos as usize),
        };
        Ok(Started { batch: Batch { prefill: false, n_tokens: 1, start: pos }, released, inputs })
    }

    /// A reply brings handles only where the engine holds none: the next pass gives them back
    /// first. A graph is built in its context.
    pub open spec fn awaits(&self, reply: Reply) -> bool {
        match reply {
            Reply::InputBuffer(_) => self.inp_buf == 0,
            Reply::InputContext(_) => self.inp_ctx == 0,
            Reply::GraphContext(_) => self.ctx == 0,
            Reply::Built { .. } => self.ctx != 0 && self.galloc == 0,
            Reply::Inputs { .. } | Reply::Allocated(_) | Reply::Status(_) => true,
        }
    }

    /// The engine after a reply: the handles that came are kept, and the rows of a pass count as
    /// written once its computation has succeeded, and at no other time.
    pub open spec fn recorded(self, batch: Batch, reply: Reply) -> ForwardPass {
        match reply {
            Reply::InputBuffer(inp_buf) => ForwardPass { inp_buf, ..self },
            Reply::InputContext(inp_ctx) => ForwardPass { inp_ctx, ..self },
            Reply::Inputs { token, pos, mask } => ForwardPass {
                d_token: token,
                d_pos: pos,
                d_mask: mask,
                ..self
            },
            Reply::GraphContext(ctx) => ForwardPass { ctx, ..self },
            Reply::Built { graph, logits, galloc } => ForwardPass {
                graph,
                d_logits: logits,
                galloc,
                ..self
            },
            Reply::Allocated(_) => self,
            Reply::Status(status) => if status == 0 {
                ForwardPass {
                    kv: QuantumKV { head: (batch.start + batch.n_tokens) as i64, ..self.kv },
                    ..self
                }
            } else {
                self
            },
        }
    }

    /// What follows on a reply.
    pub open spec fn answer(
        &self,
        index: &TensorIndex,
        batch: Batch,
        reply: Reply,
        r: Result<Next, ForwardError>,
    ) -> bool {
        match reply {
            Reply::InputBuffer(h) => if h == 0 {
                r is Err && r->Err_0.internal(BuildFault::InputBuffer.words(batch.prefill))
            } else {
                r is Ok && r->Ok_0 is InputContext
            },
            Reply::InputContext(h) => if h == 0 {
                r is Err && r->Err_0.internal(BuildFault::InputContext.words(batch.prefill))
            } else {
                r is Ok && r->Ok_0 is Inputs
            },
            Reply::Inputs { .. } => r is Ok && r->Ok_0 is GraphContext,
            Reply::GraphContext(h) => if h == 0 {
                r is Err && r->Err_0.internal(BuildFault::GraphContext.words(batch.prefill))
            } else {
                match self.lacking(index) {
                    Some(w) => r is Err && r->Err_0.internal(
                        BuildFault::Missing(w).words(batch.prefill),
                    ),
                    None => r matches Ok(Next::Build(plan)) && self.planned(batch, &plan)
                        && plan.served_by(index),
                }
            },
            Reply::Built { .. } => r is Ok && r->Ok_0 is Allocate,
            Reply::Allocated(ok) => if !ok {
                r is Err && r->Err_0.internal(BuildFault::Allocation.words(batch.prefill))
            } else {
                r is Ok && r->Ok_0 is Compute
            },
            Reply::Status(status) => if status != 0 {
                if batch.prefill {
                    r matches Err(ForwardError::ComputeFailed(code)) && code == status
                } else {
                    r is Err && r->Err_0.internal(
                        "compute failed status="@ + text::signed_decimal(status as int),
                    )
                }
            } else {
                r matches Ok(Next::Read { offset, len }) && len == self.dna.n_vocab && offset == (
                batch.n_tokens - 1) * self.dna.n_vocab * 4
            },
        }
    }

    /// Goes on with a pass after a reply of the compute library.
    pub fn advance(&mut self, index: &TensorIndex, batch: Batch, reply: Reply) -> (r: Result<
        Next,
        ForwardError,
    >)
        requires
            old(self).well_formed(),
            old(self).in_range(batch),
            old(self).awaits(reply),
        ensures
            old(self).answer(index, batch, reply, r),
            *final(self) == old(self).recorded(batch, reply),
            final(self).well_formed(),
    {
        match reply {
            Reply::InputBuffer(h) => {
                self.inp_buf = h;
                if h == 0 {
                    return Err(
                        ForwardError::Internal(BuildFault::InputBuffer.message(batch.prefill)),
                    );
                }
                Ok(Next::InputContext)
            },
            Reply::InputContext(h) => {
                self.inp_ctx = h;
                if h == 0 {
                    return Err(
                        ForwardError::Internal(BuildFault::InputContext.message(batch.prefill)),
                    );
                }
                Ok(Next::Inputs)
            },
            Reply::Inputs { token, pos, mask } => {
                self.d_token = token;
                self.d_pos = pos;
                self.d_mask = mask;
                Ok(Next::GraphContext)
            },
            Reply::GraphContext(h) => {
                self.ctx = h;
                if h == 0 {
                    return Err(
                        ForwardError::Internal(BuildFault::GraphContext.message(batch.prefill)),
                    );
                }
                match self.build_graph(index, batch) {
                    Ok(plan) => Ok(Next::Build(plan)),
                    Err(fault) => Err(ForwardError::Internal(fault.message(batch.prefill))),
                }
            },
            Reply::Built { graph, logits, galloc } => {
                self.graph = graph;
                self.d_logits = logits;
                self.galloc = galloc;
                Ok(Next::Allocate)
            },
            Reply::Allocated(ok) => {
                if !ok {
                    return Err(
                        ForwardError::Internal(BuildFault::Allocation.message(batch.prefill)),
                    );
                }
                Ok(Next::Compute)
            },
            Reply::Status(status) => {
                if status != 0 {
                    if batch.prefill {
                        return Err(ForwardError::ComputeFailed(status));
                    }
                    let mut msg: String = "compute failed status=".to_owned();
                    text::push_signed_decimal(&mut msg, status as i64);
                    return Err(ForwardError::Internal(msg));
                }
                self.kv.head = batch.start + batch.n_tokens;
                let len: usize = self.dna.n_vocab as usize;
                proof {
                    arith::lemma_product(
                        batch.n_tokens - 1,
                        self.n_ctx as int,
                        self.dna.n_vocab as int,
                        self.dna.n_vocab as int,
                    );
                    assert(self.n_ctx * self.dna.n_vocab == self.dna.n_vocab * self.n_ctx)
                        by (nonlinear_arith);
                }
                Ok(Next::Read { offset: (batch.n_tokens as usize - 1) * len * 4, len })
            },
        }
    }

    /// The engine without cached positions and without its graph.
    pub open spec fn reset(self) -> ForwardPass {
        ForwardPass { kv: QuantumKV { head: 0, ..self.kv }, ..self.cleaned() }
    }

    /// Forgets every cached position, and gives the graph back.
    pub fn reset_kv(&mut self) -> (r: Vec<Release>)
        requires
            old(self).well_formed(),
        ensures
            r@ == old(self).graph_releases(),
            final(self).well_formed(),
            *final(self) == old(self).reset(),
    {
        self.kv.clear();
        self.cleanup_graph_resources()
    }

    /// The parameters of the model.
    pub fn dna(&self) -> (r: &ModelDNA)
        ensures
            *r == self.dna,
    {
        &self.dna
    }
}

/// Token ids as the compute library takes them.
fn token_words(token_ids: &Vec<u32>) -> (r: Vec<i32>)
    ensures
        r@ == Seq::new(token_ids@.len(), |i: int| token_ids@[i] as i32),
{
    let mut out: Vec<i32> = Vec::new();
    let mut i: usize = 0;
    while i < token_ids.len()
        invariant
            i <= token_ids@.len(),
            out@ == Seq::new(i as nat, |j: int| token_ids@[j] as i32),
        decreases token_ids@.len() - i,
    {
        out.push(
            #[verifier::truncate]
            (token_ids[i] as i32),
        );
        i += 1;
    }
    out
}

/// The positions from `start` on.
fn places(start: i64, n: usize) -> (r: Vec<i32>)
    requires
        0 <= start,
        start + n <= MAX_CTX,
    ensures
        r@ == Seq::new(n as nat, |i: int| (start + i) as i32),
{
    let mut out: Vec<i32> = Vec::new();
    let mut i: usize = 0;
    while i < n
        invariant
            i <= n,
            0 <= start,
            start + n <= MAX_CTX,
            out@ == Seq::new(i as nat, |j: int| (start + j) as i32),
        decreases n - i,
    {
        out.push((start + i as i64) as i32);
        i += 1;
    }
    out
}

/// A cleanup leaves no handle of a graph, so that a second one gives nothing back and changes
/// nothing. The cache, the parameters and the count of graphs stay.
pub proof fn cleanup_is_final(f: ForwardPass)
    requires
        f.well_formed(),
    ensures
        f.cleaned().bare(),
        f.cleaned().well_formed(),
        f.cleaned().graph_releases() == Seq::<Release>::empty(),
        f.cleaned().cleaned() == f.cleaned(),
        f.cleaned().kv == f.kv,
        f.cleaned().dna == f.dna,
        f.cleaned().backend == f.backend,
        f.cleaned().rebuild_count == f.rebuild_count,
{
    assert(f.cleaned().graph_releases() =~= Seq::<Release>::empty());
}

/// A cleanup gives back every handle that the graph holds and nothing else, each once, and the
/// allocator before anything else. The graph itself goes with its context.
pub proof fn cleanup_gives_back_every_handle(f: ForwardPass)
    ensures
        f.galloc != 0 ==> f.graph_releases().len() > 0 && f.graph_releases()[0]
            == Release::Allocator(f.galloc),
        f.ctx != 0 ==> f.graph_releases().contains(Release::Context(f.ctx)),
        f.inp_ctx != 0 ==> f.graph_releases().contains(Release::Context(f.inp_ctx)),
        f.inp_buf != 0 ==> f.graph_releases().contains(Release::Buffer(f.inp_buf)),
        forall|i: int|
            0 <= i < f.graph_releases().len() ==> match #[trigger] f.graph_releases()[i] {
                Release::Allocator(h) => h == f.galloc && h != 0,
                Release::Context(h) => (h == f.ctx || h == f.inp_ctx) && h != 0,
                Release::Buffer(h) => h == f.inp_buf && h != 0,
                Release::Backend(_) => false,
            },
        f.ctx == 0 || f.ctx != f.inp_ctx ==> f.graph_releases().no_duplicates(),
{
    let a = optional(f.galloc, Release::Allocator(f.galloc));
    let b = optional(f.ctx, Release::Context(f.ctx));
    let c = optional(f.inp_ctx, Release::Context(f.inp_ctx));
    let d = optional(f.inp_buf, Release::Buffer(f.inp_buf));
    let all = f.graph_releases();
    assert(all == a + b + c + d);
    if f.ctx != 0 {
        assert(all[a.len() as int] == Release::Context(f.ctx));
    }
    if f.inp_ctx != 0 {
        assert(all[(a + b).len() as int] == Release::Context(f.inp_ctx));
    }
    if f.inp_buf != 0 {
        assert(all[(a + b + c).len() as int] == Release::Buffer(f.inp_buf));
    }
}

/// A reset forgets every position and leaves no handle of a graph. The cache tensors, the
/// parameters and the count of graphs stay, and a second reset gives nothing back and changes
/// nothing.
pub proof fn reset_is_final(f: ForwardPass)
    requires
        f.well_formed(),
    ensures
        f.reset().kv.head == 0,
        f.reset().bare(),
        f.reset().well_formed(),
        f.reset().kv == (QuantumKV { head: 0, ..f.kv }),
        f.reset().dna == f.dna,
        f.reset().n_ctx == f.n_ctx,
        f.reset().rebuild_count == f.rebuild_count,
        f.reset().graph_releases() == Seq::<Release>::empty(),
        f.reset().reset() == f.reset(),
{
    cleanup_is_final(f);
    assert(f.reset().graph_releases() =~= Seq::<Release>::empty());
}

/// A pass within the context agrees with the model in its sizes.
proof fn lemma_runs(f: ForwardPass, batch: Batch, m: ModelDims)
    requires
        f.well_formed(),
        f.in_range(batch),
        m.consistent(),
        m.n_embd == f.dna.n_embd,
        m.n_head == f.dna.n_head,
        m.n_head_kv == f.dna.n_head_kv,
        m.head_dim == f.dna.head_width(),
        m.n_vocab == f.dna.n_vocab,
        m.n_ctx == f.n_ctx,
        m.n_tokens == batch.n_tokens,
    ensures
        m.runs(f.pass(batch)),
        f.pass(batch).offset == batch.start * f.kv.stride,
        m.row() == f.dna.row(),
{
    let stride = f.kv.stride as int;
    let row = f.dna.row();
    let start = batch.start as int;
    let n_ctx = f.n_ctx as int;
    arith::lemma_product(m.n_head_kv, m.n_head_kv, m.head_dim, m.head_dim);
    arith::lemma_product(start, n_ctx, stride, stride);
    assert(n_ctx * (row * 4) == row * n_ctx * 4) by (nonlinear_arith);
    assert(start * stride + m.n_tokens * stride <= n_ctx * stride) by (nonlinear_arith)
        requires
            start + m.n_tokens <= n_ctx,
            stride >= 0,
    ;
}

/// A pass within the context runs over the model: every operation accepts its operands, every
/// cache write stays within the cache, and the result is one column of logits for each token.
pub proof fn passes_are_well_shaped(f: ForwardPass, batch: Batch, m: ModelDims)
    requires
        f.well_formed(),
        f.in_range(batch),
        m.consistent(),
        m.n_embd == f.dna.n_embd,
        m.n_head == f.dna.n_head,
        m.n_head_kv == f.dna.n_head_kv,
        m.head_dim == f.dna.head_width(),
        m.n_vocab == f.dna.n_vocab,
        m.n_ctx == f.n_ctx,
        m.n_tokens == batch.n_tokens,
    ensures
        ({
            let d = f.pass(batch);
            let n = f.dna.n_layer as nat;
            &&& shapes::shape(m, expr::all_logits(d, n, f.dna.projection())) == Some(
                shapes::dense(m.n_vocab, m.n_tokens, 1),
            )
            &&& forall|i: int|
                0 <= i < expr::cache_writes(d, n).len() ==> shapes::shape(
                    m,
                    #[trigger] expr::cache_writes(d, n)[i],
                ) is Some
        }),
{
    let d = f.pass(batch);
    let n = f.dna.n_layer as nat;
    lemma_runs(f, batch, m);
    shapes::logits_of_every_token(m, d, n, f.dna.projection());
    shapes::cache_writes_fit(m, d, n);
}

/// Every operation of a plan of a pass accepts its operands, over a model with the usual weight
/// shapes.
pub proof fn plans_are_well_shaped(
    f: ForwardPass,
    batch: Batch,
    m: ModelDims,
    plan: GraphPlan,
    i: int,
)
    requires
        f.well_formed(),
        f.in_range(batch),
        f.planned(batch, &plan),
        m.consistent(),
        m.n_embd == f.dna.n_embd,
        m.n_head == f.dna.n_head,
        m.n_head_kv == f.dna.n_head_kv,
        m.head_dim == f.dna.head_width(),
        m.n_vocab == f.dna.n_vocab,
        m.n_ctx == f.n_ctx,
        m.n_tokens == batch.n_tokens,
        0 <= i < plan.ops@.len(),
    ensures
        shapes::shape(m, plan.exprs()[i]) is Some,
{
    passes_are_well_shaped(f, batch, m);
    let t = plan::operations_take_part(plan, i);
    let writes = expr::cache_writes(f.pass(batch), f.dna.n_layer as nat);
    if t < writes.len() {
        assert(plan.scheduled()[t] == writes[t]);
    }
    shapes::parts_are_well_shaped(m, plan.exprs()[i], plan.scheduled()[t]);
}

impl ForwardPass {
    /// The engine after some replies to a pass.
    pub open spec fn after_replies(self, batch: Batch, replies: Seq<Reply>) -> ForwardPass
        decreases replies.len(),
    {
        if replies.len() == 0 {
            self
        } else {
            self.after_replies(batch, replies.drop_last()).recorded(batch, replies.last())
        }
    }
}

/// The computation of a pass has succeeded.
pub open spec fn succeeds(replies: Seq<Reply>) -> bool {
    replies.contains(Reply::Status(0))
}

/// Replies change nothing of an engine but its handles and, where the computation has succeeded,
/// the next row.
proof fn lemma_after_replies(f: ForwardPass, batch: Batch, replies: Seq<Reply>)
    ensures
        ({
            let g = f.after_replies(batch, replies);
            &&& g.dna == f.dna
            &&& g.n_ctx == f.n_ctx
            &&& g.backend == f.backend
            &&& g.rebuild_count == f.rebuild_count
            &&& g.kv == (if succeeds(replies) {
                QuantumKV { head: (batch.start + batch.n_tokens) as i64, ..f.kv }
            } else {
                f.kv
            })
        }),
    decreases replies.len(),
{
    if replies.len() > 0 {
        let front = replies.drop_last();
        lemma_after_replies(f, batch, front);
        if succeeds(front) {
            let i = choose|i: int| 0 <= i < front.len() && front[i] == Reply::Status(0);
            assert(replies[i] == Reply::Status(0));
        }
        if replies.last() == Reply::Status(0) {
            assert(replies[replies.len() - 1] == Reply::Status(0));
        }
        if succeeds(replies) && replies.last() != Reply::Status(0) {
            let i = choose|i: int| 0 <= i < replies.len() && replies[i] == Reply::Status(0);
            assert(front[i] == Reply::Status(0));
        }
    }
}

/// A pass that does not succeed, whatever stops it, leaves the cache as it was: it counts no row.
pub proof fn failed_passes_leave_the_cache_alone(f: ForwardPass, batch: Batch, replies: Seq<Reply>)
    requires
        !succeeds(replies),
    ensures
        f.rebuilding().after_replies(batch, replies).kv == f.kv,
{
    lemma_after_replies(f.rebuilding(), batch, replies);
}

/// A pass from its beginning to its end: its tokens, and the replies to it.
pub struct PassRun {
    pub prefill: bool,
    pub n_tokens: i64,
    pub replies: Seq<Reply>,
}

/// The pass of a run, on an engine.
pub open spec fn batch_of(f: ForwardPass, run: PassRun) -> Batch {
    Batch { prefill: run.prefill, n_tokens: run.n_tokens, start: f.kv.head }
}

/// The engine after some runs.
pub open spec fn played(f: ForwardPass, runs: Seq<PassRun>) -> ForwardPass
    decreases runs.len(),
{
    if runs.len() == 0 {
        f
    } else {
        let g = played(f, runs.drop_last());
        g.rebuilding().after_replies(batch_of(g, runs.last()), runs.last().replies)
    }
}

/// None of the runs was refused for want of tokens or of room.
pub open spec fn playable(f: ForwardPass, runs: Seq<PassRun>) -> bool
    decreases runs.len(),
{
    runs.len() > 0 ==> {
        let g = played(f, runs.drop_last());
        playable(f, runs.drop_last()) && g.in_range(batch_of(g, runs.last()))
    }
}

/// The passes of the runs that succeeded.
pub open spec fn written(f: ForwardPass, runs: Seq<PassRun>) -> Seq<Batch>
    decreases runs.len(),
{
    if runs.len() == 0 {
        Seq::empty()
    } else {
        let before = written(f, runs.drop_last());
        if succeeds(runs.last().replies) {
            before.push(batch_of(played(f, runs.drop_last()), runs.last()))
        } else {
            before
        }
    }
}

/// Passes that follow on each other from the first row on: each begins where the one before it
/// ended.
pub open spec fn consecutive(batches: Seq<Batch>) -> bool {
    &&& forall|i: int| 0 <= i < batches.len() ==> 0 < (#[trigger] batches[i]).n_tokens
    &&& batches.len() > 0 ==> batches[0].start == 0
    &&& forall|i: int|
        0 < i < batches.len() ==> (#[trigger] batches[i]).start == batches[i - 1].start + batches[i
            - 1].n_tokens
}

/// The row after the last pass.
pub open spec fn next_row(batches: Seq<Batch>) -> int {
    if batches.len() == 0 {
        0
    } else {
        batches.last().start + batches.last().n_tokens
    }
}

/// The passes that have succeeded since the cache was empty wrote its rows one after the other, and
/// the head stands right after them. Passes that failed in between left no gap.
pub proof fn rows_are_written_in_order(f: ForwardPass, runs: Seq<PassRun>)
    requires
        f.well_formed(),
        f.kv.head == 0,
        playable(f, runs),
    ensures
        consecutive(written(f, runs)),
        played(f, runs).kv == (QuantumKV { head: next_row(written(f, runs)) as i64, ..f.kv }),
        0 <= next_row(written(f, runs)) <= f.n_ctx,
        played(f, runs).dna == f.dna,
        played(f, runs).n_ctx == f.n_ctx,
    decreases runs.len(),
{
    if runs.len() > 0 {
        let front = runs.drop_last();
        rows_are_written_in_order(f, front);
        let g = played(f, front);
        lemma_after_replies(g.rebuilding(), batch_of(g, runs.last()), runs.last().replies);
    }
}

/// Some pass of the list wrote the row.
pub open spec fn some_wrote(batches: Seq<Batch>, row: int) -> bool {
    exists|j: int|
        0 <= j < batches.len() && (#[trigger] batches[j]).start <= row < batches[j].start
            + batches[j].n_tokens
}

/// Consecutive passes wrote every row before the next one.
proof fn lemma_some_wrote(batches: Seq<Batch>, row: int)
    requires
        consecutive(batches),
        0 <= row < next_row(batches),
    ensures
        some_wrote(batches, row),
    decreases batches.len(),
{
    let last = batches.last();
    if row >= last.start {
        assert(batches[batches.len() - 1] == last);
    } else {
        let front = batches.drop_last();
        assert(front.last() == batches[batches.len() - 2]);
        assert(batches[batches.len() - 1] == last);
        assert(forall|i: int| 0 <= i < front.len() ==> #[trigger] front[i] == batches[i]);
        assert(consecutive(front)) by {
            assert forall|i: int| 0 < i < front.len() implies (#[trigger] front[i]).start == front[i
                - 1].start + front[i - 1].n_tokens by {
                assert(batches[i].start == batches[i - 1].start + batches[i - 1].n_tokens);
            }
        }
        lemma_some_wrote(front, row);
        let j = choose|j: int|
            0 <= j < front.len() && (#[trigger] front[j]).start <= row < front[j].start
                + front[j].n_tokens;
        assert(batches[j].start <= row < batches[j].start + batches[j].n_tokens);
    }
}

/// Every cache row that a query of the next pass sees is written by that pass, or was written by
/// one that has succeeded since the cache was empty.
pub proof fn visible_rows_were_written(
    f: ForwardPass,
    runs: Seq<PassRun>,
    next: PassRun,
    q: int,
    row: int,
)
    requires
        f.well_formed(),
        f.kv.head == 0,
        playable(f, runs.push(next)),
        0 <= q < next.n_tokens,
        0 <= row <= played(f, runs).kv.head + q,
    ensures
        ({
            let head = played(f, runs).kv.head;
            head <= row < head + next.n_tokens || some_wrote(written(f, runs), row)
        }),
{
    assert(runs.push(next).drop_last() =~= runs);
    rows_are_written_in_order(f, runs);
    if row < played(f, runs).kv.head {
        lemma_some_wrote(written(f, runs), row);
    }
}

/// Passes over one token each, with the replies to each.
pub open spec fn singles(each: Seq<Seq<Reply>>) -> Seq<PassRun> {
    Seq::new(
        each.len(),
        |i: int| PassRun { prefill: false, n_tokens: 1, replies: each[i] },
    )
}

/// Passes over one token each, where all have succeeded, move the head on by one each.
proof fn lemma_singles(f: ForwardPass, each: Seq<Seq<Reply>>)
    requires
        f.well_formed(),
        f.kv.head + each.len() <= f.n_ctx,
        forall|i: int| 0 <= i < each.len() ==> succeeds(#[trigger] each[i]),
    ensures
        played(f, singles(each)).kv == (QuantumKV {
            head: (f.kv.head + each.len()) as i64,
            ..f.kv
        }),
        played(f, singles(each)).dna == f.dna,
        played(f, singles(each)).n_ctx == f.n_ctx,
        playable(f, singles(each)),
    decreases each.len(),
{
    if each.len() > 0 {
        let front = each.drop_last();
        assert(singles(each).drop_last() =~= singles(front));
        assert(forall|i: int| 0 <= i < front.len() ==> #[trigger] front[i] == each[i]);
        lemma_singles(f, front);
        let g = played(f, singles(front));
        let run = singles(each).last();
        assert(run.replies == each[each.len() - 1]);
        lemma_after_replies(g.rebuilding(), batch_of(g, run), run.replies);
    }
}

/// A prompt is processed as its tokens would be one at a time. Token `i` stands at the same
/// position, with the same id, sees the same keys, and is written to the same cache row, by a pass
/// that differs in its number of tokens and its row alone. Both ways end with the same cache head.
pub proof fn prompt_agrees_with_single_tokens(
    f: ForwardPass,
    tokens: Seq<u32>,
    i: int,
    whole: PassInputs,
    single: PassInputs,
    replies: Seq<Reply>,
    each: Seq<Seq<Reply>>,
)
    requires
        f.well_formed(),
        0 <= i < tokens.len(),
        f.kv.head + tokens.len() <= f.n_ctx,
        each.len() == tokens.len(),
        forall|k: int| 0 <= k < each.len() ==> succeeds(#[trigger] each[k]),
        succeeds(replies),
        whole.describes(tokens, f.kv.head as int, f.n_ctx as int),
        single.describes(
            seq![tokens[i]],
            played(f, singles(each.take(i))).kv.head as int,
            f.n_ctx as int,
        ),
    ensures
        single.tokens@[0] == whole.tokens@[i],
        single.positions@[0] == whole.positions@[i],
        forall|k: int|
            0 <= k < f.n_ctx ==> #[trigger] single.mask@[k] == whole.mask@[k + i * f.n_ctx],
        ({
            let prompt = PassRun { prefill: true, n_tokens: tokens.len() as i64, replies };
            let one = singles(each)[i];
            let g = played(f, singles(each.take(i)));
            let all = f.pass(batch_of(f, prompt));
            &&& g.pass(batch_of(g, one)) == (PassDims {
                n_tokens: 1,
                offset: (all.offset + i * all.stride) as usize,
                ..all
            })
            &&& all.offset + i * all.stride <= usize::MAX
            &&& batch_of(g, one) == single_batch(f, i)
            &&& g.dna == f.dna
            &&& played(f, singles(each)).kv == played(f, seq![prompt]).kv
            &&& played(f, seq![prompt]).kv.head == f.kv.head + tokens.len()
        }),
{
    let n_ctx = f.n_ctx as int;
    let n = tokens.len() as int;
    let start = f.kv.head as int;
    let stride = f.kv.stride as int;
    let row = f.dna.row();
    let part = each.take(i);
    assert(forall|k: int| 0 <= k < part.len() ==> #[trigger] part[k] == each[k]);
    lemma_singles(f, part);
    lemma_singles(f, each);
    mask_is_causal(whole, tokens, start, n_ctx);
    mask_is_causal(single, seq![tokens[i]], start + i, n_ctx);
    assert forall|k: int| 0 <= k < n_ctx implies #[trigger] single.mask@[k] == whole.mask@[k + i
        * n_ctx] by {
        assert(0 * n_ctx == 0) by (nonlinear_arith);
        assert(single.mask@[k + 0 * n_ctx] == single.mask@[k]);
        assert(whole.mask@[k + i * n_ctx] == (if k <= start + i {
            VISIBLE
        } else {
            HIDDEN
        }));
    }
    arith::lemma_product(start, n_ctx, stride, stride);
    arith::lemma_product(start + i, n_ctx, stride, stride);
    assert(n_ctx * (row * 4) == row * n_ctx * 4) by (nonlinear_arith);
    assert((start + i) * stride == start * stride + i * stride) by (nonlinear_arith);
    let prompt = PassRun { prefill: true, n_tokens: n as i64, replies };
    assert(seq![prompt].drop_last() =~= Seq::<PassRun>::empty());
    reveal_with_fuel(played, 2);
    lemma_after_replies(f.rebuilding(), batch_of(f, prompt), replies);
}

/// An engine that was reset takes a prompt as a new engine of the same model does: the inputs, the
/// plan and the head afterwards are the same. What the cache held before has no influence, as the
/// mask hides every row that the prompt does not write.
pub proof fn reset_engine_is_as_new(
    used: ForwardPass,
    fresh: ForwardPass,
    tokens: Seq<u32>,
    a: PassInputs,
    b: PassInputs,
    replies_a: Seq<Reply>,
    replies_b: Seq<Reply>,
)
    requires
        used.well_formed(),
        fresh.well_formed(),
        fresh.kv.head == 0,
        used.dna == fresh.dna,
        used.n_ctx == fresh.n_ctx,
        0 < tokens.len() <= fresh.n_ctx,
        a.describes(tokens, used.reset().kv.head as int, used.n_ctx as int),
        a.placed_for_prompt(tokens.len() as int, used.n_ctx as int),
        b.describes(tokens, fresh.kv.head as int, fresh.n_ctx as int),
        b.placed_for_prompt(tokens.len() as int, fresh.n_ctx as int),
        succeeds(replies_a),
        succeeds(replies_b),
    ensures
        a.tokens@ == b.tokens@,
        a.positions@ == b.positions@,
        a.mask@ == b.mask@,
        a.size == b.size && a.pos_at == b.pos_at && a.mask_at == b.mask_at,
        ({
            let run_a = PassRun { prefill: true, n_tokens: tokens.len() as i64, replies: replies_a };
            let run_b = PassRun { prefill: true, n_tokens: tokens.len() as i64, replies: replies_b };
            let batch = batch_of(fresh, run_b);
            &&& batch_of(used.reset(), run_a) == batch
            &&& used.reset().pass(batch) == fresh.pass(batch)
            &&& forall|index: &TensorIndex| #[trigger]
                used.reset().lacking(index) == fresh.lacking(index)
            &&& forall|plan: &GraphPlan| #[trigger]
                used.reset().planned(batch, plan) == fresh.planned(batch, plan)
            &&& played(used.reset(), seq![run_a]).kv.head == tokens.len()
            &&& played(fresh, seq![run_b]).kv.head == tokens.len()
        }),
        forall|q: int, k: int|
            0 <= q < tokens.len() && tokens.len() <= k < fresh.n_ctx ==> #[trigger] a.mask@[k + q
                * fresh.n_ctx] == HIDDEN,
{
    reset_is_final(used);
    mask_is_causal(a, tokens, 0, fresh.n_ctx as int);
    let run_a = PassRun { prefill: true, n_tokens: tokens.len() as i64, replies: replies_a };
    let run_b = PassRun { prefill: true, n_tokens: tokens.len() as i64, replies: replies_b };
    assert(seq![run_a].drop_last() =~= Seq::<PassRun>::empty());
    assert(seq![run_b].drop_last() =~= Seq::<PassRun>::empty());
    reveal_with_fuel(played, 2);
    lemma_after_replies(used.reset().rebuilding(), batch_of(used.reset(), run_a), replies_a);
    lemma_after_replies(fresh.rebuilding(), batch_of(fresh, run_b), replies_b);
}

/// A model: its sizes, and the numbers of its weights.
pub struct Model<E> {
    pub dims: ModelDims,
    pub weights: spec_fn(Weight) -> Tensor<E>,
}

impl<E> Model<E> {
    /// The sizes of a pass over `n` tokens.
    pub open spec fn sizes(self, n: int) -> ModelDims {
        ModelDims { n_tokens: n, ..self.dims }
    }

    /// The sizes are those that an engine was made for, and every weight has its size.
    pub open spec fn serves(self, f: ForwardPass) -> bool {
        let m = self.dims;
        &&& self.sizes(1).consistent()
        &&& m.n_embd == f.dna.n_embd
        &&& m.n_head == f.dna.n_head
        &&& m.n_head_kv == f.dna.n_head_kv
        &&& m.head_dim == f.dna.head_width()
        &&& m.n_vocab == f.dna.n_vocab
        &&& m.n_ctx == f.n_ctx
        &&& forall|w: Weight|
            (#[trigger] (self.weights)(w)).sized(m.weight(w).n0, m.weight(w).n1, m.weight(w).n2)
    }
}

/// What the caches of all layers hold.
pub struct Memory<E> {
    pub k: Map<usize, Seq<E>>,
    pub v: Map<usize, Seq<E>>,
}

impl<E> Memory<E> {
    /// The caches have the size that an engine has made them.
    pub open spec fn serves(self, f: ForwardPass) -> bool {
        &&& forall|l: usize|
            l < f.dna.n_layer ==> (#[trigger] self.k[l]).len() == f.dna.row() * f.n_ctx
        &&& forall|l: usize|
            l < f.dna.n_layer ==> (#[trigger] self.v[l]).len() == f.dna.row() * f.n_ctx
    }

    /// The keys and values of a cache row of a layer.
    pub open spec fn row(self, f: ForwardPass, l: usize, r: int) -> (Seq<E>, Seq<E>) {
        (values::row_of(self.k[l], f.dna.row(), r), values::row_of(self.v[l], f.dna.row(), r))
    }
}

impl ForwardPass {
    /// What a pass computes from its inputs, the model and what the caches hold.
    pub open spec fn computation<E>(
        self,
        model: Model<E>,
        batch: Batch,
        inputs: PassInputs,
        memory: Memory<E>,
    ) -> values::Pass<E> {
        values::Pass {
            d: self.pass(batch),
            m: model.sizes(batch.n_tokens as int),
            start: batch.start as int,
            n_layer: self.dna.n_layer as nat,
            given: values::Values {
                weights: model.weights,
                tokens: inputs.tokens@,
                positions: inputs.positions@,
                mask: inputs.mask@,
                width: model.dims.row(),
                rows: model.dims.n_ctx,
                k: memory.k,
                v: memory.v,
            },
        }
    }

    /// The logits that are read once a pass has succeeded.
    pub open spec fn reading<E>(
        self,
        ar: values::Arithmetic<E>,
        pass: values::Pass<E>,
        batch: Batch,
    ) -> Seq<E> {
        pass.logits(ar, self.dna.projection()).taken(
            (batch.n_tokens - 1) * self.dna.n_vocab * 4,
            self.dna.n_vocab as int,
        )
    }
}

/// What the caches hold after a pass.
pub open spec fn memory_after<E>(ar: values::Arithmetic<E>, pass: values::Pass<E>) -> Memory<E> {
    Memory { k: pass.end(ar).k, v: pass.end(ar).v }
}

/// A plan of a pass computes what the pass is said to compute. Its schedule leaves the same in the
/// caches. Its output is the last that it computes, with the elements of the logits, and stays as
/// computed.
pub proof fn plans_compute_their_pass<E>(
    ar: values::Arithmetic<E>,
    f: ForwardPass,
    model: Model<E>,
    batch: Batch,
    inputs: PassInputs,
    memory: Memory<E>,
    plan: GraphPlan,
)
    requires
        f.planned(batch, &plan),
    ensures
        ({
            let p = f.computation(model, batch, inputs, memory);
            let end = values::ran(ar, p.given, plan.scheduled());
            let logits = plan.exprs()[plan.output as int];
            &&& end == p.end(ar)
            &&& plan.schedule@.last() == plan.output
            &&& plan.scheduled().last() == logits
            &&& values::value(ar, values::ran(ar, p.given, plan.scheduled().drop_last()), logits)
                == p.logits(ar, f.dna.projection())
            &&& values::value(ar, end, logits) == p.logits(ar, f.dna.projection())
        }),
{
    let writes = expr::cache_writes(f.pass(batch), f.dna.n_layer as nat);
    assert(plan.scheduled().drop_last() =~= writes);
}

/// The inputs of a pass are what its computation asks for.
proof fn lemma_computation<E>(
    f: ForwardPass,
    model: Model<E>,
    batch: Batch,
    inputs: PassInputs,
    memory: Memory<E>,
    tokens: Seq<u32>,
)
    requires
        f.well_formed(),
        f.in_range(batch),
        model.serves(f),
        memory.serves(f),
        tokens.len() == batch.n_tokens,
        inputs.describes(tokens, batch.start as int, f.n_ctx as int),
    ensures
        f.computation(model, batch, inputs, memory).fits(),
        model.dims.row() == f.dna.row(),
{
    let m = model.sizes(batch.n_tokens as int);
    lemma_runs(f, batch, m);
    mask_is_causal(inputs, tokens, batch.start as int, f.n_ctx as int);
    let p = f.computation(model, batch, inputs, memory);
    assert forall|w: Weight| (#[trigger] (p.given.weights)(w)).sized(
        p.m.weight(w).n0,
        p.m.weight(w).n1,
        p.m.weight(w).n2,
    ) by {
        assert(p.m.weight(w) == model.dims.weight(w));
    }
}

/// Engines of one model whose caches agree up to their head answer alike: a pass over the same
/// tokens gives the same logits, of the last token and of every other, and leaves caches that agree
/// up to the new head. What the caches hold beyond the head makes no difference. This holds in
/// every arithmetic in which hidden keys have no weight.
pub proof fn agreeing_engines_answer_alike<E>(
    ar: values::Arithmetic<E>,
    f: ForwardPass,
    g: ForwardPass,
    model: Model<E>,
    tokens: Seq<u32>,
    batch: Batch,
    a: PassInputs,
    b: PassInputs,
    before: Memory<E>,
    other: Memory<E>,
)
    requires
        ar.hides(),
        f.well_formed(),
        g.well_formed(),
        f.dna == g.dna,
        f.n_ctx == g.n_ctx,
        f.kv.head == g.kv.head,
        batch.start == f.kv.head,
        batch.n_tokens == tokens.len(),
        f.in_range(batch),
        model.serves(f),
        before.serves(f),
        other.serves(f),
        a.describes(tokens, f.kv.head as int, f.n_ctx as int),
        b.describes(tokens, g.kv.head as int, g.n_ctx as int),
        forall|l: usize, r: int|
            l < f.dna.n_layer && 0 <= r < f.kv.head ==> #[trigger] before.row(f, l, r)
                == other.row(f, l, r),
    ensures
        ({
            let p = f.computation(model, batch, a, before);
            let q = g.computation(model, batch, b, other);
            &&& f.reading(ar, p, batch) == g.reading(ar, q, batch)
            &&& forall|i: int|
                0 <= i < tokens.len() ==> #[trigger] p.logits(ar, f.dna.projection()).column(i, 0)
                    == q.logits(ar, g.dna.projection()).column(i, 0)
            &&& forall|l: usize, r: int|
                l < f.dna.n_layer && 0 <= r < f.kv.head + tokens.len() ==> #[trigger] memory_after(
                    ar,
                    p,
                ).row(f, l, r) == memory_after(ar, q).row(f, l, r)
        }),
{
    let p = f.computation(model, batch, a, before);
    let q = g.computation(model, batch, b, other);
    let head = f.dna.projection();
    let n = tokens.len() as int;
    lemma_computation(f, model, batch, a, before, tokens);
    lemma_computation(g, model, batch, b, other, tokens);
    assert(a.tokens@ =~= b.tokens@);
    assert(values::twins(p, q));
    assert forall|l: usize, r: int|
        l < p.n_layer && 0 <= r < p.start implies #[trigger] values::given_alike(p, q, l, r) by {
        assert(before.row(f, l, r) == other.row(f, l, r));
    }
    values::twins_agree(ar, p, q, head, n);
    assert forall|l: usize, r: int|
        l < p.n_layer && 0 <= r < p.start + n - 1 implies #[trigger] values::agree(
        ar,
        p,
        q,
        l,
        r,
    ) by {}
    values::tokens_see_what_lies_before_them(ar, p, n - 1, q, n - 1, head);
    values::last_column_is_read(p.logits(ar, head), f.dna.n_vocab as int, n);
    values::last_column_is_read(q.logits(ar, head), f.dna.n_vocab as int, n);
    assert forall|l: usize, r: int|
        l < f.dna.n_layer && 0 <= r < f.kv.head + tokens.len() implies #[trigger] memory_after(
        ar,
        p,
    ).row(f, l, r) == memory_after(ar, q).row(f, l, r) by {
        assert(values::agree(ar, p, q, l, r));
    }
}

/// An engine that was reset answers a prompt as a new engine of the same model does, with the same
/// logits, whatever its caches still hold. This holds in every arithmetic in which hidden keys have
/// no weight.
pub proof fn reset_engine_answers_as_new<E>(
    ar: values::Arithmetic<E>,
    used: ForwardPass,
    fresh: ForwardPass,
    model: Model<E>,
    tokens: Seq<u32>,
    a: PassInputs,
    b: PassInputs,
    held: Memory<E>,
    empty: Memory<E>,
)
    requires
        ar.hides(),
        used.well_formed(),
        fresh.well_formed(),
        fresh.kv.head == 0,
        used.dna == fresh.dna,
        used.n_ctx == fresh.n_ctx,
        0 < tokens.len() <= fresh.n_ctx,
        model.serves(fresh),
        held.serves(fresh),
        empty.serves(fresh),
        a.describes(tokens, used.reset().kv.head as int, used.n_ctx as int),
        b.describes(tokens, fresh.kv.head as int, fresh.n_ctx as int),
    ensures
        ({
            let batch = Batch { prefill: true, n_tokens: tokens.len() as i64, start: 0 };
            let p = used.reset().computation(model, batch, a, held);
            let q = fresh.computation(model, batch, b, empty);
            used.reset().reading(ar, p, batch) == fresh.reading(ar, q, batch)
        }),
{
    reset_is_final(used);
    let batch = Batch { prefill: true, n_tokens: tokens.len() as i64, start: 0 };
    agreeing_engines_answer_alike(
        ar,
        used.reset(),
        fresh,
        model,
        tokens,
        batch,
        a,
        b,
        held,
        empty,
    );
}

/// The pass over token `i` of some that are processed one at a time, from what the caches held at
/// first.
pub open spec fn single_computation<E>(
    ar: values::Arithmetic<E>,
    f: ForwardPass,
    model: Model<E>,
    inputs: Seq<PassInputs>,
    memory: Memory<E>,
    i: int,
) -> values::Pass<E>
    decreases i,
{
    let before = if i <= 0 {
        memory
    } else {
        memory_after(ar, single_computation(ar, f, model, inputs, memory, i - 1))
    };
    f.computation(model, single_batch(f, i), inputs[i], before)
}

/// The batch of the token that follows `i` others, processed one at a time.
pub open spec fn single_batch(f: ForwardPass, i: int) -> Batch {
    Batch { prefill: false, n_tokens: 1, start: (f.kv.head + i) as i64 }
}

/// Passes keep the sizes of the caches.
proof fn lemma_memory_serves<E>(
    ar: values::Arithmetic<E>,
    f: ForwardPass,
    model: Model<E>,
    inputs: Seq<PassInputs>,
    memory: Memory<E>,
    tokens: Seq<u32>,
    i: int,
)
    requires
        f.well_formed(),
        f.kv.head + tokens.len() <= f.n_ctx,
        model.serves(f),
        memory.serves(f),
        inputs.len() == tokens.len(),
        forall|k: int|
            0 <= k < tokens.len() ==> (#[trigger] inputs[k]).describes(
                seq![tokens[k]],
                f.kv.head + k,
                f.n_ctx as int,
            ),
        0 <= i < tokens.len(),
    ensures
        single_computation(ar, f, model, inputs, memory, i).fits(),
        memory_after(ar, single_computation(ar, f, model, inputs, memory, i)).serves(f),
    decreases i,
{
    let before = if i <= 0 {
        memory
    } else {
        memory_after(ar, single_computation(ar, f, model, inputs, memory, i - 1))
    };
    if i > 0 {
        lemma_memory_serves(ar, f, model, inputs, memory, tokens, i - 1);
    }
    lemma_computation(f, model, single_batch(f, i), inputs[i], before, seq![tokens[i]]);
    values::caches_keep_their_size(ar, single_computation(ar, f, model, inputs, memory, i));
}

/// A prompt that is processed at once gives the logits that its tokens give one at a time: those
/// that are read in the end, and those of every token on the way. In the end the caches hold the
/// same. This holds in every arithmetic in which hidden keys have no weight.
pub proof fn prompt_has_the_logits_of_single_tokens<E>(
    ar: values::Arithmetic<E>,
    f: ForwardPass,
    model: Model<E>,
    tokens: Seq<u32>,
    whole: PassInputs,
    inputs: Seq<PassInputs>,
    memory: Memory<E>,
)
    requires
        ar.hides(),
        f.well_formed(),
        0 < tokens.len(),
        f.kv.head + tokens.len() <= f.n_ctx,
        model.serves(f),
        memory.serves(f),
        whole.describes(tokens, f.kv.head as int, f.n_ctx as int),
        inputs.len() == tokens.len(),
        forall|k: int|
            0 <= k < tokens.len() ==> (#[trigger] inputs[k]).describes(
                seq![tokens[k]],
                f.kv.head + k,
                f.n_ctx as int,
            ),
    ensures
        ({
            let n = tokens.len() as int;
            let batch = Batch { prefill: true, n_tokens: n as i64, start: f.kv.head };
            let p = f.computation(model, batch, whole, memory);
            let q = single_computation(ar, f, model, inputs, memory, n - 1);
            &&& f.reading(ar, p, batch) == f.reading(ar, q, single_batch(f, n - 1))
            &&& forall|i: int|
                0 <= i < n ==> p.logits(ar, f.dna.projection()).column(i, 0)
                    == #[trigger] single_computation(ar, f, model, inputs, memory, i).logits(
                    ar,
                    f.dna.projection(),
                ).column(0, 0)
            &&& forall|l: usize|
                #![trigger memory_after(ar, p).k[l]]
                #![trigger memory_after(ar, p).v[l]]
                l < f.dna.n_layer ==> memory_after(ar, p).k[l] == memory_after(ar, q).k[l]
                    && memory_after(ar, p).v[l] == memory_after(ar, q).v[l]
        }),
{
    let n = tokens.len() as int;
    let head = f.dna.projection();
    let batch = Batch { prefill: true, n_tokens: n as i64, start: f.kv.head };
    let p = f.computation(model, batch, whole, memory);
    let each = Seq::new(
        n as nat,
        |i: int| single_computation(ar, f, model, inputs, memory, i),
    );
    lemma_computation(f, model, batch, whole, memory, tokens);
    assert forall|i: int| 0 <= i < each.len() implies {
        &&& values::alike(p, #[trigger] each[i])
        &&& each[i].m.n_tokens == 1
        &&& each[i].start == p.start + i
        &&& each[i].given.tokens[0] == p.given.tokens[i]
        &&& each[i].given.k == (if i == 0 {
            p.given.k
        } else {
            each[i - 1].end(ar).k
        })
        &&& each[i].given.v == (if i == 0 {
            p.given.v
        } else {
            each[i - 1].end(ar).v
        })
    } by {
        lemma_memory_serves(ar, f, model, inputs, memory, tokens, i);
        assert(inputs[i].describes(seq![tokens[i]], f.kv.head + i, f.n_ctx as int));
    }
    values::prompt_is_its_tokens(ar, p, each, head);
    let q = single_computation(ar, f, model, inputs, memory, n - 1);
    assert(each.last() == q);
    assert(p.logits(ar, head).column(n - 1, 0) == each[n - 1].logits(ar, head).column(0, 0));
    values::last_column_is_read(p.logits(ar, head), f.dna.n_vocab as int, n);
    values::last_column_is_read(q.logits(ar, head), f.dna.n_vocab as int, 1);
    assert forall|i: int| 0 <= i < n implies p.logits(ar, head).column(i, 0)
        == #[trigger] single_computation(ar, f, model, inputs, memory, i).logits(ar, head).column(
        0,
        0,
    ) by {
        assert(each[i] == single_computation(ar, f, model, inputs, memory, i));
    }
}

/// Each parameter is the number that the file holds under its key, with the architecture's name in
/// front. What the file does not name is zero.
pub proof fn parameters_are_those_of_the_file(
    dna: ModelDNA,
    header: ModelHeader,
    index: TensorIndex,
    x: GgufValue,
    v: u32,
)
    requires
        dna.read_from(&header, &index),
        x == GgufValue::U32(v) || x == GgufValue::Int(Some(v)),
    ensures
        header.metadata.lookup(header.arch() + "."@ + "vocab_size"@) == Some(x) ==> dna.n_vocab
            == v,
        header.metadata.lookup(header.arch() + "."@ + "embedding_length"@) == Some(x) ==> dna.n_embd == v,
        header.metadata.lookup(header.arch() + "."@ + "embedding_length"@) is None ==> dna.n_embd == 0,
        header.metadata.lookup(header.arch() + "."@ + "attention.head_count"@) == Some(x) ==> dna.n_head == v,
        header.metadata.lookup(header.arch() + "."@ + "attention.head_count"@) is None ==> dna.n_head == 0,
        header.metadata.lookup(header.arch() + "."@ + "attention.head_count_kv"@) == Some(x) ==> dna.n_head_kv == v,
        header.metadata.lookup(header.arch() + "."@ + "attention.head_count_kv"@) is None ==> dna.n_head_kv == 0,
        header.metadata.lookup(header.arch() + "."@ + "block_count"@) == Some(x) ==> dna.n_layer == v,
        header.metadata.lookup(header.arch() + "."@ + "block_count"@) is None ==> dna.n_layer == 0,
        header.metadata.lookup(header.arch() + "."@ + "feed_forward_length"@) == Some(x) ==> dna.n_ff == v,
        header.metadata.lookup(header.arch() + "."@ + "feed_forward_length"@) is None ==> dna.n_ff == 0,
        header.metadata.lookup(header.arch() + "."@ + "rope.dimension_count"@) == Some(x) ==> dna.n_rot == v,
        header.metadata.lookup(header.arch() + "."@ + "rope.dimension_count"@) is None ==> dna.n_rot == 0,
{
}

/// Where the file names no vocabulary size, its token list tells it; without one it is zero. The
/// embedding serves as the projection where there is no `output.weight`, or always for `qwen2`.
pub proof fn token_lists_tell_the_vocabulary(
    dna: ModelDNA,
    header: ModelHeader,
    index: TensorIndex,
    b: u32,
)
    requires
        dna.read_from(&header, &index),
    ensures
        header.metadata.lookup(header.arch() + "."@ + "vocab_size"@) is None ==> (
        header.metadata.lookup("tokenizer.ggml.tokens"@) matches Some(GgufValue::Array(tokens))
            ==> dna.n_vocab == tokens@.len() as i64),
        header.metadata.lookup(header.arch() + "."@ + "vocab_size"@) is None
            && header.metadata.lookup("tokenizer.ggml.tokens"@) is None ==> dna.n_vocab == 0,
        header.metadata.lookup(header.arch() + "."@ + "rope.freq_base"@) == Some(
            GgufValue::F32(b),
        ) ==> dna.freq_base == b,
        header.metadata.lookup(header.arch() + "."@ + "rope.freq_base"@) is None ==> dna.freq_base
            == 0x461C4000,
        header.metadata.lookup(header.arch() + "."@ + "attention.layer_norm_rms_epsilon"@) == Some(
            GgufValue::F32(b),
        ) ==> dna.rms_eps == b,
        header.metadata.lookup(header.arch() + "."@ + "attention.layer_norm_rms_epsilon"@) is None
            ==> dna.rms_eps == 0x358637BD,
        index.has(Weight::Output) && header.arch() != "qwen2"@ ==> !dna.has_tied_weights,
        !index.has(Weight::Output) && index.has(Weight::TokenEmbd) ==> dna.has_tied_weights,
        header.arch() == "qwen2"@ ==> dna.has_tied_weights,
        !index.has(Weight::TokenEmbd) && header.arch() != "qwen2"@ ==> !dna.has_tied_weights,
        dna.has_tied_weights ==> dna.projection() == Weight::TokenEmbd,
        !dna.has_tied_weights ==> dna.projection() == Weight::Output,
{
}

/// A head has as many elements as the heads have on average, rounded down; one where there are no
/// heads. A cache row holds one head for each key/value head.
pub proof fn heads_share_the_state(dna: ModelDNA)
    requires
        0 <= dna.n_embd,
        0 <= dna.n_head,
    ensures
        dna.n_head == 0 ==> dna.head_width() == 1,
        dna.n_head > 0 ==> dna.head_width() * dna.n_head <= dna.n_embd < (dna.head_width() + 1)
            * dna.n_head,
        dna.row() == dna.n_head_kv * dna.head_width(),
{
    if dna.n_head > 0 {
        let n = dna.n_embd as int;
        let h = dna.n_head as int;
        vstd::arithmetic::div_mod::lemma_fundamental_div_mod(n, h);
        let q = n / h;
        assert(q * h <= n < (q + 1) * h) by (nonlinear_arith)
            requires
                n == h * q + n % h,
                0 <= n % h < h,
        ;
    }
}

/// A pass has the sizes of the model. It writes its tokens to the rows from its start on, and reads
/// the whole cache under the mask.
pub proof fn passes_have_the_sizes_of_the_model(f: ForwardPass, batch: Batch)
    requires
        f.well_formed(),
        f.in_range(batch),
    ensures
        ({
            let d = f.pass(batch);
            &&& d.n_embd == f.dna.n_embd
            &&& d.n_head == f.dna.n_head
            &&& d.n_head_kv == f.dna.n_head_kv
            &&& f.dna.n_head > 0 ==> d.head_dim == f.dna.n_embd as int / f.dna.n_head as int
            &&& d.n_tokens == batch.n_tokens
            &&& d.n_read == f.n_ctx
            &&& d.stride == f.dna.n_head_kv * d.head_dim * 4
            &&& d.offset == batch.start * d.stride
            &&& d.n_rot == f.dna.n_rot
            &&& d.freq_base == f.dna.freq_base
            &&& d.eps == f.dna.rms_eps
            &&& d.masked
        }),
        0 < batch.n_tokens,
        0 <= batch.start,
        batch.start + batch.n_tokens <= f.n_ctx,
        f.n_ctx <= 4096,
{
    let row = f.dna.row();
    let w = f.dna.head_width();
    if f.dna.n_head > 0 {
        assert(0 <= w <= f.dna.n_embd) by (nonlinear_arith)
            requires
                w == f.dna.n_embd as int / f.dna.n_head as int,
                0 <= f.dna.n_embd,
                0 < f.dna.n_head,
        ;
    }
    arith::lemma_product(f.dna.n_head_kv as int, u32::MAX as int, w, u32::MAX as int);
    arith::lemma_product(batch.start as int, f.n_ctx as int, row * 4, row * 4);
    assert(f.n_ctx * (row * 4) == row * f.n_ctx * 4) by (nonlinear_arith);
}

/// An engine has the positions that were asked for, up to 4096.
pub proof fn contexts_have_at_most_4096_positions(n_ctx: i64)
    ensures
        n_ctx <= 4096 ==> ForwardPass::context_length(n_ctx) == n_ctx,
        n_ctx >= 4096 ==> ForwardPass::context_length(n_ctx) == 4096,
{
}

/// The inputs of a pass: its tokens as they are, their positions from the first one's on, and a
/// mask of 0 for the keys up to a token's own position, and of -10000 for those after it.
pub proof fn inputs_are_tokens_places_and_mask(
    inputs: PassInputs,
    tokens: Seq<u32>,
    start: int,
    n_ctx: int,
)
    requires
        inputs.describes(tokens, start, n_ctx),
        0 < n_ctx,
        0 <= start,
        start + tokens.len() <= i32::MAX,
    ensures
        inputs.tokens@.len() == tokens.len(),
        forall|i: int| 0 <= i < tokens.len() ==> #[trigger] inputs.tokens@[i] == tokens[i] as i32,
        inputs.positions@.len() == tokens.len(),
        forall|i: int| 0 <= i < tokens.len() ==> #[trigger] inputs.positions@[i] == start + i,
        inputs.mask@.len() == n_ctx * tokens.len(),
        forall|q: int, k: int|
            0 <= q < tokens.len() && 0 <= k <= start + q && k < n_ctx
                ==> #[trigger] inputs.mask@[k + q * n_ctx] == 0,
        forall|q: int, k: int|
            0 <= q < tokens.len() && start + q < k < n_ctx ==> #[trigger] inputs.mask@[k + q * n_ctx]
                == 0xC61C4000,
{
    arith::lemma_product(n_ctx, n_ctx, tokens.len() as int, tokens.len() as int);
    mask_is_causal(inputs, tokens, start, n_ctx);
}

/// A reply is recorded in the handle that it brings and in nothing else, but that a success moves
/// the head right behind the pass.
pub proof fn replies_are_recorded(f: ForwardPass, batch: Batch, h: usize, i: usize, j: usize, s: i32)
    ensures
        f.recorded(batch, Reply::InputBuffer(h)) == (ForwardPass { inp_buf: h, ..f }),
        f.recorded(batch, Reply::InputContext(h)) == (ForwardPass { inp_ctx: h, ..f }),
        f.recorded(batch, Reply::GraphContext(h)) == (ForwardPass { ctx: h, ..f }),
        f.recorded(batch, Reply::Inputs { token: h, pos: i, mask: j }) == (ForwardPass {
            d_token: h,
            d_pos: i,
            d_mask: j,
            ..f
        }),
        f.recorded(batch, Reply::Built { graph: h, logits: i, galloc: j }) == (ForwardPass {
            graph: h,
            d_logits: i,
            galloc: j,
            ..f
        }),
        f.recorded(batch, Reply::Allocated(true)) == f,
        f.recorded(batch, Reply::Allocated(false)) == f,
        s != 0 ==> f.recorded(batch, Reply::Status(s)) == f,
        f.recorded(batch, Reply::Status(0)) == (ForwardPass {
            kv: QuantumKV { head: (batch.start + batch.n_tokens) as i64, ..f.kv },
            ..f
        }),
{
}

/// What is asked next after each reply. A null handle and a status other than zero are failures,
/// and so is a weight that the file lacks. The logits that are read are those of the last token.
pub proof fn replies_lead_on(
    f: ForwardPass,
    index: TensorIndex,
    batch: Batch,
    reply: Reply,
    r: Result<Next, ForwardError>,
)
    requires
        f.answer(&index, batch, reply, r),
    ensures
        reply matches Reply::InputBuffer(h) ==> if h == 0 {
            r is Err
        } else {
            r is Ok && r->Ok_0 is InputContext
        },
        reply matches Reply::InputContext(h) ==> if h == 0 {
            r is Err
        } else {
            r is Ok && r->Ok_0 is Inputs
        },
        reply is Inputs ==> r is Ok && r->Ok_0 is GraphContext,
        reply matches Reply::GraphContext(h) ==> if h == 0 || f.lacking(&index) is Some {
            r is Err
        } else {
            r is Ok && r->Ok_0 is Build && f.planned(batch, &r->Ok_0->Build_0)
        },
        reply is Built ==> r is Ok && r->Ok_0 is Allocate,
        reply matches Reply::Allocated(ok) ==> if ok {
            r is Ok && r->Ok_0 is Compute
        } else {
            r is Err
        },
        reply matches Reply::Status(s) ==> if s == 0 {
            r matches Ok(Next::Read { offset, len }) && len == f.dna.n_vocab && offset == 4 * (
            f.dna.n_vocab * (batch.n_tokens - 1))
        } else {
            r is Err
        },
{
    let a = batch.n_tokens - 1;
    let b = f.dna.n_vocab as int;
    assert(a * b * 4 == 4 * (b * a)) by (nonlinear_arith);
}

/// A pass is planned where the file holds every weight; else the weight that is told is one that
/// the file lacks.
pub proof fn passes_are_planned_where_no_weight_is_missing(f: ForwardPass, index: TensorIndex)
    ensures
        f.lacking(&index) is None <==> {
            &&& index.has(Weight::TokenEmbd)
            &&& index.has(Weight::OutputNorm)
            &&& index.has(f.dna.projection())
            &&& weights::first_missing(
                &index,
                weights::stack_weights(f.dna.n_layer as nat),
            ) is None
        },
        f.lacking(&index) matches Some(w) ==> !index.has(w),
{
    weights::first_missing_is_first(&index, weights::stack_weights(f.dna.n_layer as nat));
}

/// The parameters are addressable where every size that an engine computes with is a machine
/// integer.
pub proof fn addressable_sizes_are_machine_integers(dna: ModelDNA, n_ctx: i64)
    ensures
        ({
            let row = dna.row();
            dna.addressable(n_ctx) <==> {
                &&& 0 <= n_ctx <= 4096
                &&& row * 4 <= usize::MAX && row * 4 <= i64::MAX
                &&& row * n_ctx <= i64::MAX
                &&& row * n_ctx * 4 <= usize::MAX
                &&& row * n_ctx * 4 * dna.n_layer * 2 <= usize::MAX
                &&& (dna.n_layer * 4 + 64) * 512 <= usize::MAX
                &&& dna.n_vocab * n_ctx * 4 <= usize::MAX
                &&& dna.n_vocab * 4 <= usize::MAX
            }
        }),
        dna.well_formed() <==> {
            &&& 0 <= dna.n_vocab
            &&& 0 <= dna.n_embd <= 0xFFFFFFFF
            &&& 0 <= dna.n_head <= 0xFFFFFFFF
            &&& 0 <= dna.n_head_kv <= 0xFFFFFFFF
            &&& 0 <= dna.n_layer <= 0xFFFFFFFF
            &&& 0 <= dna.n_ff <= 0xFFFFFFFF
            &&& 0 <= dna.n_rot <= 0xFFFFFFFF
        },
{
}

/// The cache buffer of an engine: four bytes for each element, keys of every layer and then values
/// of every layer, one tensor after the other.
pub proof fn cache_tensors_follow_each_other(l: QuantumLayout, i: int)
    requires
        l.well_formed(),
    ensures
        l.bytes == 4 * (l.width * l.rows),
        l.stride == 4 * l.width,
        l.total == 2 * (l.layers * l.bytes),
        l.key_offset(0) == 0,
        l.key_offset(i + 1) == l.key_offset(i) + l.bytes,
        l.value_offset(0) == l.key_offset(l.layers as int),
        l.value_offset(i + 1) == l.value_offset(i) + l.bytes,
{
    let b = l.bytes as int;
    let n = l.layers as int;
    assert(b * n * 2 == 2 * (n * b)) by (nonlinear_arith);
    assert((i + 1) * b == i * b + b) by (nonlinear_arith);
    assert((n + (i + 1)) * b == (n + i) * b + b) by (nonlinear_arith);
}

/// What an engine gives back: where there is a handle, it is given back once.
pub proof fn caches_give_back_their_handles(kv: QuantumKV)
    ensures
        kv.ctx != 0 && kv.buf != 0 ==> kv.gives_back() == seq![
            Release::Context(kv.ctx),
            Release::Buffer(kv.buf),
        ],
        kv.ctx != 0 && kv.buf == 0 ==> kv.gives_back() == seq![Release::Context(kv.ctx)],
        kv.ctx == 0 && kv.buf != 0 ==> kv.gives_back() == seq![Release::Buffer(kv.buf)],
        kv.ctx == 0 && kv.buf == 0 ==> kv.gives_back().len() == 0,
{
}

/// The errors and faults in words; those of a whole prompt say so, but for a missing weight.
pub proof fn faults_are_told_in_these_words(s: String, x: i32, w: Weight, prefill: bool)
    ensures
        ForwardError::Init(s).words() == "[Z.3 INIT] "@ + s@,
        ForwardError::MissingTensor(s).words() == "[Z.3 MISSING] tensor: "@ + s@,
        ForwardError::ComputeFailed(x).words() == "[Z.3 COMPUTE] failed with status "@
            + text::signed_decimal(x as int),
        ForwardError::ContextFull.words() == "[Z.3 OVERFLOW] context window full"@,
        ForwardError::Internal(s).words() == "[Z.3 INTERNAL] "@ + s@,
        InitFault::Backend.words() == "CPU backend init failed"@,
        InitFault::CacheBuffer.words() == "KV buffer allocation failed"@,
        InitFault::CacheContext.words() == "KV ggml_init failed"@,
        BuildFault::InputBuffer.words(false) == "input buffer alloc failed"@,
        BuildFault::InputContext.words(false) == "inp_ctx ggml_init failed"@,
        BuildFault::GraphContext.words(false) == "graph ctx ggml_init failed"@,
        BuildFault::Allocation.words(false) == "gallocr_alloc_graph failed"@,
        BuildFault::InputBuffer.words(true) == "prefill input buffer alloc failed"@,
        BuildFault::InputContext.words(true) == "prefill inp_ctx ggml_init failed"@,
        BuildFault::GraphContext.words(true) == "prefill graph ctx ggml_init failed"@,
        BuildFault::Allocation.words(true) == "prefill gallocr_alloc_graph failed"@,
        BuildFault::Missing(w).words(prefill) == w.label() + " missing"@,
{
}

/// What a failed step is answered. A computation that failed is told by its status, over a prompt
/// and over a single token in ways of their own.
pub proof fn failures_are_answered_in_words(
    f: ForwardPass,
    index: TensorIndex,
    batch: Batch,
    r: Result<Next, ForwardError>,
    h: usize,
    s: i32,
)
    requires
        h != 0,
        s != 0,
    ensures
        f.answer(&index, batch, Reply::InputBuffer(0), r) ==> r is Err && r->Err_0.internal(
            BuildFault::InputBuffer.words(batch.prefill),
        ),
        f.answer(&index, batch, Reply::InputContext(0), r) ==> r is Err && r->Err_0.internal(
            BuildFault::InputContext.words(batch.prefill),
        ),
        f.answer(&index, batch, Reply::GraphContext(0), r) ==> r is Err && r->Err_0.internal(
            BuildFault::GraphContext.words(batch.prefill),
        ),
        f.answer(&index, batch, Reply::GraphContext(h), r) && f.lacking(&index) is Some ==> r is Err
            && r->Err_0.internal(f.lacking(&index)->0.label() + " missing"@),
        f.answer(&index, batch, Reply::Allocated(false), r) ==> r is Err && r->Err_0.internal(
            BuildFault::Allocation.words(batch.prefill),
        ),
        f.answer(&index, batch, Reply::Status(s), r) && batch.prefill ==> r
            == Err::<Next, ForwardError>(ForwardError::ComputeFailed(s)),
        f.answer(&index, batch, Reply::Status(s), r) && !batch.prefill ==> r is Err
            && r->Err_0 is Internal && r->Err_0->Internal_0@ == "compute failed status="@
            + text::signed_decimal(s as int),
        r is Err ==> forall|words: Seq<char>| #[trigger]
            r->Err_0.internal(words) ==> r->Err_0 is Internal && r->Err_0->Internal_0@ == words,
{
}

/// What is missing is told in the order in which a pass needs it.
pub proof fn missing_weights_are_told_in_order(f: ForwardPass, index: TensorIndex)
    ensures
        ({
            let stack = weights::first_missing(
                &index,
                weights::stack_weights(f.dna.n_layer as nat),
            );
            let o = f.lacking(&index);
            let embedded = index.has(Weight::TokenEmbd);
            &&& !embedded ==> o == Some(Weight::TokenEmbd)
            &&& embedded && stack is Some ==> o == stack
            &&& embedded && stack is None && !index.has(Weight::OutputNorm) ==> o == Some(
                Weight::OutputNorm,
            )
            &&& embedded && stack is None && index.has(Weight::OutputNorm) && !index.has(
                f.dna.projection(),
            ) ==> o == Some(f.dna.projection())
        }),
{
}

/// A plan of a pass writes the caches of every layer and then computes the logits of every token
/// by the projection, and these are read back.
pub proof fn plans_read_all_logits(f: ForwardPass, batch: Batch, plan: GraphPlan)
    requires
        f.planned(batch, &plan),
    ensures
        ({
            let d = f.pass(batch);
            let layers = f.dna.n_layer as nat;
            let logits = expr::all_logits(d, layers, f.dna.projection());
            &&& plan.output < plan.ops@.len()
            &&& plan.exprs()[plan.output as int] == logits
            &&& plan.scheduled() == expr::cache_writes(d, layers).push(logits)
            &&& plan.schedule@.len() == expr::cache_writes(d, layers).len() + 1
        }),
{
    assert(plan.scheduled().len() == plan.schedule@.len());
}

/// The places of the inputs in their buffer.
pub proof fn inputs_have_these_places(inputs: PassInputs, n: int, n_ctx: int)
    ensures
        inputs.placed_for_prompt(n, n_ctx) <==> {
            &&& inputs.size == 8 * n + 4 * (n_ctx * n) + 1024
            &&& inputs.pos_at == 4 * n + 64
            &&& inputs.mask_at == 8 * n + 128
        },
        inputs.placed_for_token(n_ctx) <==> {
            &&& inputs.size == 4 * n_ctx + 1536
            &&& inputs.pos_at == 64
            &&& inputs.mask_at == 128
        },
{
}

/// A token id is handed on as it is, where it is one that a signed word can hold.
pub proof fn token_ids_are_handed_on(t: u32)
    ensures
        t < 0x80000000 ==> t as i32 == t,
        t >= 0x80000000 ==> t as i32 == t - 0x100000000,
{
    assert(t >= 0x80000000 ==> t as i32 == t - 0x100000000) by (bit_vector);
}

/// A graph is given back by its handles, in this order; what was never made is not given back.
pub proof fn graphs_are_given_back_in_order(f: ForwardPass)
    ensures
        f.galloc != 0 && f.ctx != 0 && f.inp_ctx != 0 && f.inp_buf != 0 ==> f.graph_releases()
            == seq![
            Release::Allocator(f.galloc),
            Release::Context(f.ctx),
            Release::Context(f.inp_ctx),
            Release::Buffer(f.inp_buf),
        ],
        f.galloc == 0 && f.ctx != 0 && f.inp_ctx != 0 && f.inp_buf != 0 ==> f.graph_releases()
            == seq![
            Release::Context(f.ctx),
            Release::Context(f.inp_ctx),
            Release::Buffer(f.inp_buf),
        ],
        f.galloc == 0 && f.ctx == 0 && f.inp_ctx != 0 && f.inp_buf != 0 ==> f.graph_releases()
            == seq![Release::Context(f.inp_ctx), Release::Buffer(f.inp_buf)],
        f.galloc == 0 && f.ctx == 0 && f.inp_ctx == 0 && f.inp_buf != 0 ==> f.graph_releases()
            == seq![Release::Buffer(f.inp_buf)],
        f.graph_releases().len() == (if f.galloc != 0 {
            1int
        } else {
            0
        }) + (if f.ctx != 0 {
            1int
        } else {
            0
        }) + (if f.inp_ctx != 0 {
            1int
        } else {
            0
        }) + (if f.inp_buf != 0 {
            1int
        } else {
            0
        }),
{
}

/// A pass begins with an engine that holds no graph and counts one more; a reset one has no
/// position either. Everything else stays as it was.
pub proof fn passes_begin_without_a_graph(f: ForwardPass)
    requires
        f.well_formed(),
        f.rebuild_count < u64::MAX,
    ensures
        ({
            let bare = ForwardPass {
                galloc: 0,
                ctx: 0,
                graph: 0,
                inp_ctx: 0,
                inp_buf: 0,
                d_token: 0,
                d_pos: 0,
                d_mask: 0,
                d_logits: 0,
                ..f
            };
            &&& f.cleaned() == bare
            &&& f.rebuilding() == (ForwardPass {
                rebuild_count: (f.rebuild_count + 1) as u64,
                ..bare
            })
            &&& f.reset() == (ForwardPass { kv: QuantumKV { head: 0, ..f.kv }, ..bare })
        }),
        f.bare() <==> f.galloc == 0 && f.ctx == 0 && f.graph == 0 && f.inp_ctx == 0 && f.inp_buf
            == 0 && f.d_token == 0 && f.d_pos == 0 && f.d_mask == 0 && f.d_logits == 0,
{
}

/// An engine is in order where its parameters are, where the rows in use are rows of the cache,
/// where each layer has keys and values, and where no graph is left without its context. A reply
/// is awaited where it overwrites no handle.
pub proof fn engines_have_a_cache_for_each_layer(f: ForwardPass, h: usize, i: usize, j: usize)
    ensures
        f.well_formed() <==> {
            &&& f.dna.well_formed()
            &&& f.dna.addressable(f.n_ctx)
            &&& 0 <= f.kv.head <= f.n_ctx
            &&& f.kv.n_ctx == f.n_ctx
            &&& f.kv.stride == 4 * (f.dna.n_head_kv * f.dna.head_width())
            &&& f.kv.k_ptrs@.len() == f.dna.n_layer
            &&& f.kv.v_ptrs@.len() == f.dna.n_layer
            &&& f.ctx != 0 || f.graph == 0
        },
        f.awaits(Reply::InputBuffer(h)) <==> f.inp_buf == 0,
        f.awaits(Reply::InputContext(h)) <==> f.inp_ctx == 0,
        f.awaits(Reply::GraphContext(h)) <==> f.ctx == 0,
        f.awaits(Reply::Built { graph: h, logits: i, galloc: j }) <==> f.ctx != 0 && f.galloc == 0,
        f.awaits(Reply::Inputs { token: h, pos: i, mask: j }),
        f.awaits(Reply::Allocated(true)) && f.awaits(Reply::Allocated(false)),
        f.awaits(Reply::Status(0)),
{
}

/// The context of the cache tensors has room for four entries for each layer and 64 more, of 512
/// bytes each.
pub proof fn layouts_agree(l: QuantumLayout)
    ensures
        l.well_formed() <==> {
            &&& 0 <= l.width
            &&& 0 <= l.rows
            &&& l.elements == l.width * l.rows
            &&& l.bytes == 4 * l.elements
            &&& l.stride == 4 * l.width
            &&& l.total == l.bytes * l.layers * 2
            &&& l.context == 512 * (4 * l.layers + 64)
        },
{
}

/// A value of another type than the wanted one counts as if there were none.
pub proof fn values_of_other_types_do_not_count(
    dna: ModelDNA,
    header: ModelHeader,
    index: TensorIndex,
    x: GgufValue,
    whole: bool,
)
    requires
        dna.read_from(&header, &index),
        whole <==> x is U32 || (x is Int && x->Int_0 is Some),
    ensures
        header.metadata.lookup(header.arch() + "."@ + "vocab_size"@) == Some(x) && !whole ==> (
        match header.metadata.lookup("tokenizer.ggml.tokens"@) {
            Some(GgufValue::Array(tokens)) => dna.n_vocab == tokens@.len() as i64,
            _ => dna.n_vocab == 0,
        }),
        header.metadata.lookup(header.arch() + "."@ + "vocab_size"@) is None ==> (
        match header.metadata.lookup("tokenizer.ggml.tokens"@) {
            Some(GgufValue::Array(tokens)) => dna.n_vocab == tokens@.len() as i64,
            _ => dna.n_vocab == 0,
        }),
        header.metadata.lookup(header.arch() + "."@ + "embedding_length"@) == Some(x) && !whole ==> dna.n_embd == 0,
        header.metadata.lookup(header.arch() + "."@ + "attention.head_count"@) == Some(x) && !whole ==> dna.n_head == 0,
        header.metadata.lookup(header.arch() + "."@ + "attention.head_count_kv"@) == Some(x) && !whole ==> dna.n_head_kv == 0,
        header.metadata.lookup(header.arch() + "."@ + "block_count"@) == Some(x) && !whole ==> dna.n_layer == 0,
        header.metadata.lookup(header.arch() + "."@ + "feed_forward_length"@) == Some(x) && !whole ==> dna.n_ff == 0,
        header.metadata.lookup(header.arch() + "."@ + "rope.dimension_count"@) == Some(x) && !whole ==> dna.n_rot == 0,
        header.metadata.lookup(header.arch() + "."@ + "rope.freq_base"@) == Some(x) && !(x is F32)
            ==> dna.freq_base == 0x461C4000,
        header.metadata.lookup(header.arch() + "."@ + "attention.layer_norm_rms_epsilon"@) == Some(x)
            && !(x is F32) ==> dna.rms_eps == 0x358637BD,
{
}

} // verus!
