//! The forward pass that attends to every cached position.
//!
//! A [`LlamaGraph`] keeps the hyper-parameters of a model, a handle of the compute backend and
//! the key/value cache. A pass begins with [`LlamaGraph::prefill`] or [`LlamaGraph::decode_one`],
//! which lay out its input buffer. [`LlamaGraph::forward`] then takes the answer to each [`Stage`],
//! one after the other, and tells what comes next: it plans the compute graph once the graph's
//! context is there, and moves the cache on once the computation has succeeded. Handles are
//! addresses; zero stands for a handle that could not be made.

use vstd::prelude::*;
use vstd::string::*;

use crate::arith;
use crate::expr;
use crate::expr::PassDims;
use crate::gguf;
use crate::gguf::ModelHeader;
use crate::plan;
use crate::plan::{GraphPlan, Needs};
use crate::shapes;
use crate::shapes::ModelDims;
use crate::text;
use crate::weights;
use crate::weights::{TensorIndex, Weight};

verus! {

/// Number of rows of the key/value cache.
pub const GRAPH_N_CTX: i64 = 512;

/// Bytes of the context of the inputs.
pub const INPUT_MEM_SIZE: usize = 4096;

/// Bytes of the context of a compute graph.
pub const GRAPH_MEM_SIZE: usize = 67108864;

/// The most operations of a compute graph.
pub const GRAPH_NODES: usize = 8192;

/// Bytes of the cache arena besides the tensors.
pub const ARENA_SLACK: usize = 4194304;

/// Bits of the rotary frequency base of a model that names none: 500000.
pub const DEFAULT_FREQ_BASE: u32 = 0x48F42400;

/// Bits of the normalisation epsilon of a model that names none: 0.00001.
pub const DEFAULT_EPS: u32 = 0x3727C5AC;

/// Why a forward pass failed.
pub enum ForwardError {
    ShapeMismatch { expected: usize, got: usize },
    MissingTensor(String),
    ComputeFailed(i32),
    AllocationFailed(String),
}

impl ForwardError {
    /// The error in words.
    pub open spec fn words(self) -> Seq<char> {
        match self {
            ForwardError::ShapeMismatch { expected, got } => "shape mismatch: expected "@
                + text::decimal(expected as nat) + ", got "@ + text::decimal(got as nat),
            ForwardError::MissingTensor(name) => "missing tensor: "@ + name@,
            ForwardError::ComputeFailed(status) => "compute failed with status "@
                + text::signed_decimal(status as int),
            ForwardError::AllocationFailed(msg) => "allocation failed: "@ + msg@,
        }
    }

    /// The error in words.
    pub fn message(&self) -> (r: String)
        ensures
            r@ == self.words(),
    {
        match self {
            ForwardError::ShapeMismatch { expected, got } => {
                let mut out: String = "shape mismatch: expected ".to_owned();
                text::push_decimal(&mut out, *expected as u64);
                out.append(", got ");
                text::push_decimal(&mut out, *got as u64);
                out
            },
            ForwardError::MissingTensor(name) => text::join("missing tensor: ", name.as_str()),
            ForwardError::ComputeFailed(status) => {
                let mut out: String = "compute failed with status ".to_owned();
                text::push_signed_decimal(&mut out, *status as i64);
                out
            },
            ForwardError::AllocationFailed(msg) => text::join("allocation failed: ", msg.as_str()),
        }
    }
}

/// What stopped the building or the running of a compute graph.
pub enum GraphFault {
    /// The compute backend could not be made.
    BackendInit,
    /// The input buffer could not be allocated.
    InputBuffer,
    /// The context of the inputs could not be made.
    InputContext,
    /// The context of the graph could not be made.
    GraphContext,
    /// The model lacks a weight.
    Missing(Weight),
    /// The cache has too few rows.
    CacheOverflow { needed: i64, rows: i64 },
    /// The graph allocator could not be made.
    Allocator,
    /// The graph could not be allocated.
    Allocation,
    /// The computation ended with a status other than zero.
    Compute(i32),
}

/// What a pass acquires and has to give back.
#[derive(Clone, Copy, Debug, PartialEq, Eq, Structural)]
pub enum Resource {
    Allocator,
    GraphContext,
    InputContext,
    InputBuffer,
}

/// What a pass that got as far as `fault` gives back, in order.
pub open spec fn given_back(fault: GraphFault) -> Seq<Resource> {
    match fault {
        GraphFault::BackendInit | GraphFault::InputBuffer | GraphFault::Missing(_) => Seq::empty(),
        GraphFault::InputContext => seq![Resource::InputBuffer],
        GraphFault::GraphContext => seq![Resource::InputContext, Resource::InputBuffer],
        GraphFault::CacheOverflow { .. } | GraphFault::Allocator => seq![
            Resource::GraphContext,
            Resource::InputContext,
            Resource::InputBuffer,
        ],
        GraphFault::Allocation | GraphFault::Compute(_) => whole_pass(),
    }
}

/// What a pass that ran to its end gives back, in order.
pub open spec fn whole_pass() -> Seq<Resource> {
    seq![
        Resource::Allocator,
        Resource::GraphContext,
        Resource::InputContext,
        Resource::InputBuffer,
    ]
}

/// What a pass has acquired when `fault` stops it.
pub open spec fn acquired(fault: GraphFault) -> Set<Resource> {
    match fault {
        GraphFault::BackendInit | GraphFault::InputBuffer => Set::empty(),
        GraphFault::InputContext => set![Resource::InputBuffer],
        GraphFault::GraphContext => set![Resource::InputBuffer, Resource::InputContext],
        GraphFault::Missing(_) | GraphFault::CacheOverflow { .. } | GraphFault::Allocator => set![
            Resource::InputBuffer,
            Resource::InputContext,
            Resource::GraphContext,
        ],
        GraphFault::Allocation | GraphFault::Compute(_) => set![
            Resource::InputBuffer,
            Resource::InputContext,
            Resource::GraphContext,
            Resource::Allocator,
        ],
    }
}

/// Whatever stops a pass other than a missing weight, the pass gives back all that it acquired,
/// each once.
pub proof fn faults_give_everything_back(fault: GraphFault)
    requires
        !(fault is Missing),
    ensures
        given_back(fault).no_duplicates(),
        forall|r: Resource| acquired(fault).contains(r) <==> given_back(fault).contains(r),
{
    let back = given_back(fault);
    assert forall|r: Resource| acquired(fault).contains(r) implies back.contains(r) by {
        assert(back.len() >= 1);
        assert(forall|i: int| 0 <= i < back.len() ==> back.contains(#[trigger] back[i]));
        match fault {
            GraphFault::InputContext => {
                assert(back[0] == r);
            },
            GraphFault::GraphContext => {
                assert(back[0] == r || back[1] == r);
            },
            GraphFault::CacheOverflow { .. } | GraphFault::Allocator => {
                assert(back[0] == r || back[1] == r || back[2] == r);
            },
            _ => {
                assert(back[0] == r || back[1] == r || back[2] == r || back[3] == r);
            },
        }
    }
}

/// A pass that ran to its end gives back all that a pass acquires, each once.
pub proof fn passes_give_everything_back()
    ensures
        whole_pass().no_duplicates(),
        forall|r: Resource| #[trigger] whole_pass().contains(r),
{
    let back = whole_pass();
    assert forall|r: Resource| #[trigger] back.contains(r) by {
        assert(back[0] == r || back[1] == r || back[2] == r || back[3] == r);
    }
}

/// What a pass that ran to its end gives back, in order.
pub fn finished() -> (r: Vec<Resource>)
    ensures
        r@ == whole_pass(),
{
    let mut out: Vec<Resource> = Vec::new();
    out.push(Resource::Allocator);
    out.push(Resource::GraphContext);
    out.push(Resource::InputContext);
    out.push(Resource::InputBuffer);
    assert(out@ =~= whole_pass());
    out
}

impl GraphFault {
    /// The fault in words.
    pub open spec fn words(self) -> Seq<char> {
        match self {
            GraphFault::BackendInit => "[Z.1 Graph] ggml_backend_cpu_init failed"@,
            GraphFault::InputBuffer => "[Z.1 Graph] ggml_backend_alloc_buffer failed"@,
            GraphFault::InputContext => "[Z.1 Graph] ggml_init for inp_ctx failed"@,
            GraphFault::GraphContext => "[Z.1 Graph] ggml_init for graph ctx failed"@,
            GraphFault::Missing(w) => w.label() + " not found"@,
            GraphFault::CacheOverflow { needed, rows } => "[Z.1 Graph] KV cache overflow: "@
                + text::signed_decimal(needed as int) + " > "@ + text::signed_decimal(rows as int),
            GraphFault::Allocator => "[Z.1 Graph] ggml_gallocr_new failed"@,
            GraphFault::Allocation => "[Z.1 Graph] ggml_gallocr_alloc_graph failed"@,
            GraphFault::Compute(status) => "[Z.1 Graph] compute failed status="@
                + text::signed_decimal(status as int),
        }
    }

    /// The fault in words.
    pub fn message(&self) -> (r: String)
        ensures
            r@ == self.words(),
    {
        match self {
            GraphFault::BackendInit => "[Z.1 Graph] ggml_backend_cpu_init failed".to_owned(),
            GraphFault::InputBuffer => "[Z.1 Graph] ggml_backend_alloc_buffer failed".to_owned(),
            GraphFault::InputContext => "[Z.1 Graph] ggml_init for inp_ctx failed".to_owned(),
            GraphFault::GraphContext => "[Z.1 Graph] ggml_init for graph ctx failed".to_owned(),
            GraphFault::Missing(w) => {
                let mut out: String = w.name();
                out.append(" not found");
                out
            },
            GraphFault::CacheOverflow { needed, rows } => {
                let mut out: String = "[Z.1 Graph] KV cache overflow: ".to_owned();
                text::push_signed_decimal(&mut out, *needed);
                out.append(" > ");
                text::push_signed_decimal(&mut out, *rows);
                out
            },
            GraphFault::Allocator => "[Z.1 Graph] ggml_gallocr_new failed".to_owned(),
            GraphFault::Allocation => "[Z.1 Graph] ggml_gallocr_alloc_graph failed".to_owned(),
            GraphFault::Compute(status) => {
                let mut out: String = "[Z.1 Graph] compute failed status=".to_owned();
                text::push_signed_decimal(&mut out, *status as i64);
                out
            },
        }
    }

    /// What a pass that this fault stops gives back, in order.
    pub fn releases(&self) -> (r: Vec<Resource>)
        ensures
            r@ == given_back(*self),
    {
        let mut out: Vec<Resource> = Vec::new();
        match self {
            GraphFault::BackendInit | GraphFault::InputBuffer | GraphFault::Missing(_) => {},
            GraphFault::InputContext => {
                out.push(Resource::InputBuffer);
            },
            GraphFault::GraphContext => {
                out.push(Resource::InputContext);
                out.push(Resource::InputBuffer);
            },
            GraphFault::CacheOverflow { .. } | GraphFault::Allocator => {
                out.push(Resource::GraphContext);
                out.push(Resource::InputContext);
                out.push(Resource::InputBuffer);
            },
            GraphFault::Allocation | GraphFault::Compute(_) => {
                out = finished();
            },
        }
        assert(out@ =~= given_back(*self));
        out
    }

    /// The fault as a forward error.
    pub fn to_error(&self) -> (e: ForwardError)
        ensures
            e matches ForwardError::AllocationFailed(msg) && msg@ == self.words(),
    {
        ForwardError::AllocationFailed(self.message())
    }
}

/// The hyper-parameters of a model.
pub struct LlamaHparams {
    pub n_vocab: i64,
    pub n_embd: i64,
    pub n_head: i64,
    pub n_head_kv: i64,
    pub n_layer: i64,
    pub n_ff: i64,
    pub n_rot: i64,
    /// Bits of the rotary frequency base.
    pub freq_base: u32,
    /// Bits of the normalisation epsilon.
    pub rms_norm_eps: u32,
}

impl LlamaHparams {
    /// The parameters are those of `header`: the vocabulary under a fixed key, the others under
    /// keys of the file's architecture, zero or a default where the key is missing.
    pub open spec fn read_from(&self, header: &ModelHeader) -> bool {
        let m = &header.metadata;
        let arch = header.arch() + "."@;
        &&& self.n_vocab == m.integer("llama.vocab_size"@)
        &&& self.n_embd == m.integer(arch + "embedding_length"@)
        &&& self.n_head == m.integer(arch + "attention.head_count"@)
        &&& self.n_head_kv == m.integer(arch + "attention.head_count_kv"@)
        &&& self.n_layer == m.integer(arch + "block_count"@)
        &&& self.n_ff == m.integer(arch + "feed_forward_length"@)
        &&& self.n_rot == m.integer(arch + "rope.dimension_count"@)
        &&& self.freq_base == m.float(arch + "rope.freq_base"@, DEFAULT_FREQ_BASE)
        &&& self.rms_norm_eps == m.float(
            arch + "attention.layer_norm_rms_epsilon"@,
            DEFAULT_EPS,
        )
    }

    /// Every count is a 32-bit unsigned integer.
    pub open spec fn well_formed(&self) -> bool {
        &&& 0 <= self.n_vocab <= u32::MAX
        &&& 0 <= self.n_embd <= u32::MAX
        &&& 0 <= self.n_head <= u32::MAX
        &&& 0 <= self.n_head_kv <= u32::MAX
        &&& 0 <= self.n_layer <= u32::MAX
        &&& 0 <= self.n_ff <= u32::MAX
        &&& 0 <= self.n_rot <= u32::MAX
    }

    /// Reads the parameters from a model's metadata.
    pub fn from_model(header: &ModelHeader) -> (hp: LlamaHparams)
        requires
            header.metadata.well_formed(),
        ensures
            hp.read_from(header),
            hp.well_formed(),
    {
        let arch: String = header.arch_or_llama();
        let m = &header.metadata;
        LlamaHparams {
            n_vocab: m.get_u32(&"llama.vocab_size".to_owned()),
            n_embd: m.get_u32(&gguf::arch_key(&arch, "embedding_length")),
            n_head: m.get_u32(&gguf::arch_key(&arch, "attention.head_count")),
            n_head_kv: m.get_u32(&gguf::arch_key(&arch, "attention.head_count_kv")),
            n_layer: m.get_u32(&gguf::arch_key(&arch, "block_count")),
            n_ff: m.get_u32(&gguf::arch_key(&arch, "feed_forward_length")),
            n_rot: m.get_u32(&gguf::arch_key(&arch, "rope.dimension_count")),
            freq_base: m.get_f32(&gguf::arch_key(&arch, "rope.freq_base"), DEFAULT_FREQ_BASE),
            rms_norm_eps: m.get_f32(
                &gguf::arch_key(&arch, "attention.layer_norm_rms_epsilon"),
                DEFAULT_EPS,
            ),
        }
    }

    /// Elements of one attention head.
    pub open spec fn head_width(&self) -> int {
        self.n_embd as int / self.n_head as int
    }

    /// Elements of one attention head.
    pub fn head_dim(&self) -> (r: i64)
        requires
            0 <= self.n_embd,
            0 < self.n_head,
        ensures
            r == self.head_width(),
            0 <= r <= self.n_embd,
    {
        let r: i64 = self.n_embd / self.n_head;
        proof {
            let n = self.n_embd as int;
            let h = self.n_head as int;
            assert(0 <= n / h <= n) by (nonlinear_arith)
                requires
                    n >= 0,
                    h > 0,
            ;
        }
        r
    }

    /// Bytes of one cache row.
    pub open spec fn row_bytes(&self) -> int {
        self.n_head_kv * self.head_width() * 4
    }

    /// The tensors of a model with a cache of `n_ctx` rows are addressable: a cache row, all
    /// cache rows of a layer, the whole cache arena and the hidden states of a full context.
    pub open spec fn addressable(&self, n_ctx: i64) -> bool {
        &&& self.n_head != 0
        &&& 0 <= n_ctx <= i32::MAX
        &&& self.row_bytes() <= usize::MAX && self.row_bytes() <= i64::MAX
        &&& self.row_bytes() * n_ctx <= usize::MAX && self.row_bytes() * n_ctx <= i64::MAX
        &&& self.row_bytes() * n_ctx * self.n_layer * 2 + ARENA_SLACK <= usize::MAX
        &&& n_ctx * self.n_embd * 4 <= usize::MAX && n_ctx * self.n_embd * 4 <= i64::MAX
        &&& self.n_vocab * 4 <= usize::MAX
    }

    /// Whether the parameters are counts of a model whose tensors are addressable with a cache of
    /// `n_ctx` rows.
    pub fn fits(&self, n_ctx: i64) -> (r: bool)
        ensures
            r == (self.well_formed() && self.addressable(n_ctx)),
    {
        let top: i64 = u32::MAX as i64;
        if !(0 <= self.n_vocab && self.n_vocab <= top && 0 <= self.n_embd && self.n_embd <= top
            && 0 <= self.n_head && self.n_head <= top && 0 <= self.n_head_kv
            && self.n_head_kv <= top && 0 <= self.n_layer && self.n_layer <= top && 0 <= self.n_ff && self.n_ff <= top
            && 0 <= self.n_rot && self.n_rot <= top) {
            return false;
        }
        if self.n_head == 0 || n_ctx < 0 || n_ctx > i32::MAX as i64 {
            return false;
        }
        let limit: u128 = if usize::MAX as u128 <= i64::MAX as u128 {
            usize::MAX as u128
        } else {
            i64::MAX as u128
        };
        let width: i64 = self.head_dim();
        proof {
            arith::lemma_product(
                self.n_head_kv as int,
                u32::MAX as int,
                width as int,
                u32::MAX as int,
            );
        }
        let row: u128 = self.n_head_kv as u128 * width as u128 * 4;
        if row > limit {
            return false;
        }
        proof {
            arith::lemma_product(row as int, u64::MAX as int, n_ctx as int, i32::MAX as int);
        }
        let layer: u128 = row * n_ctx as u128;
        if layer > limit {
            return false;
        }
        proof {
            arith::lemma_product(
                layer as int,
                u64::MAX as int,
                self.n_layer as int,
                u32::MAX as int,
            );
            arith::lemma_product(
                n_ctx as int,
                i32::MAX as int,
                self.n_embd as int,
                u32::MAX as int,
            );
        }
        let arena: u128 = layer * self.n_layer as u128 * 2 + ARENA_SLACK as u128;
        let states: u128 = n_ctx as u128 * self.n_embd as u128 * 4;
        arena <= usize::MAX as u128 && states <= limit && self.n_vocab as u128 * 4
            <= usize::MAX as u128
    }
}

/// The arena of a key/value cache: how much memory it takes, and what is made in it.
#[derive(Clone, Copy, Debug)]
pub struct CacheLayout {
    /// Bytes of the arena.
    pub mem_size: usize,
    /// Number of tensors for keys, and of tensors for values.
    pub layers: usize,
    /// Elements of one row.
    pub width: i64,
    /// Rows of one tensor.
    pub rows: i64,
}

/// The key/value cache: for each layer one tensor of keys and one of values, with one row for
/// each position.
pub struct KVCache {
    /// Handle of the arena.
    pub ctx: usize,
    /// Handles of the key tensors.
    pub k: Vec<usize>,
    /// Handles of the value tensors.
    pub v: Vec<usize>,
    /// Number of rows.
    pub n_ctx: i64,
    /// The next free row, which is the number of rows in use.
    pub head: i64,
}

impl KVCache {
    /// The rows in use are rows of the cache.
    pub open spec fn well_formed(&self) -> bool {
        &&& 0 <= self.head <= self.n_ctx
        &&& self.k@.len() == self.v@.len()
    }

    /// The arena of a cache: room for keys and values of every layer, four bytes for each
    /// element, and some slack.
    pub fn layout(n_layers: usize, n_head_kv: i64, head_dim: i64, n_ctx: i64) -> (l: CacheLayout)
        requires
            0 <= n_head_kv,
            0 <= head_dim,
            0 <= n_ctx,
            n_head_kv * head_dim <= i64::MAX,
            n_head_kv * head_dim * n_ctx * 4 <= i64::MAX,
            n_head_kv * head_dim * n_ctx * 4 <= usize::MAX,
            n_head_kv * head_dim * n_ctx * 4 * n_layers * 2 + ARENA_SLACK <= usize::MAX,
        ensures
            l.mem_size == n_head_kv * head_dim * n_ctx * 4 * n_layers * 2 + ARENA_SLACK,
            l.layers == n_layers,
            l.width == n_head_kv * head_dim,
            l.rows == n_ctx,
    {
        proof {
            arith::lemma_product(
                n_head_kv as int,
                n_head_kv as int,
                head_dim as int,
                head_dim as int,
            );
            arith::lemma_product(
                n_head_kv * head_dim,
                n_head_kv * head_dim,
                n_ctx as int,
                n_ctx as int,
            );
            let bytes = n_head_kv * head_dim * n_ctx * 4;
            arith::lemma_product(bytes, bytes, n_layers as int, n_layers as int);
        }
        let width: i64 = n_head_kv * head_dim;
        let bytes_per: usize = (width * n_ctx * 4) as usize;
        let mem_size: usize = bytes_per * n_layers * 2 + ARENA_SLACK;
        CacheLayout { mem_size, layers: n_layers, width, rows: n_ctx }
    }

    /// An empty cache over an arena and its tensors.
    pub fn new(ctx: usize, k: Vec<usize>, v: Vec<usize>, n_ctx: i64) -> (cache: KVCache)
        requires
            0 <= n_ctx,
            k@.len() == v@.len(),
        ensures
            cache.well_formed(),
            cache.ctx == ctx,
            cache.k@ == k@,
            cache.v@ == v@,
            cache.n_ctx == n_ctx,
            cache.head == 0,
    {
        KVCache { ctx, k, v, n_ctx, head: 0 }
    }

    /// Forgets every row.
    pub fn clear(&mut self)
        ensures
            *final(self) == (KVCache { head: 0, ..*old(self) }),
    {
        self.head = 0;
    }
}

/// The input buffer of a pass: the token ids at its start, and their positions after them.
pub struct PassInputs {
    /// Bytes of the buffer.
    pub size: usize,
    /// Byte offset of the positions.
    pub pos_at: usize,
    /// The token ids.
    pub tokens: Vec<i32>,
    /// The position of each token.
    pub positions: Vec<i32>,
}

impl PassInputs {
    /// The inputs of a pass over `tokens`, the first of which stands at `pos`: twice the ids'
    /// bytes and some slack, with the positions at the next multiple of 64 bytes.
    pub open spec fn lays_out(&self, tokens: Seq<i32>, pos: i32) -> bool {
        let bytes = tokens.len() * 4;
        &&& self.size == bytes * 2 + 256
        &&& self.pos_at == (bytes + 63) / 64 * 64
        &&& self.tokens@ == tokens
        &&& self.positions@ == Seq::new(tokens.len(), |i: int| (pos + i) as i32)
    }
}

/// Tokens and positions lie in the input buffer of a pass, and do not overlap.
pub proof fn inputs_do_not_overlap(inputs: PassInputs, tokens: Seq<i32>, pos: i32)
    requires
        inputs.lays_out(tokens, pos),
    ensures
        tokens.len() * 4 <= inputs.pos_at,
        inputs.pos_at % 64 == 0,
        inputs.pos_at + inputs.positions@.len() * 4 <= inputs.size,
{
}

/// What a pass has asked of the compute library, in order.
#[derive(Clone, Copy, Debug, PartialEq, Eq, Structural)]
pub enum Stage {
    /// To allocate the input buffer.
    InputBuffer,
    /// To make the context of the inputs.
    InputContext,
    /// To make the context of the graph.
    GraphContext,
    /// To build the graph and make its allocator.
    Allocator,
    /// To allocate the graph.
    Allocation,
    /// To compute the graph.
    Compute,
}

/// What a pass asks next of the compute library.
pub enum Next {
    /// To make the context of the inputs.
    InputContext,
    /// To make the context of the graph.
    GraphContext,
    /// To build this graph, and to make its allocator.
    Build(GraphPlan),
    /// To allocate the graph.
    Allocate,
    /// To compute the graph.
    Compute,
    /// To read this many logits and give everything back.
    Read(usize),
}

/// The forward pass of a model: its parameters, the compute backend and the key/value cache.
pub struct LlamaGraph {
    pub hp: LlamaHparams,
    /// Handle of the backend.
    pub backend: usize,
    pub kv: KVCache,
}

/// The forward-inference engine.
pub type ForwardPass = LlamaGraph;

impl LlamaGraph {
    /// The parameters are addressable, and every layer has its cache tensors.
    pub open spec fn well_formed(&self) -> bool {
        &&& self.hp.well_formed()
        &&& self.hp.addressable(self.kv.n_ctx)
        &&& self.kv.well_formed()
        &&& self.kv.k@.len() == self.hp.n_layer
    }

    /// The cache arena of a model, once the backend is there.
    pub fn open(hp: &LlamaHparams, backend: usize) -> (r: Result<CacheLayout, GraphFault>)
        requires
            hp.well_formed(),
            hp.addressable(GRAPH_N_CTX),
        ensures
            match r {
                Ok(l) => {
                    &&& backend != 0
                    &&& l.mem_size == hp.row_bytes() * GRAPH_N_CTX * hp.n_layer * 2 + ARENA_SLACK
                    &&& l.layers == hp.n_layer
                    &&& l.width * 4 == hp.row_bytes()
                    &&& l.rows == GRAPH_N_CTX
                },
                Err(fault) => backend == 0 && fault == GraphFault::BackendInit,
            },
    {
        if backend == 0 {
            return Err(GraphFault::BackendInit);
        }
        let head_dim: i64 = hp.head_dim();
        proof {
            let a = hp.n_head_kv as int;
            let b = head_dim as int;
            let n = GRAPH_N_CTX as int;
            assert(a * b * 4 * n == a * b * n * 4) by (nonlinear_arith);
            arith::lemma_product(a, a, b, b);
            let bytes = hp.row_bytes() * n;
            arith::lemma_product(bytes, bytes, hp.n_layer as int, hp.n_layer as int);
            assert(hp.n_layer <= usize::MAX);
        }
        Ok(KVCache::layout(hp.n_layer as usize, hp.n_head_kv, head_dim, GRAPH_N_CTX))
    }

    /// A pass over a backend and a cache.
    pub fn new(hp: LlamaHparams, backend: usize, kv: KVCache) -> (g: LlamaGraph)
        requires
            hp.well_formed(),
            hp.addressable(kv.n_ctx),
            kv.well_formed(),
            kv.k@.len() == hp.n_layer,
        ensures
            g.well_formed(),
            g == (LlamaGraph { hp, backend, kv }),
    {
        LlamaGraph { hp, backend, kv }
    }

    /// Lays out the input buffer of a pass over `tokens`, the first of which stands at `pos`.
    pub fn inputs(tokens: Vec<i32>, pos: i32) -> (r: PassInputs)
        requires
            tokens@.len() * 8 + 256 <= usize::MAX,
            tokens@.len() <= i32::MAX,
            pos + tokens@.len() <= i32::MAX,
        ensures
            r.lays_out(tokens@, pos),
    {
        let n: usize = tokens.len();
        let bytes: usize = n * 4;
        let mut positions: Vec<i32> = Vec::new();
        let mut i: usize = 0;
        while i < n
            invariant
                i <= n <= i32::MAX,
                pos + n <= i32::MAX,
                positions@ == Seq::new(i as nat, |j: int| (pos + j) as i32),
            decreases n - i,
        {
            positions.push(pos + i as i32);
            i += 1;
        }
        PassInputs { size: bytes * 2 + 256, pos_at: (bytes + 63) / 64 * 64, tokens, positions }
    }

    /// The dimensions of a pass over `n_tokens` tokens: it writes the rows from the next free one
    /// on, and attends to every row up to the last one written.
    pub open spec fn pass(&self, n_tokens: int) -> PassDims {
        PassDims {
            n_embd: self.hp.n_embd,
            n_head: self.hp.n_head,
            n_head_kv: self.hp.n_head_kv,
            head_dim: self.hp.head_width() as i64,
            n_tokens: n_tokens as i64,
            n_read: (self.kv.head + n_tokens) as i64,
            stride: self.hp.row_bytes() as usize,
            offset: (self.kv.head * self.hp.row_bytes()) as usize,
            n_rot: self.hp.n_rot,
            freq_base: self.hp.freq_base,
            eps: self.hp.rms_norm_eps,
            masked: false,
        }
    }

    /// Byte offset of the last of `n_tokens` hidden states.
    pub open spec fn last_state(&self, n_tokens: int) -> int {
        (n_tokens - 1) * self.hp.n_embd * 4
    }

    /// What keeps a pass over `n_tokens` tokens from being planned: in this order, the embedding
    /// is missing, the cache has too few rows, a weight of a layer, the output norm or the output
    /// projection is missing.
    pub open spec fn obstacle(&self, index: &TensorIndex, n_tokens: int) -> Option<GraphFault> {
        let needed = self.kv.head + n_tokens;
        let stack = weights::first_missing(index, weights::stack_weights(self.hp.n_layer as nat));
        if !index.has(Weight::TokenEmbd) {
            Some(GraphFault::Missing(Weight::TokenEmbd))
        } else if needed > self.kv.n_ctx {
            Some(GraphFault::CacheOverflow { needed: needed as i64, rows: self.kv.n_ctx })
        } else if stack is Some {
            Some(GraphFault::Missing(stack->0))
        } else if !index.has(Weight::OutputNorm) {
            Some(GraphFault::Missing(Weight::OutputNorm))
        } else if !index.has(Weight::Output) {
            Some(GraphFault::Missing(Weight::Output))
        } else {
            None
        }
    }

    /// A plan computes the logits of the last of `n_tokens` tokens, after the cache writes of
    /// every layer, and nothing that this does not need. What is read back is what is computed
    /// last.
    pub open spec fn planned(&self, n_tokens: int, plan: &GraphPlan) -> bool {
        let d = self.pass(n_tokens);
        let n = self.hp.n_layer as nat;
        let logits = expr::last_logits(d, n, Weight::Output, self.last_state(n_tokens) as usize);
        &&& plan.well_formed()
        &&& plan.output < plan.ops@.len()
        &&& plan.exprs()[plan.output as int] == logits
        &&& plan.scheduled() == expr::cache_writes(d, n).push(logits)
        &&& plan.complete()
        &&& plan.asks((Needs { layers: n, head: Weight::Output, masked: false }))
    }

    /// Plans a pass over `n_tokens` tokens.
    pub fn plan(&self, index: &TensorIndex, n_tokens: usize) -> (r: Result<GraphPlan, GraphFault>)
        requires
            self.well_formed(),
            0 < n_tokens <= i32::MAX,
        ensures
            match r {
                Ok(plan) => {
                    &&& self.obstacle(index, n_tokens as int) is None
                    &&& self.planned(n_tokens as int, &plan)
                    &&& plan.served_by(index)
                },
                Err(fault) => self.obstacle(index, n_tokens as int) == Some(fault),
            },
    {
        if !index.has_weight(Weight::TokenEmbd) {
            return Err(GraphFault::Missing(Weight::TokenEmbd));
        }
        let count: i64 = n_tokens as i64;
        let needed: i64 = self.kv.head + count;
        if needed > self.kv.n_ctx {
            return Err(GraphFault::CacheOverflow { needed, rows: self.kv.n_ctx });
        }
        let layers: usize = self.hp.n_layer as usize;
        match weights::missing_in_stack(index, layers) {
            Some(w) => {
                return Err(GraphFault::Missing(w));
            },
            None => {},
        }
        if !index.has_weight(Weight::OutputNorm) {
            return Err(GraphFault::Missing(Weight::OutputNorm));
        }
        if !index.has_weight(Weight::Output) {
            return Err(GraphFault::Missing(Weight::Output));
        }
        let head_dim: i64 = self.hp.head_dim();
        let ghost row = self.hp.row_bytes();
        proof {
            arith::lemma_product(
                self.hp.n_head_kv as int,
                u32::MAX as int,
                head_dim as int,
                u32::MAX as int,
            );
            arith::lemma_product(self.kv.head as int, self.kv.n_ctx as int, row, row);
            arith::lemma_product(
                count - 1,
                self.kv.n_ctx as int,
                self.hp.n_embd as int,
                self.hp.n_embd as int,
            );
            assert(self.kv.n_ctx * row == row * self.kv.n_ctx) by (nonlinear_arith);
        }
        let stride: usize = (self.hp.n_head_kv * head_dim * 4) as usize;
        let d = PassDims {
            n_embd: self.hp.n_embd,
            n_head: self.hp.n_head,
            n_head_kv: self.hp.n_head_kv,
            head_dim,
            n_tokens: count,
            n_read: needed,
            stride,
            offset: self.kv.head as usize * stride,
            n_rot: self.hp.n_rot,
            freq_base: self.hp.freq_base,
            eps: self.hp.rms_norm_eps,
            masked: false,
        };
        assert(d == self.pass(n_tokens as int));
        let last: usize = ((count - 1) * self.hp.n_embd * 4) as usize;
        let plan = GraphPlan::last_logits(&d, layers, Weight::Output, last);
        proof {
            plan::full_files_serve_every_plan(
                plan,
                Needs { layers: layers as nat, head: Weight::Output, masked: false },
                index,
            );
        }
        Ok(plan)
    }

    /// What follows on the answer to a request: zero for a success, another number for a failure.
    pub open spec fn answer(
        &self,
        index: &TensorIndex,
        n_tokens: int,
        stage: Stage,
        status: i32,
        r: Result<Next, GraphFault>,
    ) -> bool {
        match stage {
            Stage::InputBuffer => if status != 0 {
                r == Err::<Next, GraphFault>(GraphFault::InputBuffer)
            } else {
                r == Ok::<Next, GraphFault>(Next::InputContext)
            },
            Stage::InputContext => if status != 0 {
                r == Err::<Next, GraphFault>(GraphFault::InputContext)
            } else {
                r == Ok::<Next, GraphFault>(Next::GraphContext)
            },
            Stage::GraphContext => if status != 0 {
                r == Err::<Next, GraphFault>(GraphFault::GraphContext)
            } else {
                match self.obstacle(index, n_tokens) {
                    Some(fault) => r == Err::<Next, GraphFault>(fault),
                    None => r matches Ok(Next::Build(plan)) && self.planned(n_tokens, &plan)
                        && plan.served_by(index),
                }
            },
            Stage::Allocator => if status != 0 {
                r == Err::<Next, GraphFault>(GraphFault::Allocator)
            } else {
                r == Ok::<Next, GraphFault>(Next::Allocate)
            },
            Stage::Allocation => if status != 0 {
                r == Err::<Next, GraphFault>(GraphFault::Allocation)
            } else {
                r == Ok::<Next, GraphFault>(Next::Compute)
            },
            Stage::Compute => if status != 0 {
                r == Err::<Next, GraphFault>(GraphFault::Compute(status))
            } else {
                r == Ok::<Next, GraphFault>(Next::Read(self.hp.n_vocab as usize))
            },
        }
    }

    /// Number of cache rows in use after a pass over `n_tokens` tokens.
    pub open spec fn head_after(&self, n_tokens: int) -> int {
        if self.kv.head + n_tokens <= self.kv.n_ctx {
            self.kv.head + n_tokens
        } else {
            self.kv.n_ctx as int
        }
    }

    /// Goes on with a pass over `n_tokens` tokens after the answer to a request. The cache rows
    /// come into use when the computation has succeeded, and at no other time.
    pub fn forward(
        &mut self,
        index: &TensorIndex,
        n_tokens: usize,
        stage: Stage,
        status: i32,
    ) -> (r: Result<Next, GraphFault>)
        requires
            old(self).well_formed(),
            0 < n_tokens <= i32::MAX,
        ensures
            old(self).answer(index, n_tokens as int, stage, status, r),
            final(self).well_formed(),
            final(self).hp == old(self).hp,
            final(self).backend == old(self).backend,
            final(self).kv == (if stage == Stage::Compute && status == 0 {
                KVCache { head: old(self).head_after(n_tokens as int) as i64, ..old(self).kv }
            } else {
                old(self).kv
            }),
    {
        match stage {
            Stage::InputBuffer => if status != 0 {
                Err(GraphFault::InputBuffer)
            } else {
                Ok(Next::InputContext)
            },
            Stage::InputContext => if status != 0 {
                Err(GraphFault::InputContext)
            } else {
                Ok(Next::GraphContext)
            },
            Stage::GraphContext => if status != 0 {
                Err(GraphFault::GraphContext)
            } else {
                match self.plan(index, n_tokens) {
                    Ok(plan) => Ok(Next::Build(plan)),
                    Err(fault) => Err(fault),
                }
            },
            Stage::Allocator => if status != 0 {
                Err(GraphFault::Allocator)
            } else {
                Ok(Next::Allocate)
            },
            Stage::Allocation => if status != 0 {
                Err(GraphFault::Allocation)
            } else {
                Ok(Next::Compute)
            },
            Stage::Compute => if status != 0 {
                Err(GraphFault::Compute(status))
            } else {
                let used: i64 = self.kv.head + n_tokens as i64;
                self.kv.head =
                if used <= self.kv.n_ctx {
                    used
                } else {
                    self.kv.n_ctx
                };
                Ok(Next::Read(self.hp.n_vocab as usize))
            },
        }
    }

    /// The inputs of a pass over a whole prompt, which stands at the start of the context.
    pub fn prefill(&self, token_ids: &Vec<u32>) -> (r: Result<PassInputs, ForwardError>)
        requires
            token_ids@.len() * 8 + 256 <= usize::MAX,
            token_ids@.len() <= i32::MAX,
        ensures
            match r {
                Ok(inputs) => token_ids@.len() > 0 && inputs.lays_out(
                    Seq::new(token_ids@.len(), |i: int| token_ids@[i] as i32),
                    0,
                ),
                Err(e) => token_ids@.len() == 0 && (e matches ForwardError::AllocationFailed(msg)
                    && msg@ == "empty token sequence"@),
            },
    {
        if token_ids.len() == 0 {
            return Err(ForwardError::AllocationFailed("empty token sequence".to_owned()));
        }
        let mut tokens: Vec<i32> = Vec::new();
        let mut i: usize = 0;
        while i < token_ids.len()
            invariant
                i <= token_ids@.len(),
                tokens@ == Seq::new(i as nat, |j: int| token_ids@[j] as i32),
            decreases token_ids@.len() - i,
        {
            tokens.push(
                #[verifier::truncate]
                (token_ids[i] as i32),
            );
            i += 1;
        }
        Ok(LlamaGraph::inputs(tokens, 0))
    }

    /// The inputs of a pass over one token, which stands at the next free row.
    pub fn decode_one(&self, token_id: u32) -> (r: PassInputs)
        requires
            self.well_formed(),
            self.kv.head < i32::MAX,
        ensures
            r.lays_out(seq![token_id as i32], self.kv.head as i32),
    {
        let mut tokens: Vec<i32> = Vec::new();
        tokens.push(
            #[verifier::truncate]
            (token_id as i32),
        );
        assert(tokens@ =~= seq![token_id as i32]);
        LlamaGraph::inputs(tokens, self.kv.head as i32)
    }

    /// Forgets every cached position.
    pub fn reset_kv(&mut self)
        requires
            old(self).well_formed(),
        ensures
            final(self).well_formed(),
            *final(self) == (LlamaGraph {
                kv: KVCache { head: 0, ..old(self).kv },
                ..*old(self)
            }),
    {
        self.kv.clear();
    }
}

/// A pass that finds enough cache rows runs over the model: every operation accepts its operands,
/// every cache write stays within the cache, and the result is one column of logits.
pub proof fn passes_are_well_shaped(g: LlamaGraph, m: ModelDims)
    requires
        g.well_formed(),
        m.consistent(),
        m.n_embd == g.hp.n_embd,
        m.n_head == g.hp.n_head,
        m.n_head_kv == g.hp.n_head_kv,
        m.head_dim == g.hp.head_width(),
        m.n_ctx == g.kv.n_ctx,
        g.kv.head + m.n_tokens <= g.kv.n_ctx,
    ensures
        ({
            let d = g.pass(m.n_tokens);
            let n = g.hp.n_layer as nat;
            let last = g.last_state(m.n_tokens) as usize;
            &&& shapes::shape(m, expr::last_logits(d, n, Weight::Output, last)) == Some(
                shapes::dense(m.n_vocab, 1, 1),
            )
            &&& forall|i: int|
                0 <= i < expr::cache_writes(d, n).len() ==> shapes::shape(
                    m,
                    #[trigger] expr::cache_writes(d, n)[i],
                ) is Some
        }),
{
    let d = g.pass(m.n_tokens);
    let n = g.hp.n_layer as nat;
    let row = g.hp.row_bytes();
    let head = g.kv.head as int;
    let n_ctx = g.kv.n_ctx as int;
    arith::lemma_product(m.n_head_kv, m.n_head_kv, m.head_dim, m.head_dim);
    arith::lemma_product(head, n_ctx, row, row);
    arith::lemma_product(m.n_tokens - 1, n_ctx, m.n_embd, m.n_embd);
    assert(n_ctx * row == row * n_ctx) by (nonlinear_arith);
    assert(head * row + m.n_tokens * row <= n_ctx * row) by (nonlinear_arith)
        requires
            head + m.n_tokens <= n_ctx,
            row >= 0,
    ;
    assert(m.runs(d));
    shapes::logits_of_the_last_token(
        m,
        d,
        n,
        Weight::Output,
        g.last_state(m.n_tokens) as usize,
    );
    shapes::cache_writes_fit(m, d, n);
}

/// Every operation of a plan of a pass accepts its operands, over a model with the usual weight
/// shapes.
pub proof fn plans_are_well_shaped(g: LlamaGraph, m: ModelDims, plan: GraphPlan, i: int)
    requires
        g.well_formed(),
        g.planned(m.n_tokens, &plan),
        m.consistent(),
        m.n_embd == g.hp.n_embd,
        m.n_head == g.hp.n_head,
        m.n_head_kv == g.hp.n_head_kv,
        m.head_dim == g.hp.head_width(),
        m.n_ctx == g.kv.n_ctx,
        g.kv.head + m.n_tokens <= g.kv.n_ctx,
        0 <= i < plan.ops@.len(),
    ensures
        shapes::shape(m, plan.exprs()[i]) is Some,
{
    passes_are_well_shaped(g, m);
    let t = plan::operations_take_part(plan, i);
    let writes = expr::cache_writes(g.pass(m.n_tokens), g.hp.n_layer as nat);
    if t < writes.len() {
        assert(plan.scheduled()[t] == writes[t]);
    }
    shapes::parts_are_well_shaped(m, plan.exprs()[i], plan.scheduled()[t]);
}

/// A pass that follows on a successful one writes the rows right after it, and reads all the rows
/// that the first one read besides its own.
pub proof fn passes_write_consecutive_rows(
    before: LlamaGraph,
    after: LlamaGraph,
    n: int,
    n_next: int,
)
    requires
        before.well_formed(),
        after.well_formed(),
        0 < n,
        0 < n_next,
        before.kv.head + n <= before.kv.n_ctx,
        after.hp == before.hp,
        after.kv == (KVCache { head: before.head_after(n) as i64, ..before.kv }),
        after.kv.head + n_next <= after.kv.n_ctx,
    ensures
        after.pass(n_next).offset == before.pass(n).offset + n * before.pass(n).stride,
        after.pass(n_next).n_read == before.pass(n).n_read + n_next,
{
    let row = before.hp.row_bytes();
    let n_ctx = before.kv.n_ctx as int;
    let width = before.hp.head_width();
    arith::lemma_product(before.hp.n_head_kv as int, u32::MAX as int, width, width);
    arith::lemma_product(before.kv.head as int, n_ctx, row, row);
    arith::lemma_product(after.kv.head as int, n_ctx, row, row);
    assert(n_ctx * row == row * n_ctx) by (nonlinear_arith);
    assert((before.kv.head + n) * row == before.kv.head * row + n * row) by (nonlinear_arith);
}

/// Each hyper-parameter is the number that the file holds under its key: the vocabulary under a
/// fixed key, the others under keys of the architecture. What the file does not name is zero.
pub proof fn hyper_parameters_are_those_of_the_file(
    hp: LlamaHparams,
    header: ModelHeader,
    x: gguf::GgufValue,
    v: u32,
)
    requires
        hp.read_from(&header),
        x == gguf::GgufValue::U32(v) || x == gguf::GgufValue::Int(Some(v)),
    ensures
        header.metadata.lookup("llama.vocab_size"@) == Some(x) ==> hp.n_vocab == v,
        header.metadata.lookup("llama.vocab_size"@) is None ==> hp.n_vocab == 0,
        header.metadata.lookup(header.arch() + "."@ + "embedding_length"@) == Some(x) ==> hp.n_embd == v,
        header.metadata.lookup(header.arch() + "."@ + "embedding_length"@) is None ==> hp.n_embd == 0,
        header.metadata.lookup(header.arch() + "."@ + "attention.head_count"@) == Some(x) ==> hp.n_head == v,
        header.metadata.lookup(header.arch() + "."@ + "attention.head_count"@) is None ==> hp.n_head == 0,
        header.metadata.lookup(header.arch() + "."@ + "attention.head_count_kv"@) == Some(x) ==> hp.n_head_kv == v,
        header.metadata.lookup(header.arch() + "."@ + "attention.head_count_kv"@) is None ==> hp.n_head_kv == 0,
        header.metadata.lookup(header.arch() + "."@ + "block_count"@) == Some(x) ==> hp.n_layer == v,
        header.metadata.lookup(header.arch() + "."@ + "block_count"@) is None ==> hp.n_layer == 0,
        header.metadata.lookup(header.arch() + "."@ + "feed_forward_length"@) == Some(x) ==> hp.n_ff == v,
        header.metadata.lookup(header.arch() + "."@ + "feed_forward_length"@) is None ==> hp.n_ff == 0,
        header.metadata.lookup(header.arch() + "."@ + "rope.dimension_count"@) == Some(x) ==> hp.n_rot == v,
        header.metadata.lookup(header.arch() + "."@ + "rope.dimension_count"@) is None ==> hp.n_rot == 0,
{
    let m = header.metadata;
    gguf::integers_are_read_back(m, "llama.vocab_size"@, v);
}

/// The rotary base and the epsilon are the floats that the file holds, or 500000 and 0.00001.
pub proof fn floats_are_those_of_the_file(hp: LlamaHparams, header: ModelHeader, b: u32)
    requires
        hp.read_from(&header),
    ensures
        header.metadata.lookup(header.arch() + "."@ + "rope.freq_base"@) == Some(
            gguf::GgufValue::F32(b),
        ) ==> hp.freq_base == b,
        header.metadata.lookup(header.arch() + "."@ + "rope.freq_base"@) is None ==> hp.freq_base
            == 0x48F42400,
        header.metadata.lookup(header.arch() + "."@ + "attention.layer_norm_rms_epsilon"@) == Some(
            gguf::GgufValue::F32(b),
        ) ==> hp.rms_norm_eps == b,
        header.metadata.lookup(header.arch() + "."@ + "attention.layer_norm_rms_epsilon"@) is None
            ==> hp.rms_norm_eps == 0x3727C5AC,
{
}

/// A head has as many elements as the heads have on average, rounded down, and a cache row holds
/// one head of four-byte elements for each key/value head.
pub proof fn heads_share_the_state(hp: LlamaHparams)
    requires
        0 <= hp.n_embd,
        0 < hp.n_head,
    ensures
        hp.head_width() * hp.n_head <= hp.n_embd < (hp.head_width() + 1) * hp.n_head,
        hp.row_bytes() == hp.n_head_kv * hp.head_width() * 4,
{
    let n = hp.n_embd as int;
    let h = hp.n_head as int;
    vstd::arithmetic::div_mod::lemma_fundamental_div_mod(n, h);
    let q = n / h;
    assert(q * h <= n < (q + 1) * h) by (nonlinear_arith)
        requires
            n == h * q + n % h,
            0 <= n % h < h,
    ;
}

/// A pass has the sizes of the model. It writes its tokens to the rows from the head on, and reads
/// all rows up to its last token's, without a mask.
pub proof fn passes_have_the_sizes_of_the_model(g: LlamaGraph, n: int)
    requires
        g.well_formed(),
        0 < n,
        g.kv.head + n <= g.kv.n_ctx,
    ensures
        ({
            let d = g.pass(n);
            &&& d.n_embd == g.hp.n_embd
            &&& d.n_head == g.hp.n_head
            &&& d.n_head_kv == g.hp.n_head_kv
            &&& d.head_dim == g.hp.n_embd as int / g.hp.n_head as int
            &&& d.n_tokens == n
            &&& d.n_read == g.kv.head + n
            &&& d.stride == g.hp.n_head_kv * (g.hp.n_embd as int / g.hp.n_head as int) * 4
            &&& d.offset == g.kv.head * d.stride
            &&& d.n_rot == g.hp.n_rot
            &&& d.freq_base == g.hp.freq_base
            &&& d.eps == g.hp.rms_norm_eps
            &&& !d.masked
            &&& d.row_fits()
            &&& d.row() == g.hp.n_head_kv * (g.hp.n_embd as int / g.hp.n_head as int)
        }),
{
    let row = g.hp.row_bytes();
    let w = g.hp.head_width();
    assert(0 <= w <= g.hp.n_embd) by (nonlinear_arith)
        requires
            w == g.hp.n_embd as int / g.hp.n_head as int,
            0 <= g.hp.n_embd,
            0 < g.hp.n_head,
    ;
    arith::lemma_product(g.hp.n_head_kv as int, u32::MAX as int, w, u32::MAX as int);
    arith::lemma_product(g.kv.head as int, g.kv.n_ctx as int, row, row);
    assert(g.kv.n_ctx * row == row * g.kv.n_ctx) by (nonlinear_arith);
}

/// A plan of a pass writes the caches of every layer and then computes the logits of the last
/// token by `output.weight`, and these are read back.
pub proof fn plans_read_the_last_logits(g: LlamaGraph, n: int, plan: GraphPlan)
    requires
        g.well_formed(),
        0 < n,
        g.kv.head + n <= g.kv.n_ctx,
        g.planned(n, &plan),
    ensures
        ({
            let d = g.pass(n);
            let layers = g.hp.n_layer as nat;
            let logits = expr::last_logits(
                d,
                layers,
                Weight::Output,
                ((n - 1) * g.hp.n_embd * 4) as usize,
            );
            &&& plan.schedule@.len() == 2 * layers + 1
            &&& plan.schedule@.last() == plan.output
            &&& plan.exprs()[plan.output as int] == logits
            &&& plan.scheduled() == expr::cache_writes(d, layers).push(logits)
            &&& (n - 1) * g.hp.n_embd * 4 <= usize::MAX
        }),
{
    arith::lemma_product(n - 1, g.kv.n_ctx as int, g.hp.n_embd as int, g.hp.n_embd as int);
    lemma_writes(g.pass(n), g.hp.n_layer as nat);
    assert(plan.scheduled().len() == plan.schedule@.len());
}

proof fn lemma_writes(d: PassDims, n: nat)
    ensures
        expr::cache_writes(d, n).len() == 2 * n,
    decreases n,
{
    if n > 0 {
        lemma_writes(d, (n - 1) as nat);
    }
}

/// The inputs of a pass: its tokens, and the positions from the first one's on.
pub proof fn inputs_are_tokens_and_places(inputs: PassInputs, tokens: Seq<i32>, pos: i32)
    requires
        inputs.lays_out(tokens, pos),
        pos + tokens.len() <= i32::MAX,
    ensures
        inputs.tokens@ == tokens,
        inputs.positions@.len() == tokens.len(),
        forall|i: int| 0 <= i < tokens.len() ==> #[trigger] inputs.positions@[i] == pos + i,
        inputs.size == 8 * tokens.len() + 256,
        4 * tokens.len() <= inputs.pos_at < 4 * tokens.len() + 64,
        inputs.pos_at % 64 == 0,
{
}

/// A pass is planned where its tokens find rows in the cache and the file holds every weight; else
/// the first thing that is amiss is told.
pub proof fn passes_are_planned_where_nothing_is_amiss(
    g: LlamaGraph,
    index: TensorIndex,
    n: int,
)
    requires
        0 < n,
        g.kv.head + n <= i64::MAX,
    ensures
        ({
            let stack = weights::first_missing(
                &index,
                weights::stack_weights(g.hp.n_layer as nat),
            );
            let o = g.obstacle(&index, n);
            &&& o is None <==> {
                &&& index.has(Weight::TokenEmbd)
                &&& index.has(Weight::OutputNorm)
                &&& index.has(Weight::Output)
                &&& stack is None
                &&& g.kv.head + n <= g.kv.n_ctx
            }
            &&& !index.has(Weight::TokenEmbd) ==> o == Some(GraphFault::Missing(Weight::TokenEmbd))
            &&& index.has(Weight::TokenEmbd) && g.kv.head + n > g.kv.n_ctx ==> o == Some(
                GraphFault::CacheOverflow { needed: (g.kv.head + n) as i64, rows: g.kv.n_ctx },
            )
            &&& o matches Some(GraphFault::Missing(w)) ==> !index.has(w)
        }),
{
    weights::first_missing_is_first(&index, weights::stack_weights(g.hp.n_layer as nat));
}

/// What is asked next after each answer, and what a failure is called. The logits that are read
/// are as many as the vocabulary has tokens.
pub proof fn answers_lead_on(
    g: LlamaGraph,
    index: TensorIndex,
    n: int,
    stage: Stage,
    status: i32,
    r: Result<Next, GraphFault>,
)
    requires
        g.answer(&index, n, stage, status, r),
    ensures
        status != 0 ==> r is Err,
        stage == Stage::InputBuffer ==> (if status == 0 {
            r == Ok::<Next, GraphFault>(Next::InputContext)
        } else {
            r == Err::<Next, GraphFault>(GraphFault::InputBuffer)
        }),
        stage == Stage::InputContext ==> (if status == 0 {
            r == Ok::<Next, GraphFault>(Next::GraphContext)
        } else {
            r == Err::<Next, GraphFault>(GraphFault::InputContext)
        }),
        stage == Stage::GraphContext && status != 0 ==> r == Err::<Next, GraphFault>(
            GraphFault::GraphContext,
        ),
        stage == Stage::GraphContext && status == 0 ==> match r {
            Ok(next) => g.obstacle(&index, n) is None && next is Build && g.planned(
                n,
                &next->Build_0,
            ),
            Err(e) => g.obstacle(&index, n) == Some(e),
        },
        stage == Stage::Allocator ==> (if status == 0 {
            r == Ok::<Next, GraphFault>(Next::Allocate)
        } else {
            r == Err::<Next, GraphFault>(GraphFault::Allocator)
        }),
        stage == Stage::Allocation ==> (if status == 0 {
            r == Ok::<Next, GraphFault>(Next::Compute)
        } else {
            r == Err::<Next, GraphFault>(GraphFault::Allocation)
        }),
        stage == Stage::Compute ==> (if status == 0 {
            r == Ok::<Next, GraphFault>(Next::Read(g.hp.n_vocab as usize))
        } else {
            r == Err::<Next, GraphFault>(GraphFault::Compute(status))
        }),
{
}

/// A pass moves the head on by its tokens, and never past the end of the cache.
pub proof fn heads_move_by_the_tokens(g: LlamaGraph, n: int)
    ensures
        g.kv.head + n <= g.kv.n_ctx ==> g.head_after(n) == g.kv.head + n,
        g.kv.head + n > g.kv.n_ctx ==> g.head_after(n) == g.kv.n_ctx,
{
}

/// What a pass gives back, in order: what it acquired last goes first.
pub proof fn releases_go_backwards(w: Weight, a: i64, b: i64, status: i32)
    ensures
        given_back(GraphFault::BackendInit).len() == 0,
        given_back(GraphFault::InputBuffer).len() == 0,
        given_back(GraphFault::Missing(w)).len() == 0,
        given_back(GraphFault::InputContext) == seq![Resource::InputBuffer],
        given_back(GraphFault::GraphContext) == seq![
            Resource::InputContext,
            Resource::InputBuffer,
        ],
        given_back(GraphFault::CacheOverflow { needed: a, rows: b }) == seq![
            Resource::GraphContext,
            Resource::InputContext,
            Resource::InputBuffer,
        ],
        given_back(GraphFault::Allocator) == seq![
            Resource::GraphContext,
            Resource::InputContext,
            Resource::InputBuffer,
        ],
        given_back(GraphFault::Allocation) == seq![
            Resource::Allocator,
            Resource::GraphContext,
            Resource::InputContext,
            Resource::InputBuffer,
        ],
        given_back(GraphFault::Compute(status)) == given_back(GraphFault::Allocation),
        whole_pass() == given_back(GraphFault::Allocation),
{
}

/// The parameters are addressable where every size that a pass computes with is a machine integer.
pub proof fn addressable_sizes_are_machine_integers(hp: LlamaHparams, n_ctx: i64)
    ensures
        ({
            let row = hp.n_head_kv * (hp.n_embd as int / hp.n_head as int) * 4;
            hp.addressable(n_ctx) <==> {
                &&& hp.n_head != 0
                &&& 0 <= n_ctx <= 0x7FFFFFFF
                &&& row <= usize::MAX && row <= i64::MAX
                &&& row * n_ctx <= usize::MAX && row * n_ctx <= i64::MAX
                &&& row * n_ctx * hp.n_layer * 2 + 4194304 <= usize::MAX
                &&& n_ctx * hp.n_embd * 4 <= usize::MAX && n_ctx * hp.n_embd * 4 <= i64::MAX
                &&& hp.n_vocab * 4 <= usize::MAX
            }
        }),
        hp.well_formed() <==> {
            &&& 0 <= hp.n_vocab <= 0xFFFFFFFF
            &&& 0 <= hp.n_embd <= 0xFFFFFFFF
            &&& 0 <= hp.n_head <= 0xFFFFFFFF
            &&& 0 <= hp.n_head_kv <= 0xFFFFFFFF
            &&& 0 <= hp.n_layer <= 0xFFFFFFFF
            &&& 0 <= hp.n_ff <= 0xFFFFFFFF
            &&& 0 <= hp.n_rot <= 0xFFFFFFFF
        },
        GRAPH_N_CTX == 512,
{
}

/// What is missing is told in the order in which a pass needs it.
pub proof fn missing_weights_are_told_in_order(g: LlamaGraph, index: TensorIndex, n: int)
    requires
        g.kv.head + n <= g.kv.n_ctx,
        index.has(Weight::TokenEmbd),
    ensures
        ({
            let stack = weights::first_missing(
                &index,
                weights::stack_weights(g.hp.n_layer as nat),
            );
            let o = g.obstacle(&index, n);
            &&& stack is Some ==> o == Some(GraphFault::Missing(stack->0))
            &&& stack is None && !index.has(Weight::OutputNorm) ==> o == Some(
                GraphFault::Missing(Weight::OutputNorm),
            )
            &&& stack is None && index.has(Weight::OutputNorm) && !index.has(Weight::Output) ==> o
                == Some(GraphFault::Missing(Weight::Output))
        }),
{
}

/// An engine is in order where its parameters are, where the rows in use are rows of the cache, and
/// where each layer has a tensor of keys and one of values.
pub proof fn engines_have_a_cache_for_each_layer(g: LlamaGraph)
    ensures
        g.well_formed() <==> {
            &&& g.hp.well_formed()
            &&& g.hp.addressable(g.kv.n_ctx)
            &&& 0 <= g.kv.head <= g.kv.n_ctx
            &&& g.kv.k@.len() == g.hp.n_layer
            &&& g.kv.v@.len() == g.hp.n_layer
        },
        ARENA_SLACK == 4194304,
{
}

/// The errors and faults in words.
pub proof fn faults_are_told_in_these_words(
    a: usize,
    b: usize,
    s: String,
    x: i32,
    w: Weight,
    needed: i64,
    rows: i64,
)
    ensures
        (ForwardError::ShapeMismatch { expected: a, got: b }).words() == "shape mismatch: expected "@
            + text::decimal(a as nat) + ", got "@ + text::decimal(b as nat),
        ForwardError::MissingTensor(s).words() == "missing tensor: "@ + s@,
        ForwardError::ComputeFailed(x).words() == "compute failed with status "@
            + text::signed_decimal(x as int),
        ForwardError::AllocationFailed(s).words() == "allocation failed: "@ + s@,
        GraphFault::BackendInit.words() == "[Z.1 Graph] ggml_backend_cpu_init failed"@,
        GraphFault::InputBuffer.words() == "[Z.1 Graph] ggml_backend_alloc_buffer failed"@,
        GraphFault::InputContext.words() == "[Z.1 Graph] ggml_init for inp_ctx failed"@,
        GraphFault::GraphContext.words() == "[Z.1 Graph] ggml_init for graph ctx failed"@,
        GraphFault::Missing(w).words() == w.label() + " not found"@,
        (GraphFault::CacheOverflow { needed, rows }).words() == "[Z.1 Graph] KV cache overflow: "@
            + text::signed_decimal(needed as int) + " > "@ + text::signed_decimal(rows as int),
        GraphFault::Allocator.words() == "[Z.1 Graph] ggml_gallocr_new failed"@,
        GraphFault::Allocation.words() == "[Z.1 Graph] ggml_gallocr_alloc_graph failed"@,
        GraphFault::Compute(x).words() == "[Z.1 Graph] compute failed status="@
            + text::signed_decimal(x as int),
{
}

/// A value of another type than the wanted one counts as if there were none.
pub proof fn values_of_other_types_do_not_count(
    hp: LlamaHparams,
    header: ModelHeader,
    x: gguf::GgufValue,
    whole: bool,
)
    requires
        hp.read_from(&header),
        whole <==> x is U32 || (x is Int && x->Int_0 is Some),
    ensures
        header.metadata.lookup("llama.vocab_size"@) == Some(x) && !whole ==> hp.n_vocab == 0,
        header.metadata.lookup(header.arch() + "."@ + "embedding_length"@) == Some(x) && !whole ==> hp.n_embd == 0,
        header.metadata.lookup(header.arch() + "."@ + "attention.head_count"@) == Some(x) && !whole ==> hp.n_head == 0,
        header.metadata.lookup(header.arch() + "."@ + "attention.head_count_kv"@) == Some(x) && !whole ==> hp.n_head_kv == 0,
        header.metadata.lookup(header.arch() + "."@ + "block_count"@) == Some(x) && !whole ==> hp.n_layer == 0,
        header.metadata.lookup(header.arch() + "."@ + "feed_forward_length"@) == Some(x) && !whole ==> hp.n_ff == 0,
        header.metadata.lookup(header.arch() + "."@ + "rope.dimension_count"@) == Some(x) && !whole ==> hp.n_rot == 0,
        header.metadata.lookup(header.arch() + "."@ + "rope.freq_base"@) == Some(x) && !(x is F32)
            ==> hp.freq_base == 0x48F42400,
        header.metadata.lookup(header.arch() + "."@ + "attention.layer_norm_rms_epsilon"@) == Some(x)
            && !(x is F32) ==> hp.rms_norm_eps == 0x3727C5AC,
{
}

} // verus!
