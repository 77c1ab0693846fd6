use z1::gguf::{GgufValue, Metadata, ModelHeader};
use z1::graph::{
    ForwardError, GraphFault, KVCache, LlamaGraph, LlamaHparams, Next, Resource, Stage, GRAPH_N_CTX,
};
use z1::plan::Op;
use z1::weights::{LayerWeight, TensorIndex, Weight};

fn header() -> ModelHeader {
    let mut m = Metadata::new();
    for (k, v) in [
        ("llama.vocab_size", 100u32),
        ("llama.embedding_length", 8),
        ("llama.attention.head_count", 4),
        ("llama.attention.head_count_kv", 2),
        ("llama.block_count", 2),
        ("llama.feed_forward_length", 16),
        ("llama.rope.dimension_count", 2),
    ] {
        m.insert(k.to_string(), GgufValue::U32(v));
    }
    ModelHeader { architecture: None, metadata: m }
}

fn index() -> TensorIndex {
    let mut names = vec![Weight::TokenEmbd.name(), Weight::OutputNorm.name(), Weight::Output.name()];
    for layer in 0..2 {
        for w in [
            LayerWeight::AttnNorm,
            LayerWeight::AttnQ,
            LayerWeight::AttnK,
            LayerWeight::AttnV,
            LayerWeight::AttnOutput,
            LayerWeight::FfnNorm,
            LayerWeight::FfnGate,
            LayerWeight::FfnUp,
            LayerWeight::FfnDown,
        ] {
            names.push(Weight::Layer(layer, w).name());
        }
    }
    TensorIndex { names }
}

fn without(name: &str) -> TensorIndex {
    let mut i = index();
    i.names.retain(|n| n != name);
    i
}

fn graph() -> LlamaGraph {
    let hp = LlamaHparams::from_model(&header());
    assert!(hp.fits(GRAPH_N_CTX));
    LlamaGraph::new(hp, 0x77, KVCache::new(0x88, vec![1, 2], vec![3, 4], GRAPH_N_CTX))
}

#[test]
fn parameters_come_from_the_metadata() {
    let hp = LlamaHparams::from_model(&header());
    assert_eq!(
        (hp.n_vocab, hp.n_embd, hp.n_head, hp.n_head_kv, hp.n_layer, hp.n_ff, hp.n_rot),
        (100, 8, 4, 2, 2, 16, 2)
    );
    assert_eq!(f32::from_bits(hp.freq_base), 500000.0);
    assert_eq!(f32::from_bits(hp.rms_norm_eps), 1e-5);
    assert_eq!(hp.head_dim(), 2);
}

#[test]
fn the_vocabulary_has_a_fixed_key() {
    let mut h = header();
    h.architecture = Some("other".to_string());
    h.metadata.insert("other.embedding_length".to_string(), GgufValue::U32(32));
    h.metadata.insert("other.rope.freq_base".to_string(), GgufValue::F32(7.0f32.to_bits()));
    h.metadata.insert(
        "other.attention.layer_norm_rms_epsilon".to_string(),
        GgufValue::F32(0.5f32.to_bits()),
    );
    let hp = LlamaHparams::from_model(&h);
    assert_eq!((hp.n_vocab, hp.n_embd, hp.n_head), (100, 32, 0));
    assert_eq!(f32::from_bits(hp.freq_base), 7.0);
    assert_eq!(f32::from_bits(hp.rms_norm_eps), 0.5);
    assert!(!hp.fits(GRAPH_N_CTX));
}

#[test]
fn oversized_models_do_not_fit() {
    let mut hp = LlamaHparams::from_model(&header());
    assert!(hp.fits(0) && hp.fits(512));
    assert!(!hp.fits(-1));
    hp.n_embd = 1 << 31;
    hp.n_head = 1;
    hp.n_head_kv = 1 << 31;
    assert!(!hp.fits(512));
    hp.n_head_kv = -1;
    assert!(!hp.fits(512));
}

#[test]
fn the_cache_arena() {
    let l = KVCache::layout(2, 2, 2, 512);
    assert_eq!(l.mem_size, 2 * 2 * 512 * 4 * 2 * 2 + 4 * 1024 * 1024);
    assert_eq!((l.layers, l.width, l.rows), (2, 4, 512));
    let hp = LlamaHparams::from_model(&header());
    match LlamaGraph::open(&hp, 0x77) {
        Ok(same) => assert_eq!((same.mem_size, same.layers, same.width, same.rows), (l.mem_size, 2, 4, 512)),
        Err(_) => panic!("refused"),
    }
    match LlamaGraph::open(&hp, 0) {
        Err(e) => assert_eq!(e.message(), "[Z.1 Graph] ggml_backend_cpu_init failed"),
        Ok(_) => panic!("opened"),
    }
}

#[test]
fn clearing_the_cache_keeps_its_tensors() {
    let mut kv = KVCache::new(9, vec![1, 2], vec![3, 4], 512);
    kv.head = 17;
    kv.clear();
    assert_eq!((kv.head, kv.n_ctx, kv.ctx), (0, 512, 9));
    assert_eq!((kv.k, kv.v), (vec![1, 2], vec![3, 4]));
    let mut g = graph();
    g.kv.head = 5;
    g.reset_kv();
    assert_eq!(g.kv.head, 0);
}

#[test]
fn inputs_are_aligned() {
    let i = LlamaGraph::inputs(vec![5, 6, 7], 10);
    assert_eq!((i.size, i.pos_at), (3 * 8 + 256, 64));
    assert_eq!((i.tokens, i.positions), (vec![5, 6, 7], vec![10, 11, 12]));
    let i = LlamaGraph::inputs(vec![0; 16], 0);
    assert_eq!((i.size, i.pos_at), (16 * 8 + 256, 64));
    let i = LlamaGraph::inputs(vec![0; 17], 0);
    assert_eq!(i.pos_at, 128);
    assert!(i.pos_at + 17 * 4 <= i.size);
}

#[test]
fn a_prompt_stands_at_the_start() {
    let g = graph();
    match g.prefill(&vec![1, u32::MAX]) {
        Ok(i) => assert_eq!((i.tokens, i.positions), (vec![1, -1], vec![0, 1])),
        Err(_) => panic!("refused"),
    }
    match g.prefill(&Vec::new()) {
        Err(e) => assert_eq!(e.message(), "allocation failed: empty token sequence"),
        Ok(_) => panic!("taken"),
    }
}

#[test]
fn a_token_stands_at_the_next_row() {
    let mut g = graph();
    g.kv.head = 41;
    let i = g.decode_one(7);
    assert_eq!((i.tokens, i.positions), (vec![7], vec![41]));
}

#[test]
fn a_pass_goes_through_its_stages() {
    let mut g = graph();
    let i = index();
    assert!(matches!(g.forward(&i, 3, Stage::InputBuffer, 0), Ok(Next::InputContext)));
    assert!(matches!(g.forward(&i, 3, Stage::InputContext, 0), Ok(Next::GraphContext)));
    assert!(matches!(g.forward(&i, 3, Stage::GraphContext, 0), Ok(Next::Build(_))));
    assert!(matches!(g.forward(&i, 3, Stage::Allocator, 0), Ok(Next::Allocate)));
    assert!(matches!(g.forward(&i, 3, Stage::Allocation, 0), Ok(Next::Compute)));
    assert_eq!(g.kv.head, 0);
    assert!(matches!(g.forward(&i, 3, Stage::Compute, 0), Ok(Next::Read(100))));
    assert_eq!(g.kv.head, 3);
    g.kv.head = 511;
    assert!(matches!(g.forward(&i, 1, Stage::Compute, 0), Ok(Next::Read(100))));
    assert_eq!(g.kv.head, 512);
}

#[test]
fn failures_leave_the_cache_alone() {
    let mut g = graph();
    let i = index();
    let cases = vec![
        (Stage::InputBuffer, "[Z.1 Graph] ggml_backend_alloc_buffer failed", vec![]),
        (
            Stage::InputContext,
            "[Z.1 Graph] ggml_init for inp_ctx failed",
            vec![Resource::InputBuffer],
        ),
        (
            Stage::GraphContext,
            "[Z.1 Graph] ggml_init for graph ctx failed",
            vec![Resource::InputContext, Resource::InputBuffer],
        ),
        (
            Stage::Allocator,
            "[Z.1 Graph] ggml_gallocr_new failed",
            vec![Resource::GraphContext, Resource::InputContext, Resource::InputBuffer],
        ),
        (
            Stage::Allocation,
            "[Z.1 Graph] ggml_gallocr_alloc_graph failed",
            vec![Resource::Allocator, Resource::GraphContext, Resource::InputContext, Resource::InputBuffer],
        ),
        (
            Stage::Compute,
            "[Z.1 Graph] compute failed status=-2",
            vec![Resource::Allocator, Resource::GraphContext, Resource::InputContext, Resource::InputBuffer],
        ),
    ];
    for (stage, words, back) in cases {
        match g.forward(&i, 3, stage, -2) {
            Err(fault) => {
                assert_eq!(fault.message(), words);
                assert_eq!(fault.releases(), back);
                assert_eq!(fault.to_error().message(), format!("allocation failed: {}", words));
            }
            Ok(_) => panic!("passed"),
        }
        assert_eq!(g.kv.head, 0);
    }
}

fn refusal(g: &LlamaGraph, i: &TensorIndex, n: usize) -> GraphFault {
    match g.plan(i, n) {
        Err(fault) => fault,
        Ok(_) => panic!("planned"),
    }
}

#[test]
fn a_full_cache_is_refused() {
    let mut g = graph();
    g.kv.head = 510;
    assert!(g.plan(&index(), 2).is_ok());
    let fault = refusal(&g, &index(), 3);
    assert_eq!(fault.message(), "[Z.1 Graph] KV cache overflow: 513 > 512");
    assert_eq!(fault.releases().len(), 3);
    // A missing embedding is noticed first, a missing layer weight after.
    assert_eq!(
        refusal(&g, &without("token_embd.weight"), 3).message(),
        "token_embd.weight not found"
    );
    assert_eq!(
        refusal(&g, &without("blk.0.attn_q.weight"), 3).message(),
        "[Z.1 Graph] KV cache overflow: 513 > 512"
    );
}

#[test]
fn missing_weights_are_named() {
    let g = graph();
    for name in ["token_embd.weight", "blk.1.ffn_up.weight", "output_norm.weight", "output.weight"] {
        let fault = refusal(&g, &without(name), 1);
        assert_eq!(fault.message(), format!("{} not found", name));
        assert!(fault.releases().is_empty());
    }
}

#[test]
fn the_plan_writes_each_cache_and_reads_the_last_state() {
    let mut g = graph();
    g.kv.head = 5;
    let plan = match g.plan(&index(), 3) {
        Ok(p) => p,
        Err(_) => panic!("refused"),
    };
    let ops = &plan.ops;
    // Keys and values of both layers, then the logits.
    assert_eq!(plan.schedule.len(), 5);
    assert_eq!(plan.schedule[4], plan.output);
    let mut written = Vec::new();
    for s in &plan.schedule[..4] {
        match ops[*s] {
            Op::Cpy(_, slot) => match ops[slot] {
                Op::View2(cache, width, rows, stride, at) => {
                    assert_eq!((width, rows, stride, at), (4, 3, 16, 5 * 16));
                    written.push(ops[cache]);
                }
                _ => panic!("not a view"),
            },
            _ => panic!("not a write"),
        }
    }
    assert_eq!(written, vec![Op::CacheK(0), Op::CacheV(0), Op::CacheK(1), Op::CacheV(1)]);
    match ops[plan.output] {
        Op::MulMat(w, view) => {
            assert_eq!(ops[w], Op::Weight(Weight::Output));
            assert!(matches!(ops[view], Op::View1(_, 8, 64)));
        }
        _ => panic!("not a product"),
    }
    let reads: Vec<&Op> = ops.iter().filter(|o| matches!(o, Op::View2(_, 4, 8, 16, 0))).collect();
    assert_eq!(reads.len(), 4);
    assert_eq!(ops.iter().filter(|o| matches!(o, Op::SoftMax(_))).count(), 2);
    assert_eq!(ops.iter().filter(|o| matches!(o, Op::SoftMaxMasked(_, _))).count(), 0);
    assert_eq!(ops.iter().filter(|o| matches!(o, Op::Rope(_, _, 2, _))).count(), 4);
    assert_eq!(ops.iter().filter(|o| matches!(o, Op::InvSqrtScale(_, 2))).count(), 2);
}

#[test]
fn forward_errors_in_words() {
    assert_eq!(
        ForwardError::ShapeMismatch { expected: 3, got: 4 }.message(),
        "shape mismatch: expected 3, got 4"
    );
    assert_eq!(ForwardError::MissingTensor("x".to_string()).message(), "missing tensor: x");
    assert_eq!(ForwardError::ComputeFailed(-7).message(), "compute failed with status -7");
    assert_eq!(
        ForwardError::AllocationFailed("y".to_string()).message(),
        "allocation failed: y"
    );
}
