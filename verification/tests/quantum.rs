use z1::gguf::{GgufValue, Metadata, ModelHeader};
use z1::plan::Op;
use z1::quantum::{
    Batch, ForwardError, ForwardPass, InitFault, ModelDNA, Next, QuantumKV, Release, Reply, Started, HIDDEN, MAX_CTX,
    VISIBLE,
};
use z1::weights::{LayerWeight, TensorIndex, Weight};

fn model(arch: &str) -> ModelHeader {
    let mut m = Metadata::new();
    for (k, v) in [
        ("vocab_size", 50u32),
        ("embedding_length", 8),
        ("attention.head_count", 4),
        ("attention.head_count_kv", 2),
        ("block_count", 1),
        ("feed_forward_length", 16),
        ("rope.dimension_count", 2),
    ] {
        m.insert(format!("{}.{}", arch, k), GgufValue::U32(v));
    }
    ModelHeader { architecture: Some(arch.to_string()), metadata: m }
}

fn tensors(tied: bool) -> TensorIndex {
    let mut names = vec![Weight::TokenEmbd.name(), Weight::OutputNorm.name()];
    if !tied {
        names.push(Weight::Output.name());
    }
    for w in [
        LayerWeight::AttnNorm,
        LayerWeight::AttnQ,
        LayerWeight::AttnK,
        LayerWeight::AttnV,
        LayerWeight::AttnOutput,
        LayerWeight::FfnNorm,
        LayerWeight::FfnGate,
        LayerWeight::FfnUp,
        LayerWeight::FfnDown,
    ] {
        names.push(Weight::Layer(0, w).name());
    }
    TensorIndex { names }
}

fn pass(n_ctx: i64) -> ForwardPass {
    let dna = ModelDNA::from_model(&model("llama"), &tensors(false));
    assert!(dna.fits(n_ctx));
    let l = match ForwardPass::open(&dna, n_ctx, 0x5) {
        Ok(l) => l,
        Err(_) => panic!("not opened"),
    };
    let kv = match QuantumKV::new(&l, 0x6, 0x7, vec![0x8], vec![0x9]) {
        Ok(kv) => kv,
        Err(_) => panic!("no cache"),
    };
    ForwardPass::new(dna, n_ctx, 0x5, kv)
}

fn started(r: Result<Started, ForwardError>) -> Started {
    match r {
        Ok(s) => s,
        Err(e) => panic!("{}", e.message()),
    }
}

fn drive(f: &mut ForwardPass, batch: Batch) {
    let i = tensors(false);
    assert!(matches!(f.advance(&i, batch, Reply::InputBuffer(0x11)), Ok(Next::InputContext)));
    assert!(matches!(f.advance(&i, batch, Reply::InputContext(0x12)), Ok(Next::Inputs)));
    let inputs = Reply::Inputs { token: 0x13, pos: 0x14, mask: 0x15 };
    assert!(matches!(f.advance(&i, batch, inputs), Ok(Next::GraphContext)));
    assert!(matches!(f.advance(&i, batch, Reply::GraphContext(0x16)), Ok(Next::Build(_))));
    let built = Reply::Built { graph: 0x17, logits: 0x18, galloc: 0x19 };
    assert!(matches!(f.advance(&i, batch, built), Ok(Next::Allocate)));
    assert!(matches!(f.advance(&i, batch, Reply::Allocated(true)), Ok(Next::Compute)));
}

#[test]
fn dna_comes_from_the_metadata() {
    let d = ModelDNA::from_model(&model("llama"), &tensors(false));
    assert_eq!(
        (d.n_vocab, d.n_embd, d.n_head, d.n_head_kv, d.n_layer, d.n_ff, d.n_rot),
        (50, 8, 4, 2, 1, 16, 2)
    );
    assert_eq!(f32::from_bits(d.freq_base), 10000.0);
    assert_eq!(f32::from_bits(d.rms_eps), 1e-6);
    assert!(!d.has_tied_weights);
    assert_eq!(d.head_dim(), 2);
}

#[test]
fn weights_are_tied_where_there_is_no_projection() {
    assert!(ModelDNA::from_model(&model("llama"), &tensors(true)).has_tied_weights);
    assert!(ModelDNA::from_model(&model("qwen2"), &tensors(false)).has_tied_weights);
    let none = TensorIndex { names: Vec::new() };
    assert!(!ModelDNA::from_model(&model("llama"), &none).has_tied_weights);
}

#[test]
fn the_vocabulary_falls_back_to_the_token_list() {
    let mut h = ModelHeader { architecture: None, metadata: Metadata::new() };
    assert_eq!(ModelDNA::from_model(&h, &tensors(false)).n_vocab, 0);
    assert_eq!(ModelDNA::from_model(&h, &tensors(false)).head_dim(), 1);
    h.metadata.insert(
        "tokenizer.ggml.tokens".to_string(),
        GgufValue::Array(vec![GgufValue::Str("a".to_string()), GgufValue::Str("b".to_string())]),
    );
    assert_eq!(ModelDNA::from_model(&h, &tensors(false)).n_vocab, 2);
    h.metadata.insert("llama.vocab_size".to_string(), GgufValue::U32(9));
    assert_eq!(ModelDNA::from_model(&h, &tensors(false)).n_vocab, 9);
}

#[test]
fn unaddressable_models_do_not_fit() {
    let mut d = ModelDNA::from_model(&model("llama"), &tensors(false));
    assert!(d.fits(0) && d.fits(MAX_CTX));
    assert!(!d.fits(-1) && !d.fits(MAX_CTX + 1));
    d.n_vocab = -1;
    assert!(!d.fits(10));
    d.n_vocab = i64::MAX;
    assert!(!d.fits(10));
}

#[test]
fn cache_tensors_lie_side_by_side() {
    let l = QuantumKV::layout(3, 2, 2, 16);
    assert_eq!((l.elements, l.bytes, l.total), (64, 256, 256 * 6));
    assert_eq!((l.context, l.stride, l.width, l.rows), ((3 * 4 + 64) * 512, 16, 4, 16));
    let at: Vec<usize> = (0..3).map(|i| l.k_at(i)).chain((0..3).map(|i| l.v_at(i))).collect();
    assert_eq!(at, vec![0, 256, 512, 768, 1024, 1280]);
    assert_eq!(l.fill(), vec![0.0f32.to_bits(); 64]);
}

#[test]
fn engines_need_a_backend_a_buffer_and_a_context() {
    let dna = ModelDNA::from_model(&model("llama"), &tensors(false));
    match ForwardPass::open(&dna, 16, 0) {
        Err(e) => {
            assert_eq!(e, InitFault::Backend);
            assert_eq!(e.message(), "CPU backend init failed");
        }
        Ok(_) => panic!("opened"),
    }
    let l = QuantumKV::layout(1, 2, 2, 16);
    match QuantumKV::new(&l, 0, 0, Vec::new(), Vec::new()) {
        Err(e) => assert_eq!(e.message(), "KV buffer allocation failed"),
        Ok(_) => panic!("made"),
    }
    match QuantumKV::new(&l, 1, 0, Vec::new(), Vec::new()) {
        Err(e) => assert_eq!(e.message(), "KV ggml_init failed"),
        Ok(_) => panic!("made"),
    }
    assert_eq!(ForwardPass::clamp_ctx(8192), 4096);
    assert_eq!(ForwardPass::clamp_ctx(100), 100);
}

#[test]
fn a_token_is_decoded_at_the_head() {
    let mut f = pass(8);
    f.kv.head = 3;
    let s = started(f.decode_one(42));
    assert_eq!((f.kv.head, f.rebuild_count), (3, 1));
    assert_eq!((s.batch.prefill, s.batch.n_tokens, s.batch.start), (false, 1, 3));
    assert_eq!((s.inputs.size, s.inputs.pos_at, s.inputs.mask_at), (1024 + 32 + 512, 64, 128));
    assert_eq!((s.inputs.tokens, s.inputs.positions), (vec![42], vec![3]));
    let v = VISIBLE;
    let h = HIDDEN;
    assert_eq!(s.inputs.mask, vec![v, v, v, v, h, h, h, h]);
    assert_eq!((f32::from_bits(v), f32::from_bits(h)), (0.0, -10000.0));
    drive(&mut f, s.batch);
    assert_eq!(f.kv.head, 3);
    match f.advance(&tensors(false), s.batch, Reply::Status(0)) {
        Ok(Next::Read { offset, len }) => assert_eq!((offset, len), (0, 50)),
        _ => panic!("not read"),
    }
    assert_eq!(f.kv.head, 4);
}

#[test]
fn a_full_context_changes_nothing() {
    let mut f = pass(4);
    f.kv.head = 4;
    f.galloc = 0x19;
    assert!(matches!(f.decode_one(1), Err(ForwardError::ContextFull)));
    assert_eq!((f.kv.head, f.rebuild_count, f.galloc), (4, 0, 0x19));
    f.kv.head = 2;
    assert!(matches!(f.prefill(&vec![1, 2, 3]), Err(ForwardError::ContextFull)));
    assert_eq!((f.kv.head, f.rebuild_count), (2, 0));
    match f.prefill(&Vec::new()) {
        Err(ForwardError::Init(m)) => assert_eq!(m, "empty prefill token list"),
        _ => panic!("taken"),
    }
}

#[test]
fn a_prompt_is_masked_causally() {
    let mut f = pass(6);
    f.kv.head = 2;
    let s = started(f.prefill(&vec![7, 8, 9]));
    assert_eq!(f.kv.head, 2);
    assert_eq!((s.batch.prefill, s.batch.n_tokens, s.batch.start), (true, 3, 2));
    assert_eq!(s.inputs.size, 12 * 2 + 6 * 3 * 4 + 1024);
    assert_eq!((s.inputs.pos_at, s.inputs.mask_at), (12 + 64, 24 + 128));
    assert_eq!((s.inputs.tokens.clone(), s.inputs.positions.clone()), (vec![7, 8, 9], vec![2, 3, 4]));
    for q in 0..3usize {
        for k in 0..6usize {
            let expected = if k <= 2 + q { VISIBLE } else { HIDDEN };
            assert_eq!(s.inputs.mask[k + q * 6], expected);
        }
    }
    drive(&mut f, s.batch);
    assert_eq!(f.kv.head, 2);
    match f.advance(&tensors(false), s.batch, Reply::Status(0)) {
        Ok(Next::Read { offset, len }) => assert_eq!((offset, len), (2 * 50 * 4, 50)),
        _ => panic!("not read"),
    }
    assert_eq!(f.kv.head, 5);
}

#[test]
fn a_prompt_agrees_with_its_tokens_one_at_a_time() {
    let mut whole = pass(6);
    let prompt = started(whole.prefill(&vec![7, 8, 9]));
    drive(&mut whole, prompt.batch);
    assert!(whole.advance(&tensors(false), prompt.batch, Reply::Status(0)).is_ok());
    let all = prompt.inputs;
    let mut single = pass(6);
    for i in 0..3usize {
        let s = started(single.decode_one([7u32, 8, 9][i]));
        drive(&mut single, s.batch);
        assert!(single.advance(&tensors(false), s.batch, Reply::Status(0)).is_ok());
        let one = s.inputs;
        assert_eq!(one.tokens[0], all.tokens[i]);
        assert_eq!(one.positions[0], all.positions[i]);
        assert_eq!(one.mask, all.mask[i * 6..(i + 1) * 6].to_vec());
    }
    assert_eq!((whole.kv.head, single.kv.head), (3, 3));
}

#[test]
fn a_failed_token_leaves_the_cache_alone() {
    let mut f = pass(6);
    let s = started(f.decode_one(1));
    drive(&mut f, s.batch);
    assert!(f.advance(&tensors(false), s.batch, Reply::Status(0)).is_ok());
    assert_eq!(f.kv.head, 1);
    let s = started(f.decode_one(2));
    drive(&mut f, s.batch);
    assert!(f.advance(&tensors(false), s.batch, Reply::Status(1)).is_err());
    assert_eq!(f.kv.head, 1);
    // The next token takes the row that was not written.
    let s = started(f.decode_one(3));
    assert_eq!((s.batch.start, s.inputs.positions), (1, vec![1]));
}

#[test]
fn a_reset_engine_is_as_new() {
    let mut used = pass(6);
    let s = started(used.prefill(&vec![1, 2, 3, 4]));
    drive(&mut used, s.batch);
    assert!(used.advance(&tensors(false), s.batch, Reply::Status(0)).is_ok());
    used.reset_kv();
    let mut fresh = pass(6);
    let a = started(used.prefill(&vec![5, 6]));
    let b = started(fresh.prefill(&vec![5, 6]));
    assert!(a.released.is_empty());
    assert_eq!((a.inputs.tokens, a.inputs.positions), (b.inputs.tokens, b.inputs.positions));
    assert_eq!(a.inputs.mask, b.inputs.mask);
    assert_eq!((a.inputs.size, a.inputs.pos_at, a.inputs.mask_at), (b.inputs.size, b.inputs.pos_at, b.inputs.mask_at));
    for q in 0..2usize {
        assert!(a.inputs.mask[q * 6 + 2..(q + 1) * 6].iter().all(|m| *m == HIDDEN));
    }
    let ops = |f: &ForwardPass, batch| match f.build_graph(&tensors(false), batch) {
        Ok(p) => p.ops,
        Err(_) => panic!("refused"),
    };
    assert_eq!(ops(&used, a.batch), ops(&fresh, b.batch));
}

#[test]
fn the_next_pass_gives_the_graph_back() {
    let mut f = pass(8);
    let s = started(f.decode_one(1));
    assert!(s.released.is_empty());
    drive(&mut f, s.batch);
    assert_eq!(
        (f.inp_buf, f.inp_ctx, f.d_token, f.d_pos, f.d_mask, f.ctx, f.graph, f.d_logits, f.galloc),
        (0x11, 0x12, 0x13, 0x14, 0x15, 0x16, 0x17, 0x18, 0x19)
    );
    let s = started(f.decode_one(2));
    assert_eq!(
        s.released,
        vec![
            Release::Allocator(0x19),
            Release::Context(0x16),
            Release::Context(0x12),
            Release::Buffer(0x11),
        ]
    );
    assert_eq!(
        (f.inp_buf, f.inp_ctx, f.d_token, f.d_pos, f.d_mask, f.ctx, f.graph, f.d_logits, f.galloc),
        (0, 0, 0, 0, 0, 0, 0, 0, 0)
    );
    assert!(f.cleanup_graph_resources().is_empty());
    assert_eq!(f.rebuild_count, 2);
}

#[test]
fn a_reset_forgets_positions_and_graph() {
    let mut f = pass(8);
    let s = started(f.decode_one(1));
    drive(&mut f, s.batch);
    assert_eq!(f.reset_kv().len(), 4);
    assert_eq!(f.kv.head, 0);
    assert!(f.reset_kv().is_empty());
    f.kv.head = 3;
    f.kv.clear();
    assert_eq!((f.kv.head, f.kv.n_ctx), (0, 8));
    assert_eq!(f.dna().n_vocab, 50);
}

#[test]
fn shutdown_gives_everything_back() {
    let mut f = pass(8);
    let s = started(f.decode_one(1));
    drive(&mut f, s.batch);
    assert_eq!(
        f.shutdown(),
        vec![
            Release::Allocator(0x19),
            Release::Context(0x16),
            Release::Context(0x12),
            Release::Buffer(0x11),
            Release::Backend(0x5),
            Release::Context(0x7),
            Release::Buffer(0x6),
        ]
    );
}

fn failure(f: &mut ForwardPass, batch: Batch, i: &TensorIndex, reply: Reply) -> String {
    match f.advance(i, batch, reply) {
        Err(e) => e.message(),
        Ok(_) => panic!("passed"),
    }
}

#[test]
fn build_failures_are_internal_errors() {
    let i = tensors(false);
    let mut f = pass(8);
    let d = started(f.decode_one(1)).batch;
    assert_eq!(
        failure(&mut f, d, &i, Reply::InputBuffer(0)),
        "[Z.3 INTERNAL] input buffer alloc failed"
    );
    assert_eq!(f.kv.head, 0);
    assert_eq!(
        failure(&mut f, d, &i, Reply::InputContext(0)),
        "[Z.3 INTERNAL] inp_ctx ggml_init failed"
    );
    assert_eq!(
        failure(&mut f, d, &i, Reply::GraphContext(0)),
        "[Z.3 INTERNAL] graph ctx ggml_init failed"
    );
    assert_eq!(
        failure(&mut f, d, &i, Reply::Allocated(false)),
        "[Z.3 INTERNAL] gallocr_alloc_graph failed"
    );
    assert_eq!(
        failure(&mut f, d, &i, Reply::Status(-3)),
        "[Z.3 INTERNAL] compute failed status=-3"
    );
    assert_eq!(f.kv.head, 0);
    let p = started(f.prefill(&vec![1, 2])).batch;
    assert_eq!(
        failure(&mut f, p, &i, Reply::InputBuffer(0)),
        "[Z.3 INTERNAL] prefill input buffer alloc failed"
    );
    assert_eq!(
        failure(&mut f, p, &i, Reply::InputContext(0)),
        "[Z.3 INTERNAL] prefill inp_ctx ggml_init failed"
    );
    assert_eq!(
        failure(&mut f, p, &i, Reply::GraphContext(0)),
        "[Z.3 INTERNAL] prefill graph ctx ggml_init failed"
    );
    assert_eq!(
        failure(&mut f, p, &i, Reply::Allocated(false)),
        "[Z.3 INTERNAL] prefill gallocr_alloc_graph failed"
    );
    assert_eq!(
        failure(&mut f, p, &i, Reply::Status(-3)),
        "[Z.3 COMPUTE] failed with status -3"
    );
    assert_eq!(f.kv.head, 0);
}

#[test]
fn missing_weights_of_a_masked_pass() {
    let mut f = pass(8);
    for name in ["token_embd.weight", "blk.0.attn_k.weight", "output_norm.weight", "output.weight"] {
        let mut i = tensors(false);
        i.names.retain(|n| n != name);
        let d = started(f.decode_one(1)).batch;
        assert_eq!(
            failure(&mut f, d, &i, Reply::GraphContext(0x16)),
            format!("[Z.3 INTERNAL] {} missing", name)
        );
    }
    let d = started(f.decode_one(1)).batch;
    f.dna.has_tied_weights = true;
    assert!(f.build_graph(&tensors(true), d).is_ok());
}

#[test]
fn a_masked_plan_reads_the_whole_cache() {
    let mut f = pass(8);
    f.kv.head = 2;
    let b = started(f.prefill(&vec![1, 2, 3])).batch;
    let plan = match f.build_graph(&tensors(false), b) {
        Ok(p) => p,
        Err(_) => panic!("refused"),
    };
    assert_eq!(plan.schedule.len(), 3);
    assert_eq!(plan.schedule[2], plan.output);
    match plan.ops[plan.output] {
        Op::MulMat(w, _) => assert_eq!(plan.ops[w], Op::Weight(Weight::Output)),
        _ => panic!("not a product"),
    }
    let count = |wanted: fn(&Op) -> bool| plan.ops.iter().filter(|o| wanted(o)).count();
    assert_eq!(count(|o| matches!(o, Op::View2(_, 4, 3, 16, 32))), 2);
    assert_eq!(count(|o| matches!(o, Op::View2(_, 4, 8, 16, 0))), 2);
    assert_eq!(count(|o| matches!(o, Op::SoftMaxMasked(_, _))), 1);
    assert_eq!(count(|o| matches!(o, Op::SoftMax(_))), 0);
    assert_eq!(count(|o| matches!(o, Op::View1(_, _, _))), 0);
}

#[test]
fn masked_errors_in_words() {
    assert_eq!(ForwardError::Init("x".to_string()).message(), "[Z.3 INIT] x");
    assert_eq!(
        ForwardError::MissingTensor("t".to_string()).message(),
        "[Z.3 MISSING] tensor: t"
    );
    assert_eq!(
        ForwardError::ComputeFailed(4).message(),
        "[Z.3 COMPUTE] failed with status 4"
    );
    assert_eq!(
        ForwardError::ContextFull.message(),
        "[Z.3 OVERFLOW] context window full"
    );
}
