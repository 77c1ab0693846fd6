use z1::gguf::{GgufValue, Metadata, ModelHeader};
use z1::graph::{KVCache, LlamaGraph, LlamaHparams, Next as PlainNext, Stage};
use z1::plan::{GraphPlan, Op};
use z1::quantum::{ForwardPass, ModelDNA, QuantumKV, Reply, Started};
use z1::weights::{LayerWeight, TensorIndex, Weight};

const N_EMBD: usize = 8;
const N_HEAD: usize = 4;
const N_HEAD_KV: usize = 2;
const HEAD_DIM: usize = 2;
const N_FF: usize = 12;
const N_VOCAB: usize = 10;
const N_LAYER: usize = 2;
const N_CTX: usize = 6;

const LAYER: [LayerWeight; 9] = [
    LayerWeight::AttnNorm,
    LayerWeight::AttnQ,
    LayerWeight::AttnK,
    LayerWeight::AttnV,
    LayerWeight::AttnOutput,
    LayerWeight::FfnNorm,
    LayerWeight::FfnGate,
    LayerWeight::FfnUp,
    LayerWeight::FfnDown,
];

fn weights() -> Vec<Weight> {
    let mut all = vec![Weight::TokenEmbd, Weight::OutputNorm, Weight::Output];
    for layer in 0..N_LAYER {
        for w in LAYER {
            all.push(Weight::Layer(layer, w));
        }
    }
    all
}

fn dims(w: Weight) -> (usize, usize) {
    match w {
        Weight::TokenEmbd | Weight::Output => (N_EMBD, N_VOCAB),
        Weight::OutputNorm => (N_EMBD, 1),
        Weight::Layer(_, w) => match w {
            LayerWeight::AttnNorm | LayerWeight::FfnNorm => (N_EMBD, 1),
            LayerWeight::AttnQ => (N_EMBD, N_HEAD * HEAD_DIM),
            LayerWeight::AttnK | LayerWeight::AttnV => (N_EMBD, N_HEAD_KV * HEAD_DIM),
            LayerWeight::AttnOutput => (N_HEAD * HEAD_DIM, N_EMBD),
            LayerWeight::FfnGate | LayerWeight::FfnUp => (N_EMBD, N_FF),
            LayerWeight::FfnDown => (N_FF, N_EMBD),
        },
    }
}

/// A tensor: a part of a buffer, with sizes and strides in elements.
#[derive(Clone, Copy)]
struct Tensor {
    buf: usize,
    at: usize,
    ne: [usize; 4],
    nb: [usize; 4],
}

/// Buffers, weights and caches of a small model.
struct Machine {
    bufs: Vec<Vec<f32>>,
    weights: Vec<(Weight, Tensor)>,
    keys: Vec<Tensor>,
    values: Vec<Tensor>,
}

fn strides(ne: [usize; 4]) -> [usize; 4] {
    [1, ne[0], ne[0] * ne[1], ne[0] * ne[1] * ne[2]]
}

impl Machine {
    fn new() -> Machine {
        let mut m = Machine { bufs: Vec::new(), weights: Vec::new(), keys: Vec::new(), values: Vec::new() };
        let mut seed: u64 = 42;
        for w in weights() {
            let (x, y) = dims(w);
            let mut data = Vec::new();
            for _ in 0..x * y {
                seed = seed.wrapping_mul(6364136223846793005).wrapping_add(1442695040888963407);
                data.push((seed >> 40) as f32 / (1u64 << 24) as f32 - 0.5);
            }
            let t = m.fresh([x, y, 1, 1], data);
            m.weights.push((w, t));
        }
        for _ in 0..N_LAYER {
            let ne = [N_HEAD_KV * HEAD_DIM, N_CTX, 1, 1];
            let k = m.fresh(ne, vec![0.0; ne[0] * ne[1]]);
            let v = m.fresh(ne, vec![0.0; ne[0] * ne[1]]);
            m.keys.push(k);
            m.values.push(v);
        }
        m
    }

    fn fresh(&mut self, ne: [usize; 4], data: Vec<f32>) -> Tensor {
        assert_eq!(ne[0] * ne[1] * ne[2] * ne[3], data.len());
        self.bufs.push(data);
        Tensor { buf: self.bufs.len() - 1, at: 0, ne, nb: strides(ne) }
    }

    fn get(&self, t: Tensor, i: [usize; 4]) -> f32 {
        self.bufs[t.buf][t.at + i[0] * t.nb[0] + i[1] * t.nb[1] + i[2] * t.nb[2] + i[3] * t.nb[3]]
    }

    fn map(&mut self, ne: [usize; 4], f: &dyn Fn(&Machine, [usize; 4]) -> f32) -> Tensor {
        let mut data = Vec::new();
        for l in 0..ne[3] {
            for k in 0..ne[2] {
                for j in 0..ne[1] {
                    for i in 0..ne[0] {
                        data.push(f(self, [i, j, k, l]));
                    }
                }
            }
        }
        self.fresh(ne, data)
    }

    fn soft_max(&mut self, a: Tensor, mask: Option<Tensor>) -> Tensor {
        let score = move |m: &Machine, i: [usize; 4]| {
            m.get(a, i) + mask.map(|t| m.get(t, [i[0], i[1], 0, 0])).unwrap_or(0.0)
        };
        self.map(a.ne, &move |m, i| {
            let row: Vec<f32> = (0..a.ne[0]).map(|x| score(m, [x, i[1], i[2], i[3]])).collect();
            let top = row.iter().cloned().fold(f32::NEG_INFINITY, f32::max);
            let sum: f32 = row.iter().map(|v| (v - top).exp()).sum();
            (row[i[0]] - top).exp() / sum
        })
    }
}

/// What a pass is given.
struct Given {
    tokens: Vec<i32>,
    positions: Vec<i32>,
    mask: Vec<f32>,
}

/// Computes what a plan schedules, each operation once and when it is first needed.
fn run(m: &mut Machine, plan: &GraphPlan, given: &Given) -> Vec<f32> {
    let mut done: Vec<Option<Tensor>> = vec![None; plan.ops.len()];
    for s in &plan.schedule {
        eval(m, plan, given, &mut done, *s);
    }
    let out = done[plan.output].unwrap();
    let mut logits = Vec::new();
    for j in 0..out.ne[1] {
        for i in 0..out.ne[0] {
            logits.push(m.get(out, [i, j, 0, 0]));
        }
    }
    logits
}

fn eval(m: &mut Machine, plan: &GraphPlan, given: &Given, done: &mut Vec<Option<Tensor>>, at: usize) -> Tensor {
    if let Some(t) = done[at] {
        return t;
    }
    let mut arg = |m: &mut Machine, i: usize| eval(m, plan, given, done, i);
    let t = match plan.ops[at] {
        Op::Weight(w) => m.weights.iter().find(|x| x.0 == w).unwrap().1,
        Op::Tokens => {
            let ids: Vec<f32> = given.tokens.iter().map(|t| *t as f32).collect();
            m.fresh([ids.len(), 1, 1, 1], ids)
        }
        Op::Positions => {
            let ps: Vec<f32> = given.positions.iter().map(|t| *t as f32).collect();
            m.fresh([ps.len(), 1, 1, 1], ps)
        }
        Op::Mask => m.fresh([N_CTX, given.tokens.len(), 1, 1], given.mask.clone()),
        Op::CacheK(l) => m.keys[l],
        Op::CacheV(l) => m.values[l],
        Op::GetRows(a, b) => {
            let (a, b) = (arg(m, a), arg(m, b));
            m.map([a.ne[0], b.ne[0], 1, 1], &|m, i| {
                let id = m.get(b, [i[1], 0, 0, 0]) as usize;
                m.get(a, [i[0], id, 0, 0])
            })
        }
        Op::RmsNorm(a, eps) => {
            let a = arg(m, a);
            m.map(a.ne, &|m, i| {
                let square: f32 = (0..a.ne[0]).map(|x| m.get(a, [x, i[1], i[2], i[3]]).powi(2)).sum();
                m.get(a, i) / (square / a.ne[0] as f32 + f32::from_bits(eps)).sqrt()
            })
        }
        Op::Mul(a, b) => {
            let (a, b) = (arg(m, a), arg(m, b));
            m.map(a.ne, &|m, i| {
                m.get(a, i) * m.get(b, [i[0] % b.ne[0], i[1] % b.ne[1], i[2] % b.ne[2], i[3] % b.ne[3]])
            })
        }
        Op::Add(a, b) => {
            let (a, b) = (arg(m, a), arg(m, b));
            assert_eq!(a.ne, b.ne);
            m.map(a.ne, &|m, i| m.get(a, i) + m.get(b, i))
        }
        Op::MulMat(a, b) => {
            let (a, b) = (arg(m, a), arg(m, b));
            assert_eq!(a.ne[0], b.ne[0]);
            let share = b.ne[2] / a.ne[2];
            m.map([a.ne[1], b.ne[1], b.ne[2], b.ne[3]], &|m, i| {
                (0..a.ne[0])
                    .map(|x| m.get(a, [x, i[0], i[2] / share, i[3]]) * m.get(b, [x, i[1], i[2], i[3]]))
                    .sum()
            })
        }
        Op::Silu(a) => {
            let a = arg(m, a);
            m.map(a.ne, &|m, i| {
                let x = m.get(a, i);
                x / (1.0 + (-x).exp())
            })
        }
        Op::Reshape2(a, x, y) => {
            let a = arg(m, a);
            assert_eq!(a.nb, strides(a.ne));
            let ne = [x as usize, y as usize, 1, 1];
            Tensor { ne, nb: strides(ne), ..a }
        }
        Op::Reshape3(a, x, y, z) => {
            let a = arg(m, a);
            assert_eq!(a.nb, strides(a.ne));
            let ne = [x as usize, y as usize, z as usize, 1];
            Tensor { ne, nb: strides(ne), ..a }
        }
        Op::Rope(a, b, n_rot, base) => {
            let (a, b) = (arg(m, a), arg(m, b));
            m.map(a.ne, &|m, i| {
                if i[0] >= n_rot as usize {
                    return m.get(a, i);
                }
                let pair = i[0] / 2;
                let turn = f32::from_bits(base).powf(-2.0 * pair as f32 / n_rot as f32);
                let (sin, cos) = (m.get(b, [i[2], 0, 0, 0]) * turn).sin_cos();
                let x = m.get(a, [2 * pair, i[1], i[2], i[3]]);
                let y = m.get(a, [2 * pair + 1, i[1], i[2], i[3]]);
                if i[0] % 2 == 0 {
                    x * cos - y * sin
                } else {
                    x * sin + y * cos
                }
            })
        }
        Op::Cont(a) => {
            let a = arg(m, a);
            m.map(a.ne, &|m, i| m.get(a, i))
        }
        Op::View1(a, n, at) => {
            let a = arg(m, a);
            let ne = [n as usize, 1, 1, 1];
            Tensor { buf: a.buf, at: a.at + at / 4, ne, nb: strides(ne) }
        }
        Op::View2(a, width, rows, stride, at) => {
            let a = arg(m, a);
            let ne = [width as usize, rows as usize, 1, 1];
            let nb = [1, stride / 4, stride / 4 * rows as usize, stride / 4 * rows as usize];
            Tensor { buf: a.buf, at: a.at + at / 4, ne, nb }
        }
        Op::Cpy(a, b) => {
            let (a, b) = (arg(m, a), arg(m, b));
            assert_eq!(a.ne, b.ne);
            for j in 0..a.ne[1] {
                for i in 0..a.ne[0] {
                    let x = m.get(a, [i, j, 0, 0]);
                    m.bufs[b.buf][b.at + i * b.nb[0] + j * b.nb[1]] = x;
                }
            }
            b
        }
        Op::Permute(a, p, q, r, s) => {
            let a = arg(m, a);
            let mut out = a;
            for (from, to) in [p, q, r, s].iter().enumerate() {
                out.ne[*to as usize] = a.ne[from];
                out.nb[*to as usize] = a.nb[from];
            }
            out
        }
        Op::InvSqrtScale(a, n) => {
            let a = arg(m, a);
            m.map(a.ne, &|m, i| m.get(a, i) / (n as f32).sqrt())
        }
        Op::SoftMax(a) => {
            let a = arg(m, a);
            m.soft_max(a, None)
        }
        Op::SoftMaxMasked(a, b) => {
            let (a, b) = (arg(m, a), arg(m, b));
            m.soft_max(a, Some(b))
        }
    };
    done[at] = Some(t);
    t
}

fn header() -> ModelHeader {
    let mut m = Metadata::new();
    for (k, v) in [
        ("llama.vocab_size", N_VOCAB),
        ("llama.embedding_length", N_EMBD),
        ("llama.attention.head_count", N_HEAD),
        ("llama.attention.head_count_kv", N_HEAD_KV),
        ("llama.block_count", N_LAYER),
        ("llama.feed_forward_length", N_FF),
        ("llama.rope.dimension_count", HEAD_DIM),
    ] {
        m.insert(k.to_string(), GgufValue::U32(v as u32));
    }
    m.insert("llama.rope.freq_base".to_string(), GgufValue::F32(10000.0f32.to_bits()));
    m.insert(
        "llama.attention.layer_norm_rms_epsilon".to_string(),
        GgufValue::F32(1e-5f32.to_bits()),
    );
    ModelHeader { architecture: None, metadata: m }
}

fn index() -> TensorIndex {
    TensorIndex { names: weights().iter().map(|w| w.name()).collect() }
}

fn masked() -> ForwardPass {
    let dna = ModelDNA::from_model(&header(), &index());
    let l = QuantumKV::layout(N_LAYER, N_HEAD_KV as i64, HEAD_DIM as i64, N_CTX as i64);
    match QuantumKV::new(&l, 1, 1, vec![1; N_LAYER], vec![1; N_LAYER]) {
        Ok(kv) => ForwardPass::new(dna, N_CTX as i64, 1, kv),
        Err(_) => panic!("no cache"),
    }
}

/// Runs a masked pass and gives the logits of its last token.
fn masked_logits(m: &mut Machine, f: &mut ForwardPass, s: Started) -> Vec<f32> {
    let plan = match f.build_graph(&index(), s.batch) {
        Ok(p) => p,
        Err(_) => panic!("not planned"),
    };
    let given = Given {
        tokens: s.inputs.tokens,
        positions: s.inputs.positions,
        mask: s.inputs.mask.iter().map(|b| f32::from_bits(*b)).collect(),
    };
    let all = run(m, &plan, &given);
    match f.advance(&index(), s.batch, Reply::Status(0)) {
        Ok(z1::quantum::Next::Read { offset, len }) => all[offset / 4..offset / 4 + len].to_vec(),
        _ => panic!("not read"),
    }
}

/// Runs a pass that attends to every cached position and gives the logits of its last token.
fn plain_logits(m: &mut Machine, g: &mut LlamaGraph, token: u32) -> Vec<f32> {
    let inputs = g.decode_one(token);
    let plan = match g.forward(&index(), 1, Stage::GraphContext, 0) {
        Ok(PlainNext::Build(p)) => p,
        _ => panic!("not planned"),
    };
    let given = Given { tokens: inputs.tokens, positions: inputs.positions, mask: Vec::new() };
    let out = run(m, &plan, &given);
    assert!(g.forward(&index(), 1, Stage::Compute, 0).is_ok());
    out
}

fn close(a: &[f32], b: &[f32]) {
    assert_eq!((a.len(), b.len()), (N_VOCAB, N_VOCAB));
    for (x, y) in a.iter().zip(b) {
        assert!((x - y).abs() < 1e-4, "{} and {}", x, y);
    }
}

#[test]
fn a_prompt_gives_the_logits_of_its_tokens_one_at_a_time() {
    let tokens = vec![3u32, 1, 4, 1, 5];
    let mut whole = Machine::new();
    let mut f = masked();
    let s = match f.prefill(&tokens) {
        Ok(s) => s,
        Err(_) => panic!("refused"),
    };
    let at_once = masked_logits(&mut whole, &mut f, s);
    assert_eq!(f.kv.head, 5);

    let mut single = Machine::new();
    let mut g = masked();
    let mut last = Vec::new();
    for t in &tokens {
        let s = match g.decode_one(*t) {
            Ok(s) => s,
            Err(_) => panic!("refused"),
        };
        last = masked_logits(&mut single, &mut g, s);
    }
    close(&at_once, &last);
    assert!(at_once.iter().any(|x| x.abs() > 1e-3));
}

#[test]
fn a_prompt_may_be_split() {
    let mut whole = Machine::new();
    let mut f = masked();
    let s = f.prefill(&vec![7, 2, 9, 0]).ok().expect("refused");
    let at_once = masked_logits(&mut whole, &mut f, s);

    let mut split = Machine::new();
    let mut g = masked();
    let s = g.prefill(&vec![7, 2]).ok().expect("refused");
    let part = masked_logits(&mut split, &mut g, s);
    let s = g.prefill(&vec![9, 0]).ok().expect("refused");
    let rest = masked_logits(&mut split, &mut g, s);
    close(&at_once, &rest);
    assert!(part.iter().zip(&rest).any(|(x, y)| (x - y).abs() > 1e-3));
}

#[test]
fn both_passes_agree_token_by_token() {
    let mut a = Machine::new();
    let mut f = masked();
    let mut b = Machine::new();
    let hp = LlamaHparams::from_model(&header());
    let kv = KVCache::new(1, vec![1; N_LAYER], vec![1; N_LAYER], N_CTX as i64);
    let mut g = LlamaGraph::new(hp, 1, kv);
    for t in [8u32, 6, 7, 5] {
        let s = f.decode_one(t).ok().expect("refused");
        let x = masked_logits(&mut a, &mut f, s);
        let y = plain_logits(&mut b, &mut g, t);
        close(&x, &y);
    }
}

fn caches(m: &Machine) -> Vec<Vec<f32>> {
    m.keys.iter().chain(&m.values).map(|t| m.bufs[t.buf].clone()).collect()
}

#[test]
fn hidden_keys_make_no_difference_at_all() {
    let tokens = vec![3u32, 1, 4, 1];
    let mut whole = Machine::new();
    let mut f = masked();
    let s = f.prefill(&tokens).ok().expect("refused");
    let at_once = masked_logits(&mut whole, &mut f, s);
    let mut single = Machine::new();
    let mut g = masked();
    let mut last = Vec::new();
    for t in &tokens {
        let s = g.decode_one(*t).ok().expect("refused");
        last = masked_logits(&mut single, &mut g, s);
    }
    assert_eq!(at_once, last);
    assert_eq!(caches(&whole), caches(&single));
    assert_ne!(caches(&whole), caches(&Machine::new()));
}

#[test]
fn a_reset_engine_gives_the_logits_of_a_new_one() {
    let mut used = Machine::new();
    let mut f = masked();
    let s = f.prefill(&vec![9, 8, 7, 6, 5, 4]).ok().expect("refused");
    masked_logits(&mut used, &mut f, s);
    f.reset_kv();
    assert_ne!(caches(&used), caches(&Machine::new()));
    let s = f.prefill(&vec![2, 3]).ok().expect("refused");
    let a = masked_logits(&mut used, &mut f, s);

    let mut new = Machine::new();
    let mut g = masked();
    let s = g.prefill(&vec![2, 3]).ok().expect("refused");
    let b = masked_logits(&mut new, &mut g, s);
    assert_eq!(a, b);
    assert_eq!((f.kv.head, g.kv.head), (2, 2));

    // Both go on alike, though the rows beyond the head differ.
    let s = f.decode_one(6).ok().expect("refused");
    let a = masked_logits(&mut used, &mut f, s);
    let s = g.decode_one(6).ok().expect("refused");
    let b = masked_logits(&mut new, &mut g, s);
    assert_eq!(a, b);
    assert_ne!(caches(&used), caches(&new));
}

fn operands(op: Op) -> Vec<usize> {
    match op {
        Op::Weight(_) | Op::Tokens | Op::Positions | Op::Mask | Op::CacheK(_) | Op::CacheV(_) => vec![],
        Op::GetRows(a, b) | Op::Mul(a, b) | Op::MulMat(a, b) | Op::Add(a, b) => vec![a, b],
        Op::Cpy(a, b) | Op::SoftMaxMasked(a, b) | Op::Rope(a, b, _, _) => vec![a, b],
        Op::RmsNorm(a, _) | Op::InvSqrtScale(a, _) => vec![a],
        Op::Silu(a) | Op::Cont(a) | Op::SoftMax(a) => vec![a],
        Op::Reshape2(a, _, _) | Op::Reshape3(a, _, _, _) => vec![a],
        Op::View1(a, _, _) | Op::View2(a, _, _, _, _) | Op::Permute(a, _, _, _, _) => vec![a],
    }
}

/// The output is scheduled last, every operation is needed, and asks for what there is.
fn check_plan(plan: &GraphPlan, masked: bool) {
    assert_eq!(plan.schedule.last(), Some(&plan.output));
    let mut needed = vec![false; plan.ops.len()];
    for s in &plan.schedule {
        needed[*s] = true;
    }
    for at in (0..plan.ops.len()).rev() {
        assert!(needed[at], "operation {} is idle", at);
        for o in operands(plan.ops[at]) {
            assert!(o < at);
            needed[o] = true;
        }
        match plan.ops[at] {
            Op::Weight(w) => assert!(weights().contains(&w)),
            Op::CacheK(l) | Op::CacheV(l) => assert!(l < N_LAYER),
            Op::Mask => assert!(masked),
            _ => {}
        }
    }
}

#[test]
fn plans_hold_what_they_compute_and_no_more() {
    let mut f = masked();
    let s = f.prefill(&vec![1, 2, 3]).ok().expect("refused");
    check_plan(&f.build_graph(&index(), s.batch).ok().expect("not planned"), true);
    let kv = KVCache::new(1, vec![1; N_LAYER], vec![1; N_LAYER], N_CTX as i64);
    let g = LlamaGraph::new(LlamaHparams::from_model(&header()), 1, kv);
    check_plan(&g.plan(&index(), 3).ok().expect("not planned"), false);
}
