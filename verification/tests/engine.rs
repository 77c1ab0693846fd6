use z1::engine::{
    check_decode, check_logits, piece_bytes, piece_text, take_tokens, token_capacity, EngineConfig, EngineError,
    Eviction, LlamaEngine,
};

fn engine() -> LlamaEngine {
    let mut config = EngineConfig::for_threads(Some(4));
    config.n_batch = 3;
    config.n_ctx = 10;
    match LlamaEngine::load(config, 0x10, 0x20, 1000) {
        Ok(e) => e,
        Err(_) => panic!("not loaded"),
    }
}

#[test]
fn the_usual_configuration() {
    let c = EngineConfig::for_threads(Some(8));
    assert_eq!(c.n_threads, 8);
    assert_eq!(EngineConfig::for_threads(None).n_threads, 2);
    assert_eq!((c.n_ctx, c.n_batch, c.n_gpu_layers), (2048, 512, 0));
    assert_eq!(f32::from_bits(c.temperature), 0.7);
    assert_eq!(f32::from_bits(c.top_p), 0.9);
    assert_eq!(f32::from_bits(c.repeat_penalty), 1.1);
    assert_eq!((c.top_k, c.max_new_tokens, c.repeat_last_n, c.max_ram_layers), (40, 256, 64, 4));
    assert!(c.use_mmap && !c.use_mlock);
}

#[test]
fn models_are_mapped_and_never_locked() {
    let mut c = EngineConfig::for_threads(Some(6));
    c.use_mmap = false;
    c.use_mlock = true;
    c.n_gpu_layers = 3;
    let m = c.model_params();
    assert!(m.use_mmap && !m.use_mlock && !m.vocab_only && !m.check_tensors);
    assert_eq!(m.n_gpu_layers, 3);
    let p = c.context_params();
    assert_eq!(
        (p.n_ctx, p.n_batch, p.n_ubatch, p.n_threads, p.n_threads_batch),
        (2048, 512, 512, 6, 6)
    );
}

#[test]
fn loading_needs_a_model_and_a_context() {
    let c = EngineConfig::for_threads(None);
    match LlamaEngine::load(c, 0, 0, 0) {
        Err(e) => {
            assert_eq!(e, EngineError::NoModel);
            assert_eq!(e.message(), "[Z.1] llama_load_model_from_file returned null.");
        }
        Ok(_) => panic!("loaded"),
    }
    match LlamaEngine::load(c, 5, 0, 0) {
        Err(e) => {
            assert_eq!(e, EngineError::NoContext { model: 5 });
            assert_eq!(e.message(), "[Z.1] llama_new_context_with_model returned null.");
        }
        Ok(_) => panic!("loaded"),
    }
    assert_eq!(engine().vocab_size(), 1000);
}

#[test]
fn pages_are_left_behind_after_some_steps() {
    let mut e = engine();
    e.config.max_ram_layers = 2;
    let seen: Vec<Eviction> = (0..6).map(|_| e.evict_step(3)).collect();
    let expected = [
        (0, None),
        (1, None),
        (2, Some(0)),
        (2, Some(1)),
        (2, Some(2)),
        (2, None),
    ];
    for (s, (prefetch, retire)) in seen.iter().zip(expected) {
        assert_eq!((s.prefetch, s.retire), (prefetch, retire));
    }
    assert_eq!(e.decode_step, 6);
    let mut none = engine();
    assert_eq!(none.evict_step(0), Eviction { prefetch: 0, retire: None });
}

#[test]
fn token_buffers() {
    assert_eq!(token_capacity("h\u{e9}"), 3 + 64);
    match take_tokens(vec![1, 2, 3, 0, 0], 3) {
        Ok(t) => assert_eq!(t, vec![1, 2, 3]),
        Err(_) => panic!("refused"),
    }
    match take_tokens(vec![1], 7) {
        Ok(t) => assert_eq!(t, vec![1]),
        Err(_) => panic!("refused"),
    }
    match take_tokens(vec![0; 4], -9) {
        Err(e) => {
            assert_eq!(e, EngineError::TokenBuffer { need: 9 });
            assert_eq!(e.message(), "[Z.1] tokenize: buffer too small (need 9 slots)");
        }
        Ok(_) => panic!("taken"),
    }
}

#[test]
fn pieces_are_decoded_leniently() {
    let mut buf = vec![0i8; 64];
    for (i, b) in "h\u{e9}".bytes().enumerate() {
        buf[i] = b as i8;
    }
    assert_eq!(piece_bytes(&buf, 3), vec![0x68, 0xc3, 0xa9]);
    assert_eq!(piece_text(&buf, 3), "h\u{e9}");
    assert_eq!(piece_text(&buf, 2), "h\u{fffd}");
    assert_eq!(piece_text(&buf, 0), "");
    assert_eq!(piece_text(&buf, -5), "");
}

#[test]
fn prompts_are_fed_in_batches() {
    let mut e = engine();
    e.recent_tokens = vec![99];
    e.decode_step = 5;
    e.begin_run();
    assert_eq!((e.recent_tokens.len(), e.decode_step), (0, 0));
    let mut g = match e.ingest(vec![10, 11, 12, 13, 14, 15, 16]) {
        Ok(g) => g,
        Err(_) => panic!("refused"),
    };
    let mut tokens = Vec::new();
    let mut positions = Vec::new();
    let mut logits = Vec::new();
    let mut sizes = Vec::new();
    while let Some(b) = e.next_batch(&mut g) {
        sizes.push(b.tokens.len());
        tokens.extend(b.tokens);
        positions.extend(b.positions);
        logits.extend(b.logits);
    }
    assert_eq!(sizes, vec![3, 3, 1]);
    assert_eq!(tokens, vec![10, 11, 12, 13, 14, 15, 16]);
    assert_eq!(positions, vec![0, 1, 2, 3, 4, 5, 6]);
    assert_eq!(logits, vec![false, false, false, false, false, false, true]);
    assert_eq!(g.last_logit_idx, 0);
    assert_eq!(e.recent_tokens, vec![10, 11, 12, 13, 14, 15, 16]);
}

#[test]
fn the_place_of_the_last_logits_is_within_its_batch() {
    let mut e = engine();
    let mut g = match e.ingest(vec![1, 2, 3, 4, 5]) {
        Ok(g) => g,
        Err(_) => panic!("refused"),
    };
    while let Some(_) = e.next_batch(&mut g) {}
    assert_eq!(g.last_logit_idx, 1);
    let reply = LlamaEngine::begin_reply(&g);
    assert_eq!((reply.n_prompt, reply.n_generated, reply.pos, reply.sample_idx), (5, 0, 5, 1));
}

#[test]
fn prompts_leave_room() {
    let e = engine();
    assert!(e.ingest(vec![0; 9]).is_ok());
    match e.ingest(vec![0; 10]) {
        Err(err) => {
            assert_eq!(err, EngineError::PromptTooLong { n_prompt: 10, n_ctx: 10 });
            assert_eq!(err.message(), "[Z.1] Prompt is 10 tokens but context is only 10.");
        }
        Ok(_) => panic!("taken"),
    }
}

#[test]
fn replies_grow_until_the_end_marker() {
    let mut e = engine();
    e.config.repeat_last_n = 1;
    e.config.max_new_tokens = 3;
    let mut g = match e.ingest(vec![1, 2]) {
        Ok(g) => g,
        Err(_) => panic!("refused"),
    };
    while let Some(_) = e.next_batch(&mut g) {}
    let mut r = LlamaEngine::begin_reply(&g);
    assert!(e.wants_more(&r));
    let b = e.accept(&mut r, 7, 2, "se").expect("ended");
    assert_eq!((b.tokens, b.positions, b.logits), (vec![7], vec![2], vec![true]));
    assert_eq!(e.recent_tokens, vec![1, 2, 7]);
    let b = e.accept(&mut r, 8, 2, "ven").expect("ended");
    assert_eq!((b.tokens, b.positions), (vec![8], vec![3]));
    assert_eq!(e.recent_tokens, vec![2, 7, 8]);
    assert_eq!((r.n_generated, r.pos, r.sample_idx), (2, 4, 0));
    assert!(e.wants_more(&r));
    assert!(e.accept(&mut r, 2, 2, "").is_none());
    assert_eq!((r.n_generated, r.pos), (2, 4));
    assert_eq!(r.output, "seven");
    assert!(e.accept(&mut r, 9, 2, "!").is_some());
    assert!(!e.wants_more(&r));
}

#[test]
fn penalties_and_greedy_sampling_of_the_engine() {
    let mut e = engine();
    e.recent_tokens = vec![5, 1200, 6];
    assert_eq!(e.penalised(), vec![5, 6]);
    e.config.repeat_penalty = 1.0f32.to_bits();
    assert!(e.penalised().is_empty());
    let logits: Vec<u32> = [0.5f32, 2.0, 2.0, -1.0].iter().map(|v| v.to_bits()).collect();
    match e.sample_greedy(&logits) {
        Ok(best) => assert_eq!(best, 2),
        Err(_) => panic!("none"),
    }
    match e.sample_greedy(&Vec::new()) {
        Err(err) => assert_eq!(err.message(), "[Z.1] empty candidate list"),
        Ok(_) => panic!("some"),
    }
}

#[test]
fn statuses_and_missing_logits() {
    assert!(check_decode(0, true).is_ok());
    match check_decode(-3, true) {
        Err(e) => assert_eq!(e.message(), "[Z.1] llama_decode error -3 during prompt ingestion"),
        Ok(_) => panic!("passed"),
    }
    match check_decode(1, false) {
        Err(e) => assert_eq!(e.message(), "[Z.1] llama_decode error 1 during generation"),
        Ok(_) => panic!("passed"),
    }
    assert!(check_logits(1, 4).is_ok());
    match check_logits(0, 4) {
        Err(e) => assert_eq!(e.message(), "[Z.1] llama_get_logits_ith(4) returned null"),
        Ok(_) => panic!("passed"),
    }
}

/// Runs a prompt with a made-up model: the next token depends on all that was decoded and on the
/// ids that the penalty changes.
fn whole_run(e: &mut LlamaEngine, prompt: Vec<i32>) -> (Vec<(i32, i32)>, String) {
    e.begin_run();
    let mut decoded: Vec<(i32, i32)> = Vec::new();
    let mut g = match e.ingest(prompt) {
        Ok(g) => g,
        Err(_) => panic!("refused"),
    };
    while let Some(b) = e.next_batch(&mut g) {
        decoded.extend(b.tokens.iter().cloned().zip(b.positions));
        e.evict_step(3);
    }
    let mut r = LlamaEngine::begin_reply(&g);
    while e.wants_more(&r) {
        let sum: i32 = decoded.iter().map(|d| d.0 * (d.1 + 1)).sum();
        let next = (sum + e.penalised().iter().sum::<usize>() as i32) % 23;
        let piece = format!("<{}>", next);
        match e.accept(&mut r, next, 0, &piece) {
            Some(b) => decoded.extend(b.tokens.iter().cloned().zip(b.positions)),
            None => break,
        }
        e.evict_step(3);
    }
    (decoded, r.output)
}

#[test]
fn earlier_runs_leave_no_trace_in_the_next() {
    let mut used = engine();
    let mut fresh = engine();
    used.config.max_new_tokens = 6;
    fresh.config.max_new_tokens = 6;
    whole_run(&mut used, vec![9, 8, 7, 6, 5]);
    whole_run(&mut used, vec![4]);
    let a = whole_run(&mut used, vec![1, 2, 3, 4]);
    let b = whole_run(&mut fresh, vec![1, 2, 3, 4]);
    assert_eq!(a, b);
    assert_eq!(used.decode_step, fresh.decode_step);
    let positions: Vec<i32> = a.0.iter().map(|d| d.1).collect();
    assert_eq!(positions, (0..a.0.len() as i32).collect::<Vec<i32>>());
    assert_eq!(a.0[..4].to_vec(), vec![(1, 0), (2, 1), (3, 2), (4, 3)]);
    let text: String = a.0[4..].iter().map(|d| format!("<{}>", d.0)).collect();
    assert_eq!(a.1, text);
}

#[test]
fn resident_windows_stay_bounded_at_every_step() {
    for keep in 0..4usize {
        for n in 1..5usize {
            let mut e = engine();
            e.config.max_ram_layers = keep;
            let mut held: Vec<usize> = Vec::new();
            for step in 0..20usize {
                let moved = e.evict_step(n);
                if !held.contains(&moved.prefetch) {
                    held.push(moved.prefetch);
                }
                assert!(held.len() <= keep + 1);
                held.retain(|w| Some(*w) != moved.retire);
                assert!(held.len() <= keep || held == vec![n - 1]);
                let newest: Vec<usize> = (0..n).filter(|w| *w <= step && w + keep > step).collect();
                let mut sorted = held.clone();
                sorted.sort();
                if step > n - 1 + keep {
                    assert_eq!(sorted, vec![n - 1]);
                } else {
                    assert_eq!(sorted, newest);
                }
            }
        }
    }
}
