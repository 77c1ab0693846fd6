use z1::generate::{
    assistant_role, console_turn, generate_turn, system_prompt, system_role, user_role, GenerateConfig, GenerateError,
    Generation, Session,
};
use z1::graph::ForwardError;

fn session(context_len: usize) -> Session {
    Session::new(context_len, &vec![1], &vec![2, 3])
}

fn turn_of(n: usize) -> Vec<u32> {
    (0..n as u32).collect()
}

#[test]
fn a_new_session_holds_the_system_prompt() {
    let s = session(512);
    assert_eq!(s.system_tokens, vec![128000, 128006, 1, 128007, 271, 2, 3, 128009]);
    assert!(s.history_tokens.is_empty() && s.is_empty());
    assert_eq!((s.turn_count, s.context_len), (0, 512));
    assert_eq!(
        (system_role(), user_role(), assistant_role()),
        ("system", "user", "assistant")
    );
    assert_eq!(system_prompt(), "You are a highly capable AI assistant.");
}

#[test]
fn a_console_turn_has_both_headers() {
    assert_eq!(
        console_turn(&vec![4], &vec![5, 6], &vec![7]),
        vec![128006, 4, 128007, 271, 5, 6, 128009, 128006, 7, 128007, 271]
    );
}

#[test]
fn the_usual_generation() {
    let c = GenerateConfig::with_sampling(5u8);
    assert_eq!((c.max_new_tokens, c.sampling, c.context_len), (256, 5, 512));
    assert!(c.print_timing && c.add_bos && c.chat_template);
}

#[test]
fn the_first_turn_fills_the_cache() {
    let mut s = session(100);
    let turn = turn_of(10);
    match generate_turn("hello", &mut s, &turn, 20) {
        Ok(plan) => {
            assert!(plan.reset);
            let mut all = s.system_tokens.clone();
            all.extend(turn.clone());
            assert_eq!(plan.tokens, all);
        }
        Err(_) => panic!("refused"),
    }
    assert_eq!(s.history_tokens, turn);
    assert_eq!(s.turn_count, 1);
    s.commit(&vec![70, 71]);
    assert_eq!(s.history_tokens[10..].to_vec(), vec![70, 71, 128009]);
    match generate_turn("again", &mut s, &turn, 20) {
        Ok(plan) => {
            assert!(!plan.reset);
            assert_eq!(plan.tokens, turn);
        }
        Err(_) => panic!("refused"),
    }
    assert_eq!(s.history_tokens.len(), 23);
}

#[test]
fn blank_messages_and_long_turns_are_refused() {
    let mut s = session(40);
    assert!(matches!(
        generate_turn(" \u{3000}\n", &mut s, &turn_of(3), 1),
        Err(GenerateError::EmptyPrompt)
    ));
    assert!(matches!(
        generate_turn("x", &mut s, &turn_of(13), 20),
        Err(GenerateError::ContextLengthExceeded { max: 40 })
    ));
    assert!(generate_turn("x", &mut s, &turn_of(12), 20).is_ok());
    let mut tiny = session(4);
    assert!(matches!(
        generate_turn("x", &mut tiny, &turn_of(1), 0),
        Err(GenerateError::ContextLengthExceeded { max: 4 })
    ));
    assert_eq!(tiny.turn_count, 0);
}

#[test]
fn the_window_drops_whole_blocks_of_the_oldest() {
    let mut s = session(512);
    s.turn_count = 3;
    s.history_tokens = (1000..1400).collect();
    let turn = turn_of(44);
    // 8 + 400 + 300 tokens are 196 too many: two blocks go.
    match s.open_turn(&turn, 256) {
        Ok(plan) => {
            assert!(plan.reset);
            assert_eq!(plan.tokens.len(), 8 + 144 + 44);
            assert_eq!(plan.tokens[..8].to_vec(), s.system_tokens);
            assert_eq!(plan.tokens[8], 1256);
        }
        Err(_) => panic!("refused"),
    }
    assert_eq!(s.history_tokens.len(), 144 + 44);
    assert_eq!(s.history_tokens[143], 1399);
    assert_eq!(s.turn_count, 4);
}

#[test]
fn the_window_drops_everything_where_it_must() {
    let mut s = session(512);
    s.turn_count = 1;
    s.history_tokens = (0..100).collect();
    match s.open_turn(&turn_of(248), 256) {
        Ok(plan) => {
            assert!(plan.reset);
            assert_eq!(plan.tokens.len(), 8 + 248);
        }
        Err(_) => panic!("refused"),
    }
    let mut exact = session(512);
    exact.turn_count = 1;
    exact.history_tokens = (0..100).collect();
    match exact.open_turn(&turn_of(148), 256) {
        Ok(plan) => assert!(!plan.reset),
        Err(_) => panic!("refused"),
    }
    assert_eq!(exact.history_tokens.len(), 248);
}

#[test]
fn a_reset_keeps_the_system_prompt() {
    let mut s = session(100);
    assert!(generate_turn("x", &mut s, &turn_of(5), 1).is_ok());
    s.reset();
    assert!(s.is_empty() && s.history_tokens.is_empty());
    assert_eq!(s.system_tokens, session(100).system_tokens);
}

#[test]
fn long_conversations_never_fill_the_cache() {
    let n_ctx = 512i64;
    let max_new = 100usize;
    let mut s = session(512);
    let mut head = 0i64;
    let mut seed = 7u64;
    let mut refills = 0;
    for _ in 0..300 {
        seed = seed.wrapping_mul(6364136223846793005).wrapping_add(1442695040888963407);
        let turn = turn_of(1 + (seed >> 33) as usize % 404);
        let reply = (seed >> 20) as usize % (max_new + 1);
        match generate_turn("x", &mut s, &turn, max_new) {
            Ok(plan) => {
                if plan.reset {
                    head = 0;
                    refills += 1;
                    assert_eq!(plan.tokens[..8].to_vec(), s.system_tokens);
                }
                assert!(Generation::start(plan.tokens.len(), head, n_ctx, max_new).is_ok());
                head += plan.tokens.len() as i64 + reply as i64;
                assert!(head <= n_ctx);
                s.commit(&vec![9; reply]);
            }
            Err(_) => assert!(turn.len() + max_new > 504),
        }
    }
    assert!(refills > 10);
}

#[test]
fn generation_needs_a_prompt_and_room() {
    assert!(matches!(Generation::start(0, 0, 10, 5), Err(GenerateError::EmptyPrompt)));
    assert!(matches!(
        Generation::start(4, 7, 10, 5),
        Err(GenerateError::ContextFull { used: 11, max: 10 })
    ));
    assert!(Generation::start(3, 7, 10, 5).is_ok());
}

fn begun(max_new: usize) -> Generation {
    match Generation::start(3, 0, 1000, max_new) {
        Ok(g) => g,
        Err(_) => panic!("refused"),
    }
}

#[test]
fn a_reply_is_the_run_before_the_end() {
    let mut g = begun(5);
    for (i, t) in [11u32, 12, 13].iter().enumerate() {
        assert!(g.offer(*t, false, 3 + i as i64));
    }
    assert!(!g.offer(14, true, 6));
    assert_eq!(g.ids, vec![11, 12, 13]);
    assert!(!g.offer(15, false, 1000));
    assert!(g.offer(15, false, 999));
    assert!(g.offer(16, false, 10));
    assert!(!g.offer(17, false, 10));
    assert_eq!(g.ids, vec![11, 12, 13, 15, 16]);
    let mut none = begun(0);
    assert!(!none.offer(1, false, 0));
}

#[test]
fn recent_tokens_are_the_newest() {
    let mut g = begun(200);
    for t in 0..100u32 {
        assert!(g.offer(t, false, 10));
    }
    assert_eq!(g.recent, (36..100).collect::<Vec<u32>>());
    assert_eq!(g.ids.len(), 100);
}

#[test]
fn the_text_is_that_of_the_pieces() {
    let mut g = begun(5);
    g.push_piece(&Some("Hel".to_string()));
    g.push_piece(&None);
    g.push_piece(&Some("lo".to_string()));
    assert_eq!(g.text, "Hello");
}

#[test]
fn generation_errors_in_words() {
    let cases = vec![
        (
            GenerateError::Forward(ForwardError::ComputeFailed(-1)),
            "Forward pass error: compute failed with status -1",
        ),
        (GenerateError::Logit("nan".to_string()), "Logit error: nan"),
        (GenerateError::Io("broken pipe".to_string()), "I/O error: broken pipe"),
        (GenerateError::EmptyPrompt, "Prompt is empty"),
        (
            GenerateError::ContextLengthExceeded { max: 512 },
            "Context length exceeded (max 512 tokens)",
        ),
        (
            GenerateError::ContextFull { used: 600, max: 512 },
            "Conversation context full (600/512 tokens)",
        ),
    ];
    for (e, words) in cases {
        assert_eq!(e.message(), words);
    }
}

#[test]
fn a_turn_fits_after_one_reply_that_broke_off() {
    let n_ctx = 512i64;
    let max_new = 100usize;
    let mut s = session(512);
    let turn = turn_of(50);
    assert!(generate_turn("x", &mut s, &turn, max_new).is_ok());
    // The reply breaks off after its last token: its rows stay, and the history lacks it.
    let mut head = 8 + 50 + max_new as i64;
    let mut fits = 0;
    loop {
        match generate_turn("x", &mut s, &turn, max_new) {
            Ok(plan) => {
                if plan.reset {
                    break;
                }
                assert!(Generation::start(plan.tokens.len(), head, n_ctx, max_new).is_ok());
                head += plan.tokens.len() as i64;
                s.commit(&Vec::new());
                fits += 1;
            }
            Err(_) => panic!("refused"),
        }
    }
    assert!(fits > 3);
}

#[test]
fn the_cache_holds_the_conversation() {
    let mut s = session(120);
    let mut cache: Vec<u32> = Vec::new();
    let mut undecoded: Vec<usize> = Vec::new();
    let mut refills = 0;
    for round in 0..12u32 {
        let turn: Vec<u32> = (0..10).map(|i| round * 100 + i).collect();
        let plan = match generate_turn("x", &mut s, &turn, 20) {
            Ok(plan) => plan,
            Err(_) => panic!("refused"),
        };
        if plan.reset {
            cache.clear();
            undecoded.clear();
            refills += 1;
        }
        cache.extend(plan.tokens);
        let reply: Vec<u32> = (0..5).map(|i| round * 100 + 50 + i).collect();
        cache.extend(&reply);
        s.commit(&reply);
        undecoded.push(s.history_tokens.len() - 1);

        let mut all = s.system_tokens.clone();
        for (i, t) in s.history_tokens.iter().enumerate() {
            if undecoded.contains(&i) {
                assert_eq!(*t, 128009);
            } else {
                all.push(*t);
            }
        }
        assert_eq!(cache, all);
    }
    assert!(refills > 1 && refills < 12);
}

#[test]
fn the_text_is_that_of_the_tokens() {
    let mut g = match Generation::start(3, 0, 100, 4) {
        Ok(g) => g,
        Err(_) => panic!("refused"),
    };
    let pieces = vec![Some("a".to_string()), None, Some("bc".to_string()), Some("d".to_string()), Some("e".to_string())];
    let mut head = 3;
    for (i, piece) in pieces.iter().enumerate() {
        if g.offer(i as u32, false, head) {
            g.push_piece(piece);
            head += 1;
        }
    }
    assert_eq!((g.ids, g.text.as_str()), (vec![0, 1, 2, 3], "abcd"));
}
