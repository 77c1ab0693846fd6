use z1::harness::{bench_prompt, run, smoke_test, smoke_text, HarnessFault, N_PROMPTS};

fn pieces(list: &[&str]) -> Vec<String> {
    list.iter().map(|s| s.to_string()).collect()
}

#[test]
fn runs_take_the_prompts_in_turn() {
    let order = match run(7) {
        Ok(o) => o,
        Err(_) => panic!("refused"),
    };
    assert_eq!(order, vec![0, 0, 1, 2, 3, 4, 0, 1]);
    assert_eq!(N_PROMPTS, 5);
    assert_eq!(
        bench_prompt(order[2]),
        "Write a Rust function that merges two sorted vectors into one."
    );
    assert_eq!(
        bench_prompt(0),
        "Explain the difference between stack and heap memory allocation in C."
    );
    assert_eq!(
        bench_prompt(4),
        "List five best practices for writing safe concurrent Rust code."
    );
}

#[test]
fn no_runs_are_refused() {
    match run(0) {
        Err(e) => assert_eq!(e.message(), "[Z.1 Harness] n_runs must be > 0"),
        Ok(_) => panic!("ran"),
    }
}

#[test]
fn the_smoke_test_wants_the_key_words() {
    assert_eq!(smoke_text(), "Hello, Z.1!");
    match smoke_test(&pieces(&[" Hel", "lo", ", Z", ".1", "!"])) {
        Ok(s) => assert_eq!(s, " Hello, Z.1!"),
        Err(_) => panic!("failed"),
    }
    match smoke_test(&pieces(&[])) {
        Err(HarnessFault::NoTokens) => {}
        _ => panic!("passed"),
    }
    match smoke_test(&pieces(&["Hello", ", Z.2!"])) {
        Err(HarnessFault::RoundTrip(s)) => assert_eq!(s, "Hello, Z.2!"),
        _ => panic!("passed"),
    }
    match smoke_test(&pieces(&["hello, Z.1!"])) {
        Err(e) => assert_eq!(
            e.message(),
            "[Z.1 Harness] Smoke test FAILED: round-trip mismatch."
        ),
        Ok(_) => panic!("passed"),
    }
    assert_eq!(
        HarnessFault::NoTokens.message(),
        "[Z.1 Harness] Smoke test FAILED: tokenizer returned 0 tokens for \"Hello, Z.1!\""
    );
}
