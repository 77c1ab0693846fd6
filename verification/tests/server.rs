use z1::generate::{server_text, server_turn, Session, T_BOS};
use z1::server::{
    chat_reply, check_extension, close_chat, context_size, json_headers, loaded_reply, model_name, ok_reply, open_chat, preflight,
    route, status_reply, ChatOutcome, Route, ServerFault, Verb,
};

#[test]
fn requests_are_routed() {
    assert_eq!(route(Verb::Options, "/anything"), Route::Preflight);
    assert_eq!(route(Verb::Get, "/status"), Route::Status);
    assert_eq!(route(Verb::Get, "/health"), Route::Health);
    assert_eq!(route(Verb::Post, "/load_model"), Route::LoadModel);
    assert_eq!(route(Verb::Post, "/new_session"), Route::NewSession);
    assert_eq!(route(Verb::Post, "/chat"), Route::Chat);
    assert_eq!(route(Verb::Get, "/chat"), Route::NotFound);
    assert_eq!(route(Verb::Post, "/status"), Route::NotFound);
    assert_eq!(route(Verb::Post, "/chat?x=1"), Route::NotFound);
    assert_eq!(route(Verb::Other, "/health"), Route::NotFound);
}

#[test]
fn headers_allow_every_origin() {
    assert_eq!(
        json_headers(),
        vec![("Content-Type", "application/json"), ("Access-Control-Allow-Origin", "*")]
    );
    let (status, headers) = preflight();
    assert_eq!(status, 204);
    assert_eq!(
        headers,
        vec![
            ("Access-Control-Allow-Origin", "*"),
            ("Access-Control-Allow-Methods", "POST, GET, OPTIONS"),
            ("Access-Control-Allow-Headers", "Content-Type"),
        ]
    );
}

#[test]
fn status_and_health() {
    let r = status_reply(&None);
    assert_eq!((r.status, r.body.as_str()), (200, "{\"loaded\":false,\"model_name\":null}"));
    let r = status_reply(&Some("m.gguf".to_string()));
    assert_eq!(r.body, "{\"loaded\":true,\"model_name\":\"m.gguf\"}");
    let r = ok_reply();
    assert_eq!((r.status, r.body.as_str()), (200, "{\"status\":\"ok\"}"));
}

#[test]
fn bodies_are_json() {
    let r = loaded_reply(&"a \"b\"\\c.gguf".to_string());
    assert_eq!((r.status, r.body.as_str()), (200, "{\"model_name\":\"a \\\"b\\\"\\\\c.gguf\"}"));
    let said = "line\nnext\ttab\r\u{8}\u{c}\u{1}\u{1f}\u{7f} \u{e9}\u{1F600}/".to_string();
    let stats = "3 tokens \u{b7} 1.50 tok/s".to_string();
    let r = chat_reply(&said, &stats);
    assert_eq!(
        r.body,
        "{\"text\":\"line\\nnext\\ttab\\r\\b\\f\\u0001\\u001f\u{7f} \u{e9}\u{1F600}/\",\"stats\":\"3 tokens \u{b7} 1.50 tok/s\"}"
    );
    let back: serde_json::Value = serde_json::from_str(&r.body).unwrap();
    assert_eq!(back["text"], said.as_str());
    assert_eq!(back["stats"], stats.as_str());
}

#[test]
fn faults_are_answered_with_their_words() {
    let cases: Vec<(ServerFault, u16, &str)> = vec![
        (ServerFault::NotFound, 404, "not found"),
        (ServerFault::BadRequest("eof".to_string()), 400, "bad request: eof"),
        (
            ServerFault::NoFile("/x.gguf".to_string()),
            400,
            "Couldn't find a file at that path. Double-check it's correct and the file exists: /x.gguf",
        ),
        (
            ServerFault::NotGguf,
            400,
            "That file doesn't look like a .gguf model file. Z1 currently only loads GGUF format models.",
        ),
        (
            ServerFault::Unreadable,
            500,
            "Found the file, but couldn't read it as a valid model. It may be corrupted, incomplete, or not actually a GGUF file despite the extension.",
        ),
        (
            ServerFault::BadTokenizer,
            500,
            "This model's tokenizer data looks malformed. The model file may be incomplete or use an unsupported tokenizer format.",
        ),
        (
            ServerFault::NoGraph,
            500,
            "Couldn't build the compute graph for this model. It may use an unsupported architecture.",
        ),
        (ServerFault::NoModel, 400, "No model is loaded yet \u{2014} load one first."),
        (ServerFault::EmptyPrompt, 400, "empty prompt"),
        (
            ServerFault::TooLong { max: 512 },
            400,
            "This conversation has gotten too long for the current context window (512 tokens). Try starting a new chat.",
        ),
        (ServerFault::Failed("Prompt is empty".to_string()), 500, "Prompt is empty"),
    ];
    for (fault, status, words) in cases {
        assert_eq!(fault.message(), words);
        let r = fault.reply();
        assert_eq!(r.status, status);
        let back: serde_json::Value = serde_json::from_str(&r.body).unwrap();
        assert_eq!(back["error"], words);
        assert_eq!(r.body, format!("{{\"error\":\"{}\"}}", words));
    }
}

#[test]
fn only_gguf_files_are_loaded() {
    assert!(check_extension(&Some("gguf".to_string())).is_ok());
    assert!(matches!(check_extension(&Some("GGUF".to_string())), Err(ServerFault::NotGguf)));
    assert!(matches!(check_extension(&None), Err(ServerFault::NotGguf)));
    assert_eq!(model_name(Some("a.gguf".to_string())), "a.gguf");
    assert_eq!(model_name(None), "unknown model");
}

#[test]
fn the_context_size_is_a_setting() {
    assert_eq!(context_size(&None), 2048);
    assert_eq!(context_size(&Some("4096".to_string())), 4096);
    assert_eq!(context_size(&Some("-1".to_string())), -1);
    assert_eq!(context_size(&Some("4k".to_string())), 2048);
}

#[test]
fn chat_requests_open_turns() {
    let mut s = Session::new(40, &vec![1], &vec![2, 3]);
    let turn = server_turn(&vec![4], &vec![5, 6], &vec![7]);
    assert_eq!(turn, vec![128006, 4, 128007, 5, 6, 128009, 128006, 7, 128007, 271]);
    assert_eq!(server_text("hi"), "\n\nhi");
    assert!(matches!(open_chat(&mut s, " \n", &turn, 8), Err(ServerFault::EmptyPrompt)));
    assert!(matches!(open_chat(&mut s, "hi", &turn, 30), Err(ServerFault::TooLong { max: 40 })));
    assert!(s.is_empty());
    match open_chat(&mut s, "hi", &turn, 8) {
        Ok(plan) => {
            assert!(plan.reset);
            assert_eq!(plan.tokens.len(), 8 + 10);
            assert_eq!(plan.tokens[0], T_BOS);
        }
        Err(_) => panic!("refused"),
    }
    assert!(!s.is_empty());
}

#[test]
fn replies_become_part_of_the_conversation() {
    let mut s = Session::new(40, &vec![1], &vec![2, 3]);
    let outcome = ChatOutcome { ids: vec![8, 9], text: "hi".to_string(), stats: "2 tokens".to_string() };
    let r = close_chat(&mut s, Ok(outcome));
    assert_eq!((r.status, r.body.as_str()), (200, "{\"text\":\"hi\",\"stats\":\"2 tokens\"}"));
    assert_eq!(s.history_tokens, vec![8, 9, 128009]);
    let r = close_chat(&mut s, Err("Logit error: x".to_string()));
    assert_eq!((r.status, r.body.as_str()), (500, "{\"error\":\"Logit error: x\"}"));
    assert_eq!(s.history_tokens.len(), 3);
}
