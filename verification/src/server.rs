//! The HTTP front door: routes, replies, and what a chat request does to a session.

use vstd::prelude::*;
use vstd::string::*;

use crate::generate::{Session, TurnPlan};
use crate::text;

verus! {

/// Number of positions where no setting names one.
pub const DEFAULT_CTX: i64 = 2048;

/// The method of a request.
#[derive(Clone, Copy, Debug, PartialEq, Eq, Structural)]
pub enum Verb {
    Get,
    Post,
    Options,
    Other,
}

/// Where a request goes.
#[derive(Clone, Copy, Debug, PartialEq, Eq, Structural)]
pub enum Route {
    Preflight,
    Status,
    Health,
    LoadModel,
    NewSession,
    Chat,
    NotFound,
}

/// Where a request with a method and a path goes.
pub open spec fn destination(verb: Verb, url: Seq<char>) -> Route {
    if verb == Verb::Options {
        Route::Preflight
    } else if verb == Verb::Get && url == "/status"@ {
        Route::Status
    } else if verb == Verb::Get && url == "/health"@ {
        Route::Health
    } else if verb == Verb::Post && url == "/load_model"@ {
        Route::LoadModel
    } else if verb == Verb::Post && url == "/new_session"@ {
        Route::NewSession
    } else if verb == Verb::Post && url == "/chat"@ {
        Route::Chat
    } else {
        Route::NotFound
    }
}

/// Where a request with a method and a path goes.
pub fn route(verb: Verb, url: &str) -> (r: Route)
    ensures
        r == destination(verb, url@),
{
    match verb {
        Verb::Options => Route::Preflight,
        Verb::Get => if text::same(url, "/status") {
            Route::Status
        } else if text::same(url, "/health") {
            Route::Health
        } else {
            Route::NotFound
        },
        Verb::Post => if text::same(url, "/load_model") {
            Route::LoadModel
        } else if text::same(url, "/new_session") {
            Route::NewSession
        } else if text::same(url, "/chat") {
            Route::Chat
        } else {
            Route::NotFound
        },
        Verb::Other => Route::NotFound,
    }
}

/// A lower-case hexadecimal digit.
pub open spec fn hex(d: int) -> char {
    if d < 10 {
        ('0' as int + d) as char
    } else {
        ('a' as int + d - 10) as char
    }
}

/// A character as it stands in a JSON string.
pub open spec fn escaped(c: char) -> Seq<char> {
    let code = c as int;
    if c == '"' {
        seq!['\\', '"']
    } else if c == '\\' {
        seq!['\\', '\\']
    } else if c == '\u{8}' {
        seq!['\\', 'b']
    } else if c == '\u{9}' {
        seq!['\\', 't']
    } else if c == '\u{a}' {
        seq!['\\', 'n']
    } else if c == '\u{c}' {
        seq!['\\', 'f']
    } else if c == '\u{d}' {
        seq!['\\', 'r']
    } else if code < 32 {
        seq!['\\', 'u', '0', '0', hex(code / 16), hex(code % 16)]
    } else {
        seq![c]
    }
}

/// Characters as they stand in a JSON string, one after the other.
pub open spec fn escaped_all(s: Seq<char>) -> Seq<char>
    decreases s.len(),
{
    if s.len() == 0 {
        Seq::empty()
    } else {
        escaped_all(s.drop_last()) + escaped(s.last())
    }
}

/// A text as a JSON string.
pub open spec fn json_string(s: Seq<char>) -> Seq<char> {
    seq!['"'] + escaped_all(s) + seq!['"']
}

/// Calls `serde_json::to_string` on a `str`, which puts quotes around the text and escapes quotes,
/// backslashes and control characters. It cannot fail on a `str`, as it writes to memory.
#[verifier::external_body]
fn to_json(s: &str) -> (r: String)
    ensures
        r@ == json_string(s@),
{
    serde_json::to_string(s).unwrap()
}

/// A reply with a JSON body.
pub struct HttpReply {
    pub status: u16,
    pub body: String,
}

impl HttpReply {
    /// The reply has a status and a body.
    pub open spec fn says(&self, status: u16, body: Seq<char>) -> bool {
        self.status == status && self.body@ == body
    }
}

/// The headers of every reply with a body, by name and value.
pub fn json_headers() -> (r: Vec<(&'static str, &'static str)>)
    ensures
        r@.len() == 2,
        r@[0].0@ == "Content-Type"@ && r@[0].1@ == "application/json"@,
        r@[1].0@ == "Access-Control-Allow-Origin"@ && r@[1].1@ == "*"@,
{
    let mut out: Vec<(&'static str, &'static str)> = Vec::new();
    out.push(("Content-Type", "application/json"));
    out.push(("Access-Control-Allow-Origin", "*"));
    out
}

/// Status and headers of the reply to a preflight request, which has no body.
pub fn preflight() -> (r: (u16, Vec<(&'static str, &'static str)>))
    ensures
        r.0 == 204,
        r.1@.len() == 3,
        r.1@[0].0@ == "Access-Control-Allow-Origin"@ && r.1@[0].1@ == "*"@,
        r.1@[1].0@ == "Access-Control-Allow-Methods"@ && r.1@[1].1@ == "POST, GET, OPTIONS"@,
        r.1@[2].0@ == "Access-Control-Allow-Headers"@ && r.1@[2].1@ == "Content-Type"@,
{
    let mut out: Vec<(&'static str, &'static str)> = Vec::new();
    out.push(("Access-Control-Allow-Origin", "*"));
    out.push(("Access-Control-Allow-Methods", "POST, GET, OPTIONS"));
    out.push(("Access-Control-Allow-Headers", "Content-Type"));
    (204, out)
}

/// Why a request is not granted.
pub enum ServerFault {
    /// There is nothing at this path.
    NotFound,
    /// The request could not be read, for this reason.
    BadRequest(String),
    /// There is no file at this path.
    NoFile(String),
    /// The file has another extension than `gguf`.
    NotGguf,
    /// The file could not be loaded.
    Unreadable,
    /// The file's tokenizer could not be made.
    BadTokenizer,
    /// The forward pass could not be made.
    NoGraph,
    /// No model is loaded.
    NoModel,
    /// The prompt is blank.
    EmptyPrompt,
    /// The turn does not fit a context of this length.
    TooLong { max: usize },
    /// The reply could not be generated, for this reason.
    Failed(String),
}

impl ServerFault {
    /// The fault in words.
    pub open spec fn words(self) -> Seq<char> {
        match self {
            ServerFault::NotFound => "not found"@,
            ServerFault::BadRequest(e) => "bad request: "@ + e@,
            ServerFault::NoFile(path) =>
                "Couldn't find a file at that path. Double-check it's correct and the file exists: "@
                + path@,
            ServerFault::NotGguf =>
                "That file doesn't look like a .gguf model file. Z1 currently only loads GGUF format models."@,
            ServerFault::Unreadable =>
                "Found the file, but couldn't read it as a valid model. It may be corrupted, incomplete, or not actually a GGUF file despite the extension."@,
            ServerFault::BadTokenizer =>
                "This model's tokenizer data looks malformed. The model file may be incomplete or use an unsupported tokenizer format."@,
            ServerFault::NoGraph =>
                "Couldn't build the compute graph for this model. It may use an unsupported architecture."@,
            ServerFault::NoModel => "No model is loaded yet \u{2014} load one first."@,
            ServerFault::EmptyPrompt => "empty prompt"@,
            ServerFault::TooLong { max } =>
                "This conversation has gotten too long for the current context window ("@
                + text::decimal(max as nat) + " tokens). Try starting a new chat."@,
            ServerFault::Failed(e) => e@,
        }
    }

    /// The fault in words.
    pub fn message(&self) -> (r: String)
        ensures
            r@ == self.words(),
    {
        match self {
            ServerFault::NotFound => "not found".to_owned(),
            ServerFault::BadRequest(e) => text::join("bad request: ", e.as_str()),
            ServerFault::NoFile(path) => text::join(
                "Couldn't find a file at that path. Double-check it's correct and the file exists: ",
                path.as_str(),
            ),
            ServerFault::NotGguf =>
                "That file doesn't look like a .gguf model file. Z1 currently only loads GGUF format models.".to_owned(),
            ServerFault::Unreadable =>
                "Found the file, but couldn't read it as a valid model. It may be corrupted, incomplete, or not actually a GGUF file despite the extension.".to_owned(),
            ServerFault::BadTokenizer =>
                "This model's tokenizer data looks malformed. The model file may be incomplete or use an unsupported tokenizer format.".to_owned(),
            ServerFault::NoGraph =>
                "Couldn't build the compute graph for this model. It may use an unsupported architecture.".to_owned(),
            ServerFault::NoModel => "No model is loaded yet \u{2014} load one first.".to_owned(),
            ServerFault::EmptyPrompt => "empty prompt".to_owned(),
            ServerFault::TooLong { max } => {
                let mut out: String =
                    "This conversation has gotten too long for the current context window (".to_owned();
                text::push_decimal(&mut out, *max as u64);
                out.append(" tokens). Try starting a new chat.");
                out
            },
            ServerFault::Failed(e) => e.clone(),
        }
    }

    /// The status of the reply: whose fault it is.
    pub open spec fn status(self) -> u16 {
        match self {
            ServerFault::NotFound => 404,
            ServerFault::Unreadable | ServerFault::BadTokenizer | ServerFault::NoGraph => 500,
            ServerFault::Failed(_) => 500,
            _ => 400,
        }
    }

    /// The reply to a request that is not granted.
    pub fn reply(&self) -> (r: HttpReply)
        ensures
            r.says(self.status(), "{\"error\":"@ + json_string(self.words()) + "}"@),
    {
        let status: u16 = match self {
            ServerFault::NotFound => 404,
            ServerFault::Unreadable | ServerFault::BadTokenizer | ServerFault::NoGraph => 500,
            ServerFault::Failed(_) => 500,
            _ => 400,
        };
        let words: String = self.message();
        let mut body: String = "{\"error\":".to_owned();
        body.append(to_json(words.as_str()).as_str());
        body.append("}");
        HttpReply { status, body }
    }
}

/// The reply to a status request; the name of the model stands in it as it is.
pub fn status_reply(model_name: &Option<String>) -> (r: HttpReply)
    ensures
        r.says(
            200,
            match model_name {
                Some(name) => "{\"loaded\":true,\"model_name\":\""@ + name@ + "\"}"@,
                None => "{\"loaded\":false,\"model_name\":null}"@,
            },
        ),
{
    let body: String = match model_name {
        Some(name) => {
            let mut out: String = "{\"loaded\":true,\"model_name\":\"".to_owned();
            out.append(name.as_str());
            out.append("\"}");
            out
        },
        None => "{\"loaded\":false,\"model_name\":null}".to_owned(),
    };
    HttpReply { status: 200, body }
}

/// The reply to a health request, and to one for a new session.
pub fn ok_reply() -> (r: HttpReply)
    ensures
        r.says(200, "{\"status\":\"ok\"}"@),
{
    HttpReply { status: 200, body: "{\"status\":\"ok\"}".to_owned() }
}

/// The reply to a request that loaded a model.
pub fn loaded_reply(model_name: &String) -> (r: HttpReply)
    ensures
        r.says(200, "{\"model_name\":"@ + json_string(model_name@) + "}"@),
{
    let mut body: String = "{\"model_name\":".to_owned();
    body.append(to_json(model_name.as_str()).as_str());
    body.append("}");
    HttpReply { status: 200, body }
}

/// The reply to a chat request.
pub fn chat_reply(reply: &String, stats: &String) -> (r: HttpReply)
    ensures
        r.says(
            200,
            "{\"text\":"@ + json_string(reply@) + ",\"stats\":"@ + json_string(stats@) + "}"@,
        ),
{
    let mut body: String = "{\"text\":".to_owned();
    body.append(to_json(reply.as_str()).as_str());
    body.append(",\"stats\":");
    body.append(to_json(stats.as_str()).as_str());
    body.append("}");
    HttpReply { status: 200, body }
}

/// Whether a file with this extension may be a model.
pub fn check_extension(extension: &Option<String>) -> (r: Result<(), ServerFault>)
    ensures
        match r {
            Ok(()) => extension matches Some(e) && e@ == "gguf"@,
            Err(fault) => !(extension matches Some(e) && e@ == "gguf"@) && fault is NotGguf,
        },
{
    match extension {
        Some(e) => if text::same(e.as_str(), "gguf") {
            Ok(())
        } else {
            Err(ServerFault::NotGguf)
        },
        None => Err(ServerFault::NotGguf),
    }
}

/// The name of a model, from the name of its file.
pub fn model_name(file_name: Option<String>) -> (r: String)
    ensures
        r@ == (match file_name {
            Some(name) => name@,
            None => "unknown model"@,
        }),
{
    match file_name {
        Some(name) => name,
        None => "unknown model".to_owned(),
    }
}

/// The number of positions that a setting asks for; the default where it is no integer.
pub fn context_size(setting: &Option<String>) -> (r: i64)
    ensures
        r == (match setting {
            Some(s) => match text::integer(s@) {
                Some(n) => n,
                None => DEFAULT_CTX as int,
            },
            None => DEFAULT_CTX as int,
        }),
{
    match setting {
        Some(s) => match text::parse_i64(s.as_str()) {
            Some(n) => n,
            None => DEFAULT_CTX,
        },
        None => DEFAULT_CTX,
    }
}

/// Takes a chat request in, whose turn is `turn` as tokens.
pub fn open_chat(session: &mut Session, prompt: &str, turn: &Vec<u32>, max_new: usize) -> (r: Result<
    TurnPlan,
    ServerFault,
>)
    requires
        0 < turn@.len(),
        turn@.len() + max_new <= usize::MAX,
        old(session).turn_count < usize::MAX,
    ensures
        ({
            let d = old(session)@;
            let n = turn@.len() as int;
            let blank = text::trimmed(prompt@).len() == 0;
            match r {
                Ok(plan) => {
                    &&& !blank && !d.refuses(n, max_new as int)
                    &&& final(session)@ == d.opened(turn@, max_new as int)
                    &&& plan.reset == d.refills(n, max_new as int)
                    &&& plan.tokens@ == d.fed(turn@, max_new as int)
                },
                Err(ServerFault::EmptyPrompt) => blank && final(session)@ == d,
                Err(ServerFault::TooLong { max }) => {
                    &&& !blank && d.refuses(n, max_new as int)
                    &&& max == d.context_len
                    &&& final(session)@ == d
                },
                Err(_) => false,
            }
        }),
{
    if text::is_blank(prompt) {
        return Err(ServerFault::EmptyPrompt);
    }
    match session.open_turn(turn, max_new) {
        Ok(plan) => Ok(plan),
        Err(_) => Err(ServerFault::TooLong { max: session.context_len }),
    }
}

/// What became of a chat request that was taken in.
pub struct ChatOutcome {
    /// The tokens of the reply.
    pub ids: Vec<u32>,
    /// The text of the reply.
    pub text: String,
    /// What it took, in words.
    pub stats: String,
}

/// Answers a chat request that was taken in: a reply becomes part of the conversation, and a
/// failure, given in words, leaves it as it is.
pub fn close_chat(session: &mut Session, outcome: Result<ChatOutcome, String>) -> (r: HttpReply)
    ensures
        match outcome {
            Ok(o) => {
                &&& final(session)@ == old(session)@.replied(o.ids@)
                &&& r.says(
                    200,
                    "{\"text\":"@ + json_string(o.text@) + ",\"stats\":"@ + json_string(o.stats@)
                        + "}"@,
                )
            },
            Err(e) => {
                &&& final(session)@ == old(session)@
                &&& r.says(500, "{\"error\":"@ + json_string(e@) + "}"@)
            },
        },
{
    match outcome {
        Ok(o) => {
            session.commit(&o.ids);
            chat_reply(&o.text, &o.stats)
        },
        Err(e) => ServerFault::Failed(e).reply(),
    }
}

/// Each route has one method and one path, but that preflight requests go to one place whatever
/// their path. Everything else is not found.
pub proof fn routes_have_one_address(verb: Verb, url: Seq<char>)
    ensures
        destination(Verb::Options, url) == Route::Preflight,
        destination(Verb::Other, url) == Route::NotFound,
        destination(Verb::Get, "/status"@) == Route::Status,
        destination(Verb::Get, "/health"@) == Route::Health,
        destination(Verb::Post, "/load_model"@) == Route::LoadModel,
        destination(Verb::Post, "/new_session"@) == Route::NewSession,
        destination(Verb::Post, "/chat"@) == Route::Chat,
        destination(verb, url) == Route::Preflight ==> verb == Verb::Options,
        destination(verb, url) == Route::Status ==> verb == Verb::Get && url == "/status"@,
        destination(verb, url) == Route::Health ==> verb == Verb::Get && url == "/health"@,
        destination(verb, url) == Route::LoadModel ==> verb == Verb::Post && url == "/load_model"@,
        destination(verb, url) == Route::NewSession ==> verb == Verb::Post && url
            == "/new_session"@,
        destination(verb, url) == Route::Chat ==> verb == Verb::Post && url == "/chat"@,
{
    reveal_strlit("/status");
    reveal_strlit("/health");
    reveal_strlit("/load_model");
    reveal_strlit("/new_session");
    reveal_strlit("/chat");
    assert("/status"@[1] == 's' && "/health"@[1] == 'h');
    assert("/load_model"@[1] == 'l' && "/new_session"@[1] == 'n' && "/chat"@[1] == 'c');
}

/// The status of a fault: nothing is there, the model could not be brought up or failed, or the
/// request is at fault.
pub proof fn faults_have_these_statuses(s: String, max: usize)
    ensures
        ServerFault::NotFound.status() == 404,
        ServerFault::Unreadable.status() == 500,
        ServerFault::BadTokenizer.status() == 500,
        ServerFault::NoGraph.status() == 500,
        ServerFault::Failed(s).status() == 500,
        ServerFault::BadRequest(s).status() == 400,
        ServerFault::NoFile(s).status() == 400,
        ServerFault::NotGguf.status() == 400,
        ServerFault::NoModel.status() == 400,
        ServerFault::EmptyPrompt.status() == 400,
        (ServerFault::TooLong { max }).status() == 400,
        DEFAULT_CTX == 2048,
{
}

/// The faults in words.
pub proof fn faults_are_told_in_these_words(s: String, max: usize)
    ensures
        ServerFault::NotFound.words() == "not found"@,
        ServerFault::NotGguf.words() == "That file doesn't look like a .gguf model file. Z1 currently only loads GGUF format models."@,
        ServerFault::Unreadable.words() == "Found the file, but couldn't read it as a valid model. It may be corrupted, incomplete, or not actually a GGUF file despite the extension."@,
        ServerFault::BadTokenizer.words() == "This model's tokenizer data looks malformed. The model file may be incomplete or use an unsupported tokenizer format."@,
        ServerFault::NoGraph.words() == "Couldn't build the compute graph for this model. It may use an unsupported architecture."@,
        ServerFault::NoModel.words() == "No model is loaded yet \u{2014} load one first."@,
        ServerFault::EmptyPrompt.words() == "empty prompt"@,
        ServerFault::BadRequest(s).words() == "bad request: "@ + s@,
        ServerFault::NoFile(s).words() == "Couldn't find a file at that path. Double-check it's correct and the file exists: "@
            + s@,
        (ServerFault::TooLong { max }).words()
            == "This conversation has gotten too long for the current context window ("@
            + text::decimal(max as nat) + " tokens). Try starting a new chat."@,
        ServerFault::Failed(s).words() == s@,
{
}

/// A JSON string stands in quotes. Each character stands for itself, one after the other, but for
/// quotes, backslashes and control characters.
pub proof fn json_strings_escape_few_characters(s: Seq<char>, c: char)
    ensures
        json_string(s) == seq!['"'] + escaped_all(s) + seq!['"'],
        escaped_all(Seq::empty()).len() == 0,
        escaped_all(s.push(c)) == escaped_all(s) + escaped(c),
        c as int >= 32 && c != '"' && c != '\\' ==> escaped(c) == seq![c],
        escaped('"') == seq!['\\', '"'],
        escaped('\\') == seq!['\\', '\\'],
        escaped('\u{8}') == seq!['\\', 'b'],
        escaped('\u{9}') == seq!['\\', 't'],
        escaped('\u{a}') == seq!['\\', 'n'],
        escaped('\u{c}') == seq!['\\', 'f'],
        escaped('\u{d}') == seq!['\\', 'r'],
        escaped('\u{0}') == seq!['\\', 'u', '0', '0', '0', '0'],
        escaped('\u{1f}') == seq!['\\', 'u', '0', '0', '1', 'f'],
{
    assert(s.push(c).drop_last() =~= s);
}

/// A control character without a letter of its own is told by its code, in four hexadecimal
/// digits.
pub proof fn control_characters_are_told_by_code(c: char)
    requires
        c as int <= 7 || c as int == 11 || 14 <= c as int <= 31,
    ensures
        ({
            let e = escaped(c);
            let low = e[5];
            &&& e.len() == 6
            &&& e.take(4) == seq!['\\', 'u', '0', '0']
            &&& e[4] == (if c as int >= 16 {
                '1'
            } else {
                '0'
            })
            &&& '0' <= low <= '9' ==> c as int % 16 == low as int - '0' as int
            &&& 'a' <= low <= 'f' ==> c as int % 16 == low as int - 'a' as int + 10
            &&& '0' <= low <= '9' || 'a' <= low <= 'f'
        }),
{
    assert(escaped(c).take(4) =~= seq!['\\', 'u', '0', '0']);
}

} // verus!
