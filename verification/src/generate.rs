//! Chat sessions over a sliding window, and the generation loop.
//!
//! A [`Session`] holds the system prompt and the history of a conversation as token ids. When a
//! turn would not fit, the oldest history is dropped, the system prompt stays, and the cache is
//! filled anew. A [`Generation`] is the loop that turns sampled tokens into a reply.

use vstd::prelude::*;
use vstd::string::*;

use crate::graph::ForwardError;
use crate::text;

verus! {

/// Marks the beginning of a text.
pub const T_BOS: u32 = 128000;

/// Opens the header of a message.
pub const T_START_HEADER: u32 = 128006;

/// Closes the header of a message.
pub const T_END_HEADER: u32 = 128007;

/// Ends a message.
pub const T_EOT: u32 = 128009;

/// An empty line.
pub const T_NEWLINES: u32 = 271;

/// How many tokens of history are dropped at a time.
pub const DROP_BLOCK: usize = 128;

/// How many generated tokens count as recent.
pub const RECENT_LEN: usize = 64;

/// Why a reply could not be generated.
#[allow(inconsistent_fields)]
pub enum GenerateError {
    /// The forward pass failed.
    Forward(ForwardError),
    /// Sampling failed, for this reason.
    Logit(String),
    /// Writing the reply failed, for this reason.
    Io(String),
    /// The prompt is empty.
    EmptyPrompt,
    /// A turn does not fit the context, whatever is dropped.
    ContextLengthExceeded { max: usize },
    /// The cache has too few rows left.
    ContextFull { used: i64, max: i64 },
}

impl GenerateError {
    /// The error in words.
    pub open spec fn words(self) -> Seq<char> {
        match self {
            GenerateError::Forward(e) => "Forward pass error: "@ + e.words(),
            GenerateError::Logit(e) => "Logit error: "@ + e@,
            GenerateError::Io(e) => "I/O error: "@ + e@,
            GenerateError::EmptyPrompt => "Prompt is empty"@,
            GenerateError::ContextLengthExceeded { max } => "Context length exceeded (max "@
                + text::decimal(max as nat) + " tokens)"@,
            GenerateError::ContextFull { used, max } => "Conversation context full ("@
                + text::signed_decimal(used as int) + "/"@ + text::signed_decimal(max as int)
                + " tokens)"@,
        }
    }

    /// The error in words.
    pub fn message(&self) -> (r: String)
        ensures
            r@ == self.words(),
    {
        match self {
            GenerateError::Forward(e) => text::join("Forward pass error: ", e.message().as_str()),
            GenerateError::Logit(e) => text::join("Logit error: ", e.as_str()),
            GenerateError::Io(e) => text::join("I/O error: ", e.as_str()),
            GenerateError::EmptyPrompt => "Prompt is empty".to_owned(),
            GenerateError::ContextLengthExceeded { max } => {
                let mut out: String = "Context length exceeded (max ".to_owned();
                text::push_decimal(&mut out, *max as u64);
                out.append(" tokens)");
                out
            },
            GenerateError::ContextFull { used, max } => {
                let mut out: String = "Conversation context full (".to_owned();
                text::push_signed_decimal(&mut out, *used);
                out.append("/");
                text::push_signed_decimal(&mut out, *max);
                out.append(" tokens)");
                out
            },
        }
    }
}

/// How replies are generated; `S` is the configuration of the sampler.
pub struct GenerateConfig<S> {
    pub max_new_tokens: usize,
    pub sampling: S,
    pub context_len: usize,
    pub print_timing: bool,
    pub add_bos: bool,
    pub chat_template: bool,
}

impl<S> GenerateConfig<S> {
    /// The usual configuration with a given sampler.
    pub fn with_sampling(sampling: S) -> (cfg: GenerateConfig<S>)
        ensures
            cfg == (GenerateConfig {
                max_new_tokens: 256,
                sampling,
                context_len: 512,
                print_timing: true,
                add_bos: true,
                chat_template: true,
            }),
    {
        GenerateConfig {
            max_new_tokens: 256,
            sampling,
            context_len: 512,
            print_timing: true,
            add_bos: true,
            chat_template: true,
        }
    }
}

/// A conversation: the system prompt, and what was said since.
pub struct Dialogue {
    pub turn_count: nat,
    pub context_len: nat,
    pub system: Seq<u32>,
    pub history: Seq<u32>,
}

/// How many of `len` tokens are dropped so that at most `room` are left: whole blocks, or all.
pub open spec fn dropped(len: int, room: int) -> int {
    if len <= room {
        0
    } else {
        let blocks = (len - room + DROP_BLOCK - 1) / DROP_BLOCK as int;
        if blocks * DROP_BLOCK <= len {
            blocks * DROP_BLOCK
        } else {
            len
        }
    }
}

impl Dialogue {
    /// Room for history beside the system prompt and a turn that needs `needed` tokens.
    pub open spec fn room(self, needed: int) -> int {
        self.context_len - self.system.len() - needed
    }

    /// A turn of `n` tokens and a reply of up to `max_new` do not fit, whatever is dropped.
    pub open spec fn refuses(self, n: int, max_new: int) -> bool {
        n + max_new > (if self.context_len >= self.system.len() {
            self.context_len - self.system.len()
        } else {
            0
        })
    }

    /// The history that is kept for a turn of `n` tokens and a reply of up to `max_new`.
    pub open spec fn kept(self, n: int, max_new: int) -> Seq<u32> {
        self.history.skip(dropped(self.history.len() as int, self.room(n + max_new)))
    }

    /// Whether the cache is filled anew for a turn: history is dropped, or there is none yet.
    pub open spec fn refills(self, n: int, max_new: int) -> bool {
        self.history.len() > self.room(n + max_new) || self.turn_count == 0
    }

    /// The conversation after a turn was taken in.
    pub open spec fn opened(self, turn: Seq<u32>, max_new: int) -> Dialogue {
        Dialogue {
            turn_count: self.turn_count + 1,
            history: self.kept(turn.len() as int, max_new) + turn,
            ..self
        }
    }

    /// The tokens that a turn feeds to the model: everything, where the cache is filled anew, and
    /// else the turn alone.
    pub open spec fn fed(self, turn: Seq<u32>, max_new: int) -> Seq<u32> {
        if self.refills(turn.len() as int, max_new) {
            self.system + self.opened(turn, max_new).history
        } else {
            turn
        }
    }

    /// The conversation after a reply was added.
    pub open spec fn replied(self, reply: Seq<u32>) -> Dialogue {
        Dialogue { history: (self.history + reply).push(T_EOT), ..self }
    }
}

/// A chat session.
pub struct Session {
    pub turn_count: usize,
    pub context_len: usize,
    pub system_tokens: Vec<u32>,
    pub history_tokens: Vec<u32>,
}

impl View for Session {
    type V = Dialogue;

    open spec fn view(&self) -> Dialogue {
        Dialogue {
            turn_count: self.turn_count as nat,
            context_len: self.context_len as nat,
            system: self.system_tokens@,
            history: self.history_tokens@,
        }
    }
}

/// The system prompt as tokens, from the tokens of its role and of its text.
pub open spec fn system_message(role: Seq<u32>, prompt: Seq<u32>) -> Seq<u32> {
    (seq![T_BOS, T_START_HEADER] + role + seq![T_END_HEADER, T_NEWLINES] + prompt).push(T_EOT)
}

/// A turn of the console as tokens: the user's message, and the header of the reply.
pub open spec fn console_message(user: Seq<u32>, message: Seq<u32>, assistant: Seq<u32>) -> Seq<
    u32,
> {
    seq![T_START_HEADER] + user + seq![T_END_HEADER, T_NEWLINES] + message + seq![
        T_EOT,
        T_START_HEADER,
    ] + assistant + seq![T_END_HEADER, T_NEWLINES]
}

/// A turn of the server as tokens: the empty line is part of the user's message.
pub open spec fn server_message(user: Seq<u32>, message: Seq<u32>, assistant: Seq<u32>) -> Seq<
    u32,
> {
    seq![T_START_HEADER] + user + seq![T_END_HEADER] + message + seq![
        T_EOT,
        T_START_HEADER,
    ] + assistant + seq![T_END_HEADER, T_NEWLINES]
}

/// The role of the system prompt.
pub fn system_role() -> (r: &'static str)
    ensures
        r@ == "system"@,
{
    "system"
}

/// The text of the system prompt.
pub fn system_prompt() -> (r: &'static str)
    ensures
        r@ == "You are a highly capable AI assistant."@,
{
    "You are a highly capable AI assistant."
}

/// The role of the user.
pub fn user_role() -> (r: &'static str)
    ensures
        r@ == "user"@,
{
    "user"
}

/// The role of the model.
pub fn assistant_role() -> (r: &'static str)
    ensures
        r@ == "assistant"@,
{
    "assistant"
}

/// The user's message as the server encodes it, after an empty line.
pub fn server_text(prompt: &str) -> (r: String)
    ensures
        r@ == "\n\n"@ + prompt@,
{
    text::join("\n\n", prompt)
}

/// A turn of the console as tokens.
pub fn console_turn(user: &Vec<u32>, message: &Vec<u32>, assistant: &Vec<u32>) -> (r: Vec<u32>)
    ensures
        r@ == console_message(user@, message@, assistant@),
{
    let mut out: Vec<u32> = Vec::new();
    out.push(T_START_HEADER);
    out.extend_from_slice(user.as_slice());
    out.push(T_END_HEADER);
    out.push(T_NEWLINES);
    out.extend_from_slice(message.as_slice());
    out.push(T_EOT);
    out.push(T_START_HEADER);
    out.extend_from_slice(assistant.as_slice());
    out.push(T_END_HEADER);
    out.push(T_NEWLINES);
    assert(out@ =~= console_message(user@, message@, assistant@));
    out
}

/// A turn of the server as tokens.
pub fn server_turn(user: &Vec<u32>, message: &Vec<u32>, assistant: &Vec<u32>) -> (r: Vec<u32>)
    ensures
        r@ == server_message(user@, message@, assistant@),
{
    let mut out: Vec<u32> = Vec::new();
    out.push(T_START_HEADER);
    out.extend_from_slice(user.as_slice());
    out.push(T_END_HEADER);
    out.extend_from_slice(message.as_slice());
    out.push(T_EOT);
    out.push(T_START_HEADER);
    out.extend_from_slice(assistant.as_slice());
    out.push(T_END_HEADER);
    out.push(T_NEWLINES);
    assert(out@ =~= server_message(user@, message@, assistant@));
    out
}

/// What a turn asks of the model.
pub struct TurnPlan {
    /// Whether the cache is to be emptied first.
    pub reset: bool,
    /// The tokens to process.
    pub tokens: Vec<u32>,
}

impl Session {
    /// A session without history, from the tokens of the system role and of the system prompt.
    pub fn new(context_len: usize, role: &Vec<u32>, prompt: &Vec<u32>) -> (s: Session)
        ensures
            s@ == (Dialogue {
                turn_count: 0,
                context_len: context_len as nat,
                system: system_message(role@, prompt@),
                history: Seq::empty(),
            }),
    {
        let mut sys: Vec<u32> = Vec::new();
        sys.push(T_BOS);
        sys.push(T_START_HEADER);
        sys.extend_from_slice(role.as_slice());
        sys.push(T_END_HEADER);
        sys.push(T_NEWLINES);
        sys.extend_from_slice(prompt.as_slice());
        sys.push(T_EOT);
        assert(sys@ =~= system_message(role@, prompt@));
        Session { turn_count: 0, context_len, system_tokens: sys, history_tokens: Vec::new() }
    }

    /// Whether no turn was taken yet.
    pub fn is_empty(&self) -> (r: bool)
        ensures
            r == (self@.turn_count == 0),
    {
        self.turn_count == 0
    }

    /// Forgets the history, and keeps the system prompt.
    pub fn reset(&mut self)
        ensures
            final(self)@ == (Dialogue {
                turn_count: 0,
                history: Seq::empty(),
                ..old(self)@
            }),
    {
        self.turn_count = 0;
        self.history_tokens.clear();
    }

    /// Drops the oldest history, block by block, until at most `room` tokens are left.
    fn slide(&mut self, room: usize) -> (any: bool)
        ensures
            any == (old(self).history_tokens@.len() > room),
            final(self)@ == (Dialogue {
                history: old(self)@.history.skip(
                    dropped(old(self)@.history.len() as int, room as int),
                ),
                ..old(self)@
            }),
    {
        let ghost all = self.history_tokens@;
        let ghost mut gone: int = 0;
        let mut any: bool = false;
        assert(all.skip(0) =~= all);
        while self.history_tokens.len() > room
            invariant
                0 <= gone <= all.len(),
                self.history_tokens@ == all.skip(gone),
                self.turn_count == old(self).turn_count,
                self.context_len == old(self).context_len,
                self.system_tokens == old(self).system_tokens,
                any == (gone > 0),
                gone % (DROP_BLOCK as int) == 0 || gone == all.len(),
                gone > 0 && gone < all.len() ==> gone - DROP_BLOCK < all.len() - room,
                gone == all.len() && gone > 0 ==> dropped(all.len() as int, room as int)
                    == all.len(),
            decreases self.history_tokens@.len(),
        {
            let amount: usize = if self.history_tokens.len() < DROP_BLOCK {
                self.history_tokens.len()
            } else {
                DROP_BLOCK
            };
            let rest: Vec<u32> = self.history_tokens.split_off(amount);
            self.history_tokens = rest;
            any = true;
            assert(all.skip(gone).skip(amount as int) =~= all.skip(gone + amount));
            proof {
                gone = gone + amount;
            }
        }
        assert(gone == dropped(all.len() as int, room as int));
        any
    }

    /// Takes a turn in, with room for a reply of up to `max_new` tokens: drops the oldest history
    /// as far as needed, and tells what the model is to process.
    pub fn open_turn(&mut self, turn: &Vec<u32>, max_new: usize) -> (r: Result<
        TurnPlan,
        GenerateError,
    >)
        requires
            0 < turn@.len(),
            turn@.len() + max_new <= usize::MAX,
            old(self).turn_count < usize::MAX,
        ensures
            ({
                let d = old(self)@;
                let n = turn@.len() as int;
                match r {
                    Ok(plan) => {
                        &&& !d.refuses(n, max_new as int)
                        &&& final(self)@ == d.opened(turn@, max_new as int)
                        &&& plan.reset == d.refills(n, max_new as int)
                        &&& plan.tokens@ == d.fed(turn@, max_new as int)
                    },
                    Err(GenerateError::ContextLengthExceeded { max }) => {
                        &&& d.refuses(n, max_new as int)
                        &&& max == d.context_len
                        &&& final(self)@ == d
                    },
                    Err(_) => false,
                }
            }),
    {
        let needed: usize = turn.len() + max_new;
        let available: usize = if self.context_len >= self.system_tokens.len() {
            self.context_len - self.system_tokens.len()
        } else {
            0
        };
        if needed > available {
            return Err(GenerateError::ContextLengthExceeded { max: self.context_len });
        }
        let slid: bool = self.slide(available - needed);
        self.history_tokens.extend_from_slice(turn.as_slice());
        let mut tokens: Vec<u32> = Vec::new();
        let reset: bool = slid || self.turn_count == 0;
        if reset {
            tokens.extend_from_slice(self.system_tokens.as_slice());
            tokens.extend_from_slice(self.history_tokens.as_slice());
        } else {
            tokens.extend_from_slice(turn.as_slice());
        }
        self.turn_count = self.turn_count + 1;
        proof {
            let d = old(self)@;
            assert(self.history_tokens@ =~= d.opened(turn@, max_new as int).history);
            assert(tokens@ =~= d.fed(turn@, max_new as int));
        }
        Ok(TurnPlan { reset, tokens })
    }

    /// Adds a reply to the history.
    pub fn commit(&mut self, reply: &Vec<u32>)
        ensures
            final(self)@ == old(self)@.replied(reply@),
    {
        self.history_tokens.extend_from_slice(reply.as_slice());
        self.history_tokens.push(T_EOT);
        assert(self.history_tokens@ =~= old(self)@.replied(reply@).history);
    }
}

/// Takes a user's message in, whose turn is `turn` as tokens.
pub fn generate_turn(
    user_message: &str,
    session: &mut Session,
    turn: &Vec<u32>,
    max_new: usize,
) -> (r: Result<TurnPlan, GenerateError>)
    requires
        0 < turn@.len(),
        turn@.len() + max_new <= usize::MAX,
        old(session).turn_count < usize::MAX,
    ensures
        ({
            let d = old(session)@;
            let n = turn@.len() as int;
            let blank = text::trimmed(user_message@).len() == 0;
            match r {
                Ok(plan) => {
                    &&& !blank && !d.refuses(n, max_new as int)
                    &&& final(session)@ == d.opened(turn@, max_new as int)
                    &&& plan.reset == d.refills(n, max_new as int)
                    &&& plan.tokens@ == d.fed(turn@, max_new as int)
                },
                Err(GenerateError::EmptyPrompt) => blank && final(session)@ == d,
                Err(GenerateError::ContextLengthExceeded { max }) => {
                    &&& !blank && d.refuses(n, max_new as int)
                    &&& max == d.context_len
                    &&& final(session)@ == d
                },
                Err(_) => false,
            }
        }),
{
    if text::is_blank(user_message) {
        return Err(GenerateError::EmptyPrompt);
    }
    session.open_turn(turn, max_new)
}

/// The last `RECENT_LEN` of a list of tokens.
pub open spec fn newest(ids: Seq<u32>) -> Seq<u32> {
    if ids.len() <= RECENT_LEN {
        ids
    } else {
        ids.skip(ids.len() - RECENT_LEN)
    }
}

/// A reply in the making.
pub struct Generation {
    /// Number of cache rows.
    pub n_ctx: i64,
    /// The most tokens that the reply may have.
    pub max_new: usize,
    /// The tokens of the reply so far.
    pub ids: Vec<u32>,
    /// The last of these tokens.
    pub recent: Vec<u32>,
    /// The text of the reply so far.
    pub text: String,
}

impl Generation {
    /// The recent tokens are the newest of the reply, which is not too long.
    pub open spec fn well_formed(&self) -> bool {
        &&& self.recent@ == newest(self.ids@)
        &&& self.ids@.len() <= self.max_new
    }

    /// The text is that of the tokens, one after the other, where `piece` is the text of a token.
    pub open spec fn tells(&self, piece: spec_fn(u32) -> Seq<char>) -> bool {
        self.text@ == text::joined(self.ids@, piece)
    }

    /// Begins a reply to a prompt of `prompt_len` tokens, where `used` of `n_ctx` cache rows are
    /// in use.
    pub fn start(prompt_len: usize, used: i64, n_ctx: i64, max_new: usize) -> (r: Result<
        Generation,
        GenerateError,
    >)
        requires
            0 <= used,
            used + prompt_len <= i64::MAX,
        ensures
            match r {
                Ok(g) => {
                    &&& 0 < prompt_len && used + prompt_len <= n_ctx
                    &&& g.well_formed()
                    &&& g.n_ctx == n_ctx
                    &&& g.max_new == max_new
                    &&& g.ids@ == Seq::<u32>::empty()
                    &&& g.text@ == Seq::<char>::empty()
                    &&& forall|piece: spec_fn(u32) -> Seq<char>| #[trigger] g.tells(piece)
                },
                Err(GenerateError::EmptyPrompt) => prompt_len == 0,
                Err(GenerateError::ContextFull { used: total, max }) => {
                    &&& 0 < prompt_len && used + prompt_len > n_ctx
                    &&& total == used + prompt_len
                    &&& max == n_ctx
                },
                Err(_) => false,
            },
    {
        if prompt_len == 0 {
            return Err(GenerateError::EmptyPrompt);
        }
        let needed: i64 = prompt_len as i64;
        if used + needed > n_ctx {
            return Err(GenerateError::ContextFull { used: used + needed, max: n_ctx });
        }
        Ok(
            Generation {
                n_ctx,
                max_new,
                ids: Vec::new(),
                recent: Vec::new(),
                text: String::new(),
            },
        )
    }

    /// Whether a sampled token ends the reply: it is an end marker, the reply is as long as it may
    /// be, or the cache is full.
    pub open spec fn ends(&self, eos: bool, head: int) -> bool {
        eos || self.ids@.len() >= self.max_new || head >= self.n_ctx
    }

    /// Offers a sampled token: it becomes part of the reply, and is to be decoded, unless it ends
    /// the reply.
    pub fn offer(&mut self, token: u32, eos: bool, head: i64) -> (go: bool)
        requires
            old(self).well_formed(),
        ensures
            final(self).well_formed(),
            go == !old(self).ends(eos, head as int),
            final(self).ids@ == offered(
                old(self).ids@,
                seq![(token, eos)],
                old(self).max_new as int,
                old(self).n_ctx - head,
            ),
            final(self).n_ctx == old(self).n_ctx,
            final(self).max_new == old(self).max_new,
            final(self).text == old(self).text,
            final(self).ids@ == (if go {
                old(self).ids@.push(token)
            } else {
                old(self).ids@
            }),
    {
        proof {
            reveal_with_fuel(offered, 2);
        }
        if eos || self.ids.len() >= self.max_new || head >= self.n_ctx {
            return false;
        }
        self.ids.push(token);
        self.recent.push(token);
        if self.recent.len() > RECENT_LEN {
            self.recent.remove(0);
        }
        assert(self.recent@ =~= newest(self.ids@));
        true
    }

    /// Adds the text of a token, where it has one, to the text of the reply.
    pub fn push_piece(&mut self, piece: &Option<String>)
        ensures
            *final(self) == (Generation { text: final(self).text, ..*old(self) }),
            final(self).text@ == old(self).text@ + (match piece {
                Some(p) => p@,
                None => Seq::empty(),
            }),
            forall|said: spec_fn(u32) -> Seq<char>|
                0 < old(self).ids@.len() && old(self).text@ == text::joined(
                    old(self).ids@.drop_last(),
                    said,
                ) && said(old(self).ids@.last()) == (match piece {
                    Some(p) => p@,
                    None => Seq::empty(),
                }) ==> #[trigger] final(self).tells(said),
    {
        match piece {
            Some(p) => {
                self.text.append(p.as_str());
            },
            None => {
                assert(self.text@ + Seq::<char>::empty() =~= self.text@);
            },
        }
    }
}

/// What the window drops is the oldest of the history, and no more than needed: whole blocks that
/// leave room for the turn, of which the last is not dropped in vain. The system prompt stays.
pub proof fn window_keeps_the_newest(d: Dialogue, turn: Seq<u32>, max_new: int)
    requires
        0 < turn.len(),
        0 <= max_new,
        !d.refuses(turn.len() as int, max_new),
    ensures
        ({
            let kept = d.kept(turn.len() as int, max_new);
            let room = d.room(turn.len() + max_new);
            let gone = d.history.len() - kept.len();
            &&& 0 <= kept.len() <= room
            &&& gone >= 0
            &&& kept == d.history.skip(gone)
            &&& gone == 0 <==> d.history.len() <= room
            &&& gone > 0 ==> gone < d.history.len() - room + DROP_BLOCK
            &&& d.opened(turn, max_new).system == d.system
            &&& d.opened(turn, max_new).history == kept + turn
        }),
{
    let room = d.room(turn.len() + max_new);
    let len = d.history.len() as int;
    if len > room {
        let blocks = (len - room + DROP_BLOCK - 1) / DROP_BLOCK as int;
        assert(len - room <= blocks * DROP_BLOCK < len - room + DROP_BLOCK);
    }
}

/// Cache rows that a turn finds in use: none where the cache is filled anew.
pub open spec fn rows_before_feed(d: Dialogue, head: int, turn: Seq<u32>, max_new: int) -> int {
    if d.refills(turn.len() as int, max_new) {
        0
    } else {
        head
    }
}

/// Cache rows in use once a turn was fed to the model, where `head` rows were in use before.
pub open spec fn rows_after_feed(d: Dialogue, head: int, turn: Seq<u32>, max_new: int) -> int {
    rows_before_feed(d, head, turn, max_new) + d.fed(turn, max_new).len()
}

/// A conversation in progress: what was said, the tokens whose rows the cache holds, and how many
/// of these belong to replies that broke off and are no part of the conversation.
pub struct Talk {
    pub dialogue: Dialogue,
    pub cache: Seq<u32>,
    pub stray: int,
}

impl Talk {
    /// The cache rows in use.
    pub open spec fn head(self) -> int {
        self.cache.len() as int
    }
}

/// The cache holds no more than the conversation and the stray rows, unless the next turn fills it
/// anew.
pub open spec fn in_step(t: Talk) -> bool {
    &&& 0 <= t.stray
    &&& t.dialogue.turn_count > 0 ==> t.head() <= t.dialogue.system.len() + t.dialogue.history.len()
        + t.stray
}

/// What became of a turn.
pub enum Outcome {
    /// It failed before the model had processed it.
    Unprocessed,
    /// The reply broke off once these tokens of it were decoded.
    Broken(Seq<u32>),
    /// It got this reply.
    Reply(Seq<u32>),
}

/// A turn of a conversation, and what became of it.
pub struct Exchange {
    pub turn: Seq<u32>,
    pub outcome: Outcome,
}

/// The conversation after an exchange. A refused turn changes nothing, and a cache that is filled
/// anew holds no stray rows.
pub open spec fn exchanged(t: Talk, x: Exchange, max_new: int) -> Talk {
    let d = t.dialogue;
    let n = x.turn.len() as int;
    let stray = if d.refills(n, max_new) {
        0
    } else {
        t.stray
    };
    let before = if d.refills(n, max_new) {
        Seq::empty()
    } else {
        t.cache
    };
    let after = before + d.fed(x.turn, max_new);
    if d.refuses(n, max_new) {
        t
    } else {
        match x.outcome {
            Outcome::Unprocessed => Talk {
                dialogue: d.opened(x.turn, max_new),
                cache: before,
                stray,
            },
            Outcome::Broken(ids) => Talk {
                dialogue: d.opened(x.turn, max_new),
                cache: after + ids,
                stray: stray + ids.len(),
            },
            Outcome::Reply(ids) => Talk {
                dialogue: d.opened(x.turn, max_new).replied(ids),
                cache: after + ids,
                stray,
            },
        }
    }
}

/// The conversation after a list of exchanges.
pub open spec fn talked(t: Talk, exchanges: Seq<Exchange>, max_new: int) -> Talk
    decreases exchanges.len(),
{
    if exchanges.len() == 0 {
        t
    } else {
        exchanged(talked(t, exchanges.drop_last(), max_new), exchanges.last(), max_new)
    }
}

/// The tokens that were decoded of replies that broke off.
pub open spec fn broken_rows(exchanges: Seq<Exchange>) -> nat
    decreases exchanges.len(),
{
    if exchanges.len() == 0 {
        0
    } else {
        let before = broken_rows(exchanges.drop_last());
        match exchanges.last().outcome {
            Outcome::Broken(ids) => before + ids.len(),
            _ => before,
        }
    }
}

/// A turn that is not refused fits the cache together with the longest reply, but for the stray
/// rows.
pub proof fn turn_fits(t: Talk, turn: Seq<u32>, max_new: int, n_ctx: int)
    requires
        in_step(t),
        0 < turn.len(),
        0 <= max_new,
        !t.dialogue.refuses(turn.len() as int, max_new),
        t.dialogue.context_len <= n_ctx,
    ensures
        rows_after_feed(t.dialogue, t.head(), turn, max_new) + max_new <= n_ctx + t.stray,
        t.dialogue.refills(turn.len() as int, max_new) ==> rows_after_feed(
            t.dialogue,
            t.head(),
            turn,
            max_new,
        ) + max_new <= n_ctx,
{
    window_keeps_the_newest(t.dialogue, turn, max_new);
}

/// An exchange leaves the cache and the conversation in step, whatever became of the turn. The
/// rows in use are those that the turn found, those that it fed, and one for each token of the
/// reply that was decoded.
pub proof fn exchange_stays_in_step(t: Talk, x: Exchange, max_new: int)
    requires
        in_step(t),
        0 < x.turn.len(),
        0 <= max_new,
    ensures
        in_step(exchanged(t, x, max_new)),
        !t.dialogue.refuses(x.turn.len() as int, max_new) ==> exchanged(t, x, max_new).head() == (
        match x.outcome {
            Outcome::Unprocessed => rows_before_feed(t.dialogue, t.head(), x.turn, max_new),
            Outcome::Broken(ids) | Outcome::Reply(ids) => rows_after_feed(
                t.dialogue,
                t.head(),
                x.turn,
                max_new,
            ) + ids.len(),
        }),
        exchanged(t, x, max_new).dialogue.system == t.dialogue.system,
        exchanged(t, x, max_new).dialogue.context_len == t.dialogue.context_len,
{
    if !t.dialogue.refuses(x.turn.len() as int, max_new) {
        window_keeps_the_newest(t.dialogue, x.turn, max_new);
    }
}

/// However long a conversation gets, the system prompt stays, and a turn that is not refused finds
/// room in the cache: the context is never full. As long as no reply breaks off, there is room for
/// the turn and the longest reply. Tokens of replies that broke off take room away until the cache
/// is filled anew, and where they are no more than the longest reply, as after one such reply,
/// there still is room for the turn. Beyond that it is not promised.
pub proof fn context_is_never_full(
    start: Talk,
    exchanges: Seq<Exchange>,
    turn: Seq<u32>,
    max_new: int,
    n_ctx: int,
)
    requires
        start.dialogue.turn_count == 0,
        start.stray == 0,
        start.dialogue.context_len <= n_ctx,
        0 < turn.len(),
        0 <= max_new,
        forall|i: int| 0 <= i < exchanges.len() ==> 0 < (#[trigger] exchanges[i]).turn.len(),
    ensures
        ({
            let t = talked(start, exchanges, max_new);
            let rows = rows_after_feed(t.dialogue, t.head(), turn, max_new);
            &&& t.dialogue.system == start.dialogue.system
            &&& t.dialogue.context_len == start.dialogue.context_len
            &&& in_step(t)
            &&& t.stray <= broken_rows(exchanges)
            &&& !t.dialogue.refuses(turn.len() as int, max_new) ==> {
                &&& rows + max_new <= n_ctx + broken_rows(exchanges)
                &&& broken_rows(exchanges) == 0 ==> rows + max_new <= n_ctx
                &&& broken_rows(exchanges) <= max_new ==> rows <= n_ctx
            }
        }),
        (forall|i: int| 0 <= i < exchanges.len() ==> !((#[trigger] exchanges[i]).outcome is Broken))
            ==> broken_rows(exchanges) == 0,
    decreases exchanges.len(),
{
    let t = talked(start, exchanges, max_new);
    if exchanges.len() > 0 {
        let front = exchanges.drop_last();
        let x = exchanges.last();
        assert(forall|i: int| 0 <= i < front.len() ==> #[trigger] front[i] == exchanges[i]);
        assert(x == exchanges[exchanges.len() - 1]);
        context_is_never_full(start, front, x.turn, max_new, n_ctx);
        exchange_stays_in_step(talked(start, front, max_new), x, max_new);
    }
    if !t.dialogue.refuses(turn.len() as int, max_new) {
        turn_fits(t, turn, max_new, n_ctx);
    }
}

/// A list of tokens without those at some places.
pub open spec fn without(tokens: Seq<u32>, places: Set<int>) -> Seq<u32>
    decreases tokens.len(),
{
    if tokens.len() == 0 {
        Seq::empty()
    } else {
        let front = without(tokens.drop_last(), places);
        if places.contains(tokens.len() - 1) {
            front
        } else {
            front.push(tokens.last())
        }
    }
}

/// Places in the history of the end markers of replies that were given since the cache was last
/// filled anew. Such a marker is added to the history once the reply is complete, and is not
/// decoded.
pub open spec fn undecoded(start: Talk, exchanges: Seq<Exchange>, max_new: int) -> Set<int>
    decreases exchanges.len(),
{
    if exchanges.len() == 0 {
        Set::empty()
    } else {
        let x = exchanges.last();
        let d = talked(start, exchanges.drop_last(), max_new).dialogue;
        let earlier = undecoded(start, exchanges.drop_last(), max_new);
        let before = if d.refills(x.turn.len() as int, max_new) {
            Set::empty()
        } else {
            earlier
        };
        if d.refuses(x.turn.len() as int, max_new) {
            earlier
        } else {
            match x.outcome {
                Outcome::Reply(ids) => before.insert(
                    (d.opened(x.turn, max_new).history.len() + ids.len()) as int,
                ),
                _ => before,
            }
        }
    }
}

/// Places beyond a list leave nothing out of it, and what is added to a list beyond all places
/// stays.
proof fn lemma_without(tokens: Seq<u32>, more: Seq<u32>, a: Set<int>, b: Set<int>)
    requires
        forall|p: int| 0 <= p < tokens.len() ==> (a.contains(p) <==> b.contains(p)),
        forall|p: int| tokens.len() <= p < tokens.len() + more.len() ==> !b.contains(p),
    ensures
        without(tokens + more, b) == without(tokens, a) + more,
    decreases tokens.len() + more.len(),
{
    let all = tokens + more;
    if more.len() > 0 {
        lemma_without(tokens, more.drop_last(), a, b);
        assert(all.drop_last() =~= tokens + more.drop_last());
        assert(without(all, b) =~= without(tokens, a) + more);
    } else if tokens.len() > 0 {
        lemma_without(tokens.drop_last(), more, a, b);
        assert(all =~= tokens);
        assert(tokens.drop_last() + more =~= tokens.drop_last());
        assert(without(tokens.drop_last(), a) + more =~= without(tokens.drop_last(), a));
        assert(without(tokens, a) + more =~= without(tokens, a));
    } else {
        assert(all =~= Seq::<u32>::empty());
        assert(without(tokens, a) + more =~= Seq::<u32>::empty());
    }
}

/// As long as every turn gets its reply, the cache holds the conversation: the system prompt and
/// the history, in order, token by token. What it lacks are end markers alone, those of the
/// replies that were given since it was last filled anew. Turns that are refused change nothing.
pub proof fn cache_holds_the_conversation(start: Talk, exchanges: Seq<Exchange>, max_new: int)
    requires
        start.dialogue.turn_count == 0,
        0 <= max_new,
        forall|i: int|
            0 <= i < exchanges.len() ==> 0 < (#[trigger] exchanges[i]).turn.len()
                && exchanges[i].outcome is Reply,
    ensures
        ({
            let t = talked(start, exchanges, max_new);
            let places = undecoded(start, exchanges, max_new);
            &&& t.dialogue.turn_count > 0 ==> t.cache == t.dialogue.system + without(
                t.dialogue.history,
                places,
            )
            &&& t.dialogue.turn_count > 0 ==> forall|p: int| #[trigger]
                places.contains(p) ==> 0 <= p < t.dialogue.history.len()
                    && t.dialogue.history[p] == T_EOT
            &&& t.dialogue.system == start.dialogue.system
        }),
    decreases exchanges.len(),
{
    if exchanges.len() > 0 {
        let front = exchanges.drop_last();
        let x = exchanges.last();
        assert(forall|i: int| 0 <= i < front.len() ==> #[trigger] front[i] == exchanges[i]);
        assert(x == exchanges[exchanges.len() - 1]);
        cache_holds_the_conversation(start, front, max_new);
        let t = talked(start, front, max_new);
        let d = t.dialogue;
        let u = talked(start, exchanges, max_new);
        let n = x.turn.len() as int;
        if !d.refuses(n, max_new) {
            let ids = x.outcome->Reply_0;
            let o = d.opened(x.turn, max_new).history;
            let earlier = undecoded(start, front, max_new);
            let places = undecoded(start, exchanges, max_new);
            let said = o + ids;
            let empty = Set::<int>::empty();
            assert(u.dialogue.history == said.push(T_EOT));
            assert(said.push(T_EOT).drop_last() =~= said);
            assert(without(u.dialogue.history, places) == without(said, places));
            if d.refills(n, max_new) {
                lemma_without(Seq::empty(), said, empty, places);
                assert(Seq::<u32>::empty() + said =~= said);
                assert(without(Seq::<u32>::empty(), empty) + said =~= said);
                assert(u.cache =~= d.system + said);
            } else {
                assert(d.kept(n, max_new) =~= d.history);
                let more = x.turn + ids;
                assert(said =~= d.history + more);
                lemma_without(d.history, more, earlier, places);
                assert(u.cache =~= d.system + (without(d.history, earlier) + more));
                assert forall|p: int| #[trigger] places.contains(p) implies 0 <= p
                    < u.dialogue.history.len() && u.dialogue.history[p] == T_EOT by {
                    if earlier.contains(p) {
                        assert(u.dialogue.history[p] == d.history[p]);
                    }
                }
            }
        }
    }
}

/// The reply after a list of samples was offered, each with whether it is an end marker, where
/// `ids` came before and `room` cache rows are left. Each sample is one call of
/// [`Generation::offer`].
pub open spec fn offered(
    ids: Seq<u32>,
    samples: Seq<(u32, bool)>,
    max_new: int,
    room: int,
) -> Seq<u32>
    decreases samples.len(),
{
    if samples.len() == 0 || samples[0].1 || ids.len() >= max_new || room <= 0 {
        ids
    } else {
        offered(ids.push(samples[0].0), samples.skip(1), max_new, room - 1)
    }
}

/// A reply is the longest run of samples before the first end marker that is neither longer than
/// it may be nor than the cache has room for.
pub proof fn reply_is_the_longest_run(
    ids: Seq<u32>,
    samples: Seq<(u32, bool)>,
    max_new: int,
    room: int,
)
    requires
        ids.len() <= max_new,
        0 <= room,
    ensures
        ({
            let reply = offered(ids, samples, max_new, room);
            let n = reply.len() - ids.len();
            &&& 0 <= n <= samples.len()
            &&& reply == ids + Seq::new(n as nat, |i: int| samples[i].0)
            &&& forall|i: int| 0 <= i < n ==> !(#[trigger] samples[i]).1
            &&& reply.len() <= max_new
            &&& n <= room
            &&& n == samples.len() || samples[n].1 || reply.len() == max_new || n == room
        }),
    decreases samples.len(),
{
    let reply = offered(ids, samples, max_new, room);
    if samples.len() == 0 || samples[0].1 || ids.len() >= max_new || room <= 0 {
        assert(reply =~= ids + Seq::new(0, |i: int| samples[i].0));
    } else {
        let rest = samples.skip(1);
        let more = ids.push(samples[0].0);
        reply_is_the_longest_run(more, rest, max_new, room - 1);
        let m = reply.len() - more.len();
        assert(forall|i: int| 0 <= i < rest.len() ==> #[trigger] rest[i] == samples[i + 1]);
        assert(reply =~= ids + Seq::new((m + 1) as nat, |i: int| samples[i].0));
        assert forall|i: int| 0 <= i < m + 1 implies !(#[trigger] samples[i]).1 by {
            if i > 0 {
                assert(rest[i - 1] == samples[i]);
            }
        }
        if m < rest.len() {
            assert(rest[m] == samples[m + 1]);
        }
    }
}

/// A reply as tokens and as text.
#[verifier::ext_equal]
pub struct Utterance {
    pub ids: Seq<u32>,
    pub text: Seq<char>,
}

/// The reply after a list of samples was offered, where the text of each token that becomes part
/// of it is added. Each sample is one call of [`Generation::offer`], and one of
/// [`Generation::push_piece`] where the reply goes on.
pub open spec fn uttered(
    u: Utterance,
    samples: Seq<(u32, bool)>,
    piece: spec_fn(u32) -> Seq<char>,
    max_new: int,
    room: int,
) -> Utterance
    decreases samples.len(),
{
    if samples.len() == 0 || samples[0].1 || u.ids.len() >= max_new || room <= 0 {
        u
    } else {
        let token = samples[0].0;
        let more = Utterance { ids: u.ids.push(token), text: u.text + piece(token) };
        uttered(more, samples.skip(1), piece, max_new, room - 1)
    }
}

/// The text of a reply is the text of its tokens, one after the other, and its tokens are those
/// that [`reply_is_the_longest_run`] tells of.
pub proof fn text_follows_the_tokens(
    u: Utterance,
    samples: Seq<(u32, bool)>,
    piece: spec_fn(u32) -> Seq<char>,
    max_new: int,
    room: int,
)
    requires
        u.text == text::joined(u.ids, piece),
    ensures
        ({
            let r = uttered(u, samples, piece, max_new, room);
            &&& r.ids == offered(u.ids, samples, max_new, room)
            &&& r.text == text::joined(r.ids, piece)
        }),
    decreases samples.len(),
{
    if !(samples.len() == 0 || samples[0].1 || u.ids.len() >= max_new || room <= 0) {
        let token = samples[0].0;
        let more = Utterance { ids: u.ids.push(token), text: u.text + piece(token) };
        assert(more.ids.drop_last() =~= u.ids);
        text_follows_the_tokens(more, samples.skip(1), piece, max_new, room - 1);
    }
}

/// A turn is refused where it does not fit beside the system prompt and the longest reply, and
/// only there. What was said before has no part in it: sessions with system prompts of one length
/// and one context length refuse the same turns, however long they went on, and so does a session
/// that was reset.
pub proof fn only_turns_that_cannot_fit_are_refused(
    d: Dialogue,
    other: Dialogue,
    n: int,
    max_new: int,
)
    requires
        0 < n,
        0 <= max_new,
    ensures
        d.refuses(n, max_new) <==> d.system.len() + n + max_new > d.context_len,
        other.system.len() == d.system.len() && other.context_len == d.context_len ==> (
        other.refuses(n, max_new) <==> d.refuses(n, max_new)),
        (Dialogue { turn_count: 0, history: Seq::empty(), ..d }).refuses(n, max_new)
            <==> d.refuses(n, max_new),
{
}

/// Where everything fits, nothing is dropped, and only the first turn fills the cache anew. Where
/// `over` tokens are too many, the cache is filled anew, and the oldest of the history are dropped:
/// the fewest whole blocks of 128 tokens that make up for these, or all of the history where
/// that is less.
pub proof fn windows_drop_whole_blocks(d: Dialogue, n: int, max_new: int, m: int)
    requires
        0 < n,
        0 <= max_new,
        d.system.len() + n + max_new <= d.context_len,
    ensures
        ({
            let kept = d.kept(n, max_new);
            let gone = d.history.len() - kept.len();
            let over = d.system.len() + d.history.len() + n + max_new - d.context_len;
            &&& over <= 0 ==> kept == d.history
            &&& d.refills(n, max_new) <==> over > 0 || d.turn_count == 0
            &&& over > 0 ==> over <= gone <= d.history.len()
            &&& over > 0 ==> gone < over + 128
            &&& over > 0 ==> gone % 128 == 0 || gone == d.history.len()
            &&& over > 0 && over <= m <= d.history.len() && m % 128 == 0 ==> gone <= m
            &&& forall|i: int| 0 <= i < kept.len() ==> #[trigger] kept[i] == d.history[gone + i]
        }),
{
    let len = d.history.len() as int;
    let room = d.room(n + max_new);
    let over = d.system.len() + d.history.len() + n + max_new - d.context_len;
    assert(over == len - room);
    if over > 0 {
        let blocks = (over + 127) / 128;
        assert(dropped(len, room) == (if blocks * 128 <= len {
            blocks * 128
        } else {
            len
        }));
    } else {
        assert(d.kept(n, max_new) =~= d.history);
    }
}

/// A turn that is taken in stands at the end of the history, after what was kept, and counts. The
/// model is fed the turn alone, or the system prompt, what was kept and the turn. A reply stands at
/// the end of the history with its end marker.
pub proof fn turns_and_replies_are_added_at_the_end(
    d: Dialogue,
    turn: Seq<u32>,
    reply: Seq<u32>,
    max_new: int,
)
    ensures
        ({
            let kept = d.kept(turn.len() as int, max_new);
            let o = d.opened(turn, max_new);
            let fed = d.fed(turn, max_new);
            &&& o.turn_count == d.turn_count + 1
            &&& o.context_len == d.context_len
            &&& o.system == d.system
            &&& o.history == kept + turn
            &&& !d.refills(turn.len() as int, max_new) ==> fed == turn
            &&& d.refills(turn.len() as int, max_new) ==> fed == d.system + kept + turn
        }),
        ({
            let r = d.replied(reply);
            &&& r.turn_count == d.turn_count
            &&& r.context_len == d.context_len
            &&& r.system == d.system
            &&& r.history == d.history + reply + seq![128009u32]
        }),
{
    let kept = d.kept(turn.len() as int, max_new);
    assert(d.system + (kept + turn) =~= d.system + kept + turn);
    assert((d.history + reply).push(T_EOT) =~= d.history + reply + seq![128009u32]);
}

/// The messages as tokens. A system prompt begins the text and is closed; a turn is a closed
/// message of the user and an open one of the model. The empty line stands after each header, but
/// that the server has it in the user's message.
pub proof fn messages_are_framed_by_markers(a: Seq<u32>, b: Seq<u32>, c: Seq<u32>)
    ensures
        system_message(a, b) == seq![128000u32, 128006u32] + a + seq![128007u32, 271u32] + b + seq![
            128009u32,
        ],
        console_message(a, b, c) == seq![128006u32] + a + seq![128007u32, 271u32] + b + seq![
            128009u32,
            128006u32,
        ] + c + seq![128007u32, 271u32],
        server_message(a, b, c) == seq![128006u32] + a + seq![128007u32] + b + seq![
            128009u32,
            128006u32,
        ] + c + seq![128007u32, 271u32],
{
    assert(system_message(a, b) =~= seq![128000u32, 128006u32] + a + seq![128007u32, 271u32] + b
        + seq![128009u32]);
}

/// The recent tokens of a reply are the last ones of its tokens, in order: 64, or all where there
/// are fewer. So the token that was taken in last is the last of the recent ones.
pub proof fn recent_tokens_are_the_last(g: Generation, i: int)
    requires
        g.well_formed(),
    ensures
        g.recent@.len() == (if g.ids@.len() < 64 {
            g.ids@.len()
        } else {
            64
        }),
        0 <= i < 64 && i < g.ids@.len() ==> g.recent@[g.recent@.len() - 1 - i] == g.ids@[
        g.ids@.len() - 1 - i],
        g.ids@.len() > 0 ==> g.recent@.last() == g.ids@.last(),
        g.ids@.len() <= g.max_new,
{
}

/// The recent tokens before and after a token is taken in: it comes last, and where there were 64
/// the first of them goes.
pub proof fn recent_tokens_move_on(ids: Seq<u32>, token: u32)
    ensures
        ids.len() < 64 ==> newest(ids.push(token)) == newest(ids).push(token),
        ids.len() >= 64 ==> newest(ids.push(token)) == newest(ids).skip(1).push(token),
        newest(Seq::<u32>::empty()).len() == 0,
{
}

/// A token ends a reply where it is an end marker, where the reply has all tokens that it may
/// have, or where no cache row is left.
pub proof fn replies_end_for_one_of_these_reasons(g: Generation, eos: bool, head: int)
    ensures
        g.ends(eos, head) <==> eos || !(g.ids@.len() < g.max_new) || !(head < g.n_ctx),
        eos ==> g.ends(eos, head),
        !eos && g.ids@.len() < g.max_new && head < g.n_ctx ==> !g.ends(eos, head),
{
}

/// The errors in words.
pub proof fn errors_are_told_in_these_words(
    e: ForwardError,
    s: String,
    max: usize,
    used: i64,
    rows: i64,
)
    ensures
        GenerateError::Forward(e).words() == "Forward pass error: "@ + e.words(),
        GenerateError::Logit(s).words() == "Logit error: "@ + s@,
        GenerateError::Io(s).words() == "I/O error: "@ + s@,
        GenerateError::EmptyPrompt.words() == "Prompt is empty"@,
        (GenerateError::ContextLengthExceeded { max }).words() == "Context length exceeded (max "@
            + text::decimal(max as nat) + " tokens)"@,
        (GenerateError::ContextFull { used, max: rows }).words() == "Conversation context full ("@
            + text::signed_decimal(used as int) + "/"@ + text::signed_decimal(rows as int)
            + " tokens)"@,
{
}

} // verus!
