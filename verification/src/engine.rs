//! The engine that drives an external model library: its configuration, the batches of a prompt,
//! the loop of a reply and the pages that are given back on the way.
//!
//! A run begins with [`LlamaEngine::begin_run`] and [`LlamaEngine::ingest`], feeds the prompt by
//! [`LlamaEngine::next_batch`] and the reply by [`LlamaEngine::accept`]. After each batch that was
//! decoded, [`LlamaEngine::evict_step`] moves the window of resident pages on. Floats are given by
//! their bits, and handles are addresses; zero stands for none.

use vstd::prelude::*;
use vstd::string::*;

use crate::float;
use crate::sampling;
use crate::text;

verus! {

/// The configuration of the engine.
#[derive(Clone, Copy, Debug)]
pub struct EngineConfig {
    pub n_ctx: u32,
    pub n_batch: u32,
    pub n_threads: u32,
    pub n_gpu_layers: i32,
    pub use_mmap: bool,
    pub use_mlock: bool,
    /// Bits of the temperature.
    pub temperature: u32,
    /// Bits of the probability that candidates have to reach together.
    pub top_p: u32,
    pub top_k: i32,
    pub max_new_tokens: usize,
    /// Bits of the repetition penalty.
    pub repeat_penalty: u32,
    pub repeat_last_n: usize,
    /// How many windows of the model file stay resident.
    pub max_ram_layers: usize,
}

/// The parameters that the engine sets for a model.
#[derive(Clone, Copy, Debug)]
pub struct ModelParams {
    pub n_gpu_layers: i32,
    pub use_mmap: bool,
    pub use_mlock: bool,
    pub vocab_only: bool,
    pub check_tensors: bool,
}

/// The parameters that the engine sets for a context.
#[derive(Clone, Copy, Debug)]
pub struct ContextParams {
    pub n_ctx: u32,
    pub n_batch: u32,
    pub n_ubatch: u32,
    pub n_threads: u32,
    pub n_threads_batch: u32,
}

impl EngineConfig {
    /// The usual configuration, where `available` is how many threads the machine runs at once, if
    /// that is known: one thread for each of them, or else two; temperature 0.7, probability 0.9
    /// and penalty 1.1.
    pub fn for_threads(available: Option<usize>) -> (cfg: EngineConfig)
        ensures
            cfg == (EngineConfig {
                n_ctx: 2048,
                n_batch: 512,
                n_threads: match available {
                    Some(n) => n as u32,
                    None => 2,
                },
                n_gpu_layers: 0,
                use_mmap: true,
                use_mlock: false,
                temperature: 0x3F333333,
                top_p: 0x3F666666,
                top_k: 40,
                max_new_tokens: 256,
                repeat_penalty: 0x3F8CCCCD,
                repeat_last_n: 64,
                max_ram_layers: 4,
            }),
    {
        let n_threads: u32 = match available {
            Some(n) =>
                #[verifier::truncate]
                (n as u32),
            None => 2,
        };
        EngineConfig {
            n_ctx: 2048,
            n_batch: 512,
            n_threads,
            n_gpu_layers: 0,
            use_mmap: true,
            use_mlock: false,
            temperature: 0x3F333333,
            top_p: 0x3F666666,
            top_k: 40,
            max_new_tokens: 256,
            repeat_penalty: 0x3F8CCCCD,
            repeat_last_n: 64,
            max_ram_layers: 4,
        }
    }

    /// The parameters of the model: it is always mapped and never locked, so that its pages can be
    /// given back.
    pub fn model_params(&self) -> (p: ModelParams)
        ensures
            p == (ModelParams {
                n_gpu_layers: self.n_gpu_layers,
                use_mmap: true,
                use_mlock: false,
                vocab_only: false,
                check_tensors: false,
            }),
    {
        ModelParams {
            n_gpu_layers: self.n_gpu_layers,
            use_mmap: true,
            use_mlock: false,
            vocab_only: false,
            check_tensors: false,
        }
    }

    /// The parameters of the context.
    pub fn context_params(&self) -> (p: ContextParams)
        ensures
            p == (ContextParams {
                n_ctx: self.n_ctx,
                n_batch: self.n_batch,
                n_ubatch: self.n_batch,
                n_threads: self.n_threads,
                n_threads_batch: self.n_threads,
            }),
    {
        ContextParams {
            n_ctx: self.n_ctx,
            n_batch: self.n_batch,
            n_ubatch: self.n_batch,
            n_threads: self.n_threads,
            n_threads_batch: self.n_threads,
        }
    }
}

/// What went wrong in the engine.
#[derive(Clone, Copy, Debug, PartialEq, Eq, Structural)]
pub enum EngineError {
    /// The model could not be loaded.
    NoModel,
    /// The context could not be made; the model with this handle is to be freed.
    NoContext { model: usize },
    /// The text has more tokens than there was room for.
    TokenBuffer { need: i32 },
    /// The prompt leaves no room for a reply.
    PromptTooLong { n_prompt: usize, n_ctx: u32 },
    /// A batch of the prompt was not decoded.
    PromptDecode(i32),
    /// A token of the reply was not decoded.
    ReplyDecode(i32),
    /// There are no logits at this place.
    NoLogits(i32),
    /// There are no tokens to choose from.
    NoCandidates,
}

impl EngineError {
    /// The error in words.
    pub open spec fn words(self) -> Seq<char> {
        match self {
            EngineError::NoModel => "[Z.1] llama_load_model_from_file returned null."@,
            EngineError::NoContext { .. } => "[Z.1] llama_new_context_with_model returned null."@,
            EngineError::TokenBuffer { need } => "[Z.1] tokenize: buffer too small (need "@
                + text::signed_decimal(need as int) + " slots)"@,
            EngineError::PromptTooLong { n_prompt, n_ctx } => "[Z.1] Prompt is "@ + text::decimal(
                n_prompt as nat,
            ) + " tokens but context is only "@ + text::decimal(n_ctx as nat) + "."@,
            EngineError::PromptDecode(rc) => "[Z.1] llama_decode error "@ + text::signed_decimal(
                rc as int,
            ) + " during prompt ingestion"@,
            EngineError::ReplyDecode(rc) => "[Z.1] llama_decode error "@ + text::signed_decimal(
                rc as int,
            ) + " during generation"@,
            EngineError::NoLogits(i) => "[Z.1] llama_get_logits_ith("@ + text::signed_decimal(
                i as int,
            ) + ") returned null"@,
            EngineError::NoCandidates => "[Z.1] empty candidate list"@,
        }
    }

    /// The error in words.
    pub fn message(self) -> (r: String)
        ensures
            r@ == self.words(),
    {
        match self {
            EngineError::NoModel => "[Z.1] llama_load_model_from_file returned null.".to_owned(),
            EngineError::NoContext { .. } =>
                "[Z.1] llama_new_context_with_model returned null.".to_owned(),
            EngineError::TokenBuffer { need } => {
                let mut out: String = "[Z.1] tokenize: buffer too small (need ".to_owned();
                text::push_signed_decimal(&mut out, need as i64);
                out.append(" slots)");
                out
            },
            EngineError::PromptTooLong { n_prompt, n_ctx } => {
                let mut out: String = "[Z.1] Prompt is ".to_owned();
                text::push_decimal(&mut out, n_prompt as u64);
                out.append(" tokens but context is only ");
                text::push_decimal(&mut out, n_ctx as u64);
                out.append(".");
                out
            },
            EngineError::PromptDecode(rc) => {
                let mut out: String = "[Z.1] llama_decode error ".to_owned();
                text::push_signed_decimal(&mut out, rc as i64);
                out.append(" during prompt ingestion");
                out
            },
            EngineError::ReplyDecode(rc) => {
                let mut out: String = "[Z.1] llama_decode error ".to_owned();
                text::push_signed_decimal(&mut out, rc as i64);
                out.append(" during generation");
                out
            },
            EngineError::NoLogits(i) => {
                let mut out: String = "[Z.1] llama_get_logits_ith(".to_owned();
                text::push_signed_decimal(&mut out, i as i64);
                out.append(") returned null");
                out
            },
            EngineError::NoCandidates => "[Z.1] empty candidate list".to_owned(),
        }
    }
}

/// What [`String::from_utf8_lossy`] makes of bytes.
pub uninterp spec fn lossy_text(bytes: Seq<u8>) -> Seq<char>;

/// Calls `String::from_utf8_lossy`, whose result depends on the bytes alone. Bytes that are valid
/// UTF-8 are decoded; how others are replaced is not said here.
#[verifier::external_body]
fn decode_lossy(bytes: &Vec<u8>) -> (r: String)
    ensures
        r@ == lossy_text(bytes@),
        vstd::utf8::valid_utf8(bytes@) ==> r@ == vstd::utf8::decode_utf8(bytes@),
{
    String::from_utf8_lossy(bytes).into_owned()
}

/// The bytes of a buffer of signed characters.
pub open spec fn as_bytes(buf: Seq<i8>) -> Seq<u8> {
    Seq::new(buf.len(), |i: int| buf[i] as u8)
}

/// The text of a token, of which the first `n` characters of a buffer hold the bytes; empty where
/// `n` says that there are none.
pub fn piece_text(buf: &Vec<i8>, n: i32) -> (r: String)
    requires
        n <= buf@.len(),
    ensures
        n <= 0 ==> r@ == Seq::<char>::empty(),
        n > 0 ==> r@ == lossy_text(as_bytes(buf@.take(n as int))),
        n > 0 && vstd::utf8::valid_utf8(as_bytes(buf@.take(n as int))) ==> r@
            == vstd::utf8::decode_utf8(as_bytes(buf@.take(n as int))),
{
    if n <= 0 {
        return String::new();
    }
    let bytes: Vec<u8> = piece_bytes(buf, n as usize);
    decode_lossy(&bytes)
}

/// The first `n` characters of a buffer as bytes.
pub fn piece_bytes(buf: &Vec<i8>, n: usize) -> (r: Vec<u8>)
    requires
        n <= buf@.len(),
    ensures
        r@ == as_bytes(buf@.take(n as int)),
{
    let mut out: Vec<u8> = Vec::new();
    let mut i: usize = 0;
    while i < n
        invariant
            i <= n <= buf@.len(),
            out@ == as_bytes(buf@.take(i as int)),
        decreases n - i,
    {
        out.push(
            #[verifier::truncate]
            (buf[i] as u8),
        );
        i += 1;
        assert(out@ =~= as_bytes(buf@.take(i as int)));
    }
    out
}

/// Room for the tokens of a text: its bytes and some more.
pub fn token_capacity(s: &str) -> (r: usize)
    requires
        s.spec_bytes().len() + 64 <= usize::MAX,
    ensures
        r == s.spec_bytes().len() + 64,
{
    s.len() + 64
}

/// The tokens of a text: the first `n` of a buffer, where `n` is their number or, if that is more
/// than there was room for, its negative.
pub fn take_tokens(buf: Vec<i32>, n: i32) -> (r: Result<Vec<i32>, EngineError>)
    requires
        i32::MIN < n,
    ensures
        match r {
            Ok(tokens) => n >= 0 && tokens@ == (if n <= buf@.len() {
                buf@.take(n as int)
            } else {
                buf@
            }),
            Err(e) => n < 0 && e == (EngineError::TokenBuffer { need: (-n) as i32 }),
        },
{
    if n < 0 {
        return Err(EngineError::TokenBuffer { need: -n });
    }
    let mut tokens: Vec<i32> = buf;
    tokens.truncate(n as usize);
    Ok(tokens)
}

/// What moves when the window of resident pages moves on.
#[derive(Clone, Copy, Debug, PartialEq, Eq, Structural)]
pub struct Eviction {
    /// The file window to fetch ahead.
    pub prefetch: usize,
    /// The file window that is left behind, if there is one.
    pub retire: Option<usize>,
}

/// The file window to fetch ahead at a step: that of the step, or the last of `n`.
pub open spec fn fetched(step: int, n: int) -> int {
    if n == 0 {
        0
    } else if step < n {
        step
    } else {
        n - 1
    }
}

/// The file window that a step leaves behind: the one `keep` steps ago, if the file has it.
pub open spec fn retired(step: int, keep: int, n: int) -> Option<int> {
    if step >= keep && step - keep < n {
        Some(step - keep)
    } else {
        None
    }
}

/// The file windows that are resident after the steps up to `step`, where none was before the first:
/// each step fetches one, and leaves one behind. Each step is one call of
/// [`LlamaEngine::evict_step`].
pub open spec fn resident(step: int, keep: int, n: int) -> Set<int>
    decreases step + 1,
{
    if step < 0 {
        Set::empty()
    } else {
        let held = resident(step - 1, keep, n).insert(fetched(step, n));
        match retired(step, keep, n) {
            Some(w) => held.remove(w),
            None => held,
        }
    }
}

/// The file windows that are resident after a step: the newest `keep` of the file's, and where all
/// of these were left behind, the last one, which each further step fetches again.
proof fn lemma_resident(step: int, keep: int, n: int)
    requires
        -1 <= step,
        0 <= keep,
        0 < n,
    ensures
        resident(step, keep, n) == Set::new(
            |w: int|
                0 <= w < n && (step - keep < w <= step || (w == n - 1 && step - keep > n - 1)),
        ),
    decreases step + 1,
{
    let right = Set::new(
        |w: int| 0 <= w < n && (step - keep < w <= step || (w == n - 1 && step - keep > n - 1)),
    );
    if step >= 0 {
        lemma_resident(step - 1, keep, n);
    }
    assert(resident(step, keep, n) =~= right);
}

/// Resident memory is bounded at every step, however many there are. After a step at most `keep`
/// file windows are resident, the newest of those that were fetched, or the last one alone. While
/// a step is made, there is at most one more.
pub proof fn resident_windows_are_bounded(step: int, keep: int, n: int)
    requires
        0 <= step,
        0 <= keep,
        0 < n,
    ensures
        resident(step, keep, n).finite(),
        resident(step, keep, n).len() <= keep || resident(step, keep, n) == set![n - 1],
        resident(step, keep, n).len() <= (if keep == 0 {
            1
        } else {
            keep
        }),
        resident(step - 1, keep, n).insert(fetched(step, n)).len() <= keep + 1,
        forall|w: int| #[trigger]
            resident(step, keep, n).contains(w) <==> 0 <= w < n && (step - keep < w <= step || (w
                == n - 1 && step - keep > n - 1)),
{
    lemma_resident(step, keep, n);
    lemma_resident(step - 1, keep, n);
    let now = resident(step, keep, n);
    let before = resident(step - 1, keep, n);
    if step - keep > n - 1 {
        assert(now =~= set![n - 1]);
    } else {
        let newest = vstd::set_lib::set_int_range(step - keep + 1, step + 1);
        vstd::set_lib::lemma_int_range(step - keep + 1, step + 1);
        vstd::set_lib::lemma_len_subset(now, newest);
    }
    let fetching = before.insert(fetched(step, n));
    if step - 1 - keep >= n - 1 {
        assert(fetching =~= set![n - 1]);
    } else {
        let wide = vstd::set_lib::set_int_range(step - keep, step + 1);
        vstd::set_lib::lemma_int_range(step - keep, step + 1);
        assert(fetching.subset_of(wide));
        vstd::set_lib::lemma_len_subset(fetching, wide);
    }
}

/// No file window is left behind twice.
pub proof fn windows_retire_once(a: int, b: int, keep: int, n: int)
    requires
        0 <= a,
        0 <= b,
        retired(a, keep, n) is Some,
        retired(a, keep, n) == retired(b, keep, n),
    ensures
        a == b,
{
}

/// A batch for the model library.
pub struct BatchPlan {
    pub tokens: Vec<i32>,
    /// The position of each token.
    pub positions: Vec<i32>,
    /// Whether the logits of each token are wanted.
    pub logits: Vec<bool>,
}

/// A prompt that is fed to the model.
pub struct Ingestion {
    pub tokens: Vec<i32>,
    /// How many of the tokens were fed.
    pub pos: usize,
    /// The place, within its batch, of the token whose logits are wanted.
    pub last_logit_idx: i32,
}

/// Where the batch ends that begins at `pos`.
pub open spec fn batch_end(pos: int, n_batch: int, n: int) -> int {
    if pos + n_batch <= n {
        pos + n_batch
    } else {
        n
    }
}

impl BatchPlan {
    /// The tokens of the batch with their positions.
    pub open spec fn pairs(&self) -> Seq<(i32, i32)> {
        Seq::new(self.tokens@.len(), |i: int| (self.tokens@[i], self.positions@[i]))
    }

    /// The batch holds the tokens `from..to` of a prompt at their positions, and wants the logits
    /// of the prompt's last token alone.
    pub open spec fn covers(&self, prompt: Seq<i32>, from: int, to: int) -> bool {
        &&& self.tokens@ == prompt.subrange(from, to)
        &&& self.positions@ == Seq::new((to - from) as nat, |i: int| (from + i) as i32)
        &&& self.logits@ == Seq::new((to - from) as nat, |i: int| from + i == prompt.len() - 1)
    }
}

/// The tokens that are remembered once `next` was said: the oldest goes where they are more than
/// `limit`.
pub open spec fn remembered(said: Seq<i32>, next: i32, limit: int) -> Seq<i32> {
    if said.len() + 1 > limit {
        said.push(next).skip(1)
    } else {
        said.push(next)
    }
}

/// The ids whose logits a repetition penalty changes, where `recent` was said.
pub open spec fn penalties(config: EngineConfig, vocab_size: i32, recent: Seq<i32>) -> Seq<usize> {
    if config.repeat_penalty == float::ONE {
        Seq::empty()
    } else {
        sampling::known_ids(
            sampling::last_of(recent, config.repeat_last_n as int),
            vocab_size as int,
        )
    }
}

/// A reply in the making.
pub struct Reply {
    /// Number of prompt tokens.
    pub n_prompt: usize,
    /// Number of tokens generated.
    pub n_generated: usize,
    /// Position of the next token.
    pub pos: i32,
    /// The place of the logits to sample from.
    pub sample_idx: i32,
    /// The text so far.
    pub output: String,
}

/// The engine.
pub struct LlamaEngine {
    /// Handle of the model.
    pub model: usize,
    /// Handle of the context.
    pub ctx: usize,
    pub config: EngineConfig,
    pub vocab_size: i32,
    /// The tokens that a repetition penalty looks at.
    pub recent_tokens: Vec<i32>,
    /// How many batches were decoded in this run.
    pub decode_step: usize,
}

impl LlamaEngine {
    /// Nothing was said and nothing decoded yet.
    pub open spec fn fresh(&self) -> bool {
        self.recent_tokens@ == Seq::<i32>::empty() && self.decode_step == 0
    }

    /// The engine over a model and a context; a context is asked for only where there is a model.
    pub fn load(config: EngineConfig, model: usize, ctx: usize, vocab_size: i32) -> (r: Result<
        LlamaEngine,
        EngineError,
    >)
        ensures
            match r {
                Ok(e) => {
                    &&& model != 0 && ctx != 0
                    &&& e.model == model
                    &&& e.ctx == ctx
                    &&& e.config == config
                    &&& e.vocab_size == vocab_size
                    &&& e.fresh()
                },
                Err(EngineError::NoModel) => model == 0,
                Err(EngineError::NoContext { model: freed }) => model != 0 && ctx == 0 && freed
                    == model,
                Err(_) => false,
            },
    {
        if model == 0 {
            return Err(EngineError::NoModel);
        }
        if ctx == 0 {
            return Err(EngineError::NoContext { model });
        }
        Ok(
            LlamaEngine {
                model,
                ctx,
                config,
                vocab_size,
                recent_tokens: Vec::new(),
                decode_step: 0,
            },
        )
    }

    /// Moves the window of resident pages on, in a file of `n_layers` windows.
    pub fn evict_step(&mut self, n_layers: usize) -> (r: Eviction)
        requires
            old(self).decode_step < usize::MAX,
        ensures
            r.prefetch == fetched(old(self).decode_step as int, n_layers as int),
            match r.retire {
                Some(w) => retired(
                    old(self).decode_step as int,
                    old(self).config.max_ram_layers as int,
                    n_layers as int,
                ) == Some(w as int),
                None => retired(
                    old(self).decode_step as int,
                    old(self).config.max_ram_layers as int,
                    n_layers as int,
                ) is None,
            },
            *final(self) == (LlamaEngine {
                decode_step: (old(self).decode_step + 1) as usize,
                ..*old(self)
            }),
    {
        let step: usize = self.decode_step;
        let prefetch: usize = if n_layers == 0 {
            0
        } else if step < n_layers {
            step
        } else {
            n_layers - 1
        };
        let keep: usize = self.config.max_ram_layers;
        let retire: Option<usize> = if step >= keep && step - keep < n_layers {
            Some(step - keep)
        } else {
            None
        };
        self.decode_step = step + 1;
        Eviction { prefetch, retire }
    }

    /// Begins a run: nothing was said and nothing decoded yet.
    pub fn begin_run(&mut self)
        ensures
            final(self).fresh(),
            *final(self) == (LlamaEngine {
                recent_tokens: final(self).recent_tokens,
                decode_step: 0,
                ..*old(self)
            }),
    {
        self.recent_tokens.clear();
        self.decode_step = 0;
    }

    /// Takes a prompt in, which has to leave room in the context.
    pub fn ingest(&self, tokens: Vec<i32>) -> (r: Result<Ingestion, EngineError>)
        requires
            tokens@.len() <= i32::MAX,
        ensures
            match r {
                Ok(g) => {
                    &&& tokens@.len() < self.config.n_ctx
                    &&& g.tokens@ == tokens@
                    &&& g.pos == 0
                    &&& g.last_logit_idx == 0
                },
                Err(e) => {
                    &&& tokens@.len() >= self.config.n_ctx
                    &&& e == (EngineError::PromptTooLong {
                        n_prompt: tokens@.len() as usize,
                        n_ctx: self.config.n_ctx,
                    })
                },
            },
    {
        let n_prompt: usize = tokens.len();
        if n_prompt as u32 >= self.config.n_ctx {
            return Err(EngineError::PromptTooLong { n_prompt, n_ctx: self.config.n_ctx });
        }
        Ok(Ingestion { tokens, pos: 0, last_logit_idx: 0 })
    }

    /// The next batch of a prompt, or none where all of it was fed. Its tokens count as recent.
    pub fn next_batch(&mut self, g: &mut Ingestion) -> (r: Option<BatchPlan>)
        requires
            0 < old(self).config.n_batch,
            old(g).pos <= old(g).tokens@.len() <= i32::MAX,
        ensures
            ({
                let n = old(g).tokens@.len() as int;
                let from = old(g).pos as int;
                let to = batch_end(from, old(self).config.n_batch as int, n);
                match r {
                    Some(b) => {
                        &&& from < n
                        &&& b.covers(old(g).tokens@, from, to)
                        &&& final(g).tokens == old(g).tokens
                        &&& final(g).pos == to
                        &&& final(g).last_logit_idx == (if to == n {
                            n - 1 - from
                        } else {
                            old(g).last_logit_idx as int
                        })
                        &&& *final(self) == (LlamaEngine {
                            recent_tokens: final(self).recent_tokens,
                            ..*old(self)
                        })
                        &&& final(self).recent_tokens@ == old(self).recent_tokens@ + b.tokens@
                        &&& forall|p: Progress| #[trigger]
                            p.fed(old(g).tokens@, from, old(self).config.n_batch as int) == p.heard(
                                b,
                            ).fed(old(g).tokens@, to, old(self).config.n_batch as int)
                    },
                    None => {
                        &&& from == n
                        &&& *final(g) == *old(g)
                        &&& *final(self) == *old(self)
                        &&& forall|p: Progress| #[trigger]
                            p.fed(old(g).tokens@, from, old(self).config.n_batch as int) == p
                    },
                }
            }),
    {
        let n: usize = g.tokens.len();
        let from: usize = g.pos;
        if from == n {
            return None;
        }
        let size: usize = self.config.n_batch as usize;
        let to: usize = if size <= n - from {
            from + size
        } else {
            n
        };
        let mut tokens: Vec<i32> = Vec::new();
        let mut positions: Vec<i32> = Vec::new();
        let mut logits: Vec<bool> = Vec::new();
        let ghost said = self.recent_tokens@;
        let ghost prompt = g.tokens@;
        let mut i: usize = from;
        while i < to
            invariant
                from <= i <= to <= n <= i32::MAX,
                n == prompt.len(),
                g.tokens@ == prompt,
                g.tokens == old(g).tokens,
                g.pos == old(g).pos,
                g.last_logit_idx == (if i == n {
                    n - 1 - from
                } else {
                    old(g).last_logit_idx as int
                }),
                from < n,
                i == from ==> i < n,
                tokens@ == prompt.subrange(from as int, i as int),
                positions@ == Seq::new((i - from) as nat, |k: int| (from + k) as i32),
                logits@ == Seq::new((i - from) as nat, |k: int| from + k == prompt.len() - 1),
                *self == (LlamaEngine { recent_tokens: self.recent_tokens, ..*old(self) }),
                self.recent_tokens@ == said + tokens@,
            decreases to - i,
        {
            let token: i32 = g.tokens[i];
            let is_last: bool = i == n - 1;
            tokens.push(token);
            positions.push(i as i32);
            logits.push(is_last);
            if is_last {
                g.last_logit_idx = (i - from) as i32;
            }
            self.recent_tokens.push(token);
            i += 1;
            assert(tokens@ =~= prompt.subrange(from as int, i as int));
            assert(self.recent_tokens@ =~= said + tokens@);
        }
        g.pos = to;
        let batch = BatchPlan { tokens, positions, logits };
        proof {
            assert forall|p: Progress| #[trigger]
                p.fed(prompt, from as int, size as int) == p.heard(batch).fed(
                    prompt,
                    to as int,
                    size as int,
                ) by {
                batch_is_one_step(p, batch, prompt, from as int, size as int);
            }
        }
        Some(batch)
    }

    /// Begins the reply to a prompt that was fed.
    pub fn begin_reply(g: &Ingestion) -> (r: Reply)
        requires
            g.pos == g.tokens@.len(),
            g.tokens@.len() <= i32::MAX,
        ensures
            r.n_prompt == g.tokens@.len(),
            r.n_generated == 0,
            r.pos == g.tokens@.len(),
            r.sample_idx == g.last_logit_idx,
            r.output@ == Seq::<char>::empty(),
    {
        Reply {
            n_prompt: g.tokens.len(),
            n_generated: 0,
            pos: g.pos as i32,
            sample_idx: g.last_logit_idx,
            output: String::new(),
        }
    }

    /// Whether a reply may go on.
    pub fn wants_more(&self, reply: &Reply) -> (r: bool)
        ensures
            r == (reply.n_generated < self.config.max_new_tokens),
    {
        reply.n_generated < self.config.max_new_tokens
    }

    /// How many tokens a repetition penalty may look back over.
    pub open spec fn memory(&self, reply: &Reply) -> int {
        self.config.repeat_last_n + reply.n_prompt
    }

    /// Takes a sampled token in, whose text is `piece`: it becomes part of the reply and is to be
    /// decoded, unless it is the end marker.
    pub fn accept(&mut self, reply: &mut Reply, next: i32, eos: i32, piece: &str) -> (r: Option<
        BatchPlan,
    >)
        requires
            old(reply).pos < i32::MAX,
            old(reply).n_generated < usize::MAX,
            old(self).memory(old(reply)) <= usize::MAX,
        ensures
            final(reply).n_prompt == old(reply).n_prompt,
            final(reply).sample_idx == 0,
            *final(self) == (LlamaEngine {
                recent_tokens: final(self).recent_tokens,
                ..*old(self)
            }),
            match r {
                Some(b) => {
                    &&& next != eos
                    &&& b.tokens@ == seq![next]
                    &&& b.positions@ == seq![old(reply).pos]
                    &&& b.pairs() == seq![(next, old(reply).pos)]
                    &&& b.logits@ == seq![true]
                    &&& final(reply).n_generated == old(reply).n_generated + 1
                    &&& final(reply).pos == old(reply).pos + 1
                    &&& final(reply).output@ == old(reply).output@ + piece@
                    &&& final(self).recent_tokens@ == remembered(
                        old(self).recent_tokens@,
                        next,
                        old(self).memory(old(reply)),
                    )
                },
                None => {
                    &&& next == eos
                    &&& final(reply).n_generated == old(reply).n_generated
                    &&& final(reply).pos == old(reply).pos
                    &&& final(reply).output == old(reply).output
                    &&& final(self).recent_tokens == old(self).recent_tokens
                },
            },
            forall|p: Progress|
                r is Some && #[trigger] p.tells_of(*old(self), *old(reply)) ==> p.spoken(
                    next,
                    piece@,
                    old(reply).n_prompt as int,
                    old(self).memory(old(reply)),
                ).tells_of(*final(self), *final(reply)),
    {
        reply.sample_idx = 0;
        if next == eos {
            return None;
        }
        let ghost said = self.recent_tokens@.push(next);
        self.recent_tokens.push(next);
        if self.recent_tokens.len() > self.config.repeat_last_n + reply.n_prompt {
            self.recent_tokens.remove(0);
            assert(self.recent_tokens@ =~= said.skip(1));
        }
        reply.output.append(piece);
        reply.n_generated = reply.n_generated + 1;
        let pos: i32 = reply.pos;
        reply.pos = pos + 1;
        let mut tokens: Vec<i32> = Vec::new();
        tokens.push(next);
        let mut positions: Vec<i32> = Vec::new();
        positions.push(pos);
        let mut logits: Vec<bool> = Vec::new();
        logits.push(true);
        assert(tokens@ =~= seq![next]);
        assert(positions@ =~= seq![pos]);
        assert(logits@ =~= seq![true]);
        let batch = BatchPlan { tokens, positions, logits };
        assert(batch.pairs() =~= seq![(next, pos)]);
        Some(batch)
    }

    /// The ids whose logits the repetition penalty changes, in order.
    pub fn penalised(&self) -> (r: Vec<usize>)
        requires
            0 <= self.vocab_size,
        ensures
            r@ == penalties(self.config, self.vocab_size, self.recent_tokens@),
    {
        sampling::penalised(
            &self.recent_tokens,
            self.config.repeat_last_n,
            self.vocab_size as usize,
            self.config.repeat_penalty,
        )
    }

    /// The token that is sampled at temperature zero.
    pub fn sample_greedy(&self, logits: &Vec<u32>) -> (r: Result<usize, EngineError>)
        requires
            sampling::comparable(logits@),
        ensures
            match r {
                Ok(best) => {
                    &&& best < logits@.len()
                    &&& forall|i: int|
                        0 <= i < logits@.len() ==> float::rank(#[trigger] logits@[i])
                            <= float::rank(logits@[best as int])
                    &&& forall|i: int|
                        best < i < logits@.len() ==> float::rank(#[trigger] logits@[i])
                            < float::rank(logits@[best as int])
                },
                Err(e) => logits@.len() == 0 && e == EngineError::NoCandidates,
            },
    {
        match sampling::greedy(logits) {
            Some(best) => Ok(best),
            None => Err(EngineError::NoCandidates),
        }
    }

    /// The size of the vocabulary.
    pub fn vocab_size(&self) -> (r: usize)
        requires
            0 <= self.vocab_size,
        ensures
            r == self.vocab_size,
    {
        self.vocab_size as usize
    }
}

/// What the status of a decoded batch means: zero is success.
pub fn check_decode(rc: i32, of_prompt: bool) -> (r: Result<(), EngineError>)
    ensures
        match r {
            Ok(()) => rc == 0,
            Err(e) => rc != 0 && e == (if of_prompt {
                EngineError::PromptDecode(rc)
            } else {
                EngineError::ReplyDecode(rc)
            }),
        },
{
    if rc == 0 {
        Ok(())
    } else if of_prompt {
        Err(EngineError::PromptDecode(rc))
    } else {
        Err(EngineError::ReplyDecode(rc))
    }
}

/// Whether there are logits at a place.
pub fn check_logits(handle: usize, i: i32) -> (r: Result<(), EngineError>)
    ensures
        match r {
            Ok(()) => handle != 0,
            Err(e) => handle == 0 && e == EngineError::NoLogits(i),
        },
{
    if handle == 0 {
        Err(EngineError::NoLogits(i))
    } else {
        Ok(())
    }
}

/// A count in words: in billions or millions with one decimal place, or in full.
pub fn fmt_params(n: u64) -> (r: String)
    ensures
        r@ == float::count_words(n as nat),
{
    let mut out: String = String::new();
    if n >= 1000000000 {
        float::push_tenths(&mut out, float::count_tenths(n, 1000000000));
        out.append("B");
    } else if n >= 1000000 {
        float::push_tenths(&mut out, float::count_tenths(n, 1000000));
        out.append("M");
    } else {
        text::push_decimal(&mut out, n);
    }
    assert(out@ =~= float::count_words(n as nat));
    out
}

/// The batches of a prompt are its parts, one after the other: each token stands in one of them,
/// and each batch begins where the one before it ends.
pub proof fn batches_partition_the_prompt(n: int, n_batch: int, i: int)
    requires
        0 < n_batch,
        0 <= i < n,
    ensures
        ({
            let from = i / n_batch * n_batch;
            let to = batch_end(from, n_batch, n);
            &&& 0 <= from <= i < to
            &&& to == n || to == (i / n_batch + 1) * n_batch
        }),
{
    vstd::arithmetic::div_mod::lemma_fundamental_div_mod(i, n_batch);
    let q = i / n_batch;
    assert(q * n_batch <= i < q * n_batch + n_batch && 0 <= q * n_batch) by (nonlinear_arith)
        requires
            i == n_batch * q + i % n_batch,
            0 <= i % n_batch < n_batch,
            0 <= i,
            0 < n_batch,
            q == i / n_batch,
    ;
    assert((q + 1) * n_batch == q * n_batch + n_batch) by (nonlinear_arith);
}

/// The logits of a prompt's last token are wanted, and no others: the batch that holds it asks for
/// them at the place that is sampled from, and every other batch asks for none.
pub proof fn last_logits_are_wanted(b: BatchPlan, prompt: Seq<i32>, from: int, to: int)
    requires
        b.covers(prompt, from, to),
        0 <= from < to <= prompt.len(),
    ensures
        forall|i: int|
            0 <= i < to - from ==> (#[trigger] b.logits@[i] <==> to == prompt.len() && i == to - 1
                - from),
{
}

/// The tokens that a repetition penalty looks back over are the newest of all that was said: to
/// drop the oldest at each token comes to the same as to keep the newest at the end.
pub proof fn memory_is_a_window(said: Seq<i32>, next: i32, limit: int)
    requires
        0 <= limit,
    ensures
        remembered(sampling::last_of(said, limit), next, limit) == sampling::last_of(
            said.push(next),
            limit,
        ),
{
    assert(remembered(sampling::last_of(said, limit), next, limit) =~= sampling::last_of(
        said.push(next),
        limit,
    ));
}

/// Tokens at the positions from the first on.
pub open spec fn placed(tokens: Seq<i32>) -> Seq<(i32, i32)> {
    Seq::new(tokens.len(), |i: int| (tokens[i], i as i32))
}

/// How far a run has got: the tokens that a repetition penalty looks at, all that the model has
/// decoded with its positions, and the reply as tokens and as text.
#[verifier::ext_equal]
pub struct Progress {
    pub recent: Seq<i32>,
    pub decoded: Seq<(i32, i32)>,
    pub ids: Seq<i32>,
    pub output: Seq<char>,
}

impl Progress {
    /// An engine and its reply have got this far.
    pub open spec fn tells_of(self, e: LlamaEngine, reply: Reply) -> bool {
        &&& e.recent_tokens@ == self.recent
        &&& reply.n_generated == self.ids.len()
        &&& reply.pos == reply.n_prompt + self.ids.len()
        &&& reply.output@ == self.output
    }

    /// The run after a batch of the prompt.
    pub open spec fn heard(self, b: BatchPlan) -> Progress {
        Progress {
            recent: self.recent + b.tokens@,
            decoded: self.decoded + b.pairs(),
            ..self
        }
    }

    /// The run after the batches of a prompt from token `from` on. Each batch is one call of
    /// [`LlamaEngine::next_batch`].
    pub open spec fn fed(self, prompt: Seq<i32>, from: int, n_batch: int) -> Progress
        decreases prompt.len() - from,
    {
        if n_batch <= 0 || from >= prompt.len() {
            self
        } else {
            let to = batch_end(from, n_batch, prompt.len() as int);
            Progress {
                recent: self.recent + prompt.subrange(from, to),
                decoded: self.decoded + placed(prompt).subrange(from, to),
                ..self
            }.fed(prompt, to, n_batch)
        }
    }

    /// The run after a token of the reply. Each token is one call of [`LlamaEngine::accept`].
    pub open spec fn spoken(
        self,
        next: i32,
        piece: Seq<char>,
        n_prompt: int,
        limit: int,
    ) -> Progress {
        Progress {
            recent: remembered(self.recent, next, limit),
            decoded: self.decoded.push((next, (n_prompt + self.ids.len()) as i32)),
            ids: self.ids.push(next),
            output: self.output + piece,
        }
    }

    /// The run after the whole reply, where the next token is a function of what was decoded and
    /// of the ids that the penalty changes, and the text of a token is a function of the token.
    pub open spec fn answered(
        self,
        config: EngineConfig,
        vocab_size: i32,
        n_prompt: int,
        eos: i32,
        next: spec_fn(Seq<(i32, i32)>, Seq<usize>) -> i32,
        piece: spec_fn(i32) -> Seq<char>,
    ) -> Progress
        decreases config.max_new_tokens - self.ids.len(),
    {
        let token = next(self.decoded, penalties(config, vocab_size, self.recent));
        if self.ids.len() >= config.max_new_tokens || token == eos {
            self
        } else {
            self.spoken(token, piece(token), n_prompt, config.repeat_last_n + n_prompt).answered(
                config,
                vocab_size,
                n_prompt,
                eos,
                next,
                piece,
            )
        }
    }
}

/// A whole run of an engine on a prompt.
pub open spec fn generated(
    e: LlamaEngine,
    prompt: Seq<i32>,
    eos: i32,
    next: spec_fn(Seq<(i32, i32)>, Seq<usize>) -> i32,
    piece: spec_fn(i32) -> Seq<char>,
) -> Progress {
    Progress {
        recent: e.recent_tokens@,
        decoded: Seq::empty(),
        ids: Seq::empty(),
        output: Seq::empty(),
    }.fed(prompt, 0, e.config.n_batch as int).answered(
        e.config,
        e.vocab_size,
        prompt.len() as int,
        eos,
        next,
        piece,
    )
}

/// A batch of a prompt holds its part of the prompt, each token at its place.
pub proof fn batches_keep_places(b: BatchPlan, prompt: Seq<i32>, from: int, to: int)
    requires
        b.covers(prompt, from, to),
        0 <= from <= to <= prompt.len(),
    ensures
        b.pairs() == placed(prompt).subrange(from, to),
{
    assert(b.pairs() =~= placed(prompt).subrange(from, to));
}

/// A batch of a prompt takes a run one step on: what is fed after it is the rest of the prompt.
pub proof fn batch_is_one_step(
    p: Progress,
    b: BatchPlan,
    prompt: Seq<i32>,
    from: int,
    n_batch: int,
)
    requires
        0 < n_batch,
        0 <= from < prompt.len(),
        b.covers(prompt, from, batch_end(from, n_batch, prompt.len() as int)),
    ensures
        p.fed(prompt, from, n_batch) == p.heard(b).fed(
            prompt,
            batch_end(from, n_batch, prompt.len() as int),
            n_batch,
        ),
{
    batches_keep_places(b, prompt, from, batch_end(from, n_batch, prompt.len() as int));
}

proof fn lemma_fed(p: Progress, prompt: Seq<i32>, from: int, n_batch: int)
    requires
        0 < n_batch,
        0 <= from <= prompt.len(),
    ensures
        p.fed(prompt, from, n_batch) == (Progress {
            recent: p.recent + prompt.skip(from),
            decoded: p.decoded + placed(prompt).skip(from),
            ..p
        }),
    decreases prompt.len() - from,
{
    if from < prompt.len() {
        let to = batch_end(from, n_batch, prompt.len() as int);
        let q = Progress {
            recent: p.recent + prompt.subrange(from, to),
            decoded: p.decoded + placed(prompt).subrange(from, to),
            ..p
        };
        lemma_fed(q, prompt, to, n_batch);
        assert(q.recent + prompt.skip(to) =~= p.recent + prompt.skip(from));
        assert(q.decoded + placed(prompt).skip(to) =~= p.decoded + placed(prompt).skip(from));
    } else {
        assert(p.recent + prompt.skip(from) =~= p.recent);
        assert(p.decoded + placed(prompt).skip(from) =~= p.decoded);
    }
}

proof fn lemma_answered(
    p: Progress,
    config: EngineConfig,
    vocab_size: i32,
    prompt: Seq<i32>,
    eos: i32,
    next: spec_fn(Seq<(i32, i32)>, Seq<usize>) -> i32,
    piece: spec_fn(i32) -> Seq<char>,
)
    requires
        p.decoded == placed(prompt + p.ids),
        p.recent == sampling::last_of(prompt + p.ids, config.repeat_last_n + prompt.len()),
        p.ids.len() <= config.max_new_tokens,
        !p.ids.contains(eos),
        p.output == text::joined(p.ids, piece),
    ensures
        ({
            let g = p.answered(config, vocab_size, prompt.len() as int, eos, next, piece);
            &&& g.decoded == placed(prompt + g.ids)
            &&& g.recent == sampling::last_of(prompt + g.ids, config.repeat_last_n + prompt.len())
            &&& g.ids.len() <= config.max_new_tokens
            &&& !g.ids.contains(eos)
            &&& g.output == text::joined(g.ids, piece)
            &&& g.ids.len() == config.max_new_tokens || next(
                g.decoded,
                penalties(config, vocab_size, g.recent),
            ) == eos
        }),
    decreases config.max_new_tokens - p.ids.len(),
{
    let limit = config.repeat_last_n + prompt.len();
    let token = next(p.decoded, penalties(config, vocab_size, p.recent));
    if p.ids.len() < config.max_new_tokens && token != eos {
        let q = p.spoken(token, piece(token), prompt.len() as int, limit);
        assert(prompt + q.ids =~= (prompt + p.ids).push(token));
        assert(q.decoded =~= placed(prompt + q.ids));
        assert(q.ids.drop_last() =~= p.ids);
        memory_is_a_window(prompt + p.ids, token, limit);
        assert forall|i: int| 0 <= i < q.ids.len() implies q.ids[i] != eos by {
            if i < p.ids.len() {
                assert(p.ids.contains(p.ids[i]));
            }
        }
        lemma_answered(q, config, vocab_size, prompt, eos, next, piece);
    }
}

/// A run decodes the prompt and then the reply, each token once, at the positions 0, 1, 2 and so
/// on. The penalty looks back over the newest of these tokens. The reply holds no end marker and
/// is not longer than it may be, and it ends for one of these two reasons. Its text is the text of
/// its tokens, one after the other.
pub proof fn runs_decode_prompt_then_reply(
    e: LlamaEngine,
    prompt: Seq<i32>,
    eos: i32,
    next: spec_fn(Seq<(i32, i32)>, Seq<usize>) -> i32,
    piece: spec_fn(i32) -> Seq<char>,
)
    requires
        e.fresh(),
        0 < e.config.n_batch,
    ensures
        ({
            let g = generated(e, prompt, eos, next, piece);
            &&& g.decoded == placed(prompt + g.ids)
            &&& g.recent == sampling::last_of(
                prompt + g.ids,
                e.config.repeat_last_n + prompt.len(),
            )
            &&& g.ids.len() <= e.config.max_new_tokens
            &&& !g.ids.contains(eos)
            &&& g.output == text::joined(g.ids, piece)
            &&& g.ids.len() == e.config.max_new_tokens || next(
                g.decoded,
                penalties(e.config, e.vocab_size, g.recent),
            ) == eos
        }),
{
    let start = Progress {
        recent: e.recent_tokens@,
        decoded: Seq::empty(),
        ids: Seq::empty(),
        output: Seq::empty(),
    };
    lemma_fed(start, prompt, 0, e.config.n_batch as int);
    let p = start.fed(prompt, 0, e.config.n_batch as int);
    assert(p.recent =~= prompt);
    assert(prompt + p.ids =~= prompt);
    assert(p.decoded =~= placed(prompt));
    lemma_answered(p, e.config, e.vocab_size, prompt, eos, next, piece);
}

/// Earlier runs leave no trace: two engines of one configuration that have begun a run give the
/// same reply to the same prompt, and move the same pages, whatever either did before. Where the
/// temperature is zero nothing is drawn, and the next token is such a function as `next`.
pub proof fn earlier_runs_leave_no_trace(
    a: LlamaEngine,
    b: LlamaEngine,
    prompt: Seq<i32>,
    eos: i32,
    next: spec_fn(Seq<(i32, i32)>, Seq<usize>) -> i32,
    piece: spec_fn(i32) -> Seq<char>,
)
    requires
        a.fresh(),
        b.fresh(),
        a.config == b.config,
        a.vocab_size == b.vocab_size,
    ensures
        generated(a, prompt, eos, next, piece) == generated(b, prompt, eos, next, piece),
        forall|k: int, n: int|
            #![trigger retired(a.decode_step + k, a.config.max_ram_layers as int, n)]
            retired(a.decode_step + k, a.config.max_ram_layers as int, n) == retired(
                b.decode_step + k,
                b.config.max_ram_layers as int,
                n,
            ) && fetched(a.decode_step + k, n) == fetched(b.decode_step + k, n),
{
}

/// The window that is fetched at a step is that of the step, or the last one where the file has no
/// such window. The one that is left behind is the one that was fetched `keep` steps ago, as long
/// as the file has it.
pub proof fn windows_follow_the_steps(step: int, keep: int, n: int)
    requires
        0 <= step,
        0 <= keep,
        0 <= n,
    ensures
        step < n ==> fetched(step, n) == step,
        0 < n <= step ==> fetched(step, n) == n - 1,
        n == 0 ==> fetched(step, n) == 0,
        step < keep ==> retired(step, keep, n) is None,
        keep <= step < keep + n ==> retired(step, keep, n) == Some(step - keep),
        step >= keep + n ==> retired(step, keep, n) is None,
        keep <= step < keep + n ==> retired(step, keep, n) == Some(fetched(step - keep, n)),
{
}

/// A batch has as many tokens as it may have, or as many as are left.
pub proof fn batches_are_full_or_the_last(pos: int, n_batch: int, n: int)
    requires
        0 < n_batch,
        0 <= pos <= n,
    ensures
        n - pos >= n_batch ==> batch_end(pos, n_batch, n) - pos == n_batch,
        n - pos < n_batch ==> batch_end(pos, n_batch, n) == n,
{
}

/// The tokens of a batch are those of its part of the prompt, in order, each with its place in the
/// prompt. The logits of the prompt's last token are wanted and no others.
pub proof fn batches_hold_their_part(b: BatchPlan, prompt: Seq<i32>, from: int, to: int, i: int)
    requires
        b.covers(prompt, from, to),
        0 <= from <= to <= prompt.len() <= i32::MAX,
        0 <= i < to - from,
    ensures
        b.tokens@.len() == to - from,
        b.positions@.len() == to - from,
        b.logits@.len() == to - from,
        b.tokens@[i] == prompt[from + i],
        b.positions@[i] == from + i,
        b.logits@[i] <==> from + i + 1 == prompt.len(),
        b.pairs().len() == to - from,
        b.pairs()[i] == (prompt[from + i], (from + i) as i32),
        placed(prompt).len() == prompt.len(),
        placed(prompt)[from + i] == (prompt[from + i], (from + i) as i32),
{
}

/// A token that was said is the last that is remembered. Those before it stay in order, and the
/// oldest goes where they were as many as may be remembered.
pub proof fn said_tokens_are_remembered(said: Seq<i32>, next: i32, limit: int, i: int)
    requires
        0 <= said.len() <= limit,
    ensures
        said.len() < limit ==> remembered(said, next, limit) == said.push(next),
        said.len() == limit && limit > 0 ==> {
            let r = remembered(said, next, limit);
            &&& r.len() == limit
            &&& r.last() == next
            &&& 0 <= i < limit - 1 ==> r[i] == said[i + 1]
        },
        limit == 0 ==> remembered(said, next, limit).len() == 0,
{
}

/// A penalty of 1 changes nothing. Any other changes the known ids among the last tokens that the
/// configuration names. As many tokens are remembered, and those of the prompt on top.
pub proof fn penalties_look_back(e: LlamaEngine, reply: Reply)
    ensures
        e.config.repeat_penalty == 0x3F800000 ==> penalties(
            e.config,
            e.vocab_size,
            e.recent_tokens@,
        ).len() == 0,
        e.config.repeat_penalty != 0x3F800000 ==> penalties(
            e.config,
            e.vocab_size,
            e.recent_tokens@,
        ) == sampling::known_ids(
            sampling::last_of(e.recent_tokens@, e.config.repeat_last_n as int),
            e.vocab_size as int,
        ),
        e.memory(&reply) == reply.n_prompt + e.config.repeat_last_n,
        e.fresh() <==> e.recent_tokens@.len() == 0 && e.decode_step == 0,
{
    assert(e.recent_tokens@.len() == 0 ==> e.recent_tokens@ =~= Seq::<i32>::empty());
}

/// The bytes of a buffer are its characters one for one, where a negative one stands for the byte
/// that is greater by 256.
pub proof fn bytes_are_the_characters(buf: Seq<i8>, i: int)
    requires
        0 <= i < buf.len(),
    ensures
        as_bytes(buf).len() == buf.len(),
        buf[i] >= 0 ==> as_bytes(buf)[i] == buf[i],
        buf[i] < 0 ==> as_bytes(buf)[i] == buf[i] + 256,
{
    let c: i8 = buf[i];
    assert(c < 0 ==> c as u8 == c + 256) by (bit_vector);
}

/// The errors in words.
pub proof fn errors_are_told_in_these_words(model: usize, n: usize, n_ctx: u32, x: i32)
    ensures
        EngineError::NoModel.words() == "[Z.1] llama_load_model_from_file returned null."@,
        (EngineError::NoContext { model }).words()
            == "[Z.1] llama_new_context_with_model returned null."@,
        (EngineError::TokenBuffer { need: x }).words() == "[Z.1] tokenize: buffer too small (need "@
            + text::signed_decimal(x as int) + " slots)"@,
        (EngineError::PromptTooLong { n_prompt: n, n_ctx }).words() == "[Z.1] Prompt is "@
            + text::decimal(n as nat) + " tokens but context is only "@ + text::decimal(
            n_ctx as nat,
        ) + "."@,
        EngineError::PromptDecode(x).words() == "[Z.1] llama_decode error "@ + text::signed_decimal(
            x as int,
        ) + " during prompt ingestion"@,
        EngineError::ReplyDecode(x).words() == "[Z.1] llama_decode error "@ + text::signed_decimal(
            x as int,
        ) + " during generation"@,
        EngineError::NoLogits(x).words() == "[Z.1] llama_get_logits_ith("@ + text::signed_decimal(
            x as int,
        ) + ") returned null"@,
        EngineError::NoCandidates.words() == "[Z.1] empty candidate list"@,
{
}

} // verus!
