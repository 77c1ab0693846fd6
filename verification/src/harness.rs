//! The benchmark and the smoke test: what is run, and what counts as passed.

use vstd::prelude::*;
use vstd::string::*;

use crate::text;

verus! {

/// Number of benchmark prompts.
pub const N_PROMPTS: usize = 5;

/// The benchmark prompts.
pub open spec fn prompts() -> Seq<Seq<char>> {
    seq![
        "Explain the difference between stack and heap memory allocation in C."@,
        "Write a Rust function that merges two sorted vectors into one."@,
        "What are the main advantages of memory-mapped I/O for large files?"@,
        "Describe the transformer attention mechanism in plain English."@,
        "List five best practices for writing safe concurrent Rust code."@,
    ]
}

/// A benchmark prompt.
pub fn bench_prompt(i: usize) -> (r: &'static str)
    requires
        i < N_PROMPTS,
    ensures
        r@ == prompts()[i as int],
{
    match i {
        0 => "Explain the difference between stack and heap memory allocation in C.",
        1 => "Write a Rust function that merges two sorted vectors into one.",
        2 => "What are the main advantages of memory-mapped I/O for large files?",
        3 => "Describe the transformer attention mechanism in plain English.",
        _ => "List five best practices for writing safe concurrent Rust code.",
    }
}

/// Why a benchmark did not run, or did not pass its smoke test.
pub enum HarnessFault {
    /// No runs were asked for.
    NoRuns,
    /// The smoke test's text has no tokens.
    NoTokens,
    /// The smoke test's text did not survive, and this came back.
    RoundTrip(String),
}

impl HarnessFault {
    /// The fault in words; what came back of the smoke test's text is not among them.
    pub open spec fn words(self) -> Seq<char> {
        match self {
            HarnessFault::NoRuns => "[Z.1 Harness] n_runs must be > 0"@,
            HarnessFault::NoTokens =>
                "[Z.1 Harness] Smoke test FAILED: tokenizer returned 0 tokens for \"Hello, Z.1!\""@,
            HarnessFault::RoundTrip(_) =>
                "[Z.1 Harness] Smoke test FAILED: round-trip mismatch."@,
        }
    }

    /// The fault in words.
    pub fn message(&self) -> (r: String)
        ensures
            r@ == self.words(),
    {
        match self {
            HarnessFault::NoRuns => "[Z.1 Harness] n_runs must be > 0".to_owned(),
            HarnessFault::NoTokens =>
                "[Z.1 Harness] Smoke test FAILED: tokenizer returned 0 tokens for \"Hello, Z.1!\"".to_owned(),
            HarnessFault::RoundTrip(_) =>
                "[Z.1 Harness] Smoke test FAILED: round-trip mismatch.".to_owned(),
        }
    }
}

/// The prompts of a benchmark of `n_runs` timed runs: first that of the warm-up, then one for each
/// run, all of them in turn.
pub fn run(n_runs: usize) -> (r: Result<Vec<usize>, HarnessFault>)
    requires
        n_runs < usize::MAX,
    ensures
        match r {
            Ok(order) => n_runs > 0 && order@ == seq![0usize] + Seq::new(
                n_runs as nat,
                |i: int| (i % N_PROMPTS as int) as usize,
            ),
            Err(e) => n_runs == 0 && e is NoRuns,
        },
{
    if n_runs == 0 {
        return Err(HarnessFault::NoRuns);
    }
    let mut order: Vec<usize> = Vec::new();
    order.push(0);
    let mut i: usize = 0;
    while i < n_runs
        invariant
            i <= n_runs,
            order@ == seq![0usize] + Seq::new(
                i as nat,
                |j: int| (j % N_PROMPTS as int) as usize,
            ),
        decreases n_runs - i,
    {
        order.push(i % N_PROMPTS);
        i += 1;
        assert(order@ =~= seq![0usize] + Seq::new(
            i as nat,
            |j: int| (j % N_PROMPTS as int) as usize,
        ));
    }
    Ok(order)
}

/// The text of the smoke test.
pub fn smoke_text() -> (r: &'static str)
    ensures
        r@ == "Hello, Z.1!"@,
{
    "Hello, Z.1!"
}

/// Texts, one after the other.
pub open spec fn joined(pieces: Seq<String>) -> Seq<char>
    decreases pieces.len(),
{
    if pieces.len() == 0 {
        Seq::empty()
    } else {
        joined(pieces.drop_last()) + pieces.last()@
    }
}

/// Texts, one after the other.
fn concat(pieces: &Vec<String>) -> (r: String)
    ensures
        r@ == joined(pieces@),
{
    let mut out: String = String::new();
    let mut i: usize = 0;
    while i < pieces.len()
        invariant
            i <= pieces@.len(),
            out@ == joined(pieces@.take(i as int)),
        decreases pieces@.len() - i,
    {
        assert(pieces@.take(i + 1).drop_last() =~= pieces@.take(i as int));
        out.append(pieces[i].as_str());
        i += 1;
    }
    assert(pieces@.take(i as int) =~= pieces@);
    out
}

/// The verdict of the smoke test, from the texts of the tokens of its text: there are tokens, and
/// the key words survive.
pub fn smoke_test(pieces: &Vec<String>) -> (r: Result<String, HarnessFault>)
    ensures
        ({
            let out = joined(pieces@);
            let survives = text::has_part(out, "Hello"@) && text::has_part(out, "Z.1"@);
            match r {
                Ok(s) => pieces@.len() > 0 && survives && s@ == out,
                Err(HarnessFault::NoTokens) => pieces@.len() == 0,
                Err(HarnessFault::RoundTrip(s)) => pieces@.len() > 0 && !survives && s@ == out,
                Err(HarnessFault::NoRuns) => false,
            }
        }),
{
    if pieces.len() == 0 {
        return Err(HarnessFault::NoTokens);
    }
    let out: String = concat(pieces);
    if !text::contains(out.as_str(), "Hello") || !text::contains(out.as_str(), "Z.1") {
        return Err(HarnessFault::RoundTrip(out));
    }
    Ok(out)
}

/// There are five benchmark prompts, each at its place.
pub proof fn prompts_are_these()
    ensures
        N_PROMPTS == 5,
        prompts().len() == 5,
        prompts()[0] == "Explain the difference between stack and heap memory allocation in C."@,
        prompts()[1] == "Write a Rust function that merges two sorted vectors into one."@,
        prompts()[2] == "What are the main advantages of memory-mapped I/O for large files?"@,
        prompts()[3] == "Describe the transformer attention mechanism in plain English."@,
        prompts()[4] == "List five best practices for writing safe concurrent Rust code."@,
{
}

/// Texts are joined in order, with nothing between them.
pub proof fn texts_are_joined_in_order(pieces: Seq<String>, piece: String)
    ensures
        joined(Seq::empty()).len() == 0,
        joined(pieces.push(piece)) == joined(pieces) + piece@,
{
    assert(pieces.push(piece).drop_last() =~= pieces);
}

/// The faults in words.
pub proof fn faults_are_told_in_these_words(s: String)
    ensures
        HarnessFault::NoRuns.words() == "[Z.1 Harness] n_runs must be > 0"@,
        HarnessFault::NoTokens.words()
            == "[Z.1 Harness] Smoke test FAILED: tokenizer returned 0 tokens for \"Hello, Z.1!\""@,
        HarnessFault::RoundTrip(s).words() == "[Z.1 Harness] Smoke test FAILED: round-trip mismatch."@,
{
}

} // verus!
