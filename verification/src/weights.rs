//! The weight tensors of a Llama model: their names, and which of them a model file holds.

use vstd::prelude::*;
use vstd::string::*;

use crate::text;

verus! {

/// A weight that every transformer layer has.
#[derive(Clone, Copy, Debug, PartialEq, Eq, Structural)]
pub enum LayerWeight {
    AttnNorm,
    AttnQ,
    AttnK,
    AttnV,
    AttnOutput,
    FfnNorm,
    FfnGate,
    FfnUp,
    FfnDown,
}

/// A weight tensor of the model.
#[derive(Clone, Copy, Debug, PartialEq, Eq, Structural)]
pub enum Weight {
    TokenEmbd,
    OutputNorm,
    Output,
    Layer(usize, LayerWeight),
}

impl LayerWeight {
    /// The name of the weight within its layer.
    pub open spec fn label(self) -> Seq<char> {
        match self {
            LayerWeight::AttnNorm => "attn_norm.weight"@,
            LayerWeight::AttnQ => "attn_q.weight"@,
            LayerWeight::AttnK => "attn_k.weight"@,
            LayerWeight::AttnV => "attn_v.weight"@,
            LayerWeight::AttnOutput => "attn_output.weight"@,
            LayerWeight::FfnNorm => "ffn_norm.weight"@,
            LayerWeight::FfnGate => "ffn_gate.weight"@,
            LayerWeight::FfnUp => "ffn_up.weight"@,
            LayerWeight::FfnDown => "ffn_down.weight"@,
        }
    }

    fn text(self) -> (r: &'static str)
        ensures
            r@ == self.label(),
    {
        match self {
            LayerWeight::AttnNorm => "attn_norm.weight",
            LayerWeight::AttnQ => "attn_q.weight",
            LayerWeight::AttnK => "attn_k.weight",
            LayerWeight::AttnV => "attn_v.weight",
            LayerWeight::AttnOutput => "attn_output.weight",
            LayerWeight::FfnNorm => "ffn_norm.weight",
            LayerWeight::FfnGate => "ffn_gate.weight",
            LayerWeight::FfnUp => "ffn_up.weight",
            LayerWeight::FfnDown => "ffn_down.weight",
        }
    }
}

impl Weight {
    /// The name under which a model file holds the weight.
    pub open spec fn label(self) -> Seq<char> {
        match self {
            Weight::TokenEmbd => "token_embd.weight"@,
            Weight::OutputNorm => "output_norm.weight"@,
            Weight::Output => "output.weight"@,
            Weight::Layer(layer, w) => "blk."@ + text::decimal(layer as nat) + "."@ + w.label(),
        }
    }

    /// The name under which a model file holds the weight.
    pub fn name(self) -> (r: String)
        ensures
            r@ == self.label(),
    {
        match self {
            Weight::TokenEmbd => "token_embd.weight".to_owned(),
            Weight::OutputNorm => "output_norm.weight".to_owned(),
            Weight::Output => "output.weight".to_owned(),
            Weight::Layer(layer, w) => {
                let mut out: String = "blk.".to_owned();
                text::push_decimal(&mut out, layer as u64);
                out.append(".");
                out.append(w.text());
                out
            },
        }
    }
}

/// The names of the tensors that a model file holds.
pub struct TensorIndex {
    pub names: Vec<String>,
}

impl TensorIndex {
    /// Whether the file holds a tensor of this name.
    pub open spec fn holds(&self, name: Seq<char>) -> bool {
        exists|i: int| 0 <= i < self.names@.len() && (#[trigger] self.names@[i])@ == name
    }

    /// Whether the file holds the weight.
    pub open spec fn has(&self, w: Weight) -> bool {
        self.holds(w.label())
    }

    /// Looks a tensor up by its name.
    pub fn contains(&self, name: &String) -> (r: bool)
        ensures
            r == self.holds(name@),
    {
        let mut i: usize = 0;
        while i < self.names.len()
            invariant
                i <= self.names@.len(),
                forall|j: int| 0 <= j < i ==> (#[trigger] self.names@[j])@ != name@,
            decreases self.names@.len() - i,
        {
            if self.names[i] == *name {
                assert(self.names@[i as int]@ == name@);
                return true;
            }
            i += 1;
        }
        false
    }

    /// Looks a weight up.
    pub fn has_weight(&self, w: Weight) -> (r: bool)
        ensures
            r == self.has(w),
    {
        self.contains(&w.name())
    }
}

/// The weights of layer `layer`, in the order in which a forward pass asks for them.
pub open spec fn layer_weights(layer: usize) -> Seq<Weight> {
    seq![
        Weight::Layer(layer, LayerWeight::AttnNorm),
        Weight::Layer(layer, LayerWeight::AttnQ),
        Weight::Layer(layer, LayerWeight::AttnK),
        Weight::Layer(layer, LayerWeight::AttnV),
        Weight::Layer(layer, LayerWeight::AttnOutput),
        Weight::Layer(layer, LayerWeight::FfnNorm),
        Weight::Layer(layer, LayerWeight::FfnGate),
        Weight::Layer(layer, LayerWeight::FfnUp),
        Weight::Layer(layer, LayerWeight::FfnDown),
    ]
}

/// The weights of the first `n` layers, in order.
pub open spec fn stack_weights(n: nat) -> Seq<Weight>
    decreases n,
{
    if n == 0 {
        Seq::empty()
    } else {
        stack_weights((n - 1) as nat) + layer_weights((n - 1) as usize)
    }
}

/// The first weight of `wanted` that the file lacks.
pub open spec fn first_missing(index: &TensorIndex, wanted: Seq<Weight>) -> Option<Weight>
    decreases wanted.len(),
{
    if wanted.len() == 0 {
        None
    } else {
        match first_missing(index, wanted.drop_last()) {
            Some(w) => Some(w),
            None => if index.has(wanted.last()) {
                None
            } else {
                Some(wanted.last())
            },
        }
    }
}

/// The first lack of a list is that of its front part, or else that of the rest.
proof fn lemma_first_missing_concat(index: &TensorIndex, a: Seq<Weight>, b: Seq<Weight>)
    ensures
        first_missing(index, a + b) == (match first_missing(index, a) {
            Some(w) => Some(w),
            None => first_missing(index, b),
        }),
    decreases b.len(),
{
    if b.len() == 0 {
        assert(a + b =~= a);
    } else {
        assert((a + b).drop_last() =~= a + b.drop_last());
        lemma_first_missing_concat(index, a, b.drop_last());
    }
}

/// A weight is the first that the file lacks exactly when it stands in the list, the file lacks
/// it, and the file holds every weight before it.
pub proof fn first_missing_is_first(index: &TensorIndex, wanted: Seq<Weight>)
    ensures
        match first_missing(index, wanted) {
            Some(w) => exists|i: int|
                0 <= i < wanted.len() && #[trigger] wanted[i] == w && !index.has(w) && forall|j: int|
                    0 <= j < i ==> index.has(#[trigger] wanted[j]),
            None => forall|j: int| 0 <= j < wanted.len() ==> index.has(#[trigger] wanted[j]),
        },
    decreases wanted.len(),
{
    if wanted.len() > 0 {
        let front = wanted.drop_last();
        first_missing_is_first(index, front);
        assert(forall|j: int| 0 <= j < front.len() ==> front[j] == #[trigger] wanted[j]);
        match first_missing(index, front) {
            Some(w) => {
                let i = choose|i: int|
                    0 <= i < front.len() && #[trigger] front[i] == w && !index.has(w) && forall|
                        j: int,
                    |
                        0 <= j < i ==> index.has(#[trigger] front[j]);
                assert(wanted[i] == w);
                assert forall|j: int| 0 <= j < i implies index.has(#[trigger] wanted[j]) by {
                    assert(front[j] == wanted[j]);
                }
            },
            None => {
                assert forall|j: int| 0 <= j < wanted.len() - 1 implies index.has(
                    #[trigger] wanted[j],
                ) by {
                    assert(front[j] == wanted[j]);
                }
                assert(wanted[wanted.len() - 1] == wanted.last());
            },
        }
    }
}

/// Where the file lacks no weight of a stack of layers, it holds each of them.
pub proof fn full_stack_has_every_weight(index: &TensorIndex, n: nat, layer: usize, w: LayerWeight)
    requires
        first_missing(index, stack_weights(n)) is None,
        layer < n <= usize::MAX,
    ensures
        index.has(Weight::Layer(layer, w)),
    decreases n,
{
    let below = stack_weights((n - 1) as nat);
    let own = layer_weights((n - 1) as usize);
    lemma_first_missing_concat(index, below, own);
    if layer < n - 1 {
        full_stack_has_every_weight(index, (n - 1) as nat, layer, w);
    } else {
        first_missing_is_first(index, own);
        let place: int = match w {
            LayerWeight::AttnNorm => 0,
            LayerWeight::AttnQ => 1,
            LayerWeight::AttnK => 2,
            LayerWeight::AttnV => 3,
            LayerWeight::AttnOutput => 4,
            LayerWeight::FfnNorm => 5,
            LayerWeight::FfnGate => 6,
            LayerWeight::FfnUp => 7,
            LayerWeight::FfnDown => 8,
        };
        assert(own[place] == Weight::Layer(layer, w));
    }
}

/// Looks for the first of a list of weights that the file lacks.
fn find_missing(index: &TensorIndex, wanted: &Vec<Weight>) -> (r: Option<Weight>)
    ensures
        r == first_missing(index, wanted@),
{
    let mut i: usize = 0;
    while i < wanted.len()
        invariant
            i <= wanted@.len(),
            first_missing(index, wanted@.take(i as int)) is None,
        decreases wanted@.len() - i,
    {
        assert(wanted@.take(i + 1).drop_last() =~= wanted@.take(i as int));
        assert(wanted@.take(i + 1).last() == wanted@[i as int]);
        if !index.has_weight(wanted[i]) {
            proof {
                assert(wanted@ =~= wanted@.take(i + 1) + wanted@.skip(i + 1));
                lemma_first_missing_concat(index, wanted@.take(i + 1), wanted@.skip(i + 1));
            }
            return Some(wanted[i]);
        }
        i += 1;
    }
    assert(wanted@.take(i as int) =~= wanted@);
    None
}

/// The weights of the layers in order, as `stack_weights` lists them.
fn list_stack(n: usize) -> (r: Vec<Weight>)
    ensures
        r@ == stack_weights(n as nat),
{
    let mut out: Vec<Weight> = Vec::new();
    let mut layer: usize = 0;
    while layer < n
        invariant
            layer <= n,
            out@ == stack_weights(layer as nat),
        decreases n - layer,
    {
        let ghost before = out@;
        out.push(Weight::Layer(layer, LayerWeight::AttnNorm));
        out.push(Weight::Layer(layer, LayerWeight::AttnQ));
        out.push(Weight::Layer(layer, LayerWeight::AttnK));
        out.push(Weight::Layer(layer, LayerWeight::AttnV));
        out.push(Weight::Layer(layer, LayerWeight::AttnOutput));
        out.push(Weight::Layer(layer, LayerWeight::FfnNorm));
        out.push(Weight::Layer(layer, LayerWeight::FfnGate));
        out.push(Weight::Layer(layer, LayerWeight::FfnUp));
        out.push(Weight::Layer(layer, LayerWeight::FfnDown));
        assert(out@ =~= before + layer_weights(layer));
        layer += 1;
    }
    out
}

/// Looks for the first weight of the first `n` layers that the file lacks.
pub fn missing_in_stack(index: &TensorIndex, n: usize) -> (r: Option<Weight>)
    ensures
        r == first_missing(index, stack_weights(n as nat)),
{
    find_missing(index, &list_stack(n))
}

/// The names of the weights in a model file.
pub proof fn weights_have_these_names(layer: usize)
    ensures
        ({
            let blk = "blk."@ + text::decimal(layer as nat);
            &&& Weight::TokenEmbd.label() == "token_embd.weight"@
            &&& Weight::OutputNorm.label() == "output_norm.weight"@
            &&& Weight::Output.label() == "output.weight"@
            &&& Weight::Layer(layer, LayerWeight::AttnNorm).label() == blk + ".attn_norm.weight"@
            &&& Weight::Layer(layer, LayerWeight::AttnQ).label() == blk + ".attn_q.weight"@
            &&& Weight::Layer(layer, LayerWeight::AttnK).label() == blk + ".attn_k.weight"@
            &&& Weight::Layer(layer, LayerWeight::AttnV).label() == blk + ".attn_v.weight"@
            &&& Weight::Layer(layer, LayerWeight::AttnOutput).label() == blk
                + ".attn_output.weight"@
            &&& Weight::Layer(layer, LayerWeight::FfnNorm).label() == blk + ".ffn_norm.weight"@
            &&& Weight::Layer(layer, LayerWeight::FfnGate).label() == blk + ".ffn_gate.weight"@
            &&& Weight::Layer(layer, LayerWeight::FfnUp).label() == blk + ".ffn_up.weight"@
            &&& Weight::Layer(layer, LayerWeight::FfnDown).label() == blk + ".ffn_down.weight"@
        }),
{
    reveal_strlit(".");
    reveal_strlit("attn_norm.weight");
    reveal_strlit(".attn_norm.weight");
    reveal_strlit("attn_q.weight");
    reveal_strlit(".attn_q.weight");
    reveal_strlit("attn_k.weight");
    reveal_strlit(".attn_k.weight");
    reveal_strlit("attn_v.weight");
    reveal_strlit(".attn_v.weight");
    reveal_strlit("attn_output.weight");
    reveal_strlit(".attn_output.weight");
    reveal_strlit("ffn_norm.weight");
    reveal_strlit(".ffn_norm.weight");
    reveal_strlit("ffn_gate.weight");
    reveal_strlit(".ffn_gate.weight");
    reveal_strlit("ffn_up.weight");
    reveal_strlit(".ffn_up.weight");
    reveal_strlit("ffn_down.weight");
    reveal_strlit(".ffn_down.weight");
    let blk = "blk."@ + text::decimal(layer as nat);
    assert("."@ + "attn_norm.weight"@ =~= ".attn_norm.weight"@);
    assert("."@ + "attn_q.weight"@ =~= ".attn_q.weight"@);
    assert("."@ + "attn_k.weight"@ =~= ".attn_k.weight"@);
    assert("."@ + "attn_v.weight"@ =~= ".attn_v.weight"@);
    assert("."@ + "attn_output.weight"@ =~= ".attn_output.weight"@);
    assert("."@ + "ffn_norm.weight"@ =~= ".ffn_norm.weight"@);
    assert("."@ + "ffn_gate.weight"@ =~= ".ffn_gate.weight"@);
    assert("."@ + "ffn_up.weight"@ =~= ".ffn_up.weight"@);
    assert("."@ + "ffn_down.weight"@ =~= ".ffn_down.weight"@);
    assert forall|w: LayerWeight| #[trigger]
        Weight::Layer(layer, w).label() == blk + ("."@ + w.label()) by {
        assert(Weight::Layer(layer, w).label() =~= blk + ("."@ + w.label()));
    }
}

/// The weights that a stack of layers asks for: nine for each layer, layer after layer, in the
/// order in which a layer uses them.
pub proof fn stacks_ask_layer_by_layer(n: nat, layer: usize)
    requires
        layer < n <= usize::MAX,
    ensures
        stack_weights(n).len() == 9 * n,
        stack_weights(n).subrange(9 * layer as int, 9 * layer + 9) == seq![
            Weight::Layer(layer, LayerWeight::AttnNorm),
            Weight::Layer(layer, LayerWeight::AttnQ),
            Weight::Layer(layer, LayerWeight::AttnK),
            Weight::Layer(layer, LayerWeight::AttnV),
            Weight::Layer(layer, LayerWeight::AttnOutput),
            Weight::Layer(layer, LayerWeight::FfnNorm),
            Weight::Layer(layer, LayerWeight::FfnGate),
            Weight::Layer(layer, LayerWeight::FfnUp),
            Weight::Layer(layer, LayerWeight::FfnDown),
        ],
    decreases n,
{
    lemma_stack_len((n - 1) as nat);
    let below = stack_weights((n - 1) as nat);
    if layer < n - 1 {
        stacks_ask_layer_by_layer((n - 1) as nat, layer);
        assert(stack_weights(n).subrange(9 * layer as int, 9 * layer + 9) =~= below.subrange(
            9 * layer as int,
            9 * layer + 9,
        ));
    } else {
        assert(stack_weights(n).subrange(9 * layer as int, 9 * layer + 9) =~= layer_weights(layer));
    }
}

proof fn lemma_stack_len(n: nat)
    ensures
        stack_weights(n).len() == 9 * n,
    decreases n,
{
    if n > 0 {
        lemma_stack_len((n - 1) as nat);
    }
}

/// A file holds a weight where one of its names is the weight's, character by character.
pub proof fn files_hold_what_they_name(index: TensorIndex, w: Weight)
    ensures
        index.has(w) <==> exists|i: int|
            0 <= i < index.names@.len() && (#[trigger] index.names@[i])@ == w.label(),
{
}

} // verus!
