use z1::weights::{missing_in_stack, LayerWeight, TensorIndex, Weight};

const ALL: [LayerWeight; 9] = [
    LayerWeight::AttnNorm,
    LayerWeight::AttnQ,
    LayerWeight::AttnK,
    LayerWeight::AttnV,
    LayerWeight::AttnOutput,
    LayerWeight::FfnNorm,
    LayerWeight::FfnGate,
    LayerWeight::FfnUp,
    LayerWeight::FfnDown,
];

fn stack(n: usize) -> TensorIndex {
    let mut names = Vec::new();
    for layer in 0..n {
        for w in ALL {
            names.push(Weight::Layer(layer, w).name());
        }
    }
    TensorIndex { names }
}

#[test]
fn weights_are_named_as_in_model_files() {
    assert_eq!(Weight::TokenEmbd.name(), "token_embd.weight");
    assert_eq!(Weight::OutputNorm.name(), "output_norm.weight");
    assert_eq!(Weight::Output.name(), "output.weight");
    let names: Vec<String> = ALL.iter().map(|w| Weight::Layer(31, *w).name()).collect();
    assert_eq!(
        names,
        vec![
            "blk.31.attn_norm.weight",
            "blk.31.attn_q.weight",
            "blk.31.attn_k.weight",
            "blk.31.attn_v.weight",
            "blk.31.attn_output.weight",
            "blk.31.ffn_norm.weight",
            "blk.31.ffn_gate.weight",
            "blk.31.ffn_up.weight",
            "blk.31.ffn_down.weight",
        ]
    );
}

#[test]
fn a_full_stack_lacks_nothing() {
    assert_eq!(missing_in_stack(&stack(3), 3), None);
    assert_eq!(missing_in_stack(&stack(3), 0), None);
    assert!(stack(1).has_weight(Weight::Layer(0, LayerWeight::FfnUp)));
    assert!(!stack(1).has_weight(Weight::Output));
}

#[test]
fn the_first_lack_is_reported() {
    assert_eq!(
        missing_in_stack(&stack(2), 3),
        Some(Weight::Layer(2, LayerWeight::AttnNorm))
    );
    let mut index = stack(3);
    index.names.retain(|n| n != "blk.1.attn_v.weight" && n != "blk.2.attn_q.weight");
    assert_eq!(
        missing_in_stack(&index, 3),
        Some(Weight::Layer(1, LayerWeight::AttnV))
    );
    assert!(index.contains(&"blk.1.attn_q.weight".to_string()));
}
