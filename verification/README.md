# Z1

The core of an inference engine for Llama models, written in Rust and verified with Verus.

* `weights`, `gguf`: the tensors and the metadata of a model file.
* `expr`, `plan`, `shapes`, `values`: what a forward pass computes, as an expression; the compute
  graph that denotes it, as data; the shapes of its tensors; and their elements, in any arithmetic.
* `graph`: the forward pass that attends to every cached position.
* `quantum`: the forward pass under a causal mask.
* `generate`: chat sessions over a sliding window, and the generation loop.
* `engine`, `sampling`, `float`: batches, paging and sampling for an external model library.
* `server`, `console`, `harness`, `text`: HTTP, the terminal, the benchmark, and text helpers.

`app/` holds the program around the library: the bindings of ggml and llama.cpp, floating-point
arithmetic, the terminal and the HTTP server. The loader, the tokenizer, the sampler and the page
mapper are linked in.
