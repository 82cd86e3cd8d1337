//! Byte-pair-encoding tokeniser training: classic BPE, hypergreedy BPE,
//! Picky-BPE and Scaffold-BPE over a word-count library.

pub mod fx_map;
pub mod counter;
pub mod tokens;
pub mod sums;
pub mod utils;
pub mod hypergreedy_bpe;
pub mod bpe;
pub mod picky_bpe;
pub mod scaffold_bpe;
pub mod text;
