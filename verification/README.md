# hypergreedy_bpe

Byte-pair-encoding tokenisers trained over a library of word counts, with
their behaviour stated as Verus contracts and proved:

- `counter` — a multiset of token sequences with a cached most common entry
  (backed by `rustc_hash`'s `FxHashMap`, reached through the trusted wrappers
  in `fx_map`);
- `tokens`, `sums`, `utils` — rewriting words and libraries, counting pairs,
  windows and tokens, and the lemmas about weighted sums and renamed libraries;
- `bpe`, `hypergreedy_bpe` — classic BPE, and the hypergreedy variant that
  extends a most common pair while its best one-token extension occurs more
  than half as often;
- `picky_bpe` — Picky-BPE, which removes a token again when it mostly occurs
  inside the token just merged;
- `scaffold_bpe` — Scaffold-BPE, which marks rarely used intermediate tokens
  as scaffold and breaks them down when tokenizing;
- `text` — splitting lines into words of bytes, counting them, decoding and
  encoding token sequences, and showing them as strings.

`app/main.rs` is the program around the library: it reads the text file
named on its command line, counts its words in parallel, trains the four
tokenisers and prints the fertility (tokens per word) of each.
