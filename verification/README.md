# skill_extractor

Extracts skills from job postings and resumes. A gazetteer of skill names
proposes candidate spans with a FlashText-style keyword matcher
(case-insensitive, longest match, whole words only); each candidate gets its
±20-word context window, and a MiniLM sentence embedding with a small MLP
classifier accepts or rejects it.

Layout:

- `src/` — the library, verified with Verus:
  - `matcher.rs`: the keyword trie (`KeywordMatcher`), its model (the set of
    lowercased keywords) and the model of what `extract` reports;
  - `matching_laws.rs`: properties of the reported spans (whole-word,
    longest, ordered and non-overlapping keyword occurrences; case
    insensitivity; skills come from the gazetteer);
  - `context.rs`: candidates with their context windows, the classifier's
    inputs, and the sorted set of confirmed skills;
  - `text.rs`: lowercasing, characters, Unicode white space and words;
  - `loading.rs`: the gazetteer (JSON) and the classifier weights (base64
    little-endian `f32` arrays, handed out as bit patterns).
- `app/` — the rest: the embedding model (ONNX Runtime, tokenizers, model
  download from the Hugging Face Hub), the classifier's floating-point forward
  pass, the embedded data files and the `SkillExtractor` that ties them
  together.
- `tests/` — tests of the library.
