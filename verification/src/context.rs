//! Candidates with their context windows, the classifier's inputs, and the
//! final set of confirmed skills.

use vstd::prelude::*;

use crate::matcher::{spec_extract, spans_view, KeywordMatcher, SpanModel};
use crate::text::{
    chars_of, join_range, join_words, law_split_join, law_words_are_nonempty_without_white_space,
    lemma_word_count_prefix, lemma_words_len, split_words, string_from_chars, word_count,
    word_counts, words,
};

verus! {

/// Words of context kept before a candidate.
pub const CONTEXT_BEFORE: usize = 20;

/// Words of context kept from a candidate's word on (the word itself and the
/// twenty after it).
pub const CONTEXT_AFTER: usize = 21;

/// A gazetteer hit: the skill name as the gazetteer spells it (lowercased),
/// and the words around the hit.
#[derive(Debug, Clone, PartialEq)]
pub struct Candidate {
    pub skill: String,
    pub context: String,
}

/// The skill and context of `c`, as values of the model.
pub open spec fn candidate_view(c: Candidate) -> (Seq<char>, Seq<char>) {
    (c.skill@, c.context@)
}

/// The range of word indices kept around word `wi` of a text of `n_words`
/// words.
pub open spec fn window(n_words: int, wi: int) -> (int, int) {
    let lo = if wi >= CONTEXT_BEFORE {
        wi - CONTEXT_BEFORE
    } else {
        0
    };
    let hi = if wi + CONTEXT_AFTER <= n_words {
        wi + CONTEXT_AFTER
    } else {
        n_words
    };
    (lo, hi)
}

/// The window around word `wi` of `n_words` words keeps at most twenty words
/// before it and reaches at most twenty words past it (twenty-one counting
/// the word itself), clipped at both ends of the text.
pub proof fn law_window(n_words: int, wi: int)
    requires
        0 <= wi <= n_words,
    ensures
        0 <= window(n_words, wi).0 <= wi <= window(n_words, wi).1 <= n_words,
        wi - window(n_words, wi).0 == (if wi < 20 {
            wi
        } else {
            20
        }),
        window(n_words, wi).1 - wi == (if n_words - wi < 21 {
            n_words - wi
        } else {
            21
        }),
{
}

/// The context of a hit at character position `start`: the words of `text`
/// from twenty before the word in which `start` falls (counting the words
/// that begin before `start`) to twenty after it, joined with single spaces.
pub open spec fn spec_context(text: Seq<char>, start: int) -> Seq<char> {
    let ws = words(text);
    let p = if start < text.len() {
        start
    } else {
        text.len() as int
    };
    let wi = word_count(text.take(p)) as int;
    let (lo, hi) = window(ws.len() as int, wi);
    join_words(ws.subrange(lo, hi))
}

/// The context of a hit at character position `start` splits into exactly
/// the text's words from twenty before the word the hit falls in (the number
/// of words that begin before `start`, or all of them when `start` is past
/// the end) to twenty past it, clipped at both ends of the text.
pub proof fn law_context_words(text: Seq<char>, start: int)
    requires
        0 <= start,
    ensures
        ({
            let ws = words(text);
            let wi = words(text.take(if start < text.len() { start } else { text.len() as int })).len() as int;
            let before = if wi < 20 { wi } else { 20int };
            let after = if ws.len() - wi < 21 { ws.len() - wi } else { 21int };
            &&& 0 <= wi <= ws.len()
            &&& words(spec_context(text, start)) == ws.subrange(wi - before, wi + after)
        }),
{
    let ws = words(text);
    let p = if start < text.len() {
        start
    } else {
        text.len() as int
    };
    lemma_words_len(text.take(p));
    lemma_words_len(text);
    lemma_word_count_prefix(text, p);
    let wi = word_count(text.take(p)) as int;
    law_window(ws.len() as int, wi);
    let (lo, hi) = window(ws.len() as int, wi);
    law_words_are_nonempty_without_white_space(text);
    let sub = ws.subrange(lo, hi);
    assert forall|t: int| 0 <= t < sub.len() implies (#[trigger] sub[t]).len() > 0 && forall|k: int|
        0 <= k < sub[t].len() ==> !crate::text::spec_is_whitespace(#[trigger] sub[t][k]) by {
        assert(sub[t] == ws[t + lo]);
    }
    law_split_join(sub);
}

/// The candidates of `text` for the keywords `kws`: each reported span's
/// keyword with the context at the span's start.
pub open spec fn spec_candidates(kws: Set<Seq<char>>, text: Seq<char>) -> Seq<(Seq<char>, Seq<char>)> {
    spec_extract(kws, text).map_values(|sp: SpanModel| (sp.0, spec_context(text, sp.1)))
}

/// The candidates for the spans `spans` (as `KeywordMatcher::extract` reports
/// them) in `text`: each span's keyword with the context at the span's start.
pub open spec fn spans_candidates(text: Seq<char>, spans: Seq<SpanModel>) -> Seq<(Seq<char>, Seq<char>)> {
    spans.map_values(|sp: SpanModel| (sp.0, spec_context(text, sp.1)))
}

/// The gazetteer hits of `text` with their ±20-word context windows.
pub fn candidates(matcher: &KeywordMatcher, text: &str) -> (out: Vec<Candidate>)
    requires
        matcher.wf(),
    ensures
        out@.map_values(|c: Candidate| candidate_view(c)) == spec_candidates(matcher@, text@),
{
    let matches = matcher.extract(text);
    candidates_from_spans(text, &matches)
}

/// The candidates for the spans `matches` of `text`: each span's keyword with
/// the words from twenty before to twenty after the word where it starts.
pub fn candidates_from_spans(text: &str, matches: &Vec<(String, usize, usize)>) -> (out: Vec<
    Candidate,
>)
    ensures
        out@.map_values(|c: Candidate| candidate_view(c)) == spans_candidates(
            text@,
            spans_view(matches@),
        ),
{
    let mut out: Vec<Candidate> = Vec::new();
    let ghost spans = spans_view(matches@);
    let ghost target = spans_candidates(text@, spans);
    if matches.len() == 0 {
        assert(out@.map_values(|c: Candidate| candidate_view(c)) =~= target);
        return out;
    }
    let chars = chars_of(text);
    let ws = split_words(&chars);
    let counts = word_counts(&chars);
    proof {
        lemma_words_len(chars@);
    }
    for t in 0..matches.len()
        invariant
            spans == spans_view(matches@),
            target == spans_candidates(text@, spans),
            chars@ == text@,
            ws@.map_values(|w: Vec<char>| w@) == words(text@),
            words(text@).len() == word_count(text@),
            counts@.len() == chars@.len() + 1,
            forall|i: int| 0 <= i <= chars@.len() ==> counts@[i] == word_count(#[trigger] chars@.take(i)),
            out@.map_values(|c: Candidate| candidate_view(c)) == target.take(t as int),
    {
        let m = &matches[t];
        let p = if m.1 < chars.len() {
            m.1
        } else {
            chars.len()
        };
        let wi = counts[p];
        proof {
            lemma_word_count_prefix(chars@, p as int);
        }
        let lo = if wi >= CONTEXT_BEFORE {
            wi - CONTEXT_BEFORE
        } else {
            0
        };
        let hi = if ws.len() - wi >= CONTEXT_AFTER {
            wi + CONTEXT_AFTER
        } else {
            ws.len()
        };
        let ctx = join_range(&ws, lo, hi);
        let c = Candidate { skill: m.0.clone(), context: string_from_chars(&ctx) };
        assert(spans[t as int] == (m.0@, m.1 as int, m.2 as int));
        assert(candidate_view(c) == (spans[t as int].0, spec_context(text@, spans[t as int].1)));
        out.push(c);
        assert(target.take(t + 1) =~= target.take(t as int).push(candidate_view(c)));
        assert(out@.map_values(|c: Candidate| candidate_view(c)) =~= target.take(t + 1));
    }
    assert(target.take(matches.len() as int) =~= target);
    out
}

/// The classifier's input for a candidate: `"{skill} : {context}"`.
pub fn classifier_input(c: &Candidate) -> (s: String)
    ensures
        s@ == c.skill@ + seq![' ', ':', ' '] + c.context@,
{
    let skill = chars_of(c.skill.as_str());
    let context = chars_of(c.context.as_str());
    let mut v: Vec<char> = Vec::new();
    for i in 0..skill.len()
        invariant
            v@ == skill@.take(i as int),
    {
        v.push(skill[i]);
        assert(skill@.take(i + 1) =~= skill@.take(i as int).push(skill@[i as int]));
    }
    assert(skill@.take(skill@.len() as int) =~= skill@);
    v.push(' ');
    v.push(':');
    v.push(' ');
    let ghost head = v@;
    for i in 0..context.len()
        invariant
            v@ == head + context@.take(i as int),
    {
        v.push(context[i]);
        assert(context@.take(i + 1) =~= context@.take(i as int).push(context@[i as int]));
    }
    assert(context@.take(context@.len() as int) =~= context@);
    assert(v@ =~= c.skill@ + seq![' ', ':', ' '] + c.context@);
    string_from_chars(&v)
}

/// The classifier's inputs for `cands`, in order.
pub fn classifier_inputs(cands: &[Candidate]) -> (inputs: Vec<String>)
    ensures
        inputs@.len() == cands@.len(),
        forall|i: int|
            0 <= i < cands@.len() ==> (#[trigger] inputs@[i])@ == cands@[i].skill@ + seq![' ', ':', ' ']
                + cands@[i].context@,
{
    let mut inputs: Vec<String> = Vec::new();
    for i in 0..cands.len()
        invariant
            inputs@.len() == i,
            forall|j: int|
                0 <= j < i ==> (#[trigger] inputs@[j])@ == cands@[j].skill@ + seq![' ', ':', ' ']
                    + cands@[j].context@,
    {
        inputs.push(classifier_input(&cands[i]));
    }
    inputs
}

// ---------------------------------------------------------------------------
// The confirmed skills, in the order of a `BTreeSet<String>`
// ---------------------------------------------------------------------------

/// Lexicographic order on character sequences (by code point), which is the
/// order of `String`s.
pub open spec fn lex_lt(a: Seq<char>, b: Seq<char>) -> bool
    decreases a.len(),
{
    if a.len() == 0 {
        b.len() > 0
    } else if b.len() == 0 {
        false
    } else if a[0] != b[0] {
        a[0] < b[0]
    } else {
        lex_lt(a.drop_first(), b.drop_first())
    }
}

/// This is the order of `String`s: a proper prefix comes first, and otherwise
/// the first character where two sequences differ decides, by code point.
pub proof fn law_lex_order(a: Seq<char>, b: Seq<char>, i: int)
    requires
        0 <= i <= a.len(),
        i <= b.len(),
        a.take(i) == b.take(i),
    ensures
        i == a.len() && i < b.len() ==> lex_lt(a, b) && !lex_lt(b, a),
        i < a.len() && i < b.len() && (a[i] as int) < (b[i] as int) ==> lex_lt(a, b) && !lex_lt(b, a),
    decreases i,
{
    if i > 0 {
        assert(a[0] == a.take(i)[0] && b[0] == b.take(i)[0]);
        assert(a.drop_first().take(i - 1) =~= a.take(i).drop_first());
        assert(b.drop_first().take(i - 1) =~= b.take(i).drop_first());
        law_lex_order(a.drop_first(), b.drop_first(), i - 1);
    }
}

/// Nothing comes before itself.
pub proof fn lemma_lex_irreflexive(a: Seq<char>)
    ensures
        !lex_lt(a, a),
    decreases a.len(),
{
    if a.len() > 0 {
        lemma_lex_irreflexive(a.drop_first());
    }
}

/// The order is transitive.
pub proof fn lemma_lex_transitive(a: Seq<char>, b: Seq<char>, c: Seq<char>)
    requires
        lex_lt(a, b),
        lex_lt(b, c),
    ensures
        lex_lt(a, c),
    decreases a.len(),
{
    if a.len() > 0 && b.len() > 0 && c.len() > 0 {
        if a[0] == b[0] && b[0] == c[0] {
            lemma_lex_transitive(a.drop_first(), b.drop_first(), c.drop_first());
        }
    }
}

/// Of two different sequences, one comes before the other.
pub proof fn lemma_lex_total(a: Seq<char>, b: Seq<char>)
    ensures
        a == b || lex_lt(a, b) || lex_lt(b, a),
    decreases a.len(),
{
    if a.len() > 0 && b.len() > 0 {
        if a[0] == b[0] {
            lemma_lex_total(a.drop_first(), b.drop_first());
            if a.drop_first() == b.drop_first() {
                assert(a =~= seq![a[0]] + a.drop_first());
                assert(b =~= seq![b[0]] + b.drop_first());
            }
        }
    } else if a.len() == 0 && b.len() == 0 {
        assert(a =~= b);
    }
}

/// `a` comes before `b` in lexicographic order.
pub fn lex_less(a: &Vec<char>, b: &Vec<char>) -> (r: bool)
    ensures
        r == lex_lt(a@, b@),
{
    let mut i: usize = 0;
    assert(a@.skip(0) =~= a@);
    assert(b@.skip(0) =~= b@);
    while i < a.len() && i < b.len() && a[i] == b[i]
        invariant
            i <= a@.len(),
            i <= b@.len(),
            lex_lt(a@, b@) == lex_lt(a@.skip(i as int), b@.skip(i as int)),
        decreases a@.len() - i,
    {
        assert(a@.skip(i as int).drop_first() =~= a@.skip(i + 1));
        assert(b@.skip(i as int).drop_first() =~= b@.skip(i + 1));
        i = i + 1;
    }
    if i == a.len() {
        i < b.len()
    } else if i == b.len() {
        false
    } else {
        a[i] < b[i]
    }
}

/// The skills of the accepted candidates: those of `cands[i]` with
/// `accepted[i]`, for the positions that both sequences have.
pub open spec fn chosen_skills(cands: Seq<Candidate>, accepted: Seq<bool>) -> Set<Seq<char>> {
    Set::new(
        |k: Seq<char>|
            exists|i: int|
                0 <= i < cands.len() && i < accepted.len() && accepted[i] && (#[trigger] cands[i]).skill@
                    == k,
    )
}

/// Each element of `s` comes before the later ones.
pub open spec fn strictly_sorted(s: Seq<Seq<char>>) -> bool {
    forall|i: int, j: int| 0 <= i < j < s.len() ==> lex_lt(#[trigger] s[i], #[trigger] s[j])
}

/// A strictly sorted sequence, such as the result of `confirmed_skills`,
/// holds each skill once.
pub proof fn law_sorted_skills_are_distinct(s: Seq<Seq<char>>)
    requires
        strictly_sorted(s),
    ensures
        s.no_duplicates(),
{
    assert forall|i: int, j: int| 0 <= i < s.len() && 0 <= j < s.len() && i != j implies s[i]
        != s[j] by {
        if i < j {
            assert(lex_lt(s[i], s[j]));
        } else {
            assert(lex_lt(s[j], s[i]));
        }
        lemma_lex_irreflexive(s[i]);
    }
}

/// Accepting fewer candidates (as a higher threshold does) never adds a
/// skill.
pub proof fn law_fewer_accepted_fewer_skills(cands: Seq<Candidate>, a1: Seq<bool>, a2: Seq<bool>)
    requires
        a1.len() == a2.len(),
        forall|i: int| 0 <= i < a2.len() && #[trigger] a2[i] ==> a1[i],
    ensures
        chosen_skills(cands, a2).subset_of(chosen_skills(cands, a1)),
{
    assert forall|k: Seq<char>| chosen_skills(cands, a2).contains(k) implies chosen_skills(
        cands,
        a1,
    ).contains(k) by {
        let i = choose|i: int|
            0 <= i < cands.len() && i < a2.len() && a2[i] && (#[trigger] cands[i]).skill@ == k;
        assert(a1[i]);
    }
}

/// The distinct skills of the accepted candidates, in lexicographic order.
pub fn confirmed_skills(cands: &[Candidate], accepted: &[bool]) -> (out: Vec<String>)
    ensures
        strictly_sorted(out@.map_values(|s: String| s@)),
        out@.map_values(|s: String| s@).to_set() == chosen_skills(cands@, accepted@),
{
    let mut out: Vec<String> = Vec::new();
    let mut keys: Vec<Vec<char>> = Vec::new();
    let n = if cands.len() < accepted.len() {
        cands.len()
    } else {
        accepted.len()
    };
    for i in 0..n
        invariant
            n <= cands@.len(),
            n <= accepted@.len(),
            keys@.len() == out@.len(),
            forall|j: int| 0 <= j < keys@.len() ==> (#[trigger] keys@[j])@ == out@[j]@,
            strictly_sorted(out@.map_values(|s: String| s@)),
            out@.map_values(|s: String| s@).to_set() == chosen_skills(
                cands@.take(i as int),
                accepted@.take(i as int),
            ),
    {
        let ghost before = out@.map_values(|s: String| s@);
        let ghost chosen_before = chosen_skills(cands@.take(i as int), accepted@.take(i as int));
        let ghost chosen_after = chosen_skills(cands@.take(i + 1), accepted@.take(i + 1));
        if accepted[i] {
            let key = chars_of(cands[i].skill.as_str());
            let mut p: usize = 0;
            while p < keys.len() && lex_less(&keys[p], &key)
                invariant
                    p <= keys@.len(),
                    forall|j: int| 0 <= j < p ==> lex_lt(#[trigger] keys@[j]@, key@),
                decreases keys@.len() - p,
            {
                p = p + 1;
            }
            let duplicate = p < keys.len() && !lex_less(&key, &keys[p]);
            if duplicate {
                proof {
                    lemma_lex_total(keys@[p as int]@, key@);
                }
                assert(chosen_after =~= chosen_before) by {
                    assert(before[p as int] == key@);
                    assert(before.contains(key@));
                    assert forall|k: Seq<char>| chosen_after.contains(k) implies chosen_before.contains(k) by {
                        let j = choose|j: int|
                            0 <= j < cands@.take(i + 1).len() && j < accepted@.take(i + 1).len()
                                && accepted@.take(i + 1)[j] && (#[trigger] cands@.take(
                                i + 1,
                            )[j]).skill@ == k;
                        if j < i {
                            assert(cands@.take(i as int)[j] == cands@.take(i + 1)[j]);
                        } else {
                            assert(before.to_set().contains(k));
                        }
                    }
                    assert forall|k: Seq<char>| chosen_before.contains(k) implies chosen_after.contains(k) by {
                        let j = choose|j: int|
                            0 <= j < cands@.take(i as int).len() && j < accepted@.take(i as int).len()
                                && accepted@.take(i as int)[j] && (#[trigger] cands@.take(
                                i as int,
                            )[j]).skill@ == k;
                        assert(cands@.take(i + 1)[j] == cands@.take(i as int)[j]);
                    }
                }
            } else {
                proof {
                    if p < keys@.len() {
                        lemma_lex_total(keys@[p as int]@, key@);
                    }
                }
                let s = cands[i].skill.clone();
                out.insert(p, s);
                keys.insert(p, key);
                let ghost after = out@.map_values(|s: String| s@);
                assert(after =~= before.insert(p as int, key@));
                assert(strictly_sorted(after)) by {
                    assert forall|a: int, b: int| 0 <= a < b < after.len() implies lex_lt(
                        #[trigger] after[a],
                        #[trigger] after[b],
                    ) by {
                        if b < p {
                            assert(after[a] == before[a] && after[b] == before[b]);
                        } else if b == p {
                            assert(after[a] == keys@[a]@);
                        } else if a == p {
                            assert(lex_lt(key@, before[p as int]));
                            if b > p + 1 {
                                lemma_lex_transitive(key@, before[p as int], before[b - 1]);
                            }
                        } else if a < p {
                            assert(after[a] == before[a] && after[b] == before[b - 1]);
                        } else {
                            assert(after[a] == before[a - 1] && after[b] == before[b - 1]);
                        }
                    }
                }
                assert(after.to_set() =~= chosen_after) by {
                    assert forall|k: Seq<char>| chosen_after.contains(k) implies after.to_set().contains(k) by {
                        let j = choose|j: int|
                            0 <= j < cands@.take(i + 1).len() && j < accepted@.take(i + 1).len()
                                && accepted@.take(i + 1)[j] && (#[trigger] cands@.take(
                                i + 1,
                            )[j]).skill@ == k;
                        if j < i {
                            assert(cands@.take(i as int)[j] == cands@.take(i + 1)[j]);
                            assert(chosen_before.contains(k));
                            assert(before.to_set().contains(k));
                            let x = choose|x: int| 0 <= x < before.len() && before[x] == k;
                            if x < p {
                                assert(after[x] == k);
                            } else {
                                assert(after[x + 1] == k);
                            }
                        } else {
                            assert(after[p as int] == k);
                        }
                    }
                    assert forall|k: Seq<char>| after.to_set().contains(k) implies chosen_after.contains(k) by {
                        let x = choose|x: int| 0 <= x < after.len() && after[x] == k;
                        if x == p {
                            assert(cands@.take(i + 1)[i as int] == cands@[i as int]);
                        } else {
                            let y = if x < p {
                                x
                            } else {
                                x - 1
                            };
                            assert(before[y] == k);
                            assert(before.to_set().contains(k));
                            assert(chosen_before.contains(k));
                            let j = choose|j: int|
                                0 <= j < cands@.take(i as int).len() && j < accepted@.take(
                                    i as int,
                                ).len() && accepted@.take(i as int)[j] && (#[trigger] cands@.take(
                                    i as int,
                                )[j]).skill@ == k;
                            assert(cands@.take(i + 1)[j] == cands@.take(i as int)[j]);
                        }
                    }
                }
            }
        } else {
            assert(chosen_after =~= chosen_before) by {
                assert forall|k: Seq<char>| chosen_after.contains(k) implies chosen_before.contains(k) by {
                    let j = choose|j: int|
                        0 <= j < cands@.take(i + 1).len() && j < accepted@.take(i + 1).len()
                            && accepted@.take(i + 1)[j] && (#[trigger] cands@.take(i + 1)[j]).skill@
                            == k;
                    assert(j < i);
                    assert(cands@.take(i as int)[j] == cands@.take(i + 1)[j]);
                }
                assert forall|k: Seq<char>| chosen_before.contains(k) implies chosen_after.contains(k) by {
                    let j = choose|j: int|
                        0 <= j < cands@.take(i as int).len() && j < accepted@.take(i as int).len()
                            && accepted@.take(i as int)[j] && (#[trigger] cands@.take(
                            i as int,
                        )[j]).skill@ == k;
                    assert(cands@.take(i + 1)[j] == cands@.take(i as int)[j]);
                }
            }
        }
    }
    assert(chosen_skills(cands@.take(n as int), accepted@.take(n as int)) =~= chosen_skills(
        cands@,
        accepted@,
    )) by {
        assert forall|k: Seq<char>| chosen_skills(cands@, accepted@).contains(k) implies chosen_skills(
            cands@.take(n as int),
            accepted@.take(n as int),
        ).contains(k) by {
            let j = choose|j: int|
                0 <= j < cands@.len() && j < accepted@.len() && accepted@[j] && (#[trigger] cands@[j]).skill@
                    == k;
            assert(cands@.take(n as int)[j] == cands@[j]);
        }
        assert forall|k: Seq<char>| chosen_skills(
            cands@.take(n as int),
            accepted@.take(n as int),
        ).contains(k) implies chosen_skills(cands@, accepted@).contains(k) by {
            let j = choose|j: int|
                0 <= j < cands@.take(n as int).len() && j < accepted@.take(n as int).len()
                    && accepted@.take(n as int)[j] && (#[trigger] cands@.take(n as int)[j]).skill@
                    == k;
            assert(cands@.take(n as int)[j] == cands@[j]);
        }
    }
    out
}

} // verus!
