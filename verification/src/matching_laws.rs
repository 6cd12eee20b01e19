//! Properties of the keyword matcher's spans, proved from its model.

use vstd::prelude::*;

use crate::matcher::{
    end_span, extend_match, in_trie, lemma_extend_match_bounds, lemma_word_end_bounds, scan,
    spec_extract, spec_is_word_char, word_end, SpanModel,
};
use crate::context::spec_candidates;
use crate::matcher::KeywordMatcher;
use crate::text::lowercase;

verus! {

/// `sp` is an occurrence of a keyword of `kws` in `c` that starts and ends at
/// word boundaries.
pub open spec fn whole_word_match(kws: Set<Seq<char>>, c: Seq<char>, sp: SpanModel) -> bool {
    let (k, s, e) = sp;
    &&& kws.contains(k)
    &&& 0 <= s < e <= c.len()
    &&& c.subrange(s, e) == k
    &&& (s == 0 || !spec_is_word_char(c[s - 1]))
    &&& (e == c.len() || !spec_is_word_char(c[e]))
}

/// No keyword of `kws` occurs as a whole word at the start of `sp` and ends
/// beyond it.
pub open spec fn longest_at_start(kws: Set<Seq<char>>, c: Seq<char>, sp: SpanModel) -> bool {
    forall|k2: Seq<char>|
        #[trigger] kws.contains(k2) && whole_word_match(kws, c, (k2, sp.1, sp.1 + k2.len()))
            ==> sp.1 + k2.len() <= sp.2
}

/// Every span of `r` is a longest whole-word keyword occurrence starting at or
/// after `lo`, and each span ends before the next one starts.
pub open spec fn spans_ok(kws: Set<Seq<char>>, c: Seq<char>, r: Seq<SpanModel>, lo: int) -> bool {
    &&& forall|t: int|
        0 <= t < r.len() ==> whole_word_match(kws, c, #[trigger] r[t]) && lo <= r[t].1
            && longest_at_start(kws, c, r[t])
    &&& forall|t1: int, t2: int| 0 <= t1 < t2 < r.len() ==> #[trigger] r[t1].2 < #[trigger] r[t2].1
}

proof fn lemma_spans_ok_concat(
    kws: Set<Seq<char>>,
    c: Seq<char>,
    a: Seq<SpanModel>,
    b: Seq<SpanModel>,
    lo: int,
    mid: int,
)
    requires
        spans_ok(kws, c, a, lo),
        spans_ok(kws, c, b, mid),
        lo <= mid,
        forall|t: int| 0 <= t < a.len() ==> #[trigger] a[t].2 < mid,
    ensures
        spans_ok(kws, c, a + b, lo),
{
    let r = a + b;
    assert forall|t1: int, t2: int| 0 <= t1 < t2 < r.len() implies #[trigger] r[t1].2
        < #[trigger] r[t2].1 by {
        if t2 < a.len() {
            assert(r[t1] == a[t1] && r[t2] == a[t2]);
        } else if t1 < a.len() {
            assert(r[t1] == a[t1] && r[t2] == b[t2 - a.len()]);
            assert(a[t1].2 < mid);
            assert(mid <= b[t2 - a.len()].1);
        } else {
            assert(r[t1] == b[t1 - a.len()] && r[t2] == b[t2 - a.len()]);
        }
    }
    assert forall|t: int| 0 <= t < r.len() implies whole_word_match(kws, c, #[trigger] r[t])
        && lo <= r[t].1 && longest_at_start(kws, c, r[t]) by {
        if t < a.len() {
            assert(r[t] == a[t]);
        } else {
            assert(r[t] == b[t - a.len()]);
        }
    }
}

/// What `extend_match` keeps is a whole-word occurrence starting at `start`,
/// and it reaches at least as far as any whole-word keyword occurrence that
/// starts at `start` and ends at or after `j`.
proof fn lemma_extend_match_sound(
    kws: Set<Seq<char>>,
    c: Seq<char>,
    start: int,
    j: int,
    q: Seq<char>,
    found: Option<(Seq<char>, int)>,
)
    requires
        !kws.contains(Seq::<char>::empty()),
        0 <= start < j <= c.len(),
        c.subrange(start, j) == q,
        start == 0 || !spec_is_word_char(c[start - 1]),
        found matches Some(f) ==> whole_word_match(kws, c, (f.0, start, f.1)) && f.1 <= j,
    ensures
        extend_match(kws, c, j, q, found) matches Some(r) ==> whole_word_match(
            kws,
            c,
            (r.0, start, r.1),
        ),
        found matches Some(f) ==> (extend_match(kws, c, j, q, found) matches Some(r) && f.1 <= r.1),
        forall|k2: Seq<char>|
            #[trigger] kws.contains(k2) && whole_word_match(kws, c, (k2, start, start + k2.len()))
                && j <= start + k2.len() ==> (extend_match(kws, c, j, q, found) matches Some(r)
                && start + k2.len() <= r.1),
    decreases c.len() - j,
{
    if j >= c.len() {
        assert forall|k2: Seq<char>|
            #[trigger] kws.contains(k2) && whole_word_match(kws, c, (k2, start, start + k2.len()))
                && j <= start + k2.len() implies (extend_match(kws, c, j, q, found) matches Some(r)
            && start + k2.len() <= r.1) by {
            assert(k2 == c.subrange(start, c.len() as int));
        }
    } else {
        let f2 = if !spec_is_word_char(c[j]) && kws.contains(q) {
            Some((q, j))
        } else {
            found
        };
        let q2 = q.push(c[j]);
        assert(c.subrange(start, j + 1) =~= q2);
        if in_trie(kws, q2) {
            lemma_extend_match_sound(kws, c, start, j + 1, q2, f2);
        }
        assert forall|k2: Seq<char>|
            #[trigger] kws.contains(k2) && whole_word_match(kws, c, (k2, start, start + k2.len()))
                && j <= start + k2.len() implies (extend_match(kws, c, j, q, found) matches Some(r)
            && start + k2.len() <= r.1) by {
            if start + k2.len() == j {
                assert(k2 == c.subrange(start, j));
            } else {
                assert(q2.is_prefix_of(k2)) by {
                    assert(k2 == c.subrange(start, start + k2.len()));
                    assert(q2 =~= k2.subrange(0, q2.len() as int));
                }
                assert(in_trie(kws, q2));
            }
        }
    }
}

/// The invariant of the scan: from a state that begins at a word boundary and
/// spells the text read since `start`, the scan reports only longest
/// whole-word keyword occurrences, in order.
proof fn lemma_scan_sound(kws: Set<Seq<char>>, c: Seq<char>, i: int, start: int, q: Seq<char>)
    requires
        !kws.contains(Seq::<char>::empty()),
        0 <= start <= i,
        i <= c.len() ==> c.subrange(start, i) == q,
        start == 0 || start > c.len() || !spec_is_word_char(c[start - 1]),
    ensures
        spans_ok(kws, c, scan(kws, c, i, start, q), start),
    decreases c.len() + 1 - i,
{
    if i < c.len() {
        let ch = c[i];
        let q2 = q.push(ch);
        assert(c.subrange(start, i + 1) =~= q2);
        if !spec_is_word_char(ch) {
            let ext = if in_trie(kws, q2) {
                extend_match(kws, c, i + 1, q2, None)
            } else {
                None
            };
            lemma_extend_match_bounds(kws, c, i + 1, q2, None, i + 1);
            if in_trie(kws, q2) {
                lemma_extend_match_sound(kws, c, start, i + 1, q2, None);
            }
            match ext {
                Some(found) => {
                    let e = found.1;
                    let sp = (found.0, start, e);
                    assert(longest_at_start(kws, c, sp));
                    let a = seq![sp];
                    assert(end_span(kws, c, e, start, Seq::<char>::empty()) =~= Seq::<SpanModel>::empty());
                    if e + 1 <= c.len() {
                        assert(c.subrange(e + 1, e + 1) =~= Seq::<char>::empty());
                    }
                    lemma_scan_sound(kws, c, e + 1, e + 1, Seq::<char>::empty());
                    lemma_spans_ok_concat(
                        kws,
                        c,
                        a,
                        scan(kws, c, e + 1, e + 1, Seq::<char>::empty()),
                        start,
                        e + 1,
                    );
                    assert(scan(kws, c, i, start, q) == a + end_span(
                        kws,
                        c,
                        e,
                        start,
                        Seq::<char>::empty(),
                    ) + scan(kws, c, e + 1, e + 1, Seq::<char>::empty()));
                    assert(a + end_span(kws, c, e, start, Seq::<char>::empty()) =~= a);
                },
                None => {
                    let here = if kws.contains(q) {
                        seq![(q, start, i)]
                    } else {
                        Seq::<SpanModel>::empty()
                    };
                    if kws.contains(q) {
                        if q.len() == 0 {
                            assert(q =~= Seq::<char>::empty());
                        }
                        assert(q.len() == i - start);
                        assert(0 <= start < i <= c.len());
                        assert(c.subrange(start, i) == q);
                        assert(start == 0 || !spec_is_word_char(c[start - 1]));
                        assert(!spec_is_word_char(c[i]));
                        assert(whole_word_match(kws, c, (q, start, i)));
                        assert forall|k2: Seq<char>|
                            #[trigger] kws.contains(k2) && whole_word_match(
                                kws,
                                c,
                                (k2, start, start + k2.len()),
                            ) implies start + k2.len() <= i by {
                            if start + k2.len() > i {
                                assert(q2.is_prefix_of(k2)) by {
                                    assert(k2 == c.subrange(start, start + k2.len()));
                                    assert(q2 =~= k2.subrange(0, q2.len() as int));
                                }
                                assert(in_trie(kws, q2));
                            }
                        }
                    }
                    assert(end_span(kws, c, i, start, Seq::<char>::empty()) =~= Seq::<SpanModel>::empty());
                    assert(c.subrange(i + 1, i + 1) =~= Seq::<char>::empty());
                    lemma_scan_sound(kws, c, i + 1, i + 1, Seq::<char>::empty());
                    lemma_spans_ok_concat(
                        kws,
                        c,
                        here,
                        scan(kws, c, i + 1, i + 1, Seq::<char>::empty()),
                        start,
                        i + 1,
                    );
                    assert(here + end_span(kws, c, i, start, Seq::<char>::empty()) =~= here);
                },
            }
        } else if in_trie(kws, q2) {
            let es = end_span(kws, c, i, start, q2);
            lemma_scan_sound(kws, c, i + 1, start, q2);
            if i + 1 >= c.len() && kws.contains(q2) {
                assert(whole_word_match(kws, c, (q2, start, c.len() as int)));
            }
            if es.len() > 0 {
                assert(scan(kws, c, i + 1, start, q2) =~= Seq::<SpanModel>::empty());
                assert(es + scan(kws, c, i + 1, start, q2) =~= es);
                let sp = (q2, start, c.len() as int);
                assert(es[0] == sp);
                assert(longest_at_start(kws, c, sp));
            } else {
                assert(es + scan(kws, c, i + 1, start, q2) =~= scan(kws, c, i + 1, start, q2));
            }
        } else {
            let j = word_end(c, i + 1);
            lemma_word_end_bounds(c, i + 1);
            assert(end_span(kws, c, j, start, Seq::<char>::empty()) =~= Seq::<SpanModel>::empty());
            if j + 1 <= c.len() {
                assert(c.subrange(j + 1, j + 1) =~= Seq::<char>::empty());
            }
            lemma_scan_sound(kws, c, j + 1, j + 1, Seq::<char>::empty());
            assert(end_span(kws, c, j, start, Seq::<char>::empty()) + scan(
                kws,
                c,
                j + 1,
                j + 1,
                Seq::<char>::empty(),
            ) =~= scan(kws, c, j + 1, j + 1, Seq::<char>::empty()));
        }
    }
}

/// Every span that `KeywordMatcher::extract` reports is an occurrence of one
/// of its keywords in the lowercased sentence that starts and ends at word
/// boundaries, and no keyword occurs there as a whole word that reaches
/// further (longest match); the spans come left to right, each ending before
/// the next begins (no overlap). This holds over any keyword set without the
/// empty string, which is every matcher's (see
/// `law_matcher_spans_are_longest_whole_word_matches`).
pub proof fn law_spans_are_longest_whole_word_matches(kws: Set<Seq<char>>, sentence: Seq<char>)
    requires
        !kws.contains(Seq::<char>::empty()),
    ensures
        spans_ok(kws, lowercase(sentence), spec_extract(kws, sentence), 0),
{
    if sentence.len() > 0 {
        let c = lowercase(sentence);
        assert(c.subrange(0, 0) =~= Seq::<char>::empty());
        lemma_scan_sound(kws, c, 0, 0, Seq::<char>::empty());
    }
}

proof fn lemma_extend_whole(
    kws: Set<Seq<char>>,
    c: Seq<char>,
    j: int,
    found: Option<(Seq<char>, int)>,
)
    requires
        kws.contains(c),
        0 <= j <= c.len(),
    ensures
        extend_match(kws, c, j, c.take(j), found) == Some((c, c.len() as int)),
    decreases c.len() - j,
{
    if j < c.len() {
        let q2 = c.take(j).push(c[j]);
        assert(q2 =~= c.take(j + 1));
        assert(q2.is_prefix_of(c));
        assert(in_trie(kws, q2));
        let f2 = if !spec_is_word_char(c[j]) && kws.contains(c.take(j)) {
            Some((c.take(j), j))
        } else {
            found
        };
        lemma_extend_whole(kws, c, j + 1, f2);
    } else {
        assert(c.take(j) =~= c);
    }
}

proof fn lemma_scan_whole(kws: Set<Seq<char>>, c: Seq<char>, i: int)
    requires
        kws.contains(c),
        !kws.contains(Seq::<char>::empty()),
        0 <= i < c.len(),
    ensures
        scan(kws, c, i, 0, c.take(i)) == seq![(c, 0int, c.len() as int)],
    decreases c.len() - i,
{
    let q2 = c.take(i).push(c[i]);
    assert(q2 =~= c.take(i + 1));
    assert(q2.is_prefix_of(c));
    assert(in_trie(kws, q2));
    if !spec_is_word_char(c[i]) {
        lemma_extend_whole(kws, c, i + 1, None);
        let n = c.len() as int;
        assert(end_span(kws, c, n, 0, Seq::<char>::empty()) =~= Seq::<SpanModel>::empty());
        assert(scan(kws, c, n + 1, n + 1, Seq::<char>::empty()) =~= Seq::<SpanModel>::empty());
        assert(seq![(c, 0int, n)] + end_span(kws, c, n, 0, Seq::<char>::empty()) + scan(
            kws,
            c,
            n + 1,
            n + 1,
            Seq::<char>::empty(),
        ) =~= seq![(c, 0int, n)]);
    } else if i + 1 < c.len() {
        lemma_scan_whole(kws, c, i + 1);
        assert(end_span(kws, c, i, 0, q2) =~= Seq::<SpanModel>::empty());
        assert(end_span(kws, c, i, 0, q2) + scan(kws, c, i + 1, 0, q2) =~= scan(kws, c, i + 1, 0, q2));
    } else {
        assert(q2 =~= c);
        assert(scan(kws, c, i + 1, 0, q2) =~= Seq::<SpanModel>::empty());
        assert(end_span(kws, c, i, 0, q2) + scan(kws, c, i + 1, 0, q2) =~= seq![(c, 0int, c.len() as int)]);
    }
}

/// For every matcher, the spans of `extract` are longest whole-word keyword
/// occurrences in the lowercased sentence, left to right without overlap.
pub proof fn law_matcher_spans_are_longest_whole_word_matches(m: KeywordMatcher, sentence: Seq<char>)
    requires
        m.wf(),
    ensures
        spans_ok(m@, lowercase(sentence), spec_extract(m@, sentence), 0),
{
    m.lemma_no_empty_keyword();
    law_spans_are_longest_whole_word_matches(m@, sentence);
}

/// For every matcher, a non-empty sentence whose lowercasing is one of its
/// keywords yields exactly that keyword, spanning the whole lowercased
/// sentence.
pub proof fn law_matcher_keyword_sentence_matches_whole(m: KeywordMatcher, sentence: Seq<char>)
    requires
        m.wf(),
        m@.contains(lowercase(sentence)),
        sentence.len() > 0,
    ensures
        spec_extract(m@, sentence) == seq![
            (lowercase(sentence), 0int, lowercase(sentence).len() as int),
        ],
{
    m.lemma_no_empty_keyword();
    law_keyword_sentence_matches_whole(m@, sentence);
}

/// A sentence whose lowercasing is a keyword yields exactly that keyword,
/// spanning the whole lowercased sentence (over any keyword set without the empty
/// string, which is every matcher's).
pub proof fn law_keyword_sentence_matches_whole(kws: Set<Seq<char>>, sentence: Seq<char>)
    requires
        !kws.contains(Seq::<char>::empty()),
        kws.contains(lowercase(sentence)),
        sentence.len() > 0,
    ensures
        spec_extract(kws, sentence) == seq![
            (lowercase(sentence), 0int, lowercase(sentence).len() as int),
        ],
{
    let c = lowercase(sentence);
    if c.len() == 0 {
        assert(c =~= Seq::<char>::empty());
    }
    assert(c.take(0) =~= Seq::<char>::empty());
    lemma_scan_whole(kws, c, 0);
}

/// Adding two keywords in either order gives matchers with the same keywords,
/// and so the same spans on every sentence.
pub proof fn law_add_order_irrelevant(kws: Set<Seq<char>>, a: Seq<char>, b: Seq<char>, sentence: Seq<char>)
    ensures
        kws.insert(lowercase(a)).insert(lowercase(b)) == kws.insert(lowercase(b)).insert(lowercase(a)),
        spec_extract(kws.insert(lowercase(a)).insert(lowercase(b)), sentence) == spec_extract(
            kws.insert(lowercase(b)).insert(lowercase(a)),
            sentence,
        ),
{
    assert(kws.insert(lowercase(a)).insert(lowercase(b)) =~= kws.insert(lowercase(b)).insert(
        lowercase(a),
    ));
}

/// Matching is case-insensitive: two non-empty sentences with the same
/// lowercasing yield the same spans.
pub proof fn law_case_insensitive(kws: Set<Seq<char>>, s1: Seq<char>, s2: Seq<char>)
    requires
        lowercase(s1) == lowercase(s2),
        s1.len() > 0,
        s2.len() > 0,
    ensures
        spec_extract(kws, s1) == spec_extract(kws, s2),
{
}

proof fn lemma_extend_match_keywords(
    kws: Set<Seq<char>>,
    c: Seq<char>,
    j: int,
    q: Seq<char>,
    found: Option<(Seq<char>, int)>,
)
    requires
        found matches Some(f) ==> kws.contains(f.0),
    ensures
        extend_match(kws, c, j, q, found) matches Some(r) ==> kws.contains(r.0),
    decreases c.len() - j,
{
    if j < c.len() {
        let f2 = if !spec_is_word_char(c[j]) && kws.contains(q) {
            Some((q, j))
        } else {
            found
        };
        if in_trie(kws, q.push(c[j])) {
            lemma_extend_match_keywords(kws, c, j + 1, q.push(c[j]), f2);
        }
    }
}

proof fn lemma_scan_keywords(kws: Set<Seq<char>>, c: Seq<char>, i: int, start: int, q: Seq<char>)
    ensures
        forall|t: int|
            0 <= t < scan(kws, c, i, start, q).len() ==> kws.contains(
                #[trigger] scan(kws, c, i, start, q)[t].0,
            ),
    decreases c.len() + 1 - i,
{
    if 0 <= i < c.len() {
        let ch = c[i];
        let q2 = q.push(ch);
        let r = scan(kws, c, i, start, q);
        if !spec_is_word_char(ch) {
            lemma_extend_match_bounds(kws, c, i + 1, q2, None, i + 1);
            if in_trie(kws, q2) {
                lemma_extend_match_keywords(kws, c, i + 1, q2, None);
            }
            let ext = if in_trie(kws, q2) {
                extend_match(kws, c, i + 1, q2, None)
            } else {
                None
            };
            let (head, e) = match ext {
                Some(found) => (
                    seq![(found.0, start, found.1)] + end_span(
                        kws,
                        c,
                        found.1,
                        start,
                        Seq::<char>::empty(),
                    ),
                    found.1,
                ),
                None => (
                    (if kws.contains(q) {
                        seq![(q, start, i)]
                    } else {
                        Seq::<SpanModel>::empty()
                    }) + end_span(kws, c, i, start, Seq::<char>::empty()),
                    i,
                ),
            };
            let rest = scan(kws, c, e + 1, e + 1, Seq::<char>::empty());
            lemma_scan_keywords(kws, c, e + 1, e + 1, Seq::<char>::empty());
            assert(r == head + rest);
            assert forall|t: int| 0 <= t < r.len() implies kws.contains(#[trigger] r[t].0) by {
                if t >= head.len() {
                    assert(r[t] == rest[t - head.len()]);
                }
            }
        } else if in_trie(kws, q2) {
            let head = end_span(kws, c, i, start, q2);
            let rest = scan(kws, c, i + 1, start, q2);
            lemma_scan_keywords(kws, c, i + 1, start, q2);
            assert forall|t: int| 0 <= t < r.len() implies kws.contains(#[trigger] r[t].0) by {
                if t >= head.len() {
                    assert(r[t] == rest[t - head.len()]);
                }
            }
        } else {
            let j = word_end(c, i + 1);
            lemma_word_end_bounds(c, i + 1);
            let head = end_span(kws, c, j, start, Seq::<char>::empty());
            let rest = scan(kws, c, j + 1, j + 1, Seq::<char>::empty());
            lemma_scan_keywords(kws, c, j + 1, j + 1, Seq::<char>::empty());
            assert forall|t: int| 0 <= t < r.len() implies kws.contains(#[trigger] r[t].0) by {
                if t >= head.len() {
                    assert(r[t] == rest[t - head.len()]);
                }
            }
        }
    }
}

/// Every skill that the matcher reports, and so every candidate's skill, is
/// one of the matcher's (lowercased) keywords, spelled as it is stored.
pub proof fn law_reported_skills_are_keywords(kws: Set<Seq<char>>, text: Seq<char>)
    ensures
        forall|t: int|
            0 <= t < spec_extract(kws, text).len() ==> kws.contains(
                #[trigger] spec_extract(kws, text)[t].0,
            ),
        forall|t: int|
            0 <= t < spec_candidates(kws, text).len() ==> kws.contains(
                #[trigger] spec_candidates(kws, text)[t].0,
            ),
{
    if text.len() > 0 {
        lemma_scan_keywords(kws, lowercase(text), 0, 0, Seq::<char>::empty());
    }
    assert forall|t: int| 0 <= t < spec_candidates(kws, text).len() implies kws.contains(
        #[trigger] spec_candidates(kws, text)[t].0,
    ) by {
        assert(spec_candidates(kws, text)[t].0 == spec_extract(kws, text)[t].0);
    }
}

/// Some span of `r` starts at `p`, or starts before `p` and reaches it.
pub open spec fn reported_at_or_over(r: Seq<SpanModel>, p: int) -> bool {
    exists|t: int| 0 <= t < r.len() && ((#[trigger] r[t]).1 == p || (r[t].1 < p && p <= r[t].2))
}

proof fn lemma_reported_suffix(a: Seq<SpanModel>, b: Seq<SpanModel>, p: int)
    requires
        reported_at_or_over(b, p),
    ensures
        reported_at_or_over(a + b, p),
{
    let t = choose|t: int| 0 <= t < b.len() && ((#[trigger] b[t]).1 == p || (b[t].1 < p && p <= b[t].2));
    assert((a + b)[t + a.len()] == b[t]);
}

/// From a fresh start at the first position of a whole-word keyword
/// occurrence, or from inside it while the characters read so far spell its
/// beginning, the scan's first span starts there.
proof fn lemma_scan_reports_at_start(
    kws: Set<Seq<char>>,
    c: Seq<char>,
    k: Seq<char>,
    p: int,
    e: int,
    i: int,
)
    requires
        !kws.contains(Seq::<char>::empty()),
        whole_word_match(kws, c, (k, p, e)),
        p <= i <= e,
        i < c.len(),
    ensures
        scan(kws, c, i, p, c.subrange(p, i)).len() > 0,
        scan(kws, c, i, p, c.subrange(p, i))[0].1 == p,
    decreases e - i,
{
    let q = c.subrange(p, i);
    let ch = c[i];
    let q2 = q.push(ch);
    let r = scan(kws, c, i, p, q);
    assert(c.subrange(p, i + 1) =~= q2);
    if i < e {
        assert(q2 =~= k.subrange(0, q2.len() as int));
        assert(q2.is_prefix_of(k));
        assert(in_trie(kws, q2));
    }
    if !spec_is_word_char(ch) {
        if i < e {
            lemma_extend_match_sound(kws, c, p, i + 1, q2, None);
            assert(kws.contains(k) && whole_word_match(kws, c, (k, p, p + k.len())));
        } else {
            assert(q =~= k);
        }
        let ext = if in_trie(kws, q2) {
            extend_match(kws, c, i + 1, q2, None)
        } else {
            None
        };
        match ext {
            Some(found) => {
                assert(r == seq![(found.0, p, found.1)] + end_span(
                    kws,
                    c,
                    found.1,
                    p,
                    Seq::<char>::empty(),
                ) + scan(kws, c, found.1 + 1, found.1 + 1, Seq::<char>::empty()));
                assert(r[0] == (found.0, p, found.1));
            },
            None => {
                assert(kws.contains(q));
                assert(r == seq![(q, p, i)] + end_span(kws, c, i, p, Seq::<char>::empty()) + scan(
                    kws,
                    c,
                    i + 1,
                    i + 1,
                    Seq::<char>::empty(),
                ));
                assert(r[0] == (q, p, i));
            },
        }
    } else {
        assert(i < e);
        let es = end_span(kws, c, i, p, q2);
        assert(r == es + scan(kws, c, i + 1, p, q2));
        if i + 1 >= c.len() {
            assert(q2 =~= k);
            assert(es == seq![(q2, p, c.len() as int)]);
            assert(r[0] == es[0]);
        } else {
            lemma_scan_reports_at_start(kws, c, k, p, e, i + 1);
            assert(es =~= Seq::<SpanModel>::empty());
            assert(r =~= scan(kws, c, i + 1, p, q2));
        }
    }
}

/// The scan cannot pass the start of a whole-word keyword occurrence without
/// reporting a span that starts there or that reaches it.
proof fn lemma_scan_reaches(
    kws: Set<Seq<char>>,
    c: Seq<char>,
    k: Seq<char>,
    p: int,
    e: int,
    i: int,
    start: int,
    q: Seq<char>,
)
    requires
        !kws.contains(Seq::<char>::empty()),
        whole_word_match(kws, c, (k, p, e)),
        0 <= start <= i <= p,
        i == p ==> start == p && q == Seq::<char>::empty(),
    ensures
        reported_at_or_over(scan(kws, c, i, start, q), p),
    decreases p - i,
{
    let r = scan(kws, c, i, start, q);
    if i == p {
        assert(c.subrange(p, p) =~= Seq::<char>::empty());
        lemma_scan_reports_at_start(kws, c, k, p, e, p);
        assert(r[0].1 == p);
    } else {
        let ch = c[i];
        let q2 = q.push(ch);
        if !spec_is_word_char(ch) {
            lemma_extend_match_bounds(kws, c, i + 1, q2, None, i + 1);
            let ext = if in_trie(kws, q2) {
                extend_match(kws, c, i + 1, q2, None)
            } else {
                None
            };
            match ext {
                Some(found) => {
                    let e2 = found.1;
                    let head = seq![(found.0, start, e2)] + end_span(
                        kws,
                        c,
                        e2,
                        start,
                        Seq::<char>::empty(),
                    );
                    let rest = scan(kws, c, e2 + 1, e2 + 1, Seq::<char>::empty());
                    assert(r == head + rest);
                    if e2 >= p {
                        assert(r[0] == (found.0, start, e2));
                    } else {
                        lemma_scan_reaches(kws, c, k, p, e, e2 + 1, e2 + 1, Seq::<char>::empty());
                        lemma_reported_suffix(head, rest, p);
                    }
                },
                None => {
                    let here = if kws.contains(q) {
                        seq![(q, start, i)]
                    } else {
                        Seq::<SpanModel>::empty()
                    };
                    let head = here + end_span(kws, c, i, start, Seq::<char>::empty());
                    let rest = scan(kws, c, i + 1, i + 1, Seq::<char>::empty());
                    assert(r == head + rest);
                    lemma_scan_reaches(kws, c, k, p, e, i + 1, i + 1, Seq::<char>::empty());
                    lemma_reported_suffix(head, rest, p);
                },
            }
        } else if in_trie(kws, q2) {
            assert(i + 1 < p);
            let head = end_span(kws, c, i, start, q2);
            let rest = scan(kws, c, i + 1, start, q2);
            assert(r == head + rest);
            lemma_scan_reaches(kws, c, k, p, e, i + 1, start, q2);
            lemma_reported_suffix(head, rest, p);
        } else {
            let j = word_end(c, i + 1);
            lemma_word_end_bounds(c, i + 1);
            if p - 1 < j {
                assert(spec_is_word_char(c[p - 1]));
            }
            let head = end_span(kws, c, j, start, Seq::<char>::empty());
            let rest = scan(kws, c, j + 1, j + 1, Seq::<char>::empty());
            assert(r == head + rest);
            lemma_scan_reaches(kws, c, k, p, e, j + 1, j + 1, Seq::<char>::empty());
            lemma_reported_suffix(head, rest, p);
        }
    }
}

/// Completeness: every whole-word occurrence of a keyword in the lowercased
/// sentence is reported. Some span starts where the occurrence starts, or a
/// span that starts earlier reaches its start; and where no earlier span
/// reaches it, a span starts exactly there and, being the longest, extends at
/// least to the occurrence's end. This holds over any keyword set without
/// the empty string, which is every matcher's.
pub proof fn law_every_whole_word_occurrence_is_reported(
    kws: Set<Seq<char>>,
    sentence: Seq<char>,
    k: Seq<char>,
    p: int,
    e: int,
)
    requires
        !kws.contains(Seq::<char>::empty()),
        sentence.len() > 0,
        whole_word_match(kws, lowercase(sentence), (k, p, e)),
    ensures
        reported_at_or_over(spec_extract(kws, sentence), p),
        (forall|t: int|
            0 <= t < spec_extract(kws, sentence).len() ==> !((#[trigger] spec_extract(
                kws,
                sentence,
            )[t]).1 < p && p <= spec_extract(kws, sentence)[t].2)) ==> exists|t: int|
            0 <= t < spec_extract(kws, sentence).len() && (#[trigger] spec_extract(
                kws,
                sentence,
            )[t]).1 == p && e <= spec_extract(kws, sentence)[t].2,
{
    let c = lowercase(sentence);
    let r = spec_extract(kws, sentence);
    lemma_scan_reaches(kws, c, k, p, e, 0, 0, Seq::<char>::empty());
    assert(c.subrange(0, 0) =~= Seq::<char>::empty());
    lemma_scan_sound(kws, c, 0, 0, Seq::<char>::empty());
    if forall|t: int| 0 <= t < r.len() ==> !((#[trigger] r[t]).1 < p && p <= r[t].2) {
        let t = choose|t: int| 0 <= t < r.len() && ((#[trigger] r[t]).1 == p || (r[t].1 < p && p <= r[t].2));
        assert(r[t].1 == p);
        assert(longest_at_start(kws, c, r[t]));
        assert(k.len() == e - p);
        assert(kws.contains(k));
        assert(whole_word_match(kws, c, (k, r[t].1, r[t].1 + k.len())));
    }
}

/// For every matcher: every whole-word occurrence of one of its keywords in
/// the lowercased sentence is reported (see
/// `law_every_whole_word_occurrence_is_reported`).
pub proof fn law_matcher_reports_every_whole_word_occurrence(
    m: KeywordMatcher,
    sentence: Seq<char>,
    k: Seq<char>,
    p: int,
    e: int,
)
    requires
        m.wf(),
        sentence.len() > 0,
        whole_word_match(m@, lowercase(sentence), (k, p, e)),
    ensures
        reported_at_or_over(spec_extract(m@, sentence), p),
{
    m.lemma_no_empty_keyword();
    law_every_whole_word_occurrence_is_reported(m@, sentence, k, p, e);
}

} // verus!
