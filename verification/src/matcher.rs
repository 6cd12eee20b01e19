//! Keyword matcher in the manner of FlashText's `extract_keywords`.
//!
//! Word boundaries are the characters outside `[A-Za-z0-9_]`. Matching is
//! case-insensitive (the sentence and the keywords are lowercased),
//! longest-match-wins and non-overlapping. Positions are counted in
//! characters (code points) of the lowercased sentence.

use std::collections::HashMap;
use vstd::prelude::*;

use crate::text::{chars_of, lowercase, to_lowercase};

verus! {

broadcast use vstd::std_specs::hash::group_hash_axioms;

// ---------------------------------------------------------------------------
// The model: what `extract` reports for a set of keywords
// ---------------------------------------------------------------------------

/// A reported span: the keyword, then the position of its first character and
/// the position one past its last character.
pub type SpanModel = (Seq<char>, int, int);

/// Word characters: ASCII letters, ASCII digits and the underscore.
pub open spec fn spec_is_word_char(c: char) -> bool {
    ('a' <= c && c <= 'z') || ('A' <= c && c <= 'Z') || ('0' <= c && c <= '9') || c == '_'
}

/// The word characters are exactly the ASCII letters (code points 65 to 90
/// and 97 to 122), the ASCII digits (48 to 57) and the underscore (95);
/// every other character, such as `/`, `:`, `-`, `.`, `+`, `#` or a space,
/// separates words.
pub proof fn law_word_chars(c: char)
    ensures
        spec_is_word_char(c) <==> (48 <= c as int <= 57 || 65 <= c as int <= 90 || 97 <= c as int
            <= 122 || c as int == 95),
        !spec_is_word_char('/') && !spec_is_word_char(':') && !spec_is_word_char('-')
            && !spec_is_word_char('.') && !spec_is_word_char('+') && !spec_is_word_char('#')
            && !spec_is_word_char(' ') && !spec_is_word_char('@') && !spec_is_word_char('[')
            && !spec_is_word_char('`') && !spec_is_word_char('{'),
{
}

/// `p` is a prefix of some keyword of `kws`: the trie has a node for `p`.
pub open spec fn in_trie(kws: Set<Seq<char>>, p: Seq<char>) -> bool {
    exists|k: Seq<char>| #[trigger] kws.contains(k) && p.is_prefix_of(k)
}

/// The first position at or after `i` that holds a non-word character, or the
/// length of `c` if there is none.
pub open spec fn word_end(c: Seq<char>, i: int) -> int
    decreases c.len() - i,
{
    if i >= c.len() {
        c.len() as int
    } else if !spec_is_word_char(c[i]) {
        i
    } else {
        word_end(c, i + 1)
    }
}

/// Follows the trie from the node for `q` along `c` from position `i` on, for
/// as long as the trie allows, and keeps the last keyword seen that ends at a
/// non-word character or at the end of `c` (with the position where it ends);
/// `found` is what was kept before position `i`.
pub open spec fn extend_match(
    kws: Set<Seq<char>>,
    c: Seq<char>,
    i: int,
    q: Seq<char>,
    found: Option<(Seq<char>, int)>,
) -> Option<(Seq<char>, int)>
    decreases c.len() - i,
{
    if i >= c.len() {
        if kws.contains(q) {
            Some((q, c.len() as int))
        } else {
            found
        }
    } else {
        let f = if !spec_is_word_char(c[i]) && kws.contains(q) {
            Some((q, i))
        } else {
            found
        };
        if in_trie(kws, q.push(c[i])) {
            extend_match(kws, c, i + 1, q.push(c[i]), f)
        } else {
            f
        }
    }
}

/// The span reported when the scan stands at the last position of `c` (or
/// beyond it) on the trie node for `q`, and `q` is a keyword.
pub open spec fn end_span(kws: Set<Seq<char>>, c: Seq<char>, i: int, start: int, q: Seq<char>) -> Seq<
    SpanModel,
> {
    if i + 1 >= c.len() && kws.contains(q) {
        seq![(q, start, c.len() as int)]
    } else {
        seq![]
    }
}

/// The spans reported by the scan of `c` from position `i` on, where the
/// current candidate began at `start` and the scan stands on the trie node for
/// `q`.
///
/// At a non-word character the scan tries to end the current candidate: it
/// reports the longest keyword that continues it (through further trie
/// edges, ending at a non-word character or at the end of `c`), or else the
/// candidate itself if it is a keyword, and starts afresh after it. At a word
/// character it follows the trie edge, and where there is none it skips the
/// rest of the word together with the non-word character that ends it.
pub open spec fn scan(kws: Set<Seq<char>>, c: Seq<char>, i: int, start: int, q: Seq<char>) -> Seq<
    SpanModel,
>
    decreases c.len() + 1 - i,
{
    if i < 0 || i >= c.len() {
        seq![]
    } else {
        let ch = c[i];
        if !spec_is_word_char(ch) {
            let ext = if in_trie(kws, q.push(ch)) {
                extend_match(kws, c, i + 1, q.push(ch), None)
            } else {
                None
            };
            proof {
                lemma_extend_match_bounds(kws, c, i + 1, q.push(ch), None, i + 1);
            }
            match ext {
                Some(found) => {
                    seq![(found.0, start, found.1)] + end_span(kws, c, found.1, start, seq![])
                        + scan(kws, c, found.1 + 1, found.1 + 1, seq![])
                },
                None => {
                    let here = if kws.contains(q) {
                        seq![(q, start, i)]
                    } else {
                        seq![]
                    };
                    here + end_span(kws, c, i, start, seq![]) + scan(kws, c, i + 1, i + 1, seq![])
                },
            }
        } else if in_trie(kws, q.push(ch)) {
            end_span(kws, c, i, start, q.push(ch)) + scan(kws, c, i + 1, start, q.push(ch))
        } else {
            let j = word_end(c, i + 1);
            proof {
                lemma_word_end_bounds(c, i + 1);
            }
            end_span(kws, c, j, start, seq![]) + scan(kws, c, j + 1, j + 1, seq![])
        }
    }
}

/// What `KeywordMatcher::extract` reports for the keywords `kws` on `sentence`.
pub open spec fn spec_extract(kws: Set<Seq<char>>, sentence: Seq<char>) -> Seq<SpanModel> {
    if sentence.len() == 0 {
        seq![]
    } else {
        scan(kws, lowercase(sentence), 0, 0, seq![])
    }
}

/// The keywords `kws` with `k` added, unless `k` is empty: the matcher
/// ignores the empty keyword.
pub open spec fn with_keyword(kws: Set<Seq<char>>, k: Seq<char>) -> Set<Seq<char>> {
    if k.len() == 0 {
        kws
    } else {
        kws.insert(k)
    }
}

/// The set of the non-empty lowercased strings of `ks`.
pub open spec fn lowercased_set(ks: Seq<String>) -> Set<Seq<char>> {
    ks.map_values(|s: String| lowercase(s@)).to_set().remove(Seq::<char>::empty())
}

/// Appending to a sequence adds the element to its set.
pub proof fn lemma_push_to_set<A>(s: Seq<A>, x: A)
    ensures
        s.push(x).to_set() == s.to_set().insert(x),
{
    assert forall|a: A| #[trigger] s.push(x).to_set().contains(a) <==> s.to_set().insert(x).contains(a) by {
        if s.push(x).contains(a) {
            let j = choose|j: int| 0 <= j < s.push(x).len() && s.push(x)[j] == a;
            if j < s.len() {
                assert(s[j] == a);
            }
        }
        if s.contains(a) {
            let j = choose|j: int| 0 <= j < s.len() && s[j] == a;
            assert(s.push(x)[j] == a);
        }
        if a == x {
            assert(s.push(x)[s.len() as int] == x);
        }
    }
    assert(s.push(x).to_set() =~= s.to_set().insert(x));
}

/// The spans of `v` as values of the model.
pub open spec fn spans_view(v: Seq<(String, usize, usize)>) -> Seq<SpanModel> {
    v.map_values(|t: (String, usize, usize)| (t.0@, t.1 as int, t.2 as int))
}

/// `word_end` stops at the first non-word character at or after `i`.
pub proof fn lemma_word_end_bounds(c: Seq<char>, i: int)
    requires
        0 <= i <= c.len(),
    ensures
        i <= word_end(c, i) <= c.len(),
        word_end(c, i) < c.len() ==> !spec_is_word_char(c[word_end(c, i)]),
        forall|j: int| i <= j < word_end(c, i) ==> spec_is_word_char(#[trigger] c[j]),
    decreases c.len() - i,
{
    if i < c.len() && spec_is_word_char(c[i]) {
        lemma_word_end_bounds(c, i + 1);
    }
}

/// Where `extend_match` ends lies between `lo` and the end of `c` when what
/// it starts from does.
pub proof fn lemma_extend_match_bounds(
    kws: Set<Seq<char>>,
    c: Seq<char>,
    i: int,
    q: Seq<char>,
    found: Option<(Seq<char>, int)>,
    lo: int,
)
    requires
        0 <= lo <= i <= c.len(),
        found matches Some(f) ==> lo <= f.1 <= c.len(),
    ensures
        extend_match(kws, c, i, q, found) matches Some(f) ==> lo <= f.1 <= c.len(),
    decreases c.len() - i,
{
    if i < c.len() {
        let f = if !spec_is_word_char(c[i]) && kws.contains(q) {
            Some((q, i))
        } else {
            found
        };
        if in_trie(kws, q.push(c[i])) {
            lemma_extend_match_bounds(kws, c, i + 1, q.push(c[i]), f, lo);
        }
    }
}

/// Word characters: ASCII letters, ASCII digits and the underscore.
pub fn is_word_char(c: char) -> (b: bool)
    ensures
        b == spec_is_word_char(c),
{
    ('a' <= c && c <= 'z') || ('A' <= c && c <= 'Z') || ('0' <= c && c <= '9') || c == '_'
}

// ---------------------------------------------------------------------------
// The trie
// ---------------------------------------------------------------------------

/// The key under which the trie edge for `c` is stored.
pub open spec fn key_of(c: char) -> u32 {
    c as u32
}

/// The key of a character is its code point, so distinct characters have
/// distinct keys.
pub proof fn lemma_key_of(c: char)
    ensures
        key_of(c) as int == c as int,
{
}

/// A trie of lowercased keywords. Node 0 is the root; node `i` has the edges
/// `children[i]` (keyed by the code point of the character) and holds the
/// keyword that ends there, if any.
pub struct KeywordMatcher {
    children: Vec<HashMap<u32, usize>>,
    keywords: Vec<Option<String>>,
    /// The characters on the way from the root to each node.
    paths: Ghost<Seq<Seq<char>>>,
}

impl View for KeywordMatcher {
    /// The set of (lowercased) keywords.
    type V = Set<Seq<char>>;

    closed spec fn view(&self) -> Set<Seq<char>> {
        Set::new(
            |k: Seq<char>|
                exists|i: int|
                    0 <= i < self.keywords@.len() && (#[trigger] self.keywords@[i]) is Some
                        && self.paths@[i] == k,
        )
    }
}

impl KeywordMatcher {
    spec fn size(&self) -> int {
        self.keywords@.len() as int
    }

    /// The node count agrees across the fields, and the root stands for the
    /// empty prefix.
    spec fn shape_ok(&self) -> bool {
        &&& self.children@.len() == self.keywords@.len()
        &&& self.paths@.len() == self.keywords@.len()
        &&& self.keywords@.len() >= 1
        &&& self.paths@[0] == Seq::<char>::empty()
        &&& self.keywords@[0] is None
    }

    /// An edge for `c` leads to a node whose path extends the parent's by `c`.
    spec fn edges_ok(&self) -> bool {
        forall|i: int, c: char|
            0 <= i < self.size() && #[trigger] self.children@[i]@.contains_key(key_of(c)) ==> {
                let j = self.children@[i]@[key_of(c)] as int;
                0 <= j < self.size() && self.paths@[j] == self.paths@[i].push(c)
            }
    }

    /// A node holds only the keyword spelled by its path.
    spec fn keywords_ok(&self) -> bool {
        forall|i: int|
            0 <= i < self.size() && (#[trigger] self.keywords@[i]) is Some ==> self.keywords@[i]->0@
                == self.paths@[i]
    }

    /// No two nodes share a path.
    #[verifier::opaque]
    spec fn paths_injective(&self) -> bool {
        forall|i: int, j: int|
            0 <= i < self.size() && 0 <= j < self.size() && #[trigger] self.paths@[i]
                == #[trigger] self.paths@[j] ==> i == j
    }

    /// Every proper prefix of a node's path is the path of a node that has the
    /// edge for the next character.
    #[verifier::opaque]
    spec fn prefix_closed(&self) -> bool {
        forall|j: int, l: int|
            0 <= j < self.size() && 0 <= l < (#[trigger] self.paths@[j]).len() ==> #[trigger] self.has_prefix_node(
                self.paths@[j],
                l,
            )
    }

    spec fn has_prefix_node(&self, p: Seq<char>, l: int) -> bool {
        exists|a: int|
            0 <= a < self.size() && #[trigger] self.paths@[a] == p.take(l)
                && self.children@[a]@.contains_key(key_of(p[l]))
    }

    /// Node `i` lies on the way to a node that holds a keyword.
    spec fn reaches_keyword(&self, i: int) -> bool {
        exists|m: int|
            0 <= m < self.size() && (#[trigger] self.keywords@[m]) is Some
                && self.paths@[i].is_prefix_of(self.paths@[m])
    }

    /// Every node but the root lies on the way to a keyword.
    #[verifier::opaque]
    spec fn all_reach(&self) -> bool {
        forall|i: int|
            0 <= i < self.size() && (#[trigger] self.paths@[i]).len() > 0 ==> self.reaches_keyword(
                i,
            )
    }

    /// The matcher's internal invariant.
    pub closed spec fn wf(&self) -> bool {
        &&& self.shape_ok()
        &&& self.edges_ok()
        &&& self.keywords_ok()
        &&& self.paths_injective()
        &&& self.prefix_closed()
        &&& self.all_reach()
    }

    /// The empty keyword is never among a matcher's keywords.
    pub proof fn lemma_no_empty_keyword(&self)
        requires
            self.wf(),
        ensures
            !self@.contains(Seq::<char>::empty()),
    {
        reveal(KeywordMatcher::paths_injective);
        if self@.contains(Seq::<char>::empty()) {
            let i = choose|i: int|
                0 <= i < self.keywords@.len() && (#[trigger] self.keywords@[i]) is Some
                    && self.paths@[i] == Seq::<char>::empty();
            assert(self.paths@[i] == self.paths@[0]);
        }
    }

    proof fn lemma_keyword(&self, i: int)
        requires
            self.wf(),
            0 <= i < self.size(),
        ensures
            self.keywords@[i] is Some <==> self@.contains(self.paths@[i]),
    {
        reveal(KeywordMatcher::paths_injective);
        if self@.contains(self.paths@[i]) {
            let m = choose|m: int|
                0 <= m < self.keywords@.len() && (#[trigger] self.keywords@[m]) is Some
                    && self.paths@[m] == self.paths@[i];
            assert(self.paths@[m] == self.paths@[i]);
        }
    }

    proof fn lemma_child(&self, i: int, c: char)
        requires
            self.wf(),
            0 <= i < self.size(),
        ensures
            self.children@[i]@.contains_key(key_of(c)) <==> in_trie(
                self@,
                self.paths@[i].push(c),
            ),
    {
        if self.children@[i]@.contains_key(key_of(c)) {
            self.lemma_child_forward(i, c);
        } else if in_trie(self@, self.paths@[i].push(c)) {
            self.lemma_child_backward(i, c);
        }
    }

    proof fn lemma_child_forward(&self, i: int, c: char)
        requires
            self.wf(),
            0 <= i < self.size(),
            self.children@[i]@.contains_key(key_of(c)),
        ensures
            in_trie(self@, self.paths@[i].push(c)),
    {
        let p = self.paths@[i].push(c);
        let j = self.children@[i]@[key_of(c)] as int;
        assert(self.paths@[j] == p);
        assert(self.reaches_keyword(j)) by {
            reveal(KeywordMatcher::all_reach);
            assert(self.paths@[j].len() > 0);
        }
        let m = choose|m: int|
            0 <= m < self.size() && (#[trigger] self.keywords@[m]) is Some
                && self.paths@[j].is_prefix_of(self.paths@[m]);
        assert(self@.contains(self.paths@[m]));
    }

    proof fn lemma_child_backward(&self, i: int, c: char)
        requires
            self.wf(),
            0 <= i < self.size(),
            in_trie(self@, self.paths@[i].push(c)),
        ensures
            self.children@[i]@.contains_key(key_of(c)),
    {
        let p = self.paths@[i].push(c);
        let k = choose|k: Seq<char>| #[trigger] self@.contains(k) && p.is_prefix_of(k);
        let m = choose|m: int|
            0 <= m < self.keywords@.len() && (#[trigger] self.keywords@[m]) is Some
                && self.paths@[m] == k;
        let l = self.paths@[i].len() as int;
        assert(l < self.paths@[m].len());
        assert(p[l] == c);
        assert(p == self.paths@[m].subrange(0, p.len() as int));
        assert(p[l] == self.paths@[m].subrange(0, p.len() as int)[l]);
        assert(self.has_prefix_node(self.paths@[m], l)) by {
            reveal(KeywordMatcher::prefix_closed);
        }
        let a = choose|a: int|
            0 <= a < self.size() && #[trigger] self.paths@[a] == self.paths@[m].take(l)
                && self.children@[a]@.contains_key(key_of(self.paths@[m][l]));
        assert(self.paths@[m].take(l) =~= self.paths@[i]);
        assert(self.paths@[m][l] == c);
        assert(a == i) by {
            reveal(KeywordMatcher::paths_injective);
        }
    }

    /// Every node but the root lies on the way to a keyword or spells a prefix
    /// of `w`.
    #[verifier::opaque]
    spec fn reach_or_prefix(&self, w: Seq<char>) -> bool {
        forall|i: int|
            0 <= i < self.size() && (#[trigger] self.paths@[i]).len() > 0 ==> self.reaches_keyword(
                i,
            ) || self.paths@[i].is_prefix_of(w)
    }

    /// The node reached from `node` by the edge for `c`, if there is one.
    fn child(&self, node: usize, c: char) -> (r: Option<usize>)
        requires
            self.shape_ok(),
            node < self.size(),
        ensures
            r == (if self.children@[node as int]@.contains_key(key_of(c)) {
                Some(self.children@[node as int]@[key_of(c)])
            } else {
                None
            }),
    {
        match self.children[node].get(&(c as u32)) {
            Some(j) => Some(*j),
            None => None,
        }
    }

    /// Appends a node for the path of `node` extended by `c`, with the edge to
    /// it from `node`.
    fn push_child(&mut self, node: usize, c: char, Ghost(w): Ghost<Seq<char>>) -> (n: usize)
        requires
            old(self).shape_ok(),
            old(self).edges_ok(),
            old(self).keywords_ok(),
            old(self).paths_injective(),
            old(self).prefix_closed(),
            old(self).reach_or_prefix(w),
            node < old(self).size(),
            !old(self).children@[node as int]@.contains_key(key_of(c)),
            old(self).paths@[node as int].push(c).is_prefix_of(w),
        ensures
            final(self).shape_ok(),
            final(self).edges_ok(),
            final(self).keywords_ok(),
            final(self).paths_injective(),
            final(self).prefix_closed(),
            final(self).reach_or_prefix(w),
            final(self)@ == old(self)@,
            n == old(self).size(),
            final(self).size() == old(self).size() + 1,
            final(self).paths@[n as int] == old(self).paths@[node as int].push(c),
            forall|i: int| 0 <= i < old(self).size() ==> final(self).paths@[i] == old(self).paths@[i],
    {
        let ghost old_self = *self;
        let ghost p = self.paths@[node as int].push(c);
        let n = self.children.len();
        self.children.push(HashMap::new());
        self.keywords.push(None);
        self.paths = Ghost(self.paths@.push(p));
        self.children[node].insert(c as u32, n);
        assert(self.shape_ok());
        assert(self.edges_ok()) by {
            assert forall|i: int, d: char|
                0 <= i < self.size() && #[trigger] self.children@[i]@.contains_key(key_of(d)) implies {
                let j = self.children@[i]@[key_of(d)] as int;
                0 <= j < self.size() && self.paths@[j] == self.paths@[i].push(d)
            } by {
                if i == node as int && d == c {
                } else if i == node as int {
                    lemma_key_of(d);
                    lemma_key_of(c);
                    assert(key_of(d) != key_of(c));
                    assert(old_self.children@[i]@.contains_key(key_of(d)));
                } else if i < n {
                    assert(self.children@[i] == old_self.children@[i]);
                    assert(old_self.children@[i]@.contains_key(key_of(d)));
                }
            }
        }
        assert(self.keywords_ok());
        // A node with path p would, by prefix closure, make `node` have the
        // edge for `c` already.
        assert forall|e: int| 0 <= e < n implies old_self.paths@[e] != p by {
            reveal(KeywordMatcher::prefix_closed);
            reveal(KeywordMatcher::paths_injective);
            if old_self.paths@[e] == p {
                let l = old_self.paths@[node as int].len() as int;
                assert(old_self.has_prefix_node(old_self.paths@[e], l));
                let a = choose|a: int|
                    0 <= a < old_self.size() && #[trigger] old_self.paths@[a]
                        == old_self.paths@[e].take(l) && old_self.children@[a]@.contains_key(
                        key_of(old_self.paths@[e][l]),
                    );
                assert(p.take(l) =~= old_self.paths@[node as int]);
                assert(a == node as int);
            }
        }
        assert(self.paths_injective()) by {
            reveal(KeywordMatcher::paths_injective);
        }
        assert(self.prefix_closed()) by {
            reveal(KeywordMatcher::prefix_closed);
            assert forall|j: int, l: int|
                0 <= j < self.size() && 0 <= l < (#[trigger] self.paths@[j]).len() implies #[trigger] self.has_prefix_node(
                self.paths@[j],
                l,
            ) by {
                let pj = self.paths@[j];
                if j == n as int {
                    if l == p.len() - 1 {
                        assert(pj.take(l) =~= self.paths@[node as int]);
                        assert(self.paths@[node as int] == pj.take(l));
                        assert(self.children@[node as int]@.contains_key(key_of(pj[l])));
                    } else {
                        let pn = old_self.paths@[node as int];
                        assert(old_self.has_prefix_node(pn, l));
                        let a = choose|a: int|
                            0 <= a < old_self.size() && #[trigger] old_self.paths@[a] == pn.take(l)
                                && old_self.children@[a]@.contains_key(key_of(pn[l]));
                        assert(pj.take(l) =~= pn.take(l));
                        assert(pj[l] == pn[l]);
                        assert(self.paths@[a] == pj.take(l));
                        assert(self.children@[a]@.contains_key(key_of(pj[l])));
                    }
                } else {
                    assert(old_self.paths@[j] == pj);
                    assert(old_self.has_prefix_node(pj, l));
                    let a = choose|a: int|
                        0 <= a < old_self.size() && #[trigger] old_self.paths@[a] == pj.take(l)
                            && old_self.children@[a]@.contains_key(key_of(pj[l]));
                    assert(self.paths@[a] == pj.take(l));
                    assert(self.children@[a]@.contains_key(key_of(pj[l])));
                }
            }
        }
        assert(self.reach_or_prefix(w)) by {
            reveal(KeywordMatcher::reach_or_prefix);
            assert forall|i: int|
                0 <= i < self.size() && (#[trigger] self.paths@[i]).len() > 0 implies self.reaches_keyword(i)
                || self.paths@[i].is_prefix_of(w) by {
                if i < n {
                    if old_self.reaches_keyword(i) {
                        let m = choose|m: int|
                            0 <= m < old_self.size() && (#[trigger] old_self.keywords@[m]) is Some
                                && old_self.paths@[i].is_prefix_of(old_self.paths@[m]);
                        assert(self.keywords@[m] is Some);
                    }
                }
            }
        }
        assert(self@ =~= old_self@) by {
            assert forall|k: Seq<char>| self@.contains(k) implies old_self@.contains(k) by {
                let i = choose|i: int|
                    0 <= i < self.keywords@.len() && (#[trigger] self.keywords@[i]) is Some
                        && self.paths@[i] == k;
                assert(old_self.keywords@[i] is Some);
            }
            assert forall|k: Seq<char>| old_self@.contains(k) implies self@.contains(k) by {
                let i = choose|i: int|
                    0 <= i < old_self.keywords@.len() && (#[trigger] old_self.keywords@[i]) is Some
                        && old_self.paths@[i] == k;
                assert(self.keywords@[i] is Some);
            }
        }
        n
    }

    /// Adds `keyword`, lowercased, to the keywords, unless it lowercases to
    /// the empty string.
    pub fn add(&mut self, keyword: &str)
        requires
            old(self).wf(),
        ensures
            final(self).wf(),
            final(self)@ == with_keyword(old(self)@, lowercase(keyword@)),
    {
        self.add_lowercased(to_lowercase(keyword));
    }

    /// Adds `kw` as it is (`add` lowercases the keyword first); the empty
    /// keyword is ignored.
    pub fn add_lowercased(&mut self, kw: String)
        requires
            old(self).wf(),
        ensures
            final(self).wf(),
            final(self)@ == with_keyword(old(self)@, kw@),
    {
        if !kw.as_str().is_empty() {
            self.insert_keyword(kw);
        }
    }

    /// Adds the non-empty keyword `kw` as it is.
    #[verifier::rlimit(40)]
    fn insert_keyword(&mut self, kw: String)
        requires
            old(self).wf(),
            kw@.len() > 0,
        ensures
            final(self).wf(),
            final(self)@ == old(self)@.insert(kw@),
    {
        let chars = chars_of(kw.as_str());
        let ghost w = chars@;
        let ghost old_view = self@;
        proof {
            reveal(KeywordMatcher::reach_or_prefix);
            reveal(KeywordMatcher::all_reach);
        }
        let mut node: usize = 0;
        let mut i: usize = 0;
        while i < chars.len()
            invariant
                self.shape_ok(),
                self.edges_ok(),
                self.keywords_ok(),
                self.paths_injective(),
                self.prefix_closed(),
                self.reach_or_prefix(w),
                self@ == old_view,
                i <= chars.len(),
                chars@ == w,
                node < self.size(),
                self.paths@[node as int] == w.take(i as int),
            decreases chars.len() - i,
        {
            let c = chars[i];
            assert(w.take(i as int).push(c) =~= w.take(i + 1));
            match self.child(node, c) {
                Some(j) => {
                    node = j;
                },
                None => {
                    assert(w.take(i + 1).is_prefix_of(w));
                    node = self.push_child(node, c, Ghost(w));
                },
            }
            i += 1;
        }
        assert(w.take(i as int) =~= w);
        assert(w == kw@);
        assert(node != 0) by {
            assert(self.paths@[0] == Seq::<char>::empty());
            assert(self.paths@[node as int].len() > 0);
        }
        let ghost before = *self;
        self.keywords.set(node, Some(kw));
        assert(self.shape_ok());
        assert(self.keywords_ok());
        assert(self.paths_injective()) by {
            reveal(KeywordMatcher::paths_injective);
            assert(before.paths_injective());
        }
        assert(self.prefix_closed()) by {
            reveal(KeywordMatcher::prefix_closed);
            assert(before.prefix_closed());
            assert forall|j: int, l: int|
                0 <= j < self.size() && 0 <= l < (#[trigger] self.paths@[j]).len() implies #[trigger] self.has_prefix_node(
                self.paths@[j],
                l,
            ) by {
                assert(before.has_prefix_node(before.paths@[j], l));
            }
        }
        assert(self.all_reach()) by {
            reveal(KeywordMatcher::all_reach);
            reveal(KeywordMatcher::reach_or_prefix);
            assert(before.reach_or_prefix(w));
            assert forall|j: int|
                0 <= j < self.size() && (#[trigger] self.paths@[j]).len() > 0 implies self.reaches_keyword(j) by {
                if before.reaches_keyword(j) {
                    let m = choose|m: int|
                        0 <= m < before.size() && (#[trigger] before.keywords@[m]) is Some
                            && before.paths@[j].is_prefix_of(before.paths@[m]);
                    assert(self.keywords@[m] is Some);
                } else {
                    assert(self.keywords@[node as int] is Some);
                }
            }
        }
        assert(self@ =~= old_view.insert(w)) by {
            assert forall|k: Seq<char>| self@.contains(k) implies old_view.insert(w).contains(k) by {
                let i = choose|i: int|
                    0 <= i < self.keywords@.len() && (#[trigger] self.keywords@[i]) is Some
                        && self.paths@[i] == k;
                if i != node as int {
                    assert(before.keywords@[i] is Some);
                    assert(before@.contains(k));
                }
            }
            assert forall|k: Seq<char>| old_view.insert(w).contains(k) implies self@.contains(k) by {
                if k == w {
                    assert(self.keywords@[node as int] is Some);
                } else {
                    assert(before@.contains(k));
                    let i = choose|i: int|
                        0 <= i < before.keywords@.len() && (#[trigger] before.keywords@[i]) is Some
                            && before.paths@[i] == k;
                    assert(self.paths@[i] != w);
                    assert(i != node as int);
                    assert(self.keywords@[i] is Some);
                }
            }
        }
    }

    /// A matcher for `keywords`, each lowercased.
    pub fn new(keywords: &[String]) -> (m: Self)
        ensures
            m.wf(),
            m@ == lowercased_set(keywords@),
    {
        let mut m = Self::default();
        for i in 0..keywords.len()
            invariant
                m.wf(),
                m@ == lowercased_set(keywords@.take(i as int)),
        {
            m.add(keywords[i].as_str());
            assert(keywords@.take(i + 1).map_values(|s: String| lowercase(s@)) =~= keywords@.take(
                i as int,
            ).map_values(|s: String| lowercase(s@)).push(lowercase(keywords@[i as int]@)));
            proof {
                lemma_push_to_set(
                    keywords@.take(i as int).map_values(|s: String| lowercase(s@)),
                    lowercase(keywords@[i as int]@),
                );
            }
            assert(lowercased_set(keywords@.take(i + 1)) =~= with_keyword(
                lowercased_set(keywords@.take(i as int)),
                lowercase(keywords@[i as int]@),
            )) by {
                if lowercase(keywords@[i as int]@).len() == 0 {
                    assert(lowercase(keywords@[i as int]@) =~= Seq::<char>::empty());
                }
            }
        }
        assert(keywords@.take(keywords@.len() as int) =~= keywords@);
        m
    }

    /// The keyword held by `node`.
    fn keyword_at(&self, node: usize) -> (s: String)
        requires
            self.wf(),
            node < self.size(),
            self.keywords@[node as int] is Some,
        ensures
            s@ == self.paths@[node as int],
    {
        match &self.keywords[node] {
            Some(k) => k.clone(),
            None => String::new(),
        }
    }

    /// The found keyword of a scan, as a value of the model.
    spec fn found_view(&self, found: Option<(usize, usize)>) -> Option<(Seq<char>, int)> {
        match found {
            Some(f) => Some((self.paths@[f.0 as int], f.1 as int)),
            None => None,
        }
    }

    /// Follows the trie from node `first` along `chars` from position `from`
    /// on; see `extend_match`.
    fn extend(&self, first: usize, chars: &Vec<char>, from: usize) -> (r: Option<(usize, usize)>)
        requires
            self.wf(),
            first < self.size(),
            from <= chars@.len(),
        ensures
            self.found_view(r) == extend_match(self@, chars@, from as int, self.paths@[first as int], None),
            r matches Some(f) ==> f.0 < self.size() && self.keywords@[f.0 as int] is Some,
    {
        let ghost c = chars@;
        let ghost target = extend_match(self@, c, from as int, self.paths@[first as int], None);
        let n = chars.len();
        let mut cont = first;
        let mut idy = from;
        let mut found: Option<(usize, usize)> = None;
        let mut stopped = false;
        while idy < n && !stopped
            invariant
                self.wf(),
                chars@ == c,
                n == c.len(),
                cont < self.size(),
                from <= idy <= n,
                !stopped ==> extend_match(self@, c, idy as int, self.paths@[cont as int], self.found_view(found)) == target,
                stopped ==> self.found_view(found) == target,
                found matches Some(f) ==> f.0 < self.size() && self.keywords@[f.0 as int] is Some,
            decreases 2 * (n - idy) + (if stopped { 0int } else { 1int }),
        {
            let inner = chars[idy];
            proof {
                self.lemma_keyword(cont as int);
                self.lemma_child(cont as int, inner);
            }
            if !is_word_char(inner) && self.keywords[cont].is_some() {
                found = Some((cont, idy));
            }
            match self.child(cont, inner) {
                Some(nx) => {
                    cont = nx;
                    idy = idy + 1;
                },
                None => {
                    stopped = true;
                },
            }
        }
        if !stopped {
            proof {
                self.lemma_keyword(cont as int);
            }
            if self.keywords[cont].is_some() {
                found = Some((cont, n));
            }
        }
        found
    }

    /// Appends `(keyword of node, start, end)` to `out`.
    fn report(&self, out: &mut Vec<(String, usize, usize)>, node: usize, start: usize, end: usize)
        requires
            self.wf(),
            node < self.size(),
            self.keywords@[node as int] is Some,
        ensures
            spans_view(final(out)@) == spans_view(old(out)@).push(
                (self.paths@[node as int], start as int, end as int),
            ),
    {
        let k = self.keyword_at(node);
        out.push((k, start, end));
        assert(spans_view(out@) =~= spans_view(old(out)@).push(
            (self.paths@[node as int], start as int, end as int),
        ));
    }

    /// Appends the span of the keyword held by `node`, if it holds one, ending
    /// at the end of the text.
    fn report_at_end(
        &self,
        out: &mut Vec<(String, usize, usize)>,
        node: usize,
        start: usize,
        n: usize,
    )
        requires
            self.wf(),
            node < self.size(),
        ensures
            spans_view(final(out)@) == spans_view(old(out)@) + (if self@.contains(
                self.paths@[node as int],
            ) {
                seq![(self.paths@[node as int], start as int, n as int)]
            } else {
                Seq::<SpanModel>::empty()
            }),
    {
        proof {
            self.lemma_keyword(node as int);
        }
        if self.keywords[node].is_some() {
            self.report(out, node, start, n);
        }
        assert(spans_view(out@) =~= spans_view(old(out)@) + (if self@.contains(
            self.paths@[node as int],
        ) {
            seq![(self.paths@[node as int], start as int, n as int)]
        } else {
            Seq::<SpanModel>::empty()
        }));
    }

    /// Returns the `(keyword, start, end)` spans found in `sentence`: the
    /// keyword as stored (lowercased), and the character positions of its
    /// occurrence in the lowercased sentence.
    pub fn extract(&self, sentence: &str) -> (out: Vec<(String, usize, usize)>)
        requires
            self.wf(),
        ensures
            spans_view(out@) == spec_extract(self@, sentence@),
    {
        if sentence.is_empty() {
            let out: Vec<(String, usize, usize)> = Vec::new();
            assert(spans_view(out@) =~= Seq::<SpanModel>::empty());
            return out;
        }
        let lowered = to_lowercase(sentence);
        self.extract_lowercased(lowered.as_str())
    }

    /// The spans found in `text` taken as it is (`extract` lowercases the
    /// sentence first): the scan of its characters from the start.
    pub fn extract_lowercased(&self, text: &str) -> (out: Vec<(String, usize, usize)>)
        requires
            self.wf(),
        ensures
            spans_view(out@) == scan(self@, text@, 0, 0, Seq::<char>::empty()),
    {
        let mut out: Vec<(String, usize, usize)> = Vec::new();
        let chars = chars_of(text);
        let ghost c = chars@;
        let ghost kws = self@;
        let n = chars.len();
        let mut current: usize = 0;
        let mut seq_start: usize = 0;
        let mut idx: usize = 0;
        assert(spans_view(out@) =~= Seq::<SpanModel>::empty());
        assert(self.paths@[0] == Seq::<char>::empty());
        while idx < n
            invariant
                self.wf(),
                kws == self@,
                chars@ == c,
                n == c.len(),
                idx <= n,
                current < self.size(),
                spans_view(out@) + scan(kws, c, idx as int, seq_start as int, self.paths@[current as int])
                    == scan(kws, c, 0, 0, Seq::<char>::empty()),
            decreases n - idx,
        {
            let ghost before = spans_view(out@);
            let ghost q = self.paths@[current as int];
            let ghost i = idx as int;
            let ghost st = seq_start as int;
            let ch = chars[idx];
            proof {
                self.lemma_keyword(current as int);
                self.lemma_child(current as int, ch);
                assert(self.paths@[0] == Seq::<char>::empty());
            }
            if !is_word_char(ch) {
                let mut best: Option<(usize, usize)> = if self.keywords[current].is_some() {
                    Some((current, idx))
                } else {
                    None
                };
                let ghost ext = if in_trie(kws, q.push(ch)) {
                    extend_match(kws, c, i + 1, q.push(ch), None)
                } else {
                    None
                };
                match self.child(current, ch) {
                    Some(first) => {
                        let found = self.extend(first, &chars, idx + 1);
                        if found.is_some() {
                            best = found;
                        }
                    },
                    None => {},
                }
                proof {
                    lemma_extend_match_bounds(kws, c, i + 1, q.push(ch), None, i + 1);
                }
                let mut end = idx;
                match best {
                    Some(b) => {
                        self.report(&mut out, b.0, seq_start, b.1);
                        end = b.1;
                    },
                    None => {},
                }
                let ghost mid = spans_view(out@);
                if end >= n - 1 {
                    self.report_at_end(&mut out, 0, seq_start, n);
                }
                assert(spans_view(out@) == mid + end_span(kws, c, end as int, st, Seq::<char>::empty()));
                if end >= n {
                    idx = n;
                } else {
                    idx = end + 1;
                }
                current = 0;
                seq_start = idx;
                proof {
                    let rest = scan(kws, c, idx as int, seq_start as int, Seq::<char>::empty());
                    assert(rest == scan(kws, c, end + 1, end + 1, Seq::<char>::empty()));
                    assert(before + scan(kws, c, i, st, q) == spans_view(out@) + rest);
                }
            } else {
                match self.child(current, ch) {
                    Some(next) => {
                        current = next;
                        if idx >= n - 1 {
                            self.report_at_end(&mut out, current, seq_start, n);
                        }
                        idx = idx + 1;
                        proof {
                            assert(self.paths@[current as int] == q.push(ch));
                            assert(before + scan(kws, c, i, st, q) =~= spans_view(out@) + scan(
                                kws,
                                c,
                                idx as int,
                                seq_start as int,
                                self.paths@[current as int],
                            ));
                        }
                    },
                    None => {
                        let mut idy = idx + 1;
                        proof {
                            lemma_word_end_bounds(c, i + 1);
                        }
                        while idy < n && is_word_char(chars[idy])
                            invariant
                                chars@ == c,
                                n == c.len(),
                                i + 1 <= idy <= n,
                                word_end(c, idy as int) == word_end(c, i + 1),
                            decreases n - idy,
                        {
                            idy = idy + 1;
                        }
                        assert(word_end(c, idy as int) == idy);
                        current = 0;
                        if idy >= n - 1 {
                            self.report_at_end(&mut out, 0, seq_start, n);
                        }
                        if idy >= n {
                            idx = n;
                        } else {
                            idx = idy + 1;
                        }
                        seq_start = idx;
                        proof {
                            let rest = scan(kws, c, idx as int, seq_start as int, Seq::<char>::empty());
                            assert(rest == scan(kws, c, idy + 1, idy + 1, Seq::<char>::empty()));
                            assert(before + scan(kws, c, i, st, q) =~= spans_view(out@) + rest);
                        }
                    },
                }
            }
        }
        assert(scan(kws, c, idx as int, seq_start as int, self.paths@[current as int]) =~= Seq::<
            SpanModel,
        >::empty());
        assert(spans_view(out@) =~= scan(kws, c, 0, 0, Seq::<char>::empty()));
        out
    }

}

impl Default for KeywordMatcher {
    /// The matcher with no keywords.
    fn default() -> (m: Self)
        ensures
            m.wf(),
            m@ == Set::<Seq<char>>::empty(),
    {
        let mut children: Vec<HashMap<u32, usize>> = Vec::new();
        children.push(HashMap::new());
        let mut keywords: Vec<Option<String>> = Vec::new();
        keywords.push(None);
        let ghost p: Seq<Seq<char>> = Seq::empty().push(Seq::<char>::empty());
        let paths: Ghost<Seq<Seq<char>>> = Ghost(p);
        let m = KeywordMatcher { children, keywords, paths };
        assert(m.paths_injective()) by {
            reveal(KeywordMatcher::paths_injective);
        }
        assert(m.prefix_closed()) by {
            reveal(KeywordMatcher::prefix_closed);
        }
        assert(m.all_reach()) by {
            reveal(KeywordMatcher::all_reach);
        }
        assert(m@ =~= Set::<Seq<char>>::empty());
        m
    }
}

} // verus!
