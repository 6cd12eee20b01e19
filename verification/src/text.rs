//! Character-level helpers on strings.

use vstd::prelude::*;

verus! {

/// The result of `str::to_lowercase` on a string with the characters `s`
/// (Unicode lowercasing, which may change the number of characters).
pub uninterp spec fn lowercase(s: Seq<char>) -> Seq<char>;

/// Calls `str::to_lowercase`; the result is named by `lowercase`.
#[verifier::external_body]
pub(crate) fn to_lowercase(s: &str) -> (r: String)
    ensures
        r@ == lowercase(s@),
{
    s.to_lowercase()
}

/// The characters of `s`, in order.
pub fn chars_of(s: &str) -> (v: Vec<char>)
    ensures
        v@ == s@,
{
    broadcast use vstd::string::group_string_axioms;

    let mut v: Vec<char> = Vec::new();
    for ch in it: s.chars()
        invariant
            v@ == it.seq().take(it.index() as int),
    {
        v.push(ch);
    }
    v
}

/// Calls `String::from_iter` on the characters of `v`.
#[verifier::external_body]
pub(crate) fn string_from_chars(v: &Vec<char>) -> (r: String)
    ensures
        r@ == v@,
{
    v.iter().collect()
}

/// Unicode's `White_Space` property, which `char::is_whitespace` tests and
/// `str::split_whitespace` splits on.
pub open spec fn spec_is_whitespace(c: char) -> bool {
    ||| ('\t' <= c && c <= '\r')
    ||| c == ' '
    ||| c == '\u{85}'
    ||| c == '\u{a0}'
    ||| c == '\u{1680}'
    ||| ('\u{2000}' <= c && c <= '\u{200a}')
    ||| c == '\u{2028}'
    ||| c == '\u{2029}'
    ||| c == '\u{202f}'
    ||| c == '\u{205f}'
    ||| c == '\u{3000}'
}

/// The white-space characters are exactly those of Unicode's `White_Space`
/// property: U+0009 to U+000D (tab, line feed, vertical tab, form feed,
/// carriage return), U+0020, U+0085, U+00A0, U+1680, U+2000 to U+200A,
/// U+2028, U+2029, U+202F, U+205F and U+3000.
pub proof fn law_white_space(c: char)
    ensures
        spec_is_whitespace(c) <==> (9 <= c as int <= 13 || c as int == 0x20 || c as int == 0x85
            || c as int == 0xa0 || c as int == 0x1680 || 0x2000 <= c as int <= 0x200a || c as int
            == 0x2028 || c as int == 0x2029 || c as int == 0x202f || c as int == 0x205f || c as int
            == 0x3000),
        spec_is_whitespace('\n') && spec_is_whitespace('\u{b}') && spec_is_whitespace('\u{c}')
            && spec_is_whitespace('\r') && spec_is_whitespace('\t') && spec_is_whitespace(' '),
{
}

/// Whether `c` is Unicode white space.
pub fn is_whitespace(c: char) -> (b: bool)
    ensures
        b == spec_is_whitespace(c),
{
    ('\t' <= c && c <= '\r') || c == ' ' || c == '\u{85}' || c == '\u{a0}' || c == '\u{1680}' || (
    '\u{2000}' <= c && c <= '\u{200a}') || c == '\u{2028}' || c == '\u{2029}' || c == '\u{202f}'
        || c == '\u{205f}' || c == '\u{3000}'
}

/// Position `i` of `s` begins a word: it holds a non-space character that
/// follows a space or the beginning.
pub open spec fn starts_word(s: Seq<char>, i: int) -> bool {
    !spec_is_whitespace(s[i]) && (i == 0 || spec_is_whitespace(s[i - 1]))
}

/// The number of words of `s` (maximal runs of non-space characters).
pub open spec fn word_count(s: Seq<char>) -> nat
    decreases s.len(),
{
    if s.len() == 0 {
        0
    } else {
        word_count(s.drop_last()) + if starts_word(s, s.len() - 1) {
            1nat
        } else {
            0nat
        }
    }
}

/// The words of `s`, in order: what `str::split_whitespace` yields.
pub open spec fn words(s: Seq<char>) -> Seq<Seq<char>>
    decreases s.len(),
{
    if s.len() == 0 {
        seq![]
    } else {
        let w = words(s.drop_last());
        let i = s.len() - 1;
        if spec_is_whitespace(s[i]) {
            w
        } else if starts_word(s, i) {
            w.push(seq![s[i]])
        } else {
            w.update(w.len() - 1, w.last().push(s[i]))
        }
    }
}

/// The words `ws` joined with single spaces.
pub open spec fn join_words(ws: Seq<Seq<char>>) -> Seq<char>
    decreases ws.len(),
{
    if ws.len() == 0 {
        seq![]
    } else if ws.len() == 1 {
        ws[0]
    } else {
        join_words(ws.drop_last()) + seq![' '] + ws.last()
    }
}

/// There are as many words as word starts.
pub proof fn lemma_words_len(s: Seq<char>)
    ensures
        words(s).len() == word_count(s),
        s.len() > 0 && !spec_is_whitespace(s.last()) ==> words(s).len() > 0,
    decreases s.len(),
{
    if s.len() > 0 {
        lemma_words_len(s.drop_last());
        let i = s.len() - 1;
        if !spec_is_whitespace(s[i]) && !starts_word(s, i) {
            assert(s.drop_last().last() == s[i - 1]);
        }
    }
}

/// A prefix has no more words than the whole, nor than characters.
pub proof fn lemma_word_count_prefix(s: Seq<char>, k: int)
    requires
        0 <= k <= s.len(),
    ensures
        word_count(s.take(k)) <= word_count(s),
        word_count(s.take(k)) <= k,
    decreases s.len(),
{
    if k < s.len() {
        assert(s.drop_last().take(k) =~= s.take(k));
        lemma_word_count_prefix(s.drop_last(), k);
    } else {
        assert(s.take(k) =~= s);
        lemma_word_count_bound(s);
    }
}

/// There are no more words than characters.
pub proof fn lemma_word_count_bound(s: Seq<char>)
    ensures
        word_count(s) <= s.len(),
    decreases s.len(),
{
    if s.len() > 0 {
        lemma_word_count_bound(s.drop_last());
    }
}

/// A white-space character separates words: the words of `a`, a white-space
/// character and `b` are the words of `a` followed by those of `b`.
pub proof fn law_white_space_separates_words(a: Seq<char>, x: char, b: Seq<char>)
    requires
        spec_is_whitespace(x),
    ensures
        words(a + seq![x] + b) == words(a) + words(b),
    decreases b.len(),
{
    let s = a + seq![x] + b;
    if b.len() == 0 {
        assert(s.drop_last() =~= a);
        assert(b =~= Seq::<char>::empty());
        assert(words(a) + words(b) =~= words(a));
    } else {
        let bd = b.drop_last();
        assert(s.drop_last() =~= a + seq![x] + bd);
        law_white_space_separates_words(a, x, bd);
        let i = s.len() - 1;
        let y = b.last();
        assert(s[i] == y);
        let wa = words(a);
        let wb = words(bd);
        if spec_is_whitespace(y) {
            assert(words(b) == wb);
        } else if b.len() == 1 {
            assert(s[i - 1] == x);
            assert(bd =~= Seq::<char>::empty());
            assert(words(b) =~= seq![seq![y]]);
            assert(words(s) =~= wa + words(b));
        } else {
            assert(s[i - 1] == b[b.len() - 2]);
            if spec_is_whitespace(b[b.len() - 2]) {
                assert(words(b) == wb.push(seq![y]));
                assert(words(s) =~= wa + words(b));
            } else {
                assert(bd.last() == b[b.len() - 2]);
                lemma_words_len(bd);
                assert(wb.len() > 0);
                assert(words(b) == wb.update(wb.len() - 1, wb.last().push(y)));
                assert((wa + wb).last() == wb.last());
                assert(words(s) =~= wa + words(b));
            }
        }
    }
}

/// A non-empty run of characters without white space is a single word.
pub proof fn law_run_is_one_word(s: Seq<char>)
    requires
        s.len() > 0,
        forall|k: int| 0 <= k < s.len() ==> !spec_is_whitespace(#[trigger] s[k]),
    ensures
        words(s) == seq![s],
    decreases s.len(),
{
    if s.len() == 1 {
        assert(s.drop_last() =~= Seq::<char>::empty());
        assert(words(s.drop_last()) == Seq::<Seq<char>>::empty());
        assert(starts_word(s, 0));
        assert(words(s) =~= seq![seq![s[0]]]);
        assert(seq![s[0]] =~= s);
    } else {
        let d = s.drop_last();
        law_run_is_one_word(d);
        assert(s[s.len() - 2] == d[d.len() - 1]);
        assert(!spec_is_whitespace(s[s.len() - 2]));
        assert(d.push(s.last()) =~= s);
        assert(words(s) =~= seq![s]);
    }
}

/// Splitting the words `ws` joined with spaces gives `ws` back, when each is
/// a non-empty run without white space.
pub proof fn law_split_join(ws: Seq<Seq<char>>)
    requires
        forall|t: int|
            0 <= t < ws.len() ==> (#[trigger] ws[t]).len() > 0 && forall|k: int|
                0 <= k < ws[t].len() ==> !spec_is_whitespace(#[trigger] ws[t][k]),
    ensures
        words(join_words(ws)) == ws,
    decreases ws.len(),
{
    if ws.len() == 0 {
        assert(words(Seq::<char>::empty()) =~= ws);
    } else if ws.len() == 1 {
        law_run_is_one_word(ws[0]);
        assert(seq![ws[0]] =~= ws);
    } else {
        let d = ws.drop_last();
        law_split_join(d);
        law_run_is_one_word(ws.last());
        law_white_space_separates_words(join_words(d), ' ', ws.last());
        assert(d.push(ws.last()) =~= ws);
        assert(words(join_words(ws)) =~= ws);
    }
}

/// Every word is non-empty and holds no white space.
pub proof fn law_words_are_nonempty_without_white_space(s: Seq<char>)
    ensures
        forall|t: int|
            0 <= t < words(s).len() ==> (#[trigger] words(s)[t]).len() > 0 && forall|k: int|
                0 <= k < words(s)[t].len() ==> !spec_is_whitespace(#[trigger] words(s)[t][k]),
    decreases s.len(),
{
    if s.len() > 0 {
        law_words_are_nonempty_without_white_space(s.drop_last());
        let w = words(s.drop_last());
        let i = s.len() - 1;
        if !spec_is_whitespace(s[i]) && !starts_word(s, i) {
            assert(s.drop_last().last() == s[i - 1]);
            lemma_words_len(s.drop_last());
        }
        assert forall|t: int| 0 <= t < words(s).len() implies (#[trigger] words(s)[t]).len() > 0
            && forall|k: int|
            0 <= k < words(s)[t].len() ==> !spec_is_whitespace(#[trigger] words(s)[t][k]) by {
            if !spec_is_whitespace(s[i]) && !starts_word(s, i) && t == w.len() - 1 {
                assert(words(s)[t] == w.last().push(s[i]));
                assert forall|k: int| 0 <= k < words(s)[t].len() implies !spec_is_whitespace(
                    #[trigger] words(s)[t][k],
                ) by {
                    if k < w.last().len() {
                        assert(words(s)[t][k] == w[t][k]);
                    }
                }
            } else if !spec_is_whitespace(s[i]) && starts_word(s, i) && t == w.len() {
                assert(words(s)[t] =~= seq![s[i]]);
            } else {
                assert(words(s)[t] == w[t]);
            }
        }
    }
}

/// The words of `s`.
pub fn split_words(s: &Vec<char>) -> (ws: Vec<Vec<char>>)
    ensures
        ws@.map_values(|w: Vec<char>| w@) == words(s@),
{
    let mut ws: Vec<Vec<char>> = Vec::new();
    for i in 0..s.len()
        invariant
            ws@.map_values(|w: Vec<char>| w@) == words(s@.take(i as int)),
    {
        let c = s[i];
        let ghost t = s@.take(i + 1);
        assert(t.drop_last() =~= s@.take(i as int));
        if is_whitespace(c) {
        } else if i == 0 || is_whitespace(s[i - 1]) {
            let mut w: Vec<char> = Vec::new();
            w.push(c);
            ws.push(w);
            assert(ws@.map_values(|w: Vec<char>| w@) =~= words(t));
        } else {
            proof {
                lemma_words_len(s@.take(i as int));
            }
            let last = ws.len() - 1;
            ws[last].push(c);
            assert(ws@.map_values(|w: Vec<char>| w@) =~= words(t));
        }
    }
    assert(s@.take(s@.len() as int) =~= s@);
    ws
}

/// `counts[i]` is the number of words of the first `i` characters of `s`.
pub fn word_counts(s: &Vec<char>) -> (counts: Vec<usize>)
    ensures
        counts@.len() == s@.len() + 1,
        forall|i: int| 0 <= i <= s@.len() ==> counts@[i] == word_count(#[trigger] s@.take(i)),
{
    let mut counts: Vec<usize> = Vec::new();
    let mut count: usize = 0;
    counts.push(0);
    assert(s@.take(0) =~= Seq::<char>::empty());
    for i in 0..s.len()
        invariant
            counts@.len() == i + 1,
            count == word_count(s@.take(i as int)),
            forall|j: int| 0 <= j <= i ==> counts@[j] == word_count(#[trigger] s@.take(j)),
    {
        let ghost t = s@.take(i + 1);
        assert(t.drop_last() =~= s@.take(i as int));
        proof {
            lemma_word_count_bound(t);
        }
        if !is_whitespace(s[i]) && (i == 0 || is_whitespace(s[i - 1])) {
            count = count + 1;
        }
        counts.push(count);
    }
    counts
}

/// The words `ws[lo..hi]` joined with single spaces.
pub fn join_range(ws: &Vec<Vec<char>>, lo: usize, hi: usize) -> (r: Vec<char>)
    requires
        lo <= hi <= ws@.len(),
    ensures
        r@ == join_words(ws@.map_values(|w: Vec<char>| w@).subrange(lo as int, hi as int)),
{
    let ghost wv = ws@.map_values(|w: Vec<char>| w@);
    let mut r: Vec<char> = Vec::new();
    assert(wv.subrange(lo as int, lo as int) =~= Seq::<Seq<char>>::empty());
    for t in lo..hi
        invariant
            lo <= hi <= ws@.len(),
            wv == ws@.map_values(|w: Vec<char>| w@),
            r@ == join_words(wv.subrange(lo as int, t as int)),
    {
        let ghost prev = r@;
        if t > lo {
            r.push(' ');
        }
        let w = &ws[t];
        for k in 0..w.len()
            invariant
                w@ == wv[t as int],
                r@ == (if t > lo {
                    prev + seq![' ']
                } else {
                    prev
                }) + w@.take(k as int),
        {
            r.push(w[k]);
            assert(w@.take(k + 1) =~= w@.take(k as int).push(w@[k as int]));
        }
        assert(w@.take(w@.len() as int) =~= w@);
        let ghost sub = wv.subrange(lo as int, t + 1);
        assert(sub.drop_last() =~= wv.subrange(lo as int, t as int));
        if t == lo {
            assert(prev =~= Seq::<char>::empty());
            assert(r@ =~= join_words(sub));
        } else {
            assert(r@ =~= join_words(sub));
        }
    }
    r
}

} // verus!
