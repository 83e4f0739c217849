//! The line of text shown with a search hit when the search engine sent no
//! highlighted excerpt of its own.

use vstd::prelude::*;

use crate::text::{
    char_is_whitespace, chars_of, find_first, first_occurrence, is_whitespace, lowercase,
    to_lowercase,
};

verus! {

/// How many characters of the content are shown on each side of a match.
pub const WINDOW: usize = 50;

/// How many characters of the content are shown where nothing matches.
pub const HEAD_CHARS: usize = 100;

/// The length of the run of characters that are no white space at the head
/// of a text.
pub open spec fn term_len(q: Seq<char>) -> int
    decreases q.len(),
{
    if q.len() == 0 || is_whitespace(q[0]) {
        0
    } else {
        1 + term_len(q.drop_first())
    }
}

/// The terms of a query: its runs of characters that are no white space, in
/// order.
pub open spec fn terms_of(q: Seq<char>) -> Seq<Seq<char>>
    decreases q.len(),
    via terms_of_decreases
{
    if q.len() == 0 {
        Seq::empty()
    } else if is_whitespace(q[0]) {
        terms_of(q.drop_first())
    } else {
        seq![q.take(term_len(q))] + terms_of(q.skip(term_len(q)))
    }
}

/// A run at the head of a text is no longer than the text, and not empty
/// where the text begins with a character that is no white space.
pub proof fn lemma_term_len_bounds(q: Seq<char>)
    ensures
        0 <= term_len(q) <= q.len(),
        q.len() > 0 && !is_whitespace(q[0]) ==> term_len(q) >= 1,
    decreases q.len(),
{
    if q.len() > 0 && !is_whitespace(q[0]) {
        lemma_term_len_bounds(q.drop_first());
    }
}

#[via_fn]
proof fn terms_of_decreases(q: Seq<char>) {
    lemma_term_len_bounds(q);
}

/// A run of `n` characters that are no white space, ended by white space or
/// by the end of the text, is the run that `term_len` measures.
proof fn lemma_term_len(q: Seq<char>, n: int)
    requires
        0 <= n <= q.len(),
        forall|k: int| 0 <= k < n ==> !is_whitespace(#[trigger] q[k]),
        n == q.len() || is_whitespace(q[n]),
    ensures
        term_len(q) == n,
    decreases n,
{
    if n > 0 {
        let rest = q.drop_first();
        assert forall|k: int| 0 <= k < n - 1 implies !is_whitespace(#[trigger] rest[k]) by {
            assert(rest[k] == q[k + 1]);
        }
        if n < q.len() {
            assert(rest[n - 1] == q[n]);
        }
        lemma_term_len(rest, n - 1);
    }
}

/// The texts of a list of strings.
pub open spec fn texts(v: Seq<String>) -> Seq<Seq<char>> {
    Seq::new(v.len(), |i: int| v[i]@)
}

/// The texts of a list of character vectors.
pub open spec fn char_texts(v: Seq<Vec<char>>) -> Seq<Seq<char>> {
    Seq::new(v.len(), |i: int| v[i]@)
}

/// Splits a query into its terms at white space.
pub fn split_terms(query: &str) -> (terms: Vec<String>)
    ensures
        texts(terms@) == terms_of(query@),
{
    let q = chars_of(query);
    let n: usize = q.len();
    let mut terms: Vec<String> = Vec::new();
    let mut i: usize = 0;
    proof {
        assert(q@.skip(0) =~= q@);
        assert(texts(terms@) + terms_of(q@.skip(0)) =~= terms_of(q@));
    }
    while i < n
        invariant
            i <= n,
            n == q@.len(),
            q@ == query@,
            texts(terms@) + terms_of(q@.skip(i as int)) == terms_of(q@),
        decreases n - i,
    {
        let ghost tail = q@.skip(i as int);
        proof {
            assert(tail[0] == q@[i as int]);
        }
        if char_is_whitespace(q[i]) {
            proof {
                assert(tail.drop_first() =~= q@.skip(i as int + 1));
            }
            i += 1;
        } else {
            let start: usize = i;
            i += 1;
            while i < n && !char_is_whitespace(q[i])
                invariant
                    start < i <= n,
                    n == q@.len(),
                    forall|k: int| start <= k < i ==> !is_whitespace(#[trigger] q@[k]),
                decreases n - i,
            {
                i += 1;
            }
            let ghost before = terms@;
            let term = query.substring_char(start, i).to_owned();
            terms.push(term);
            proof {
                let len = i - start;
                assert forall|k: int| 0 <= k < len implies !is_whitespace(#[trigger] tail[k]) by {
                    assert(tail[k] == q@[start + k]);
                }
                if len < tail.len() {
                    assert(tail[len] == q@[i as int]);
                }
                lemma_term_len(tail, len);
                assert(tail.take(len) =~= q@.subrange(start as int, i as int));
                assert(tail.skip(len) =~= q@.skip(i as int));
                assert(texts(terms@) =~= texts(before) + seq![tail.take(len)]);
                assert(texts(terms@) + terms_of(q@.skip(i as int)) =~= texts(before) + (seq![
                    tail.take(len),
                ] + terms_of(tail.skip(len))));
            }
        }
    }
    proof {
        assert(terms_of(q@.skip(n as int)) =~= Seq::<Seq<char>>::empty());
        assert(texts(terms@) + Seq::<Seq<char>>::empty() =~= texts(terms@));
    }
    terms
}

/// The terms of a query, each in lower case.
pub open spec fn lowered(terms: Seq<Seq<char>>) -> Seq<Seq<char>> {
    Seq::new(terms.len(), |i: int| lowercase(terms[i]))
}

/// Puts each term in lower case.
pub fn lower_terms(terms: &Vec<String>) -> (low: Vec<Vec<char>>)
    ensures
        char_texts(low@) == lowered(texts(terms@)),
{
    let mut low: Vec<Vec<char>> = Vec::new();
    let mut i: usize = 0;
    while i < terms.len()
        invariant
            i <= terms.len(),
            low@.len() == i,
            forall|k: int| 0 <= k < i ==> (#[trigger] low@[k])@ == lowercase(terms@[k]@),
        decreases terms.len() - i,
    {
        let one = to_lowercase(terms[i].as_str());
        low.push(chars_of(one.as_str()));
        i += 1;
    }
    proof {
        assert(char_texts(low@) =~= lowered(texts(terms@)));
    }
    low
}

/// The smaller of two offsets, where both are there.
pub open spec fn earlier(a: Option<int>, b: Option<int>) -> Option<int> {
    match (a, b) {
        (Some(x), Some(y)) => Some(if x <= y { x } else { y }),
        (Some(x), None) => Some(x),
        (None, _) => b,
    }
}

/// The earliest offset in the content at which any of the terms stands.
pub open spec fn earliest(content: Seq<char>, terms: Seq<Seq<char>>) -> Option<int>
    decreases terms.len(),
{
    if terms.len() == 0 {
        None
    } else {
        earlier(earliest(content, terms.drop_last()), first_occurrence(content, terms.last()))
    }
}

/// Finds the earliest offset in the content at which any of the terms
/// stands.
pub fn earliest_match(content: &Vec<char>, terms: &Vec<Vec<char>>) -> (r: Option<usize>)
    ensures
        match r {
            Some(p) => earliest(content@, char_texts(terms@)) == Some(p as int) && p <= content@.len(),
            None => earliest(content@, char_texts(terms@)) is None,
        },
{
    let ghost all = char_texts(terms@);
    let mut best: Option<usize> = None;
    let mut i: usize = 0;
    proof {
        assert(all.take(0) =~= Seq::<Seq<char>>::empty());
    }
    while i < terms.len()
        invariant
            i <= terms.len(),
            all == char_texts(terms@),
            match best {
                Some(p) => earliest(content@, all.take(i as int)) == Some(p as int) && p
                    <= content@.len(),
                None => earliest(content@, all.take(i as int)) is None,
            },
        decreases terms.len() - i,
    {
        proof {
            assert(all.take(i as int + 1).drop_last() =~= all.take(i as int));
            assert(all.take(i as int + 1).last() == terms@[i as int]@);
        }
        match find_first(content, &terms[i]) {
            Some(p) => {
                best = match best {
                    Some(b) => Some(if b <= p { b } else { p }),
                    None => Some(p),
                };
            },
            None => {},
        }
        i += 1;
    }
    proof {
        assert(all.take(i as int) =~= all);
    }
    best
}

/// A text without the white space at its head.
pub open spec fn trim_start(s: Seq<char>) -> Seq<char>
    decreases s.len(),
{
    if s.len() > 0 && is_whitespace(s[0]) {
        trim_start(s.drop_first())
    } else {
        s
    }
}

/// A text without the white space at its end.
pub open spec fn trim_end(s: Seq<char>) -> Seq<char>
    decreases s.len(),
{
    if s.len() > 0 && is_whitespace(s.last()) {
        trim_end(s.drop_last())
    } else {
        s
    }
}

/// A text without the white space at either end.
pub open spec fn trim(s: Seq<char>) -> Seq<char> {
    trim_end(trim_start(s))
}

proof fn lemma_trim_start(s: Seq<char>, m: int)
    requires
        0 <= m <= s.len(),
        forall|k: int| 0 <= k < m ==> is_whitespace(#[trigger] s[k]),
        m == s.len() || !is_whitespace(s[m]),
    ensures
        trim_start(s) == s.skip(m),
    decreases m,
{
    if m > 0 {
        let rest = s.drop_first();
        assert forall|k: int| 0 <= k < m - 1 implies is_whitespace(#[trigger] rest[k]) by {
            assert(rest[k] == s[k + 1]);
        }
        if m < s.len() {
            assert(rest[m - 1] == s[m]);
        }
        lemma_trim_start(rest, m - 1);
        assert(rest.skip(m - 1) =~= s.skip(m));
    } else {
        assert(s.skip(0) =~= s);
    }
}

proof fn lemma_trim_end(s: Seq<char>, m: int)
    requires
        0 <= m <= s.len(),
        forall|k: int| m <= k < s.len() ==> is_whitespace(#[trigger] s[k]),
        m == 0 || !is_whitespace(s[m - 1]),
    ensures
        trim_end(s) == s.take(m),
    decreases s.len() - m,
{
    if m < s.len() {
        let rest = s.drop_last();
        assert forall|k: int| m <= k < rest.len() implies is_whitespace(#[trigger] rest[k]) by {
            assert(rest[k] == s[k]);
        }
        if m > 0 {
            assert(rest[m - 1] == s[m - 1]);
        }
        lemma_trim_end(rest, m);
        assert(rest.take(m) =~= s.take(m));
    } else {
        assert(s.take(m) =~= s);
    }
}

/// Where the window around an offset begins: fifty characters before it, or
/// at the head of the content, and never past its end.
pub open spec fn window_start(len: int, position: int) -> int {
    let from = if position > WINDOW { position - WINDOW } else { 0 };
    if from > len { len } else { from }
}

/// Where the window around an offset ends: fifty characters after it, or at
/// the end of the content.
pub open spec fn window_end(len: int, position: int) -> int {
    if position + WINDOW > len { len } else { position + WINDOW }
}

/// The excerpt of a content for a match at `position`, or for no match: the
/// trimmed window around the match between two ellipses, or the first hundred
/// characters of the content as they are.
pub open spec fn snippet_at_spec(text: Seq<char>, position: Option<int>) -> Seq<char> {
    match position {
        Some(p) => "..."@ + trim(
            text.subrange(window_start(text.len() as int, p), window_end(text.len() as int, p)),
        ) + "..."@,
        None => text.take(if text.len() < HEAD_CHARS { text.len() as int } else { HEAD_CHARS as int }),
    }
}

/// The excerpt of a content for a query: the content is searched in lower
/// case for each term of the query in lower case, and the earliest match
/// decides.
pub open spec fn snippet_spec(text: Seq<char>, query: Seq<char>) -> Seq<char> {
    snippet_at_spec(text, earliest(lowercase(text), lowered(terms_of(query))))
}

/// Cuts the excerpt of a content for a match at `position`, or for no match.
pub fn snippet_at(text: &str, position: Option<usize>) -> (r: String)
    ensures
        r@ == snippet_at_spec(
            text@,
            match position {
                Some(p) => Some(p as int),
                None => None,
            },
        ),
{
    let chars = chars_of(text);
    let len: usize = chars.len();
    match position {
        Some(p) => {
            let from: usize = if p > WINDOW { p - WINDOW } else { 0 };
            let start: usize = if from > len { len } else { from };
            let end: usize = if p >= len || len - p < WINDOW { len } else { p + WINDOW };
            let ghost window = text@.subrange(start as int, end as int);
            let mut a: usize = start;
            while a < end && char_is_whitespace(chars[a])
                invariant
                    start <= a <= end <= len,
                    len == chars@.len(),
                    forall|k: int| start <= k < a ==> is_whitespace(#[trigger] chars@[k]),
                decreases end - a,
            {
                a += 1;
            }
            let mut b: usize = end;
            while b > a && char_is_whitespace(chars[b - 1])
                invariant
                    a <= b <= end <= len,
                    len == chars@.len(),
                    forall|k: int| b <= k < end ==> is_whitespace(#[trigger] chars@[k]),
                decreases b,
            {
                b -= 1;
            }
            proof {
                assert forall|k: int| 0 <= k < a - start implies is_whitespace(#[trigger] window[k]) by {
                    assert(window[k] == chars@[start + k]);
                }
                if a < end {
                    assert(window[a - start] == chars@[a as int]);
                }
                lemma_trim_start(window, a - start);
                let headless = window.skip(a - start);
                assert(headless =~= text@.subrange(a as int, end as int));
                assert forall|k: int| b - a <= k < headless.len() implies is_whitespace(
                    #[trigger] headless[k],
                ) by {
                    assert(headless[k] == chars@[a + k]);
                }
                if b > a {
                    assert(headless[b - a - 1] == chars@[b - 1]);
                }
                lemma_trim_end(headless, b - a);
                assert(headless.take(b - a) =~= text@.subrange(a as int, b as int));
            }
            let mut r = "...".to_owned();
            r.append(text.substring_char(a, b));
            r.append("...");
            r
        },
        None => {
            let shown: usize = if len < HEAD_CHARS { len } else { HEAD_CHARS };
            let r = text.substring_char(0, shown).to_owned();
            assert(r@ =~= text@.take(shown as int));
            r
        },
    }
}

/// Cuts an excerpt of a content for display with a search hit: around the
/// earliest place where a term of the query stands in it, whatever the case
/// of the letters, or from its head where no term stands in it.
pub fn extract_snippet(text: &str, query: &str) -> (r: String)
    ensures
        r@ == snippet_spec(text@, query@),
        r@.len() <= 2 * WINDOW + 6,
{
    let low = to_lowercase(text);
    let content = chars_of(low.as_str());
    let terms = split_terms(query);
    let low_terms = lower_terms(&terms);
    let position = earliest_match(&content, &low_terms);
    proof {
        lemma_snippet_len(
            text@,
            match position {
                Some(p) => Some(p as int),
                None => None,
            },
        );
    }
    snippet_at(text, position)
}

/// Trimming takes characters away and adds none.
proof fn lemma_trim_len(s: Seq<char>)
    ensures
        trim_start(s).len() <= s.len(),
        trim_end(s).len() <= s.len(),
        trim(s).len() <= s.len(),
    decreases s.len(),
{
    if s.len() > 0 {
        lemma_trim_len(s.drop_first());
        lemma_trim_len(s.drop_last());
    }
    lemma_trim_end_len(trim_start(s));
}

proof fn lemma_trim_end_len(s: Seq<char>)
    ensures
        trim_end(s).len() <= s.len(),
    decreases s.len(),
{
    if s.len() > 0 {
        lemma_trim_end_len(s.drop_last());
    }
}

/// An excerpt is never longer than the window and its two ellipses.
pub proof fn lemma_snippet_len(text: Seq<char>, position: Option<int>)
    requires
        position matches Some(p) ==> p >= 0,
    ensures
        snippet_at_spec(text, position).len() <= 2 * WINDOW + 6,
{
    reveal_strlit("...");
    match position {
        Some(p) => {
            let window = text.subrange(
                window_start(text.len() as int, p),
                window_end(text.len() as int, p),
            );
            lemma_trim_len(window);
        },
        None => {},
    }
}

} // verus!
