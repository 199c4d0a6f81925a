//! The term statistics behind BM25 ranking: query terms, document lengths,
//! document frequencies and term frequencies. The score itself is a floating
//! point formula over these counts and is computed outside the verified core.

use vstd::prelude::*;
use crate::lexical::{lexical_token_seq, lexical_tokens, string_views};

verus! {

/// `s` with every repeated element dropped, first occurrences kept in order.
pub open spec fn dedup(s: Seq<Seq<char>>) -> Seq<Seq<char>>
    decreases s.len(),
{
    if s.len() == 0 {
        Seq::empty()
    } else {
        let d = dedup(s.drop_last());
        if d.contains(s.last()) {
            d
        } else {
            d.push(s.last())
        }
    }
}

/// How many times `term` occurs in `tokens`.
pub open spec fn occurrences(tokens: Seq<Seq<char>>, term: Seq<char>) -> nat
    decreases tokens.len(),
{
    if tokens.len() == 0 {
        0
    } else {
        occurrences(tokens.drop_last(), term) + if tokens.last() == term {
            1nat
        } else {
            0nat
        }
    }
}

/// How many documents contain `term` at least once.
pub open spec fn containing_docs(docs: Seq<Seq<Seq<char>>>, term: Seq<char>) -> nat
    decreases docs.len(),
{
    if docs.len() == 0 {
        0
    } else {
        containing_docs(docs.drop_last(), term) + if docs.last().contains(term) {
            1nat
        } else {
            0nat
        }
    }
}

/// The number of tokens over all documents.
pub open spec fn total_tokens(docs: Seq<Seq<Seq<char>>>) -> nat
    decreases docs.len(),
{
    if docs.len() == 0 {
        0
    } else {
        total_tokens(docs.drop_last()) + docs.last().len()
    }
}

/// The token sequences of tokenized documents.
pub open spec fn doc_views(docs: Seq<Vec<String>>) -> Seq<Seq<Seq<char>>> {
    docs.map_values(|d: Vec<String>| string_views(d@))
}

/// The counts from which BM25 scores are computed, for one query over one
/// collection of tokenized documents.
#[derive(Debug)]
pub struct Bm25Statistics {
    /// Token count of each document.
    pub doc_lengths: Vec<usize>,
    /// Token count over all documents.
    pub total_len: usize,
    /// For each query term, the number of documents that contain it.
    pub document_frequency: Vec<usize>,
    /// For each document, for each query term, its number of occurrences.
    pub term_frequency: Vec<Vec<usize>>,
}

/// Dropping repeats leaves no repeats and loses no element: the query terms
/// are the set of query tokens, each once.
pub proof fn lemma_dedup_is_set(s: Seq<Seq<char>>)
    ensures
        dedup(s).no_duplicates(),
        dedup(s).to_set() == s.to_set(),
    decreases s.len(),
{
    if s.len() > 0 {
        let t = s.drop_last();
        let x = s.last();
        lemma_dedup_is_set(t);
        assert(t.push(x) =~= s);
        assert(s =~= t + seq![x]);
        Seq::lemma_to_set_insert_commutes(t, x);
        let d = dedup(t);
        if d.contains(x) {
            assert(d.to_set().contains(x));
            assert(t.to_set().insert(x) =~= t.to_set());
        } else {
            assert(d.push(x) =~= d + seq![x]);
            Seq::lemma_to_set_insert_commutes(d, x);
            assert forall|i: int, j: int| 0 <= i < d.push(x).len() && 0 <= j < d.push(x).len() && i != j
                implies d.push(x)[i] != d.push(x)[j] by {
                if i == d.len() as int {
                    assert(d[j] != x);
                } else if j == d.len() as int {
                    assert(d[i] != x);
                }
            }
        }
    } else {
        assert(s.to_set() =~= Set::empty());
        assert(dedup(s).to_set() =~= Set::empty());
    }
}

/// A term occurs in a document exactly when the document contains it, so a
/// document counts towards a term's document frequency exactly when the
/// term's frequency in it is positive; neither count exceeds what it counts
/// over.
pub proof fn lemma_frequency_counts(tokens: Seq<Seq<char>>, docs: Seq<Seq<Seq<char>>>, term: Seq<char>)
    ensures
        occurrences(tokens, term) > 0 <==> tokens.contains(term),
        occurrences(tokens, term) <= tokens.len(),
        containing_docs(docs, term) <= docs.len(),
    decreases tokens.len() + docs.len(),
{
    if tokens.len() > 0 {
        let t = tokens.drop_last();
        lemma_frequency_counts(t, Seq::empty(), term);
        assert(t.push(tokens.last()) =~= tokens);
        if t.contains(term) {
            let i = choose|i: int| 0 <= i < t.len() && t[i] == term;
            assert(tokens[i] == term);
        }
        if tokens.contains(term) && tokens.last() != term {
            let i = choose|i: int| 0 <= i < tokens.len() && tokens[i] == term;
            assert(t[i] == term);
        }
    }
    if docs.len() > 0 {
        lemma_frequency_counts(Seq::empty(), docs.drop_last(), term);
    }
}

/// Query terms keep the order of first occurrence: reading one more token
/// appends it to the terms exactly when it was not read before, and leaves
/// the terms as they were otherwise.
pub proof fn lemma_dedup_appends_new_tokens(s: Seq<Seq<char>>, x: Seq<char>)
    ensures
        dedup(Seq::empty()) == Seq::<Seq<char>>::empty(),
        !s.contains(x) ==> dedup(s.push(x)) == dedup(s).push(x),
        s.contains(x) ==> dedup(s.push(x)) == dedup(s),
{
    lemma_dedup_is_set(s);
    assert(s.push(x).drop_last() =~= s);
    if s.contains(x) {
        assert(s.to_set().contains(x));
        assert(dedup(s).to_set().contains(x));
    } else {
        if dedup(s).contains(x) {
            assert(dedup(s).to_set().contains(x));
        }
    }
}

/// Every occurrence counts: the occurrences in two token sequences read one
/// after the other are the sum of the occurrences in each, a single token
/// counts once when it is the term and not at all otherwise, and no token
/// counts nothing. So `term` repeated `n` times occurs `n` times.
pub proof fn lemma_occurrences_add(a: Seq<Seq<char>>, b: Seq<Seq<char>>, term: Seq<char>, x: Seq<char>)
    ensures
        occurrences(a + b, term) == occurrences(a, term) + occurrences(b, term),
        occurrences(seq![x], term) == (if x == term { 1nat } else { 0nat }),
        occurrences(Seq::empty(), term) == 0,
    decreases b.len(),
{
    if b.len() == 0 {
        assert(a + b =~= a);
    } else {
        lemma_occurrences_add(a, b.drop_last(), term, x);
        assert((a + b).drop_last() =~= a + b.drop_last());
        assert((a + b).last() == b.last());
    }
    let one: Seq<Seq<char>> = seq![x];
    assert(one.drop_last() =~= Seq::<Seq<char>>::empty());
    assert(one.last() == x);
    assert(occurrences(one, term) == occurrences(one.drop_last(), term) + if one.last() == term {
        1nat
    } else {
        0nat
    });
}

/// Document frequencies add up over collections read one after the other: a
/// single document counts once when it contains the term and not at all
/// otherwise, however often the term occurs in it.
pub proof fn lemma_containing_docs_add(
    a: Seq<Seq<Seq<char>>>,
    b: Seq<Seq<Seq<char>>>,
    term: Seq<char>,
    d: Seq<Seq<char>>,
)
    ensures
        containing_docs(a + b, term) == containing_docs(a, term) + containing_docs(b, term),
        containing_docs(seq![d], term) == (if d.contains(term) { 1nat } else { 0nat }),
        containing_docs(Seq::empty(), term) == 0,
    decreases b.len(),
{
    if b.len() == 0 {
        assert(a + b =~= a);
    } else {
        lemma_containing_docs_add(a, b.drop_last(), term, d);
        assert((a + b).drop_last() =~= a + b.drop_last());
        assert((a + b).last() == b.last());
    }
    let one: Seq<Seq<Seq<char>>> = seq![d];
    assert(one.drop_last() =~= Seq::<Seq<Seq<char>>>::empty());
    assert(one.last() == d);
    assert(containing_docs(one, term) == containing_docs(one.drop_last(), term) + if one.last().contains(term) {
        1nat
    } else {
        0nat
    });
}

/// Token totals add up over collections read one after the other, and a
/// single document contributes its own length.
pub proof fn lemma_total_tokens_add(a: Seq<Seq<Seq<char>>>, b: Seq<Seq<Seq<char>>>, d: Seq<Seq<char>>)
    ensures
        total_tokens(a + b) == total_tokens(a) + total_tokens(b),
        total_tokens(seq![d]) == d.len(),
        total_tokens(Seq::empty()) == 0,
    decreases b.len(),
{
    if b.len() == 0 {
        assert(a + b =~= a);
    } else {
        lemma_total_tokens_add(a, b.drop_last(), d);
        assert((a + b).drop_last() =~= a + b.drop_last());
        assert((a + b).last() == b.last());
    }
    let one: Seq<Seq<Seq<char>>> = seq![d];
    assert(one.drop_last() =~= Seq::<Seq<Seq<char>>>::empty());
    assert(one.last() == d);
    assert(total_tokens(one) == total_tokens(one.drop_last()) + one.last().len());
}

/// Tokenizes each document's text, keeping document order.
pub fn document_tokens(docs: &Vec<(u128, String)>) -> (tokens: Vec<Vec<String>>)
    ensures
        tokens@.len() == docs@.len(),
        forall|i: int|
            0 <= i < docs@.len() ==> #[trigger] doc_views(tokens@)[i] == lexical_token_seq(
                docs@[i].1@,
            ),
{
    let mut tokens: Vec<Vec<String>> = Vec::new();
    let mut i: usize = 0;
    while i < docs.len()
        invariant
            i <= docs.len(),
            tokens@.len() == i,
            forall|j: int|
                0 <= j < i ==> #[trigger] string_views(tokens@[j]@) == lexical_token_seq(
                    docs@[j].1@,
                ),
        decreases docs.len() - i,
    {
        let t = lexical_tokens(docs[i].1.as_str());
        tokens.push(t);
        i = i + 1;
    }
    tokens
}

/// The distinct lexical tokens of `query`, in order of first occurrence.
pub fn query_terms(query: &str) -> (terms: Vec<String>)
    ensures
        string_views(terms@) == dedup(lexical_token_seq(query@)),
{
    let tokens = lexical_tokens(query);
    let mut terms: Vec<String> = Vec::new();
    let mut i: usize = 0;
    while i < tokens.len()
        invariant
            i <= tokens.len(),
            string_views(tokens@) == lexical_token_seq(query@),
            string_views(terms@) == dedup(string_views(tokens@).take(i as int)),
        decreases tokens.len() - i,
    {
        let ghost prefix = string_views(tokens@).take(i as int);
        assert(string_views(tokens@).take(i + 1).drop_last() =~= prefix);
        let mut seen = false;
        let mut j: usize = 0;
        while j < terms.len()
            invariant
                j <= terms.len(),
                i < tokens.len(),
                seen <==> exists|k: int| 0 <= k < j && terms@[k]@ == tokens@[i as int]@,
            decreases terms.len() - j,
        {
            if terms[j] == tokens[i] {
                seen = true;
            }
            j = j + 1;
        }
        proof {
            let d = string_views(terms@);
            if seen {
                let k = choose|k: int| 0 <= k < terms.len() && terms@[k]@ == tokens@[i as int]@;
                assert(d[k] == tokens@[i as int]@);
            } else {
                assert forall|k: int| 0 <= k < d.len() implies d[k] != tokens@[i as int]@ by {}
            }
        }
        if !seen {
            let t = tokens[i].clone();
            terms.push(t);
            assert(string_views(terms@) =~= dedup(prefix).push(tokens@[i as int]@));
        }
        i = i + 1;
    }
    assert(string_views(tokens@).take(tokens.len() as int) =~= string_views(tokens@));
    terms
}

proof fn lemma_total_tokens_prefix(docs: Seq<Seq<Seq<char>>>, i: int)
    requires
        0 <= i <= docs.len(),
    ensures
        total_tokens(docs.take(i)) <= total_tokens(docs),
    decreases docs.len() - i,
{
    if i < docs.len() {
        lemma_total_tokens_prefix(docs, i + 1);
        assert(docs.take(i + 1).drop_last() =~= docs.take(i));
    } else {
        assert(docs.take(i) =~= docs);
    }
}

/// Counts the occurrences of `term` among `tokens`.
fn count_occurrences(tokens: &Vec<String>, term: &String) -> (n: usize)
    ensures
        n == occurrences(string_views(tokens@), term@),
{
    let mut n: usize = 0;
    let mut k: usize = 0;
    while k < tokens.len()
        invariant
            k <= tokens.len(),
            n <= k,
            n == occurrences(string_views(tokens@).take(k as int), term@),
        decreases tokens.len() - k,
    {
        assert(string_views(tokens@).take(k + 1).drop_last() =~= string_views(tokens@).take(
            k as int,
        ));
        if tokens[k] == *term {
            n = n + 1;
        }
        k = k + 1;
    }
    assert(string_views(tokens@).take(tokens.len() as int) =~= string_views(tokens@));
    n
}

/// Whether `term` occurs among `tokens`.
fn contains_term(tokens: &Vec<String>, term: &String) -> (found: bool)
    ensures
        found == string_views(tokens@).contains(term@),
{
    let mut k: usize = 0;
    while k < tokens.len()
        invariant
            k <= tokens.len(),
            forall|m: int| 0 <= m < k ==> tokens@[m]@ != term@,
        decreases tokens.len() - k,
    {
        if tokens[k] == *term {
            assert(string_views(tokens@)[k as int] == term@);
            return true;
        }
        k = k + 1;
    }
    assert forall|m: int| 0 <= m < string_views(tokens@).len() implies string_views(
        tokens@,
    )[m] != term@ by {}
    false
}

/// Collects the counts that BM25 needs. Gives `None` exactly when there is
/// nothing to rank: no query terms, no documents, or no tokens in any
/// document.
pub fn bm25_statistics(terms: &Vec<String>, docs: &Vec<Vec<String>>) -> (stats: Option<
    Bm25Statistics,
>)
    requires
        total_tokens(doc_views(docs@)) <= usize::MAX,
    ensures
        stats is None <==> (terms@.len() == 0 || docs@.len() == 0 || total_tokens(doc_views(docs@))
            == 0),
        stats matches Some(st) ==> (st.total_len == total_tokens(doc_views(docs@))
            && st.doc_lengths@.len() == docs@.len() && (forall|i: int|
            0 <= i < docs@.len() ==> st.doc_lengths@[i] == docs@[i]@.len())
            && st.document_frequency@.len() == terms@.len() && (forall|j: int|
            0 <= j < terms@.len() ==> st.document_frequency@[j] == containing_docs(
                doc_views(docs@),
                terms@[j]@,
            )) && st.term_frequency@.len() == docs@.len() && (forall|i: int|
            0 <= i < docs@.len() ==> st.term_frequency@[i]@.len() == terms@.len()) && (forall|
            i: int,
            j: int,
        |
            0 <= i < docs@.len() && 0 <= j < terms@.len() ==> st.term_frequency@[i]@[j]
                == occurrences(doc_views(docs@)[i], terms@[j]@))),
{
    if terms.len() == 0 || docs.len() == 0 {
        return None;
    }
    let ghost dv = doc_views(docs@);
    let mut doc_lengths: Vec<usize> = Vec::new();
    let mut total_len: usize = 0;
    let mut i: usize = 0;
    while i < docs.len()
        invariant
            i <= docs.len(),
            dv == doc_views(docs@),
            total_tokens(dv) <= usize::MAX,
            total_len == total_tokens(dv.take(i as int)),
            doc_lengths@.len() == i,
            forall|m: int| 0 <= m < i ==> doc_lengths@[m] == docs@[m]@.len(),
        decreases docs.len() - i,
    {
        proof {
            assert(dv.take(i + 1).drop_last() =~= dv.take(i as int));
            lemma_total_tokens_prefix(dv, i + 1);
        }
        let len = docs[i].len();
        doc_lengths.push(len);
        total_len = total_len + len;
        i = i + 1;
    }
    assert(dv.take(docs.len() as int) =~= dv);
    if total_len == 0 {
        return None;
    }
    let mut document_frequency: Vec<usize> = Vec::new();
    let mut j: usize = 0;
    while j < terms.len()
        invariant
            j <= terms.len(),
            dv == doc_views(docs@),
            document_frequency@.len() == j,
            forall|m: int|
                0 <= m < j ==> document_frequency@[m] == containing_docs(dv, terms@[m]@),
        decreases terms.len() - j,
    {
        let mut df: usize = 0;
        let mut d: usize = 0;
        while d < docs.len()
            invariant
                d <= docs.len(),
                j < terms.len(),
                dv == doc_views(docs@),
                df <= d,
                df == containing_docs(dv.take(d as int), terms@[j as int]@),
            decreases docs.len() - d,
        {
            assert(dv.take(d + 1).drop_last() =~= dv.take(d as int));
            if contains_term(&docs[d], &terms[j]) {
                df = df + 1;
            }
            d = d + 1;
        }
        assert(dv.take(docs.len() as int) =~= dv);
        document_frequency.push(df);
        j = j + 1;
    }
    let mut term_frequency: Vec<Vec<usize>> = Vec::new();
    let mut d: usize = 0;
    while d < docs.len()
        invariant
            d <= docs.len(),
            dv == doc_views(docs@),
            term_frequency@.len() == d,
            forall|m: int| 0 <= m < d ==> term_frequency@[m]@.len() == terms@.len(),
            forall|m: int, k: int|
                0 <= m < d && 0 <= k < terms@.len() ==> term_frequency@[m]@[k] == occurrences(
                    dv[m],
                    terms@[k]@,
                ),
        decreases docs.len() - d,
    {
        let mut row: Vec<usize> = Vec::new();
        let mut k: usize = 0;
        while k < terms.len()
            invariant
                k <= terms.len(),
                d < docs.len(),
                dv == doc_views(docs@),
                row@.len() == k,
                forall|m: int| 0 <= m < k ==> row@[m] == occurrences(dv[d as int], terms@[m]@),
            decreases terms.len() - k,
        {
            let tf = count_occurrences(&docs[d], &terms[k]);
            row.push(tf);
            k = k + 1;
        }
        term_frequency.push(row);
        d = d + 1;
    }
    Some(Bm25Statistics { doc_lengths, total_len, document_frequency, term_frequency })
}

} // verus!
