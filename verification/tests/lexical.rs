use mnemos::bm25::{bm25_statistics, document_tokens, query_terms};
use mnemos::lexical::lexical_tokens;

#[test]
fn lexical_tokens_preserve_exact_retrieval_terms() {
    let tokens = lexical_tokens("BM25, RRF, C++, C#, memory-only, and IDF.");

    assert!(tokens.iter().any(|token| token == "bm25"));
    assert!(tokens.iter().any(|token| token == "rrf"));
    assert!(tokens.iter().any(|token| token == "c++"));
    assert!(tokens.iter().any(|token| token == "c#"));
    assert!(tokens.iter().any(|token| token == "memory-only"));
    assert!(tokens.iter().any(|token| token == "idf"));
}

#[test]
fn lexical_tokens_split_on_separators_in_order() {
    let tokens = lexical_tokens("BM25, RRF, C++, C#, memory-only, and IDF.");
    assert_eq!(
        tokens,
        vec!["bm25", "rrf", "c++", "c#", "memory-only", "and", "idf"]
    );
}

#[test]
fn lexical_tokens_of_separator_only_text_are_empty() {
    assert!(lexical_tokens("").is_empty());
    assert!(lexical_tokens(" ,.;!? ").is_empty());
}

#[test]
fn lexical_tokens_lowercase_non_ascii_letters() {
    assert_eq!(lexical_tokens("Ärger ÜBER_Öl"), vec!["ärger", "über_öl"]);
}

#[test]
fn query_terms_drop_repeats_keeping_first_order() {
    assert_eq!(query_terms("RRF bm25 rrf BM25 idf"), vec!["rrf", "bm25", "idf"]);
    assert!(query_terms("...").is_empty());
}

#[test]
fn document_tokens_tokenize_each_document() {
    let docs = vec![(1u128, "Hello, World".to_string()), (2u128, "".to_string())];
    let tokens = document_tokens(&docs);
    assert_eq!(tokens, vec![vec!["hello".to_string(), "world".to_string()], vec![]]);
}

#[test]
fn bm25_statistics_count_terms_and_documents() {
    let docs = vec![
        (1u128, "BM25 scores documents with term frequency and IDF.".to_string()),
        (2u128, "Vector embeddings capture broad semantic similarity.".to_string()),
        (3u128, "BM25 BM25 hybrid".to_string()),
    ];
    let terms = query_terms("BM25 IDF");
    let tokens = document_tokens(&docs);
    let stats = bm25_statistics(&terms, &tokens).unwrap();
    assert_eq!(stats.doc_lengths, vec![8, 6, 3]);
    assert_eq!(stats.total_len, 17);
    assert_eq!(stats.document_frequency, vec![2, 1]);
    assert_eq!(stats.term_frequency, vec![vec![1, 1], vec![0, 0], vec![2, 0]]);
}

#[test]
fn bm25_statistics_nothing_to_rank() {
    let docs = vec![(1u128, "alpha".to_string())];
    let tokens = document_tokens(&docs);
    assert!(bm25_statistics(&query_terms("..."), &tokens).is_none());
    assert!(bm25_statistics(&query_terms("alpha"), &Vec::new()).is_none());
    let empty_docs = document_tokens(&vec![(1u128, "!!".to_string())]);
    assert!(bm25_statistics(&query_terms("alpha"), &empty_docs).is_none());
}

#[test]
fn tokenizing_joined_tokens_gives_them_back() {
    for text in [
        "Use BM25 + RRF hybrid retrieval; C++ and C# terms, memory-only_mode!",
        "  leading,,and   trailing  ",
        "",
        "ÀÉÎ Ünïcödé 42",
    ] {
        let tokens = lexical_tokens(text);
        assert_eq!(lexical_tokens(&tokens.join(" ")), tokens);
    }
}
