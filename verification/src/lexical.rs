//! Lexical tokenization for exact-term retrieval.
//!
//! A token is a maximal run of alphanumeric characters and the joiners
//! `_ - + #`, read from the lowercased text, so that terms such as `bm25`,
//! `c++`, `c#` and `memory-only` survive intact.

use vstd::prelude::*;
use crate::text::{
    char_is_alphanumeric, char_lowercase, chars_of, is_alphanumeric, lowercase_chars,
    string_from_chars,
};

verus! {

/// Characters that may stand inside a lexical token.
pub open spec fn is_token_char(c: char) -> bool {
    char_is_alphanumeric(c) || c == '_' || c == '-' || c == '+' || c == '#'
}

/// `s` with every character replaced by its lowercase mapping.
pub open spec fn lowered(s: Seq<char>) -> Seq<char>
    decreases s.len(),
{
    if s.len() == 0 {
        Seq::empty()
    } else {
        lowered(s.drop_last()) + char_lowercase(s.last())
    }
}

/// Reading `s` from left to right: the tokens already closed and the token
/// still being read.
pub open spec fn scan(s: Seq<char>) -> (Seq<Seq<char>>, Seq<char>)
    decreases s.len(),
{
    if s.len() == 0 {
        (Seq::empty(), Seq::empty())
    } else {
        let (done, cur) = scan(s.drop_last());
        let c = s.last();
        if is_token_char(c) {
            (done, cur.push(c))
        } else if cur.len() > 0 {
            (done.push(cur), Seq::empty())
        } else {
            (done, cur)
        }
    }
}

/// The maximal runs of token characters of `s`, in order.
pub open spec fn tokens_of(s: Seq<char>) -> Seq<Seq<char>> {
    let (done, cur) = scan(s);
    if cur.len() > 0 {
        done.push(cur)
    } else {
        done
    }
}

/// The lexical tokens of `text`.
pub open spec fn lexical_token_seq(text: Seq<char>) -> Seq<Seq<char>> {
    tokens_of(lowered(text))
}

/// The characters of each string.
pub open spec fn string_views(v: Seq<String>) -> Seq<Seq<char>> {
    v.map_values(|t: String| t@)
}

proof fn lemma_scan_push(s: Seq<char>, c: char)
    ensures
        scan(s.push(c)) == (if is_token_char(c) {
            (scan(s).0, scan(s).1.push(c))
        } else if scan(s).1.len() > 0 {
            (scan(s).0.push(scan(s).1), Seq::empty())
        } else {
            scan(s)
        }),
{
    assert(s.push(c).drop_last() =~= s);
}

proof fn lemma_lowered_take(t: Seq<char>, i: int)
    requires
        0 <= i < t.len(),
    ensures
        lowered(t.take(i + 1)) == lowered(t.take(i)) + char_lowercase(t[i]),
{
    assert(t.take(i + 1).drop_last() =~= t.take(i));
}

/// The token-character predicate as a closure, for `Seq::filter`.
pub open spec fn token_char_pred() -> spec_fn(char) -> bool {
    |c: char| is_token_char(c)
}

proof fn lemma_scan_shape(s: Seq<char>)
    ensures
        forall|i: int|
            0 <= i < scan(s).0.len() ==> #[trigger] scan(s).0[i].len() > 0 && (forall|k: int|
                0 <= k < scan(s).0[i].len() ==> is_token_char(scan(s).0[i][k])),
        forall|k: int| 0 <= k < scan(s).1.len() ==> is_token_char(#[trigger] scan(s).1[k]),
        scan(s).0.flatten() + scan(s).1 == s.filter(token_char_pred()),
    decreases s.len(),
{
    let p = token_char_pred();
    if s.len() == 0 {
        reveal(Seq::filter);
        assert(Seq::<Seq<char>>::empty().flatten() =~= Seq::<char>::empty());
        assert(scan(s).0.flatten() + scan(s).1 =~= s.filter(p));
    } else {
        let t = s.drop_last();
        let c = s.last();
        lemma_scan_shape(t);
        assert(t.push(c) =~= s);
        lemma_scan_push(t, c);
        t.lemma_filter_push(c, p);
        let (done, cur) = scan(t);
        if is_token_char(c) {
            assert(s.filter(p) == t.filter(p).push(c));
            assert(done.flatten() + cur.push(c) =~= (done.flatten() + cur).push(c));
        } else {
            assert(s.filter(p) == t.filter(p));
            if cur.len() > 0 {
                done.lemma_flatten_push(cur);
                assert(done.push(cur).flatten() + Seq::<char>::empty() =~= done.flatten() + cur);
            }
        }
    }
}

/// Every lexical token is non-empty and made only of token characters, and
/// the tokens, read one after another, are exactly the token characters of
/// the lowercased text: tokenization drops separators and nothing else.
pub proof fn lemma_lexical_tokens_partition(text: Seq<char>)
    ensures
        forall|i: int|
            0 <= i < lexical_token_seq(text).len() ==> #[trigger] lexical_token_seq(text)[i].len()
                > 0 && (forall|k: int|
                0 <= k < lexical_token_seq(text)[i].len() ==> is_token_char(
                    lexical_token_seq(text)[i][k],
                )),
        lexical_token_seq(text).flatten() == lowered(text).filter(token_char_pred()),
{
    let s = lowered(text);
    lemma_scan_shape(s);
    let (done, cur) = scan(s);
    if cur.len() > 0 {
        done.lemma_flatten_push(cur);
    } else {
        assert(done.flatten() + cur =~= done.flatten());
    }
}

/// The tokens written out with one space between neighbours, as
/// `join(" ")` writes them.
pub open spec fn joined(tokens: Seq<Seq<char>>) -> Seq<char>
    decreases tokens.len(),
{
    if tokens.len() == 0 {
        Seq::empty()
    } else if tokens.len() == 1 {
        tokens[0]
    } else {
        joined(tokens.drop_last()) + seq![' '] + tokens.last()
    }
}

/// Every token is non-empty and made only of token characters.
pub open spec fn well_formed_tokens(tokens: Seq<Seq<char>>) -> bool {
    forall|i: int|
        0 <= i < tokens.len() ==> #[trigger] tokens[i].len() > 0 && (forall|k: int|
            0 <= k < tokens[i].len() ==> is_token_char(tokens[i][k]))
}

/// Every character of every token is its own lowercase mapping.
pub open spec fn lowercase_fixed(tokens: Seq<Seq<char>>) -> bool {
    forall|i: int, k: int|
        0 <= i < tokens.len() && 0 <= k < tokens[i].len() ==> char_lowercase(#[trigger] tokens[i][k])
            == seq![tokens[i][k]]
}

proof fn lemma_lowered_add(a: Seq<char>, b: Seq<char>)
    ensures
        lowered(a + b) == lowered(a) + lowered(b),
    decreases b.len(),
{
    if b.len() == 0 {
        assert(a + b =~= a);
        assert(lowered(a) + lowered(b) =~= lowered(a));
    } else {
        lemma_lowered_add(a, b.drop_last());
        assert((a + b).drop_last() =~= a + b.drop_last());
        assert((a + b).last() == b.last());
        assert(lowered(a) + lowered(b.drop_last()) + char_lowercase(b.last()) =~= lowered(a) + (
        lowered(b.drop_last()) + char_lowercase(b.last())));
    }
}

proof fn lemma_lowered_fixed(s: Seq<char>)
    requires
        forall|k: int| 0 <= k < s.len() ==> char_lowercase(#[trigger] s[k]) == seq![s[k]],
    ensures
        lowered(s) == s,
    decreases s.len(),
{
    if s.len() > 0 {
        lemma_lowered_fixed(s.drop_last());
        assert(lowered(s.drop_last()) + seq![s.last()] =~= s);
    }
}

proof fn lemma_lowered_joined(tokens: Seq<Seq<char>>)
    requires
        lowercase_fixed(tokens),
        char_lowercase(' ') == seq![' '],
    ensures
        lowered(joined(tokens)) == joined(tokens),
    decreases tokens.len(),
{
    if tokens.len() == 1 {
        assert forall|k: int| 0 <= k < tokens[0].len() implies char_lowercase(#[trigger] tokens[0][k]) == seq![tokens[0][k]] by {}
        lemma_lowered_fixed(tokens[0]);
    } else if tokens.len() > 1 {
        let init = tokens.drop_last();
        let last = tokens.last();
        assert(lowercase_fixed(init)) by {
            assert forall|i: int, k: int| 0 <= i < init.len() && 0 <= k < init[i].len() implies char_lowercase(#[trigger] init[i][k]) == seq![init[i][k]] by {
                assert(init[i] == tokens[i]);
            }
        }
        lemma_lowered_joined(init);
        assert forall|k: int| 0 <= k < last.len() implies char_lowercase(#[trigger] last[k]) == seq![last[k]] by {
            assert(tokens[tokens.len() - 1] == last);
        }
        lemma_lowered_fixed(last);
        lemma_lowered_add(joined(init) + seq![' '], last);
        lemma_lowered_add(joined(init), seq![' ']);
        let sp: Seq<char> = seq![' '];
        assert(sp.drop_last() =~= Seq::<char>::empty());
        assert(sp.last() == ' ');
        assert(lowered(sp) == lowered(sp.drop_last()) + char_lowercase(sp.last()));
        assert(lowered(sp) =~= sp);
    }
}

proof fn lemma_scan_append(s: Seq<char>, w: Seq<char>)
    requires
        forall|k: int| 0 <= k < w.len() ==> is_token_char(#[trigger] w[k]),
    ensures
        scan(s + w) == (scan(s).0, scan(s).1 + w),
    decreases w.len(),
{
    if w.len() == 0 {
        assert(s + w =~= s);
        assert(scan(s).1 + w =~= scan(s).1);
    } else {
        lemma_scan_append(s, w.drop_last());
        assert((s + w.drop_last()).push(w.last()) =~= s + w);
        lemma_scan_push(s + w.drop_last(), w.last());
        assert((scan(s).1 + w.drop_last()).push(w.last()) =~= scan(s).1 + w);
    }
}

proof fn lemma_scan_joined(tokens: Seq<Seq<char>>)
    requires
        tokens.len() > 0,
        well_formed_tokens(tokens),
        !is_token_char(' '),
    ensures
        scan(joined(tokens)) == (tokens.drop_last(), tokens.last()),
    decreases tokens.len(),
{
    if tokens.len() == 1 {
        assert(tokens[0].len() > 0);
        lemma_scan_append(Seq::empty(), tokens[0]);
        assert(Seq::<char>::empty() + tokens[0] =~= tokens[0]);
        assert(scan(Seq::<char>::empty()).1 + tokens[0] =~= tokens[0]);
        assert(tokens.drop_last() =~= Seq::<Seq<char>>::empty());
    } else {
        let init = tokens.drop_last();
        let last = tokens.last();
        assert(well_formed_tokens(init)) by {
            assert forall|i: int| 0 <= i < init.len() implies #[trigger] init[i].len() > 0 && (forall|k: int|
                0 <= k < init[i].len() ==> is_token_char(init[i][k])) by {
                assert(init[i] == tokens[i]);
            }
        }
        lemma_scan_joined(init);
        assert(init.last().len() > 0) by {
            assert(init.last() == tokens[tokens.len() - 2]);
        }
        let j = joined(init);
        lemma_scan_push(j, ' ');
        assert(j + seq![' '] =~= j.push(' '));
        assert(init.drop_last().push(init.last()) =~= init);
        assert(tokens[tokens.len() - 1] == last);
        assert(last.len() > 0);
        lemma_scan_append(j + seq![' '], last);
        assert(Seq::<char>::empty() + last =~= last);
    }
}

/// Tokenizing the tokens, written out with single spaces, gives the tokens
/// back.
proof fn lemma_tokens_of_joined(tokens: Seq<Seq<char>>)
    requires
        well_formed_tokens(tokens),
        !is_token_char(' '),
    ensures
        tokens_of(joined(tokens)) == tokens,
{
    if tokens.len() == 0 {
        assert(tokens_of(joined(tokens)) =~= tokens);
    } else {
        lemma_scan_joined(tokens);
        assert(tokens[tokens.len() - 1].len() > 0);
        assert(tokens.drop_last().push(tokens.last()) =~= tokens);
    }
}

/// Tokenizing is idempotent: the tokens of a text, joined with single
/// spaces and tokenized again, are the same tokens. This holds wherever the
/// lowercase mapping leaves the space and every character of the tokens
/// unchanged and the space is not alphanumeric, as in the Unicode tables
/// that std follows; the tables themselves are not stated here.
pub proof fn lemma_lexical_tokens_idempotent(text: Seq<char>)
    requires
        lowercase_fixed(lexical_token_seq(text)),
        char_lowercase(' ') == seq![' '],
        !char_is_alphanumeric(' '),
    ensures
        lexical_token_seq(joined(lexical_token_seq(text))) == lexical_token_seq(text),
{
    let t = lexical_token_seq(text);
    lemma_lexical_tokens_partition(text);
    assert(well_formed_tokens(t));
    lemma_lowered_joined(t);
    lemma_tokens_of_joined(t);
}

/// The characters of lexical tokens are exactly the alphanumerics and the
/// joiners `_ - + #`: every character of every token is one of them, and,
/// read one after another, the tokens are every such character of the
/// lowercased text, in order. Any other character, such as `/` or a space,
/// never stands inside a token.
pub proof fn lemma_token_characters(text: Seq<char>)
    ensures
        forall|i: int, k: int|
            0 <= i < lexical_token_seq(text).len() && 0 <= k < lexical_token_seq(text)[i].len() ==> ({
                let c = #[trigger] lexical_token_seq(text)[i][k];
                char_is_alphanumeric(c) || c == '_' || c == '-' || c == '+' || c == '#'
            }),
        lexical_token_seq(text).flatten() == lowered(text).filter(
            |c: char| char_is_alphanumeric(c) || c == '_' || c == '-' || c == '+' || c == '#',
        ),
{
    lemma_lexical_tokens_partition(text);
    let t = lexical_token_seq(text);
    assert forall|i: int, k: int| 0 <= i < t.len() && 0 <= k < t[i].len() implies ({
        let c = #[trigger] t[i][k];
        char_is_alphanumeric(c) || c == '_' || c == '-' || c == '+' || c == '#'
    }) by {
        assert(t[i].len() > 0);
        assert(is_token_char(t[i][k]));
    }
    let f = |c: char| char_is_alphanumeric(c) || c == '_' || c == '-' || c == '+' || c == '#';
    assert(token_char_pred() =~= f);
}

/// Lowercasing works character by character: the lowercased text of two
/// pieces read one after the other is their lowercased texts one after the
/// other, and a single character becomes its lowercase mapping.
pub proof fn lemma_lowered_pieces(a: Seq<char>, b: Seq<char>, c: char)
    ensures
        lowered(a + b) == lowered(a) + lowered(b),
        lowered(seq![c]) == char_lowercase(c),
        lowered(Seq::empty()) == Seq::<char>::empty(),
{
    lemma_lowered_add(a, b);
    let one: Seq<char> = seq![c];
    assert(one.drop_last() =~= Seq::<char>::empty());
    assert(one.last() == c);
    assert(lowered(one) == lowered(one.drop_last()) + char_lowercase(one.last()));
    assert(lowered(one) =~= char_lowercase(c));
}

proof fn lemma_scan_concat(x: Seq<char>, b: Seq<char>)
    requires
        scan(x).1.len() == 0,
    ensures
        scan(x + b) == (scan(x).0 + scan(b).0, scan(b).1),
    decreases b.len(),
{
    if b.len() == 0 {
        assert(x + b =~= x);
        assert(scan(x).0 + scan(b).0 =~= scan(x).0);
    } else {
        let bi = b.drop_last();
        let c = b.last();
        lemma_scan_concat(x, bi);
        assert((x + bi).push(c) =~= x + b);
        assert(bi.push(c) =~= b);
        lemma_scan_push(x + bi, c);
        lemma_scan_push(bi, c);
        let (d, cur) = scan(bi);
        if !is_token_char(c) && cur.len() > 0 {
            assert((scan(x).0 + d).push(cur) =~= scan(x).0 + d.push(cur));
        }
    }
}

/// Tokens are maximal runs: a character that is neither alphanumeric nor one
/// of `_ - + #` splits the text, the tokens of the whole being the tokens
/// before it followed by the tokens after it; a non-empty run of token
/// characters is a single token; and no text gives no tokens.
pub proof fn lemma_tokens_split_at_separators(a: Seq<char>, b: Seq<char>, c: char, w: Seq<char>)
    ensures
        !(char_is_alphanumeric(c) || c == '_' || c == '-' || c == '+' || c == '#') ==> tokens_of(
            a + seq![c] + b,
        ) == tokens_of(a) + tokens_of(b),
        (w.len() > 0 && forall|k: int|
            0 <= k < w.len() ==> ({
                let d = #[trigger] w[k];
                char_is_alphanumeric(d) || d == '_' || d == '-' || d == '+' || d == '#'
            })) ==> tokens_of(w) == seq![w],
        tokens_of(Seq::empty()) == Seq::<Seq<char>>::empty(),
{
    if !(char_is_alphanumeric(c) || c == '_' || c == '-' || c == '+' || c == '#') {
        let x = a.push(c);
        lemma_scan_push(a, c);
        assert(scan(x).0 == tokens_of(a));
        assert(a + seq![c] + b =~= x + b);
        lemma_scan_concat(x, b);
        let (d, cur) = scan(b);
        if cur.len() > 0 {
            assert((tokens_of(a) + d).push(cur) =~= tokens_of(a) + d.push(cur));
        }
    }
    if w.len() > 0 && forall|k: int|
        0 <= k < w.len() ==> ({
            let d = #[trigger] w[k];
            char_is_alphanumeric(d) || d == '_' || d == '-' || d == '+' || d == '#'
        }) {
        assert forall|k: int| 0 <= k < w.len() implies is_token_char(#[trigger] w[k]) by {}
        lemma_scan_append(Seq::empty(), w);
        assert(Seq::<char>::empty() + w =~= w);
        assert(Seq::<char>::empty() + w =~= w);
        assert(Seq::<Seq<char>>::empty().push(w) =~= seq![w]);
    }
}

/// Splits `text` into lowercase lexical tokens.
pub fn lexical_tokens(text: &str) -> (tokens: Vec<String>)
    ensures
        string_views(tokens@) == lexical_token_seq(text@),
{
    let chars = chars_of(text);
    let mut tokens: Vec<String> = Vec::new();
    let mut current: Vec<char> = Vec::new();
    let ghost mut read: Seq<char> = Seq::empty();
    let mut i: usize = 0;
    while i < chars.len()
        invariant
            i <= chars.len(),
            chars@ == text@,
            read == lowered(chars@.take(i as int)),
            string_views(tokens@) == scan(read).0,
            current@ == scan(read).1,
        decreases chars.len() - i,
    {
        let lower = lowercase_chars(chars[i]);
        let ghost before = read;
        let mut j: usize = 0;
        while j < lower.len()
            invariant
                j <= lower.len(),
                read == before + lower@.take(j as int),
                string_views(tokens@) == scan(read).0,
                current@ == scan(read).1,
            decreases lower.len() - j,
        {
            let c = lower[j];
            proof {
                lemma_scan_push(read, c);
                assert(before + lower@.take(j + 1) =~= (before + lower@.take(j as int)).push(c));
            }
            let keep = is_alphanumeric(c) || c == '_' || c == '-' || c == '+' || c == '#';
            if keep {
                current.push(c);
            } else if current.len() > 0 {
                let token = string_from_chars(&current);
                tokens.push(token);
                current = Vec::new();
                assert(string_views(tokens@) =~= scan(read).0.push(scan(read).1));
            }
            proof {
                read = read.push(c);
            }
            j = j + 1;
        }
        proof {
            assert(lower@.take(lower@.len() as int) =~= lower@);
            lemma_lowered_take(chars@, i as int);
        }
        i = i + 1;
    }
    assert(chars@.take(chars@.len() as int) =~= chars@);
    if current.len() > 0 {
        let token = string_from_chars(&current);
        tokens.push(token);
        assert(string_views(tokens@) =~= scan(read).0.push(scan(read).1));
    }
    tokens
}

} // verus!
