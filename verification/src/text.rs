//! Full text: cutting it into terms, counting them, and the keys of the text
//! index.

use vstd::prelude::*;
use vstd::string::*;
use vstd::utf8::*;

use crate::codec;
use crate::codec::{append, put_len_be, put_u32_be};
use crate::seqs;
use crate::strings;
use crate::strings::chars_of;
use crate::textmap;
use crate::textmap::TextMap;
use crate::value;
use crate::value::{Value, ValueView};

pub mod agreement;
pub mod index_data;
pub mod ranked;
pub mod scoring;
pub mod search;
pub mod table;
pub mod top_k;

verus! {

pub const KEY_KIND_FIELD_STATS: u8 = 0;

pub const KEY_KIND_TERM_META: u8 = 1;

pub const KEY_KIND_TERM_BLOCK: u8 = 2;

/// Terms of more bytes than this are left out unless told otherwise.
pub const DEFAULT_MAX_TOKEN_LEN: usize = 39;

/// How text is cut into terms.
#[derive(Clone, Copy, Debug, PartialEq, Eq, Structural)]
pub struct TokenizerConfig {
    pub lowercase: bool,
    pub max_token_len: usize,
}

impl Default for TokenizerConfig {
    fn default() -> (c: TokenizerConfig)
        ensures
            c == default_config(),
    {
        TokenizerConfig { lowercase: true, max_token_len: DEFAULT_MAX_TOKEN_LEN }
    }
}

/// How text is cut unless told otherwise.
pub open spec fn default_config() -> TokenizerConfig {
    TokenizerConfig { lowercase: true, max_token_len: DEFAULT_MAX_TOKEN_LEN }
}

/// A term and how often it occurs.
#[derive(Clone, Debug, PartialEq, Eq)]
pub struct TermFrequency {
    pub term: String,
    pub frequency: u32,
}

/// How long a text is, in terms, and how often each term occurs.
#[derive(Clone, Debug, PartialEq, Eq)]
pub struct TextDocumentStats {
    pub doc_len: u32,
    pub terms: Vec<TermFrequency>,
}

/// Which characters `char::is_alphanumeric` accepts.
pub uninterp spec fn alphanumeric(c: char) -> bool;

/// The characters that `char::to_lowercase` gives for one.
pub uninterp spec fn lowercase_of(c: char) -> Seq<char>;

/// Calls `char::is_alphanumeric`. Claimed: the answer depends on the character
/// alone.
#[verifier::external_body]
fn is_alphanumeric(c: char) -> (b: bool)
    ensures
        b == alphanumeric(c),
{
    c.is_alphanumeric()
}

/// Calls `char::to_lowercase` and collects what it gives. Claimed: that depends on
/// the character alone.
#[verifier::external_body]
fn to_lowercase(c: char) -> (r: Vec<char>)
    ensures
        r@ == lowercase_of(c),
{
    c.to_lowercase().collect()
}

/// What a character adds to a term.
pub open spec fn folded(c: char, lowercase: bool) -> Seq<char> {
    if lowercase {
        lowercase_of(c)
    } else {
        seq![c]
    }
}

/// The most bytes that a term may have.
pub open spec fn term_limit(config: TokenizerConfig) -> int {
    if config.max_token_len < 1 {
        1
    } else {
        config.max_token_len as int
    }
}

/// Terms with one more at the end; an empty one and one that is too long are left
/// out.
pub open spec fn with_term(terms: Seq<Seq<char>>, term: Seq<char>, limit: int) -> Seq<Seq<char>> {
    if term.len() > 0 && encode_utf8(term).len() <= limit {
        terms.push(term)
    } else {
        terms
    }
}

/// The terms of a text that are complete, and the one that its end is in the
/// middle of.
pub open spec fn cut(text: Seq<char>, config: TokenizerConfig) -> (Seq<Seq<char>>, Seq<char>)
    decreases text.len(),
{
    if text.len() == 0 {
        (Seq::empty(), Seq::empty())
    } else {
        let (terms, current) = cut(text.drop_last(), config);
        if alphanumeric(text.last()) {
            (terms, current + folded(text.last(), config.lowercase))
        } else {
            (with_term(terms, current, term_limit(config)), Seq::empty())
        }
    }
}

/// The terms of a text: its runs of letters and digits.
pub open spec fn tokens_of(text: Seq<char>, config: TokenizerConfig) -> Seq<Seq<char>> {
    let (terms, current) = cut(text, config);
    with_term(terms, current, term_limit(config))
}

/// What strings stand for.
pub open spec fn texts_view(texts: Seq<String>) -> Seq<Seq<char>> {
    Seq::new(texts.len(), |i: int| texts[i]@)
}

fn finish_token(tokens: &mut Vec<String>, current: String, limit: usize)
    ensures
        texts_view(final(tokens)@) == with_term(
            texts_view(old(tokens)@),
            current@,
            limit as int,
        ),
{
    let ghost before = tokens@;
    let ghost text = current@;
    if current.as_str().as_bytes().len() == 0 {
        proof {
            if text.len() > 0 {
                assert(encode_utf8(text).len() == 0);
                encode_utf8_decode_utf8(text);
                encode_utf8_decode_utf8(Seq::<char>::empty());
                assert(encode_utf8(text) =~= encode_utf8(Seq::<char>::empty()));
            }
        }
        return;
    }
    proof {
        if text.len() == 0 {
            assert(text =~= Seq::<char>::empty());
        }
    }
    if current.as_str().as_bytes().len() <= limit {
        tokens.push(current);
        assert(texts_view(tokens@) =~= texts_view(before).push(text));
    }
}

/// Cuts a text into terms: its runs of letters and digits, in lower case if asked
/// for. A term that is too long is left out.
pub fn tokenize(text: &str, config: TokenizerConfig) -> (tokens: Vec<String>)
    ensures
        texts_view(tokens@) == tokens_of(text@, config),
{
    let limit: usize = if config.max_token_len < 1 {
        1
    } else {
        config.max_token_len
    };
    let chars = chars_of(text);
    let mut tokens: Vec<String> = Vec::new();
    let mut current: String = String::new();
    let mut i: usize = 0;
    assert(texts_view(tokens@) =~= Seq::empty());
    assert(chars@.take(0) =~= Seq::empty());
    assert(current@ =~= Seq::empty());
    while i < chars.len()
        invariant
            i <= chars@.len(),
            chars@ == text@,
            limit == term_limit(config),
            cut(chars@.take(i as int), config) == (texts_view(tokens@), current@),
        decreases chars@.len() - i,
    {
        let c: char = chars[i];
        let ghost before = current@;
        assert(chars@.take(i + 1).drop_last() =~= chars@.take(i as int));
        assert(chars@.take(i + 1).last() == c);
        if is_alphanumeric(c) {
            if config.lowercase {
                let more = to_lowercase(c);
                let mut k: usize = 0;
                assert(before + more@.take(0) =~= before);
                while k < more.len()
                    invariant
                        k <= more@.len(),
                        current@ == before + more@.take(k as int),
                    decreases more@.len() - k,
                {
                    current.push(more[k]);
                    assert(before + more@.take(k + 1) =~= (before + more@.take(k as int)).push(
                        more@[k as int],
                    ));
                    k = k + 1;
                }
                assert(more@.take(k as int) =~= more@);
            } else {
                current.push(c);
                assert(current@ =~= before + seq![c]);
            }
        } else {
            let mut done: String = String::new();
            std::mem::swap(&mut done, &mut current);
            finish_token(&mut tokens, done, limit);
            assert(current@ =~= Seq::empty());
        }
        i = i + 1;
    }
    assert(chars@.take(i as int) =~= text@);
    finish_token(&mut tokens, current, limit);
    tokens
}

/// How many times at most a counter of 32 bits counts.
pub open spec fn capped(n: nat) -> u32 {
    if n <= u32::MAX {
        n as u32
    } else {
        u32::MAX
    }
}

/// How often a term occurs.
pub open spec fn occurrences(tokens: Seq<Seq<char>>, term: Seq<char>) -> nat {
    seqs::count_where(tokens, |t: Seq<char>| t == term)
}

/// A term occurs no more often than there are terms.
pub proof fn lemma_occurrences_bound(tokens: Seq<Seq<char>>, term: Seq<char>)
    ensures
        occurrences(tokens, term) <= tokens.len(),
    decreases tokens.len(),
{
    if tokens.len() > 0 {
        lemma_occurrences_bound(tokens.drop_last(), term);
    }
}

/// What the terms of a list are.
pub open spec fn terms_view(terms: Seq<TermFrequency>) -> Seq<Seq<char>> {
    Seq::new(terms.len(), |i: int| terms[i].term@)
}

/// The counts of some terms: each once, in order, with how often it occurs.
pub open spec fn counts_terms(tokens: Seq<Seq<char>>, terms: Seq<TermFrequency>) -> bool {
    &&& textmap::texts_sorted(terms_view(terms))
    &&& forall|term: Seq<char>| #[trigger]
        terms_view(terms).contains(term) <==> tokens.contains(term)
    &&& forall|i: int|
        0 <= i < terms.len() ==> (#[trigger] terms[i]).frequency == capped(
            occurrences(tokens, terms[i].term@),
        )
}

proof fn lemma_occurs(tokens: Seq<Seq<char>>, term: Seq<char>)
    ensures
        occurrences(tokens, term) > 0 <==> tokens.contains(term),
    decreases tokens.len(),
{
    if tokens.len() > 0 {
        lemma_occurs(tokens.drop_last(), term);
        if tokens.drop_last().contains(term) {
            let i = tokens.drop_last().index_of(term);
            assert(tokens[i] == term);
        }
        if tokens.last() == term {
            assert(tokens[tokens.len() - 1] == term);
        }
        if tokens.contains(term) && tokens.last() != term {
            let i = tokens.index_of(term);
            assert(tokens.drop_last()[i] == term);
        }
    }
}

/// Counts terms.
pub fn analyze_tokens(tokens: &Vec<String>) -> (r: TextDocumentStats)
    ensures
        r.doc_len == capped(tokens@.len()),
        counts_terms(texts_view(tokens@), r.terms@),
{
    let ghost views = texts_view(tokens@);
    let mut doc_len: u32 = 0;
    let mut counts: TextMap<u32> = TextMap::new();
    let mut i: usize = 0;
    assert(views.take(0) =~= Seq::empty());
    while i < tokens.len()
        invariant
            i <= tokens@.len(),
            views == texts_view(tokens@),
            doc_len == capped(i as nat),
            counts.wf(),
            forall|term: Seq<char>| #[trigger]
                counts.map().dom().contains(term) <==> occurrences(views.take(i as int), term) > 0,
            forall|term: Seq<char>|
                counts.map().dom().contains(term) ==> #[trigger] counts.map()[term] == capped(
                    occurrences(views.take(i as int), term),
                ),
        decreases tokens@.len() - i,
    {
        let token: &String = &tokens[i];
        let ghost before = counts.map();
        if doc_len < u32::MAX {
            doc_len = doc_len + 1;
        }
        let n: u32 = match counts.get(token.as_str()) {
            Some(n) => if *n < u32::MAX {
                *n + 1
            } else {
                *n
            },
            None => 1,
        };
        counts.insert(token.clone(), n);
        proof {
            assert forall|term: Seq<char>| #[trigger] occurrences(views.take(i + 1), term)
                == occurrences(views.take(i as int), term) + (if term == views[i as int] {
                1nat
            } else {
                0nat
            }) by {
                seqs::lemma_count_next(views, |t: Seq<char>| t == term, i as int);
            }
            assert(before.dom().contains(token@) <==> occurrences(views.take(i as int), token@) > 0);
            assert forall|term: Seq<char>| #[trigger] counts.map().dom().contains(term)
                <==> occurrences(views.take(i + 1), term) > 0 by {
                assert(before.dom().contains(term) <==> occurrences(views.take(i as int), term) > 0);
            }
            assert forall|term: Seq<char>| counts.map().dom().contains(term) implies #[trigger] counts.map()[term]
                == capped(occurrences(views.take(i + 1), term)) by {
                if term != token@ {
                    assert(before.dom().contains(term));
                    assert(before[term] == counts.map()[term]);
                }
            }
        }
        i = i + 1;
    }
    assert(views.take(i as int) =~= views);
    let ghost keys = counts.keys();
    let n = counts.len();
    let mut terms: Vec<TermFrequency> = Vec::new();
    let mut k: usize = 0;
    while k < n
        invariant
            k <= n,
            n == keys.len(),
            keys == counts.keys(),
            counts.wf(),
            terms@.len() == k,
            forall|j: int|
                0 <= j < k ==> (#[trigger] terms@[j]).term@ == keys[j] && terms@[j].frequency
                    == counts.map()[keys[j]],
        decreases n - k,
    {
        proof {
            counts.lemma_position(k as int);
        }
        terms.push(
            TermFrequency { term: counts.key_at(k).clone(), frequency: *counts.value_at(k) },
        );
        k = k + 1;
    }
    proof {
        assert(terms_view(terms@) =~= keys);
        assert forall|term: Seq<char>| #[trigger] terms_view(terms@).contains(term)
            <==> views.contains(term) by {
            lemma_occurs(views, term);
            assert(counts.map().dom().contains(term) <==> keys.contains(term));
        }
        assert forall|j: int| 0 <= j < terms@.len() implies (#[trigger] terms@[j]).frequency
            == capped(occurrences(views, terms@[j].term@)) by {
            counts.lemma_position(j);
        }
    }
    TextDocumentStats { doc_len, terms }
}

/// How often some terms occur together.
pub open spec fn total_frequency(terms: Seq<TermFrequency>) -> nat
    decreases terms.len(),
{
    if terms.len() == 0 {
        0
    } else {
        total_frequency(terms.drop_last()) + terms.last().frequency as nat
    }
}

/// A token is among the first `n` of some terms.
spec fn among(terms: Seq<Seq<char>>, n: int) -> spec_fn(Seq<char>) -> bool {
    |t: Seq<char>| terms.take(n).contains(t)
}

proof fn lemma_count_one_more(
    tokens: Seq<Seq<char>>,
    p: spec_fn(Seq<char>) -> bool,
    term: Seq<char>,
    both: spec_fn(Seq<char>) -> bool,
)
    requires
        forall|t: Seq<char>| #[trigger] both(t) == (p(t) || t == term),
        !p(term),
    ensures
        seqs::count_where(tokens, both) == seqs::count_where(tokens, p) + occurrences(
            tokens,
            term,
        ),
        occurrences(tokens, term) <= tokens.len(),
    decreases tokens.len(),
{
    if tokens.len() > 0 {
        lemma_count_one_more(tokens.drop_last(), p, term, both);
        assert(both(tokens.last()) == (p(tokens.last()) || tokens.last() == term));
    }
}

proof fn lemma_count_all(tokens: Seq<Seq<char>>, p: spec_fn(Seq<char>) -> bool)
    requires
        forall|i: int| 0 <= i < tokens.len() ==> p(#[trigger] tokens[i]),
    ensures
        seqs::count_where(tokens, p) == tokens.len(),
    decreases tokens.len(),
{
    if tokens.len() > 0 {
        assert(p(tokens[tokens.len() - 1]));
        lemma_count_all(tokens.drop_last(), p);
    }
}

proof fn lemma_count_none(tokens: Seq<Seq<char>>, p: spec_fn(Seq<char>) -> bool)
    requires
        forall|t: Seq<char>| !#[trigger] p(t),
    ensures
        seqs::count_where(tokens, p) == 0,
    decreases tokens.len(),
{
    if tokens.len() > 0 {
        lemma_count_none(tokens.drop_last(), p);
        assert(!p(tokens.last()));
    }
}

proof fn lemma_frequencies(tokens: Seq<Seq<char>>, terms: Seq<TermFrequency>, n: int)
    requires
        counts_terms(tokens, terms),
        tokens.len() <= u32::MAX,
        0 <= n <= terms.len(),
    ensures
        total_frequency(terms.take(n)) == seqs::count_where(tokens, among(terms_view(terms), n)),
    decreases n,
{
    let views = terms_view(terms);
    if n == 0 {
        lemma_count_none(tokens, among(views, 0));
    } else {
        lemma_frequencies(tokens, terms, n - 1);
        let term = views[n - 1];
        let p = among(views, n - 1);
        let both = among(views, n);
        assert forall|t: Seq<char>| #[trigger] both(t) == (p(t) || t == term) by {
            if views.take(n).contains(t) {
                let i = views.take(n).index_of(t);
                if i < n - 1 {
                    assert(views.take(n - 1)[i] == t);
                }
            }
            if views.take(n - 1).contains(t) {
                let i = views.take(n - 1).index_of(t);
                assert(views.take(n)[i] == t);
            }
            assert(views.take(n)[n - 1] == term);
        }
        if p(term) {
            let i = views.take(n - 1).index_of(term);
            textmap::lemma_text_total(views[i], views[n - 1]);
            assert(strings::text_lt(views[i], views[n - 1]));
        }
        lemma_count_one_more(tokens, p, term, both);
        assert(terms.take(n).drop_last() =~= terms.take(n - 1));
        assert(terms[n - 1].frequency == capped(occurrences(tokens, terms[n - 1].term@)));
        assert(terms.take(n).last() == terms[n - 1]);
    }
}

/// The frequencies of the terms of a document sum to its length.
pub proof fn law_frequencies_sum_to_length(tokens: Seq<Seq<char>>, terms: Seq<TermFrequency>)
    requires
        counts_terms(tokens, terms),
        tokens.len() <= u32::MAX,
    ensures
        total_frequency(terms) == tokens.len(),
{
    let views = terms_view(terms);
    let n = terms.len() as int;
    lemma_frequencies(tokens, terms, n);
    assert(terms.take(n) =~= terms);
    assert(views.take(n) =~= views);
    assert forall|i: int| 0 <= i < tokens.len() implies views.take(n).contains(
        #[trigger] tokens[i],
    ) by {
        assert(tokens.contains(tokens[i]));
        assert(views.contains(tokens[i]));
    }
    lemma_count_all(tokens, among(views, n));
}

proof fn lemma_occurrences_are_count(tokens: Seq<Seq<char>>, term: Seq<char>)
    ensures
        occurrences(tokens, term) == tokens.to_multiset().count(term),
    decreases tokens.len(),
{
    broadcast use vstd::seq_lib::group_to_multiset_ensures;

    if tokens.len() > 0 {
        lemma_occurrences_are_count(tokens.drop_last(), term);
        assert(tokens =~= tokens.drop_last().push(tokens.last()));
    } else {
        assert(tokens =~= Seq::<Seq<char>>::empty());
    }
}

proof fn lemma_same_sorted(a: Seq<Seq<char>>, b: Seq<Seq<char>>)
    requires
        textmap::texts_sorted(a),
        textmap::texts_sorted(b),
        forall|t: Seq<char>| #[trigger] a.contains(t) <==> b.contains(t),
    ensures
        a == b,
    decreases a.len(),
{
    if a.len() == 0 {
        if b.len() > 0 {
            assert(b.contains(b[0]));
            assert(a.contains(b[0]));
        }
        assert(a =~= b);
    } else {
        assert(a.contains(a[a.len() - 1]));
        assert(b.len() > 0);
        let x = a.last();
        let y = b.last();
        textmap::lemma_text_total(x, y);
        assert(x == y) by {
            assert(b.contains(y) && a.contains(y));
            let i = a.index_of(y);
            let j = b.index_of(x);
            assert(i == a.len() - 1 || strings::text_lt(a[i], a[a.len() - 1]));
            assert(j == b.len() - 1 || strings::text_lt(b[j], b[b.len() - 1]));
        }
        let fa = a.drop_last();
        let fb = b.drop_last();
        assert forall|t: Seq<char>| #[trigger] fa.contains(t) <==> fb.contains(t) by {
            if fa.contains(t) {
                let i = fa.index_of(t);
                assert(0 <= i < a.len() && a[i] == t);
                assert(a.contains(t));
                assert(b.contains(t));
                let j = b.index_of(t);
                textmap::lemma_text_total(t, x);
                assert(strings::text_lt(a[i], a[a.len() - 1]));
                assert(fb[j] == t);
            }
            if fb.contains(t) {
                let i = fb.index_of(t);
                assert(0 <= i < b.len() && b[i] == t);
                assert(b.contains(t));
                assert(a.contains(t));
                let j = a.index_of(t);
                textmap::lemma_text_total(t, x);
                assert(strings::text_lt(b[i], b[b.len() - 1]));
                assert(fa[j] == t);
            }
        }
        lemma_same_sorted(fa, fb);
        assert(a =~= fa.push(x));
        assert(b =~= fb.push(y));
    }
}

/// The order of tokens does not matter: tokens in another order give the same terms
/// with the same frequencies.
pub proof fn law_token_order_does_not_matter(
    a: Seq<Seq<char>>,
    b: Seq<Seq<char>>,
    x: Seq<TermFrequency>,
    y: Seq<TermFrequency>,
)
    requires
        a.to_multiset() == b.to_multiset(),
        counts_terms(a, x),
        counts_terms(b, y),
    ensures
        a.len() == b.len(),
        terms_view(x) == terms_view(y),
        x.len() == y.len(),
        forall|i: int| 0 <= i < x.len() ==> (#[trigger] x[i]).frequency == y[i].frequency,
{
    broadcast use vstd::seq_lib::group_to_multiset_ensures;

    assert(a.len() == a.to_multiset().len());
    assert(b.len() == b.to_multiset().len());
    assert forall|t: Seq<char>| #[trigger] terms_view(x).contains(t) <==> terms_view(
        y,
    ).contains(t) by {
        lemma_occurs(a, t);
        lemma_occurs(b, t);
        lemma_occurrences_are_count(a, t);
        lemma_occurrences_are_count(b, t);
    }
    lemma_same_sorted(terms_view(x), terms_view(y));
    assert(terms_view(x).len() == terms_view(y).len());
    assert forall|i: int| 0 <= i < x.len() implies (#[trigger] x[i]).frequency
        == y[i].frequency by {
        assert(terms_view(x)[i] == terms_view(y)[i]);
        assert(y[i].term@ == x[i].term@);
        lemma_occurrences_are_count(a, x[i].term@);
        lemma_occurrences_are_count(b, x[i].term@);
    }
}

/// Cuts a text into terms and counts them.
pub fn analyze_text(text: &str, config: TokenizerConfig) -> (r: TextDocumentStats)
    ensures
        r.doc_len == capped(tokens_of(text@, config).len()),
        counts_terms(tokens_of(text@, config), r.terms@),
{
    let tokens = tokenize(text, config);
    proof {
        assert(texts_view(tokens@).len() == tokens@.len());
    }
    analyze_tokens(&tokens)
}

/// The terms of the texts among the first `n` items of an array.
pub open spec fn item_tokens(items: Seq<ValueView>, config: TokenizerConfig, n: int) -> Seq<
    Seq<char>,
>
    decreases n,
{
    if n <= 0 {
        Seq::empty()
    } else {
        let front = item_tokens(items, config, n - 1);
        match items[n - 1] {
            ValueView::String(s) => front + tokens_of(s, config),
            _ => front,
        }
    }
}

/// The terms of an attribute: those of a text, or of the texts in an array.
pub open spec fn value_tokens(v: ValueView, config: TokenizerConfig) -> Seq<Seq<char>> {
    match v {
        ValueView::String(s) => tokens_of(s, config),
        ValueView::Array(items) => item_tokens(items, config, items.len() as int),
        _ => Seq::empty(),
    }
}

/// The terms of an attribute.
pub fn tokens_for_value(value: &Value, config: TokenizerConfig) -> (tokens: Vec<String>)
    ensures
        texts_view(tokens@) == value_tokens(value@, config),
{
    match value {
        Value::String(text) => tokenize(text.as_str(), config),
        Value::Array(values) => {
            let mut tokens: Vec<String> = Vec::new();
            let mut i: usize = 0;
            assert(texts_view(tokens@) =~= Seq::empty());
            while i < values.len()
                invariant
                    i <= values@.len(),
                    *value == Value::Array(*values),
                    texts_view(tokens@) == item_tokens(value@->Array_0, config, i as int),
                decreases values@.len() - i,
            {
                assert(value@->Array_0[i as int] == values@[i as int]@);
                if let Value::String(text) = &values[i] {
                    let ghost before = tokens@;
                    let mut more = tokenize(text.as_str(), config);
                    let ghost added = more@;
                    tokens.append(&mut more);
                    assert(texts_view(tokens@) =~= texts_view(before) + texts_view(added));
                }
                i = i + 1;
            }
            tokens
        },
        _ => {
            let tokens: Vec<String> = Vec::new();
            assert(texts_view(tokens@) =~= Seq::empty());
            tokens
        },
    }
}

proof fn lemma_cut(text: Seq<char>, config: TokenizerConfig)
    ensures
        forall|i: int|
            0 <= i < cut(text, config).0.len() ==> (#[trigger] cut(text, config).0[i]).len() > 0
                && encode_utf8(cut(text, config).0[i]).len() <= term_limit(config),
    decreases text.len(),
{
    if text.len() > 0 {
        lemma_cut(text.drop_last(), config);
        let (terms, current) = cut(text.drop_last(), config);
        let next = with_term(terms, current, term_limit(config));
        assert forall|i: int| 0 <= i < next.len() implies (#[trigger] next[i]).len() > 0
            && encode_utf8(next[i]).len() <= term_limit(config) by {
            if i < terms.len() {
                assert(next[i] == terms[i]);
            }
        }
    }
}

/// No term is empty, and none has more bytes than allowed.
pub proof fn law_terms_are_short(text: Seq<char>, config: TokenizerConfig, i: int)
    requires
        0 <= i < tokens_of(text, config).len(),
    ensures
        tokens_of(text, config)[i].len() > 0,
        encode_utf8(tokens_of(text, config)[i]).len() <= term_limit(config),
{
    lemma_cut(text, config);
    let (terms, current) = cut(text, config);
    if i < terms.len() {
        assert(tokens_of(text, config)[i] == terms[i]);
    }
}

// ---------------------------------------------------------------------------
// Keys
// ---------------------------------------------------------------------------

/// A byte string behind its length.
pub open spec fn prefixed(bytes: Seq<u8>) -> Seq<u8> {
    codec::be_bytes(bytes.len(), 4) + bytes
}

fn push_len_prefixed(bytes: &[u8], out: &mut Vec<u8>)
    ensures
        final(out)@ == old(out)@ + prefixed(bytes@),
{
    let ghost before = out@;
    put_len_be(out, bytes.len());
    append(out, bytes);
    assert(out@ =~= before + prefixed(bytes@));
}

/// The key of the counts of a column.
pub open spec fn field_key(column: Seq<char>) -> Seq<u8> {
    seq![KEY_KIND_FIELD_STATS] + prefixed(encode_utf8(column))
}

/// The key of the counts of a term.
pub open spec fn term_key(column: Seq<char>, term: Seq<char>) -> Seq<u8> {
    seq![KEY_KIND_TERM_META] + prefixed(encode_utf8(column)) + prefixed(encode_utf8(term))
}

/// The key of a block of the documents with a term.
pub open spec fn block_key(column: Seq<char>, term: Seq<char>, block: u32) -> Seq<u8> {
    seq![KEY_KIND_TERM_BLOCK] + prefixed(encode_utf8(column)) + prefixed(encode_utf8(term))
        + codec::be_bytes(block as nat, 4)
}

/// The key of the counts of a column.
pub fn field_stats_key(column: &str) -> (key: Vec<u8>)
    ensures
        key@ == field_key(column@),
{
    let mut key: Vec<u8> = Vec::new();
    key.push(KEY_KIND_FIELD_STATS);
    push_len_prefixed(column.as_bytes(), &mut key);
    assert(key@ =~= field_key(column@));
    key
}

/// The key of the counts of a term.
pub fn term_meta_key(column: &str, term: &str) -> (key: Vec<u8>)
    ensures
        key@ == term_key(column@, term@),
{
    let mut key: Vec<u8> = Vec::new();
    key.push(KEY_KIND_TERM_META);
    push_len_prefixed(column.as_bytes(), &mut key);
    push_len_prefixed(term.as_bytes(), &mut key);
    assert(key@ =~= term_key(column@, term@));
    key
}

/// The key of a block of the documents with a term.
pub fn term_block_key(column: &str, term: &str, block_id: u32) -> (key: Vec<u8>)
    ensures
        key@ == block_key(column@, term@, block_id),
{
    let mut key: Vec<u8> = Vec::new();
    key.push(KEY_KIND_TERM_BLOCK);
    push_len_prefixed(column.as_bytes(), &mut key);
    push_len_prefixed(term.as_bytes(), &mut key);
    put_u32_be(&mut key, block_id);
    assert(key@ =~= block_key(column@, term@, block_id));
    key
}

proof fn lemma_prefixed(a: Seq<u8>, b: Seq<u8>, x: Seq<u8>, y: Seq<u8>)
    requires
        a.len() <= u32::MAX,
        b.len() <= u32::MAX,
        prefixed(a) + x == prefixed(b) + y,
    ensures
        a == b,
        x == y,
{
    let s = prefixed(a) + x;
    let t = prefixed(b) + y;
    codec::lemma_byte_range();
    codec::lemma_be_round_trip(a.len(), 4);
    codec::lemma_be_round_trip(b.len(), 4);
    assert forall|i: int| 0 <= i < 4 implies codec::be_bytes(a.len(), 4)[i] == codec::be_bytes(
        b.len(),
        4,
    )[i] by {
        assert(s[i] == codec::be_bytes(a.len(), 4)[i]);
        assert(t[i] == codec::be_bytes(b.len(), 4)[i]);
    }
    assert(codec::be_bytes(a.len(), 4) =~= codec::be_bytes(b.len(), 4));
    assert forall|i: int| 0 <= i < a.len() implies a[i] == b[i] by {
        assert(s[4 + i] == a[i]);
        assert(t[4 + i] == b[i]);
    }
    assert(a =~= b);
    let n = 4 + a.len();
    assert(prefixed(a) == prefixed(b));
    assert(s.len() == prefixed(a).len() + x.len());
    assert(t.len() == prefixed(b).len() + y.len());
    assert(x.len() == y.len());
    assert forall|i: int| 0 <= i < x.len() implies x[i] == y[i] by {
        assert(s[n + i] == x[i]);
        assert(t[n + i] == y[i]);
    }
    assert(x =~= y);
}

/// A column has a key of its own.
pub proof fn lemma_field_keys(column: Seq<char>, column2: Seq<char>)
    requires
        encode_utf8(column).len() <= u32::MAX,
        encode_utf8(column2).len() <= u32::MAX,
        field_key(column) == field_key(column2),
    ensures
        column == column2,
{
    let a = encode_utf8(column);
    let b = encode_utf8(column2);
    let none = Seq::<u8>::empty();
    assert(field_key(column).drop_first() =~= prefixed(a) + none);
    assert(field_key(column2).drop_first() =~= prefixed(b) + none);
    lemma_prefixed(a, b, none, none);
    crate::strings::lemma_encoding_injective(column, column2);
}

/// A term of a column has a key of its own.
pub proof fn lemma_term_keys(
    column: Seq<char>,
    term: Seq<char>,
    column2: Seq<char>,
    term2: Seq<char>,
)
    requires
        encode_utf8(column).len() <= u32::MAX,
        encode_utf8(term).len() <= u32::MAX,
        encode_utf8(column2).len() <= u32::MAX,
        encode_utf8(term2).len() <= u32::MAX,
        term_key(column, term) == term_key(column2, term2),
    ensures
        column == column2,
        term == term2,
{
    let a = encode_utf8(column);
    let b = encode_utf8(column2);
    let c = encode_utf8(term);
    let d = encode_utf8(term2);
    let none = Seq::<u8>::empty();
    assert(term_key(column, term).drop_first() =~= prefixed(a) + (prefixed(c) + none));
    assert(term_key(column2, term2).drop_first() =~= prefixed(b) + (prefixed(d) + none));
    lemma_prefixed(a, b, prefixed(c) + none, prefixed(d) + none);
    lemma_prefixed(c, d, none, none);
    crate::strings::lemma_encoding_injective(column, column2);
    crate::strings::lemma_encoding_injective(term, term2);
}

/// Different blocks of different terms of different columns have different keys.
pub proof fn law_block_keys_are_distinct(
    column: Seq<char>,
    term: Seq<char>,
    block: u32,
    column2: Seq<char>,
    term2: Seq<char>,
    block2: u32,
)
    requires
        encode_utf8(column).len() <= u32::MAX,
        encode_utf8(term).len() <= u32::MAX,
        encode_utf8(column2).len() <= u32::MAX,
        encode_utf8(term2).len() <= u32::MAX,
        block_key(column, term, block) == block_key(column2, term2, block2),
    ensures
        column == column2,
        term == term2,
        block == block2,
{
    let a = encode_utf8(column);
    let b = encode_utf8(column2);
    let c = encode_utf8(term);
    let d = encode_utf8(term2);
    let x = codec::be_bytes(block as nat, 4);
    let y = codec::be_bytes(block2 as nat, 4);
    let s = block_key(column, term, block);
    let t = block_key(column2, term2, block2);
    assert(s.drop_first() =~= prefixed(a) + (prefixed(c) + x));
    assert(t.drop_first() =~= prefixed(b) + (prefixed(d) + y));
    lemma_prefixed(a, b, prefixed(c) + x, prefixed(d) + y);
    lemma_prefixed(c, d, x, y);
    crate::strings::lemma_encoding_injective(column, column2);
    crate::strings::lemma_encoding_injective(term, term2);
    codec::lemma_byte_range();
    codec::lemma_be_round_trip(block as nat, 4);
    codec::lemma_be_round_trip(block2 as nat, 4);
}

/// Where a text is cut at a character that is neither letter nor digit, its terms are
/// those of the first part and then those of the second.
pub proof fn law_terms_end_at_separators(
    first: Seq<char>,
    separator: char,
    second: Seq<char>,
    config: TokenizerConfig,
)
    requires
        !alphanumeric(separator),
    ensures
        tokens_of(first.push(separator) + second, config) == tokens_of(first, config) + tokens_of(
            second,
            config,
        ),
{
    lemma_cut_at(first, separator, second, config);
    let (terms, current) = cut(second, config);
    let limit = term_limit(config);
    assert(with_term(tokens_of(first, config) + terms, current, limit) =~= tokens_of(first, config)
        + with_term(terms, current, limit));
}

proof fn lemma_cut_at(
    first: Seq<char>,
    separator: char,
    second: Seq<char>,
    config: TokenizerConfig,
)
    requires
        !alphanumeric(separator),
    ensures
        cut(first.push(separator) + second, config) == (
            tokens_of(first, config) + cut(second, config).0,
            cut(second, config).1,
        ),
    decreases second.len(),
{
    let all = first.push(separator) + second;
    let limit = term_limit(config);
    if second.len() == 0 {
        assert(all =~= first.push(separator));
        assert(first.push(separator).drop_last() =~= first);
        assert(tokens_of(first, config) + Seq::<Seq<char>>::empty() =~= tokens_of(first, config));
    } else {
        lemma_cut_at(first, separator, second.drop_last(), config);
        assert(all.drop_last() =~= first.push(separator) + second.drop_last());
        assert(all.last() == second.last());
        let (terms, current) = cut(second.drop_last(), config);
        assert(with_term(tokens_of(first, config) + terms, current, limit) =~= tokens_of(
            first,
            config,
        ) + with_term(terms, current, limit));
    }
}

/// Text of letters and digits alone is one term, itself where case is kept, unless it is
/// too long or there is none.
pub proof fn law_word_is_one_term(text: Seq<char>, config: TokenizerConfig)
    requires
        text.len() > 0,
        forall|i: int| 0 <= i < text.len() ==> alphanumeric(#[trigger] text[i]),
        !config.lowercase,
    ensures
        encode_utf8(text).len() <= config.max_token_len && config.max_token_len > 0 ==> tokens_of(
            text,
            config,
        ) == seq![text],
        encode_utf8(text).len() > config.max_token_len && config.max_token_len > 0 ==> tokens_of(
            text,
            config,
        ) == Seq::<Seq<char>>::empty(),
        tokens_of(Seq::empty(), config) == Seq::<Seq<char>>::empty(),
{
    lemma_word(text, config);
    assert(Seq::<Seq<char>>::empty().push(text) =~= seq![text]);
}

proof fn lemma_word(text: Seq<char>, config: TokenizerConfig)
    requires
        forall|i: int| 0 <= i < text.len() ==> alphanumeric(#[trigger] text[i]),
        !config.lowercase,
    ensures
        cut(text, config) == (Seq::<Seq<char>>::empty(), text),
    decreases text.len(),
{
    if text.len() > 0 {
        assert forall|i: int| 0 <= i < text.drop_last().len() implies alphanumeric(
            #[trigger] text.drop_last()[i],
        ) by {
            assert(text.drop_last()[i] == text[i]);
        }
        lemma_word(text.drop_last(), config);
        assert(alphanumeric(text[text.len() - 1]));
        assert(text.drop_last() + seq![text.last()] =~= text);
    } else {
        assert(text =~= Seq::empty());
    }
}

/// Where case does not matter, a text has the terms that it has with every letter put
/// into lower case one by one: a letter adds to its term what it is in lower case.
pub proof fn law_case_is_folded_letter_by_letter(
    text: Seq<char>,
    letter: char,
    config: TokenizerConfig,
)
    requires
        alphanumeric(letter),
        config.lowercase,
    ensures
        cut(text.push(letter), config).0 == cut(text, config).0,
        cut(text.push(letter), config).1 == cut(text, config).1 + lowercase_of(letter),
{
    assert(text.push(letter).drop_last() =~= text);
}

/// One more term makes it occur once more, and no other.
pub proof fn law_occurrences_are_counted(tokens: Seq<Seq<char>>, next: Seq<char>, term: Seq<char>)
    ensures
        occurrences(tokens.push(next), term) == occurrences(tokens, term) + (if next == term {
            1nat
        } else {
            0
        }),
        occurrences(Seq::empty(), term) == 0,
        occurrences(tokens, term) <= tokens.len(),
    decreases tokens.len(),
{
    assert(tokens.push(next).drop_last() =~= tokens);
    if tokens.len() > 0 {
        law_occurrences_are_counted(tokens.drop_last(), tokens.last(), term);
        assert(tokens.drop_last().push(tokens.last()) =~= tokens);
    }
}

} // verus!
