//! Collecting the terms of documents, and writing the text index.

use vstd::prelude::*;

use crate::documents;
use crate::order::Order;
use crate::sorted::{Key, SortedMap};
use crate::sst::block;
use crate::strings;
use crate::strings::compare_text;
use crate::text;
use crate::text::{analyze_tokens, tokens_for_value, TermFrequency, TokenizerConfig};
use crate::textmap;
use crate::textmap::TextMap;
use crate::value::{copy_id, Document, DocumentView, Id, IdView};

verus! {

/// How many documents have text in a column, and how many terms together.
#[derive(Clone, Copy, Debug, PartialEq, Eq, Structural)]
pub struct FieldStats {
    pub doc_count: u64,
    pub total_doc_len: u64,
}

/// A document with a term: how often it occurs there, and how many terms there
/// are.
#[derive(Clone, Debug, PartialEq, Eq)]
pub struct TermPosting {
    pub id: Id,
    pub term_frequency: u32,
    pub doc_len: u32,
}

/// What such an entry stands for.
pub struct PostingView {
    pub id: IdView,
    pub term_frequency: u32,
    pub doc_len: u32,
}

pub open spec fn posting_view(p: TermPosting) -> PostingView {
    PostingView { id: p.id@, term_frequency: p.term_frequency, doc_len: p.doc_len }
}

pub open spec fn postings_view(ps: Seq<TermPosting>) -> Seq<PostingView> {
    Seq::new(ps.len(), |i: int| posting_view(ps[i]))
}

/// A term of a column.
#[derive(Clone, Debug)]
pub struct TermKey {
    pub column: String,
    pub term: String,
}

impl View for TermKey {
    type V = (Seq<char>, Seq<char>);

    open spec fn view(&self) -> (Seq<char>, Seq<char>) {
        (self.column@, self.term@)
    }
}

impl Key for TermKey {
    open spec fn order(a: (Seq<char>, Seq<char>), b: (Seq<char>, Seq<char>)) -> Order {
        term_order(a, b)
    }

    proof fn lemma_total(a: (Seq<char>, Seq<char>), b: (Seq<char>, Seq<char>)) {
        textmap::lemma_text_total(a.0, b.0);
        textmap::lemma_text_total(b.0, a.0);
        textmap::lemma_text_total(a.1, b.1);
        textmap::lemma_text_total(b.1, a.1);
        assert(<TermKey as Key>::order(a, b) == term_order(a, b));
        assert(<TermKey as Key>::order(b, a) == term_order(b, a));
    }

    proof fn lemma_transitive(
        a: (Seq<char>, Seq<char>),
        b: (Seq<char>, Seq<char>),
        c: (Seq<char>, Seq<char>),
    ) {
        textmap::lemma_text_total(a.0, b.0);
        textmap::lemma_text_total(b.0, c.0);
        textmap::lemma_text_total(a.0, c.0);
        textmap::lemma_text_total(a.1, c.1);
        if strings::text_lt(a.0, b.0) && strings::text_lt(b.0, c.0) {
            textmap::lemma_text_transitive(a.0, b.0, c.0);
        }
        if strings::text_lt(a.1, b.1) && strings::text_lt(b.1, c.1) {
            textmap::lemma_text_transitive(a.1, b.1, c.1);
        }
        assert(<TermKey as Key>::order(a, b) == term_order(a, b));
        assert(<TermKey as Key>::order(b, c) == term_order(b, c));
        assert(<TermKey as Key>::order(a, c) == term_order(a, c));
    }

    fn compare(&self, other: &TermKey) -> (o: Order) {
        let o = compare_text(self.column.as_str(), other.column.as_str());
        match o {
            Order::Equal => compare_text(self.term.as_str(), other.term.as_str()),
            _ => o,
        }
    }
}

/// The order of the terms of columns: by column, then by term.
pub open spec fn term_order(a: (Seq<char>, Seq<char>), b: (Seq<char>, Seq<char>)) -> Order {
    let o = strings::text_order(a.0, b.0);
    if o == Order::Equal {
        strings::text_order(a.1, b.1)
    } else {
        o
    }
}

/// The terms of documents.
#[derive(Debug)]
pub struct TextIndexData {
    pub field_stats: TextMap<FieldStats>,
    pub postings: SortedMap<TermKey, Vec<TermPosting>>,
}

/// The terms of a document in a column.
pub open spec fn document_tokens(
    d: DocumentView,
    column: Seq<char>,
    config: TokenizerConfig,
) -> Seq<Seq<char>> {
    if d.attributes.dom().contains(column) {
        text::value_tokens(d.attributes[column], config)
    } else {
        Seq::empty()
    }
}

/// The entry of a document for a term of a column.
pub open spec fn entry_of(
    id: IdView,
    d: DocumentView,
    column: Seq<char>,
    term: Seq<char>,
    config: TokenizerConfig,
) -> PostingView {
    let tokens = document_tokens(d, column, config);
    PostingView {
        id,
        term_frequency: text::capped(text::occurrences(tokens, term)),
        doc_len: text::capped(tokens.len()),
    }
}

/// The entries, for a term of a column, of the first `n` documents.
pub open spec fn term_entries(
    ids: Seq<IdView>,
    docs: documents::Docs,
    column: Seq<char>,
    term: Seq<char>,
    config: TokenizerConfig,
    n: int,
) -> Seq<PostingView>
    decreases n,
{
    if n <= 0 {
        Seq::empty()
    } else {
        let front = term_entries(ids, docs, column, term, config, n - 1);
        let d = docs[ids[n - 1]];
        if document_tokens(d, column, config).contains(term) {
            front.push(entry_of(ids[n - 1], d, column, term, config))
        } else {
            front
        }
    }
}

pub open spec fn capped64(n: int) -> u64 {
    if n <= u64::MAX {
        n as u64
    } else {
        u64::MAX
    }
}

/// The counts of a column over the first `n` documents.
pub open spec fn field_totals(
    ids: Seq<IdView>,
    docs: documents::Docs,
    column: Seq<char>,
    config: TokenizerConfig,
    n: int,
) -> FieldStats
    decreases n,
{
    if n <= 0 {
        FieldStats { doc_count: 0, total_doc_len: 0 }
    } else {
        let front = field_totals(ids, docs, column, config, n - 1);
        let tokens = document_tokens(docs[ids[n - 1]], column, config);
        if tokens.len() > 0 {
            FieldStats {
                doc_count: capped64(front.doc_count + 1),
                total_doc_len: capped64(front.total_doc_len + text::capped(tokens.len())),
            }
        } else {
            front
        }
    }
}

/// The entries that data has for a term of a column.
pub open spec fn entries_in(data: TextIndexData, column: Seq<char>, term: Seq<char>) -> Seq<
    PostingView,
> {
    if data.postings.map().dom().contains((column, term)) {
        postings_view(data.postings.map()[(column, term)]@)
    } else {
        Seq::empty()
    }
}

/// The counts that data has for a column.
pub open spec fn stats_in(data: TextIndexData, column: Seq<char>) -> FieldStats {
    if data.field_stats.map().dom().contains(column) {
        data.field_stats.map()[column]
    } else {
        FieldStats { doc_count: 0, total_doc_len: 0 }
    }
}

impl TextIndexData {
    /// Both maps are in order, and no list of entries is empty.
    pub open spec fn wf(self) -> bool {
        &&& self.field_stats.wf()
        &&& self.postings.wf()
        &&& forall|key: (Seq<char>, Seq<char>)|
            self.postings.map().dom().contains(key) ==> (#[trigger] self.postings.map()[key])@.len()
                > 0
        &&& forall|column: Seq<char>|
            self.field_stats.map().dom().contains(column) ==> (
            #[trigger] self.field_stats.map()[column]).doc_count > 0
    }
}

/// Adds an entry for a term.
fn add_entry(
    postings: &mut SortedMap<TermKey, Vec<TermPosting>>,
    column: &String,
    term: &String,
    posting: TermPosting,
)
    requires
        old(postings).wf(),
    ensures
        final(postings).wf(),
        ({
            let key = (column@, term@);
            let before = old(postings).map();
            let after = final(postings).map();
            &&& after.dom() == before.dom().insert(key)
            &&& after[key]@ == (if before.dom().contains(key) {
                before[key]@
            } else {
                Seq::empty()
            }).push(posting)
            &&& forall|other: (Seq<char>, Seq<char>)|
                other != key && before.dom().contains(other) ==> #[trigger] after[other]
                    == before[other]
        }),
{
    let key = TermKey { column: column.clone(), term: term.clone() };
    let ghost k = key@;
    let ghost before = postings.map();
    let mut list: Vec<TermPosting> = match postings.remove(&key) {
        Some(list) => list,
        None => Vec::new(),
    };
    list.push(posting);
    postings.insert(key, list);
    assert(postings.map() =~= before.insert(k, list));
    assert(postings.map().dom() =~= before.dom().insert(k));
}

/// Adds the terms of one column of a document.
fn add_terms(
    data: &mut TextIndexData,
    id: &Id,
    column: &String,
    terms: &Vec<TermFrequency>,
    doc_len: u32,
)
    requires
        old(data).wf(),
        textmap::texts_sorted(text::terms_view(terms@)),
    ensures
        final(data).wf(),
        final(data).field_stats == old(data).field_stats,
        forall|c: Seq<char>, t: Seq<char>| #[trigger]
            entries_in(*final(data), c, t) == (if c == column@ && text::terms_view(
                terms@,
            ).contains(t) {
                entries_in(*old(data), c, t).push(
                    PostingView {
                        id: id@,
                        term_frequency: terms@[text::terms_view(terms@).index_of(t)].frequency,
                        doc_len,
                    },
                )
            } else {
                entries_in(*old(data), c, t)
            }),
{
    let ghost views = text::terms_view(terms@);
    let ghost start = *data;
    let mut i: usize = 0;
    assert(views.take(0) =~= Seq::empty());
    while i < terms.len()
        invariant
            i <= terms@.len(),
            views == text::terms_view(terms@),
            textmap::texts_sorted(views),
            data.wf(),
            data.field_stats == start.field_stats,
            forall|c: Seq<char>, t: Seq<char>| #[trigger]
                entries_in(*data, c, t) == (if c == column@ && views.take(i as int).contains(t) {
                    entries_in(start, c, t).push(
                        PostingView {
                            id: id@,
                            term_frequency: terms@[views.index_of(t)].frequency,
                            doc_len,
                        },
                    )
                } else {
                    entries_in(start, c, t)
                }),
        decreases terms@.len() - i,
    {
        let ghost before = *data;
        let ghost x = views[i as int];
        let posting = TermPosting {
            id: copy_id(id),
            term_frequency: terms[i].frequency,
            doc_len,
        };
        add_entry(&mut data.postings, column, &terms[i].term, posting);
        proof {
            let key = (column@, x);
            assert(before.postings.map().dom().contains(key) ==> before.postings.map()[key]@.len()
                > 0);
            assert forall|k: (Seq<char>, Seq<char>)|
                data.postings.map().dom().contains(k) implies (
            #[trigger] data.postings.map()[k])@.len() > 0 by {
                if k != key {
                    assert(before.postings.map().dom().contains(k));
                    assert(data.postings.map()[k] == before.postings.map()[k]);
                }
            }
            assert(views.take(i + 1) =~= views.take(i as int).push(x));
            if views.take(i as int).contains(x) {
                let j = views.take(i as int).index_of(x);
                assert(views[j] == views[i as int]);
                textmap::lemma_text_total(views[j], views[i as int]);
            }
            assert(views.index_of(x) == i) by {
                let j = views.index_of(x);
                if j < i {
                    textmap::lemma_text_total(views[j], views[i as int]);
                } else if j > i {
                    textmap::lemma_text_total(views[i as int], views[j]);
                }
            }
            assert forall|c: Seq<char>, t: Seq<char>| #[trigger] entries_in(*data, c, t) == (if c
                == column@ && views.take(i + 1).contains(t) {
                entries_in(start, c, t).push(
                    PostingView {
                        id: id@,
                        term_frequency: terms@[views.index_of(t)].frequency,
                        doc_len,
                    },
                )
            } else {
                entries_in(start, c, t)
            }) by {
                assert(views.take(i + 1).contains(t) == (views.take(i as int).contains(t) || t == x))
                    by {
                    if views.take(i as int).contains(t) {
                        let j = views.take(i as int).index_of(t);
                        assert(views.take(i + 1)[j] == t);
                    }
                    if t == x {
                        assert(views.take(i + 1)[i as int] == t);
                    }
                    if views.take(i + 1).contains(t) {
                        let j = views.take(i + 1).index_of(t);
                        if j < i {
                            assert(views.take(i as int)[j] == t);
                        }
                    }
                }
                let was = entries_in(before, c, t);
                assert(was == (if c == column@ && views.take(i as int).contains(t) {
                    entries_in(start, c, t).push(
                        PostingView {
                            id: id@,
                            term_frequency: terms@[views.index_of(t)].frequency,
                            doc_len,
                        },
                    )
                } else {
                    entries_in(start, c, t)
                }));
                if c == column@ && t == x {
                    assert(entries_in(*data, c, t) =~= was.push(posting_view(posting)));
                } else {
                    assert(entries_in(*data, c, t) =~= was);
                }
            }
        }
        i = i + 1;
    }
    assert(views.take(i as int) =~= views);
}

/// Adds one column of a document.
fn add_column(
    data: &mut TextIndexData,
    id: &Id,
    column: &String,
    tokens: &Vec<String>,
)
    requires
        old(data).wf(),
    ensures
        final(data).wf(),
        ({
            let toks = text::texts_view(tokens@);
            let before = stats_in(*old(data), column@);
            &&& forall|c: Seq<char>, t: Seq<char>| #[trigger]
                entries_in(*final(data), c, t) == (if c == column@ && toks.contains(t) {
                    entries_in(*old(data), c, t).push(
                        PostingView {
                            id: id@,
                            term_frequency: text::capped(text::occurrences(toks, t)),
                            doc_len: text::capped(toks.len()),
                        },
                    )
                } else {
                    entries_in(*old(data), c, t)
                })
            &&& forall|c: Seq<char>| #[trigger]
                stats_in(*final(data), c) == (if c == column@ && toks.len() > 0 {
                    FieldStats {
                        doc_count: capped64(before.doc_count + 1),
                        total_doc_len: capped64(before.total_doc_len + text::capped(toks.len())),
                    }
                } else {
                    stats_in(*old(data), c)
                })
        }),
{
    let ghost toks = text::texts_view(tokens@);
    if tokens.len() == 0 {
        assert(forall|t: Seq<char>| !toks.contains(t));
        return;
    }
    let ghost start = *data;
    let analyzed = analyze_tokens(tokens);
    let doc_len: u32 = analyzed.doc_len;
    let old_stats: FieldStats = match data.field_stats.get(column.as_str()) {
        Some(stats) => *stats,
        None => FieldStats { doc_count: 0, total_doc_len: 0 },
    };
    let count: u64 = if old_stats.doc_count < u64::MAX {
        old_stats.doc_count + 1
    } else {
        u64::MAX
    };
    let total: u64 = if old_stats.total_doc_len <= u64::MAX - doc_len as u64 {
        old_stats.total_doc_len + doc_len as u64
    } else {
        u64::MAX
    };
    let next = FieldStats { doc_count: count, total_doc_len: total };
    data.field_stats.insert(column.clone(), next);
    assert(data.field_stats.map() =~= start.field_stats.map().insert(column@, next));
    assert forall|c: Seq<char>| data.field_stats.map().dom().contains(c) implies (
    #[trigger] data.field_stats.map()[c]).doc_count > 0 by {
        if c != column@ {
            assert(start.field_stats.map().dom().contains(c));
            assert(start.field_stats.map()[c].doc_count > 0);
        }
    }
    let ghost mid = *data;
    add_terms(data, id, column, &analyzed.terms, doc_len);
    proof {
        let views = text::terms_view(analyzed.terms@);
        assert forall|c: Seq<char>, t: Seq<char>| #[trigger] entries_in(*data, c, t) == (if c
            == column@ && toks.contains(t) {
            entries_in(start, c, t).push(
                PostingView {
                    id: id@,
                    term_frequency: text::capped(text::occurrences(toks, t)),
                    doc_len: text::capped(toks.len()),
                },
            )
        } else {
            entries_in(start, c, t)
        }) by {
            assert(entries_in(mid, c, t) == entries_in(start, c, t));
            assert(views.contains(t) <==> toks.contains(t));
            if views.contains(t) {
                let j = views.index_of(t);
                assert(analyzed.terms@[j].term@ == t);
            }
        }
        assert forall|c: Seq<char>| #[trigger] stats_in(*data, c) == (if c == column@ && toks.len()
            > 0 {
            next
        } else {
            stats_in(start, c)
        }) by {
            assert(stats_in(*data, c) == stats_in(mid, c));
        }
    }
}

/// The first `n` columns of a document are added.
spec fn columns_added(
    start: TextIndexData,
    data: TextIndexData,
    id: IdView,
    doc: Document,
    config: TokenizerConfig,
    n: int,
) -> bool {
    let done = doc.attributes.keys().take(n);
    &&& forall|c: Seq<char>, t: Seq<char>| #[trigger]
        entries_in(data, c, t) == (if done.contains(c) && document_tokens(
            doc@,
            c,
            config,
        ).contains(t) {
            entries_in(start, c, t).push(entry_of(id, doc@, c, t, config))
        } else {
            entries_in(start, c, t)
        })
    &&& forall|c: Seq<char>| #[trigger]
        stats_in(data, c) == (if done.contains(c) && document_tokens(doc@, c, config).len() > 0 {
            FieldStats {
                doc_count: capped64(stats_in(start, c).doc_count + 1),
                total_doc_len: capped64(
                    stats_in(start, c).total_doc_len + text::capped(
                        document_tokens(doc@, c, config).len(),
                    ),
                ),
            }
        } else {
            stats_in(start, c)
        })
}

/// Adds a document.
fn add_document(data: &mut TextIndexData, id: &Id, doc: &Document, config: TokenizerConfig)
    requires
        old(data).wf(),
        doc.wf(),
    ensures
        final(data).wf(),
        forall|c: Seq<char>, t: Seq<char>| #[trigger]
            entries_in(*final(data), c, t) == (if document_tokens(doc@, c, config).contains(t) {
                entries_in(*old(data), c, t).push(entry_of(id@, doc@, c, t, config))
            } else {
                entries_in(*old(data), c, t)
            }),
        forall|c: Seq<char>| #[trigger]
            stats_in(*final(data), c) == (if document_tokens(doc@, c, config).len() > 0 {
                FieldStats {
                    doc_count: capped64(stats_in(*old(data), c).doc_count + 1),
                    total_doc_len: capped64(
                        stats_in(*old(data), c).total_doc_len + text::capped(
                            document_tokens(doc@, c, config).len(),
                        ),
                    ),
                }
            } else {
                stats_in(*old(data), c)
            }),
{
    let ghost start = *data;
    let ghost keys = doc.attributes.keys();
    let n = doc.attributes.len();
    let mut a: usize = 0;
    assert(keys.take(0) =~= Seq::empty());
    while a < n
        invariant
            a <= n,
            n == keys.len(),
            keys == doc.attributes.keys(),
            doc.wf(),
            data.wf(),
            columns_added(start, *data, id@, *doc, config, a as int),
        decreases n - a,
    {
        let ghost before = *data;
        let column = doc.attributes.key_at(a);
        let ghost col = keys[a as int];
        proof {
            doc.attributes.lemma_position(a as int);
        }
        let tokens = tokens_for_value(doc.attributes.value_at(a), config);
        assert(text::texts_view(tokens@) == document_tokens(doc@, col, config));
        add_column(data, id, column, &tokens);
        proof {
            let done = keys.take(a as int);
            let next = keys.take(a + 1);
            assert(next =~= done.push(col));
            assert(!done.contains(col)) by {
                if done.contains(col) {
                    let j = done.index_of(col);
                    assert(keys[j] == col);
                    doc.attributes.lemma_position(j);
                }
            }
            assert forall|c: Seq<char>| #[trigger] next.contains(c) == (done.contains(c) || c == col) by {
                if done.contains(c) {
                    let j = done.index_of(c);
                    assert(next[j] == c);
                }
                if c == col {
                    assert(next[a as int] == c);
                }
                if next.contains(c) {
                    let j = next.index_of(c);
                    if j < a {
                        assert(done[j] == c);
                    }
                }
            }
            assert forall|c: Seq<char>, t: Seq<char>| #[trigger] entries_in(*data, c, t) == (
            if next.contains(c) && document_tokens(doc@, c, config).contains(t) {
                entries_in(start, c, t).push(entry_of(id@, doc@, c, t, config))
            } else {
                entries_in(start, c, t)
            }) by {
                assert(entries_in(before, c, t) == (if done.contains(c) && document_tokens(
                    doc@,
                    c,
                    config,
                ).contains(t) {
                    entries_in(start, c, t).push(entry_of(id@, doc@, c, t, config))
                } else {
                    entries_in(start, c, t)
                }));
            }
            assert forall|c: Seq<char>| #[trigger] stats_in(*data, c) == (if next.contains(c)
                && document_tokens(doc@, c, config).len() > 0 {
                FieldStats {
                    doc_count: capped64(stats_in(start, c).doc_count + 1),
                    total_doc_len: capped64(
                        stats_in(start, c).total_doc_len + text::capped(
                            document_tokens(doc@, c, config).len(),
                        ),
                    ),
                }
            } else {
                stats_in(start, c)
            }) by {
                assert(stats_in(before, c) == (if done.contains(c) && document_tokens(
                    doc@,
                    c,
                    config,
                ).len() > 0 {
                    FieldStats {
                        doc_count: capped64(stats_in(start, c).doc_count + 1),
                        total_doc_len: capped64(
                            stats_in(start, c).total_doc_len + text::capped(
                                document_tokens(doc@, c, config).len(),
                            ),
                        ),
                    }
                } else {
                    stats_in(start, c)
                }));
            }
        }
        a = a + 1;
    }
    proof {
        assert(keys.take(n as int) =~= keys);
        assert forall|c: Seq<char>| !keys.contains(c) implies #[trigger] document_tokens(
            doc@,
            c,
            config,
        ) =~= Seq::empty() by {
            assert(!doc@.attributes.dom().contains(c));
        }
        assert forall|c: Seq<char>, t: Seq<char>| #[trigger] entries_in(*data, c, t) == (
        if document_tokens(doc@, c, config).contains(t) {
            entries_in(start, c, t).push(entry_of(id@, doc@, c, t, config))
        } else {
            entries_in(start, c, t)
        }) by {
            if !keys.contains(c) {
                assert(document_tokens(doc@, c, config).len() == 0);
            }
        }
        assert forall|c: Seq<char>| #[trigger] stats_in(*data, c) == (if document_tokens(
            doc@,
            c,
            config,
        ).len() > 0 {
            FieldStats {
                doc_count: capped64(stats_in(start, c).doc_count + 1),
                total_doc_len: capped64(
                    stats_in(start, c).total_doc_len + text::capped(
                        document_tokens(doc@, c, config).len(),
                    ),
                ),
            }
        } else {
            stats_in(start, c)
        }) by {
            if !keys.contains(c) {
                assert(document_tokens(doc@, c, config).len() == 0);
            }
        }
    }
}

/// Collects the terms of documents: for each term of a column the documents that
/// have it, in key order, and for each column how many documents have text there.
pub fn build_index_data(docs: &SortedMap<Id, Document>, config: TokenizerConfig) -> (data:
    TextIndexData)
    requires
        documents::docs_wf(*docs),
    ensures
        data.wf(),
        forall|c: Seq<char>, t: Seq<char>| #[trigger]
            entries_in(data, c, t) == term_entries(
                docs.keys(),
                documents::docs_view(*docs),
                c,
                t,
                config,
                docs.keys().len() as int,
            ),
        forall|c: Seq<char>| #[trigger]
            stats_in(data, c) == field_totals(
                docs.keys(),
                documents::docs_view(*docs),
                c,
                config,
                docs.keys().len() as int,
            ),
{
    let ghost ids = docs.keys();
    let ghost all = documents::docs_view(*docs);
    let mut data = TextIndexData { field_stats: TextMap::new(), postings: SortedMap::new() };
    let n = docs.len();
    let mut i: usize = 0;
    while i < n
        invariant
            i <= n,
            n == ids.len(),
            ids == docs.keys(),
            all == documents::docs_view(*docs),
            documents::docs_wf(*docs),
            data.wf(),
            forall|c: Seq<char>, t: Seq<char>| #[trigger]
                entries_in(data, c, t) == term_entries(ids, all, c, t, config, i as int),
            forall|c: Seq<char>| #[trigger]
                stats_in(data, c) == field_totals(ids, all, c, config, i as int),
        decreases n - i,
    {
        let ghost before = data;
        proof {
            docs.lemma_position(i as int);
            assert(docs.map()[ids[i as int]].wf());
        }
        let doc = docs.value_at(i);
        assert(all[ids[i as int]] == doc@);
        add_document(&mut data, docs.key_at(i), doc, config);
        assert forall|c: Seq<char>, t: Seq<char>| #[trigger] entries_in(data, c, t) == term_entries(
            ids,
            all,
            c,
            t,
            config,
            i + 1,
        ) by {
            assert(entries_in(before, c, t) == term_entries(ids, all, c, t, config, i as int));
        }
        assert forall|c: Seq<char>| #[trigger] stats_in(data, c) == field_totals(
            ids,
            all,
            c,
            config,
            i + 1,
        ) by {
            assert(stats_in(before, c) == field_totals(ids, all, c, config, i as int));
        }
        i = i + 1;
    }
    data
}

// ---------------------------------------------------------------------------
// The table
// ---------------------------------------------------------------------------

/// How many entries a block holds.
pub const POSTING_BLOCK_TARGET: usize = 256;

/// How many entries are scored at a time.
pub const SCORE_BATCH_TARGET: usize = 64;

/// How many pieces of some size a list is cut into.
pub open spec fn pieces(n: int, size: int) -> int {
    (n + size - 1) / size
}

/// Entries cut into blocks of equal size, the last one possibly shorter.
pub open spec fn is_cut_into(
    postings: Seq<PostingView>,
    size: int,
    blocks: Seq<Seq<PostingView>>,
) -> bool {
    &&& blocks.len() == pieces(postings.len() as int, size)
    &&& forall|b: int|
        0 <= b < blocks.len() ==> #[trigger] blocks[b] == postings.subrange(
            b * size,
            if (b + 1) * size < postings.len() {
                (b + 1) * size
            } else {
                postings.len() as int
            },
        )
}

pub open spec fn blocks_view(blocks: Seq<Vec<TermPosting>>) -> Seq<Seq<PostingView>> {
    Seq::new(blocks.len(), |b: int| postings_view(blocks[b]@))
}

/// Cuts the entries of a term into blocks.
pub fn posting_blocks(postings: &Vec<TermPosting>) -> (blocks: Vec<Vec<TermPosting>>)
    ensures
        is_cut_into(
            postings_view(postings@),
            POSTING_BLOCK_TARGET as int,
            blocks_view(blocks@),
        ),
{
    let ghost views = postings_view(postings@);
    let n = postings.len();
    let mut blocks: Vec<Vec<TermPosting>> = Vec::new();
    let mut at: usize = 0;
    while at < n
        invariant
            at <= n,
            n == views.len(),
            views == postings_view(postings@),
            at < n ==> at == blocks@.len() * 256,
            at == n ==> blocks@.len() == pieces(n as int, 256),
            forall|b: int|
                0 <= b < blocks@.len() ==> postings_view((#[trigger] blocks@[b])@)
                    == views.subrange(
                    b * 256,
                    if (b + 1) * 256 < n {
                        (b + 1) * 256
                    } else {
                        n as int
                    },
                ),
        decreases n - at,
    {
        let end: usize = if n - at > POSTING_BLOCK_TARGET {
            at + POSTING_BLOCK_TARGET
        } else {
            n
        };
        let mut block: Vec<TermPosting> = Vec::new();
        let mut i: usize = at;
        assert(postings_view(block@) =~= views.subrange(at as int, at as int));
        while i < end
            invariant
                at <= i <= end <= n,
                n == postings@.len(),
                views == postings_view(postings@),
                postings_view(block@) == views.subrange(at as int, i as int),
            decreases end - i,
        {
            let ghost before = block@;
            let p = &postings[i];
            let copy = TermPosting {
                id: copy_id(&p.id),
                term_frequency: p.term_frequency,
                doc_len: p.doc_len,
            };
            block.push(copy);
            assert(postings_view(block@) =~= postings_view(before).push(views[i as int]));
            assert(views.subrange(at as int, i + 1) =~= views.subrange(at as int, i as int).push(
                views[i as int],
            ));
            i = i + 1;
        }
        let ghost before = blocks@;
        blocks.push(block);
        assert forall|b: int| 0 <= b < blocks@.len() implies postings_view(
            (#[trigger] blocks@[b])@,
        ) == views.subrange(
            b * 256,
            if (b + 1) * 256 < n {
                (b + 1) * 256
            } else {
                n as int
            },
        ) by {
            if b < before.len() {
                assert(blocks@[b] == before[b]);
            }
        }
        at = end;
    }
    assert(blocks_view(blocks@).len() == blocks@.len());
    blocks
}

/// A document has an entry for a term of a column exactly if its text there has the term,
/// with how often that is and how many terms there are in all.
pub proof fn law_documents_with_the_term_have_entries(
    ids: Seq<IdView>,
    docs: documents::Docs,
    column: Seq<char>,
    term: Seq<char>,
    config: TokenizerConfig,
    n: int,
    i: int,
)
    requires
        0 <= i < n <= ids.len(),
    ensures
        document_tokens(docs[ids[i]], column, config).contains(term) ==> exists|k: int|
            0 <= k < term_entries(ids, docs, column, term, config, n).len() && {
                let tokens = document_tokens(docs[ids[i]], column, config);
                let p = #[trigger] term_entries(ids, docs, column, term, config, n)[k];
                &&& p.id == ids[i]
                &&& tokens.len() <= u32::MAX ==> p.doc_len == tokens.len() && p.term_frequency
                    == text::occurrences(tokens, term)
            },
        forall|k: int|
            0 <= k < term_entries(ids, docs, column, term, config, n).len() ==> exists|j: int|
                0 <= j < n && (#[trigger] term_entries(ids, docs, column, term, config, n)[k]).id
                    == #[trigger] ids[j] && document_tokens(docs[ids[j]], column, config).contains(
                    term,
                ),
        term_entries(ids, docs, column, term, config, n).len() <= n,
    decreases n,
{
    let front = term_entries(ids, docs, column, term, config, n - 1);
    let all = term_entries(ids, docs, column, term, config, n);
    if n > 1 {
        law_documents_with_the_term_have_entries(
            ids,
            docs,
            column,
            term,
            config,
            n - 1,
            if i < n - 1 {
                i
            } else {
                0
            },
        );
    } else {
        assert(front =~= Seq::empty());
    }
    let tokens = document_tokens(docs[ids[i]], column, config);
    text::lemma_occurrences_bound(tokens, term);
    if tokens.contains(term) {
        if i < n - 1 {
            let k = choose|k: int|
                0 <= k < front.len() && {
                    let p = #[trigger] front[k];
                    &&& p.id == ids[i]
                    &&& tokens.len() <= u32::MAX ==> p.doc_len == tokens.len() && p.term_frequency
                        == text::occurrences(tokens, term)
                };
            assert(all[k] == front[k]);
        } else {
            assert(all[front.len() as int] == entry_of(ids[i], docs[ids[i]], column, term, config));
        }
    }
    assert forall|k: int| 0 <= k < all.len() implies exists|j: int|
        0 <= j < n && (#[trigger] all[k]).id == #[trigger] ids[j] && document_tokens(
            docs[ids[j]],
            column,
            config,
        ).contains(term) by {
        if k < front.len() {
            assert(all[k] == front[k]);
            let j = choose|j: int|
                0 <= j < n - 1 && front[k].id == #[trigger] ids[j] && document_tokens(
                    docs[ids[j]],
                    column,
                    config,
                ).contains(term);
            assert(all[k].id == ids[j]);
        } else {
            assert(all[k].id == ids[n - 1]);
        }
    }
}

/// Every document with text in a column counts once, with all its terms; one without
/// counts for nothing.
pub proof fn law_totals_count_every_document(
    ids: Seq<IdView>,
    docs: documents::Docs,
    column: Seq<char>,
    config: TokenizerConfig,
    n: int,
)
    requires
        0 <= n < ids.len(),
        field_totals(ids, docs, column, config, n).doc_count < u64::MAX,
        field_totals(ids, docs, column, config, n).total_doc_len <= u64::MAX - u32::MAX,
        document_tokens(docs[ids[n]], column, config).len() <= u32::MAX,
    ensures
        ({
            let before = field_totals(ids, docs, column, config, n);
            let after = field_totals(ids, docs, column, config, n + 1);
            let length = document_tokens(docs[ids[n]], column, config).len();
            &&& after.total_doc_len == before.total_doc_len + length
            &&& after.doc_count == before.doc_count + (if length > 0 {
                1int
            } else {
                0
            })
        }),
        field_totals(ids, docs, column, config, 0).doc_count == 0,
        field_totals(ids, docs, column, config, 0).total_doc_len == 0,
{
}

} // verus!
