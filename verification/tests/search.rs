use sana::arithmetic::Step;
use sana::error::Error;
use sana::sorted::SortedMap;
use sana::sst::reader::SstReader;
use sana::text::index_data::{FieldStats, TermPosting};
use sana::text::ranked::{search_sst_top_k, search_sst_top_k_with_stats};
use sana::text::scoring::{score_documents, Bm25Params, TextHit};
use sana::text::search::{search_sst, term_stats, PostingBlock, TextTermStats};
use sana::text::table::{build_text_sst, TextRecord};
use sana::text::top_k::TopKTracker;
use sana::text::{analyze_text, tokenize, TokenizerConfig};
use sana::value::{Document, Id, Value};

fn f(bits: u32) -> f32 {
    f32::from_bits(bits)
}

fn calc(step: Step) -> u32 {
    match step {
        Step::Add(a, b) => (f(a) + f(b)).to_bits(),
        Step::Sub(a, b) => (f(a) - f(b)).to_bits(),
        Step::Mul(a, b) => (f(a) * f(b)).to_bits(),
        Step::Div(a, b) => (f(a) / f(b)).to_bits(),
        Step::Sqrt(a) => f(a).sqrt().to_bits(),
        Step::Ln(a) => f(a).ln().to_bits(),
        Step::Count(n) => (n as f32).to_bits(),
        Step::Level { .. } => 0,
    }
}

fn put(out: &mut Vec<u8>, n: u64) {
    out.extend_from_slice(&n.to_le_bytes());
}

fn encode(record: &TextRecord) -> Result<Vec<u8>, Error> {
    let mut out = Vec::new();
    match record {
        TextRecord::Field(s) => {
            put(&mut out, s.doc_count);
            put(&mut out, s.total_doc_len);
        }
        TextRecord::Term(t) => {
            put(&mut out, t.doc_freq);
            put(&mut out, t.block_count as u64);
            put(&mut out, t.max_score as u64);
            for s in &t.block_max_scores {
                put(&mut out, *s as u64);
            }
        }
        TextRecord::Block(b) => {
            put(&mut out, b.max_score as u64);
            for p in &b.postings {
                let Id::U64(n) = p.id else { return Err(Error::Codec("key".into())) };
                put(&mut out, n);
                put(&mut out, p.term_frequency as u64);
                put(&mut out, p.doc_len as u64);
            }
        }
    }
    Ok(out)
}

fn numbers(bytes: &Vec<u8>) -> Vec<u64> {
    bytes.chunks(8).map(|c| u64::from_le_bytes(c.try_into().unwrap())).collect()
}

fn decode_field(bytes: &Vec<u8>) -> Result<FieldStats, Error> {
    let n = numbers(bytes);
    Ok(FieldStats { doc_count: n[0], total_doc_len: n[1] })
}

fn decode_term(bytes: &Vec<u8>) -> Result<TextTermStats, Error> {
    let n = numbers(bytes);
    Ok(TextTermStats {
        doc_freq: n[0],
        block_count: n[1] as u32,
        max_score: n[2] as u32,
        block_max_scores: n[3..].iter().map(|s| *s as u32).collect(),
    })
}

fn decode_block(bytes: &Vec<u8>) -> Result<PostingBlock, Error> {
    let n = numbers(bytes);
    Ok(PostingBlock {
        max_score: n[0] as u32,
        postings: n[1..]
            .chunks(3)
            .map(|c| TermPosting {
                id: Id::U64(c[0]),
                term_frequency: c[1] as u32,
                doc_len: c[2] as u32,
            })
            .collect(),
    })
}

fn document(id: u64, text: &str) -> Document {
    let mut doc = Document::new(Id::U64(id));
    doc.attributes.insert("body".to_string(), Value::String(text.to_string()));
    doc
}

fn corpus() -> SortedMap<Id, Document> {
    let mut docs = SortedMap::new();
    for (id, text) in [
        (1, "the quick brown fox"),
        (2, "the lazy dog sleeps while the fox runs"),
        (3, "quick quick quick"),
        (4, "nothing here"),
    ] {
        docs.insert(Id::U64(id), document(id, text));
    }
    docs
}

fn listed(hits: &[TextHit]) -> Vec<(Id, u32)> {
    hits.iter().map(|h| (h.id.clone(), h.score)).collect()
}

#[test]
fn text_is_cut_into_lowercase_terms() {
    let config = TokenizerConfig::default();
    assert_eq!(tokenize("Hello, WORLD-2 \u{c4}b", config), vec!["hello", "world", "2", "\u{e4}b"]);
    let kept = TokenizerConfig { lowercase: false, max_token_len: 3 };
    assert_eq!(tokenize("Hey There", kept), vec!["Hey"]);
    let stats = analyze_text("b a b", config);
    assert_eq!(stats.doc_len, 3);
    assert_eq!(stats.terms.len(), 2);
    assert_eq!((stats.terms[0].term.as_str(), stats.terms[0].frequency), ("a", 1));
    assert_eq!((stats.terms[1].term.as_str(), stats.terms[1].frequency), ("b", 2));
    assert!(tokenize("...", config).is_empty());
}

#[test]
fn index_search_finds_what_scoring_documents_finds() {
    let docs = corpus();
    let built = build_text_sst(&docs, calc, encode).unwrap().unwrap();
    let reader = SstReader::open(built.bytes.clone()).unwrap();
    assert_eq!(reader.entries().unwrap().len() as u64, built.entry_count);
    for query in ["quick fox", "the", "fox fox dog", "absent", ""] {
        let params = Bm25Params::default();
        let plain = score_documents(&docs, "body", query, params, calc).unwrap();
        let indexed = search_sst(
            &reader, "body", query, params, calc, decode_field, decode_term, decode_block,
        )
        .unwrap();
        assert_eq!(listed(&plain), listed(&indexed));
    }
    let none = search_sst(
        &reader, "title", "fox", Bm25Params::default(), calc, decode_field, decode_term, decode_block,
    )
    .unwrap();
    assert!(none.is_empty());
}

#[test]
fn best_documents_come_first() {
    let docs = corpus();
    let hits = score_documents(&docs, "body", "quick", Bm25Params::default(), calc).unwrap();
    assert_eq!(hits.len(), 2);
    assert_eq!(hits[0].id, Id::U64(3));
    assert!(f(hits[0].score) > f(hits[1].score));

    let built = build_text_sst(&docs, calc, encode).unwrap().unwrap();
    let reader = SstReader::open(built.bytes).unwrap();
    let best = search_sst_top_k(
        &reader, "body", "quick", 1, Bm25Params::default(), calc, decode_field, decode_term, decode_block,
    )
    .unwrap();
    assert_eq!(listed(&best), listed(&hits[..1]));
    let zero = search_sst_top_k_with_stats(
        &reader, "body", "quick", 0, Bm25Params::default(), calc, decode_field, decode_term, decode_block,
    )
    .unwrap();
    assert!(zero.hits.is_empty());
    assert_eq!(zero.stats.blocks_read, 0);
    let other = Bm25Params { b: 0, ..Bm25Params::default() };
    let all = search_sst(
        &reader, "body", "quick fox", other, calc, decode_field, decode_term, decode_block,
    )
    .unwrap();
    let cut = search_sst_top_k(
        &reader, "body", "quick fox", 2, other, calc, decode_field, decode_term, decode_block,
    )
    .unwrap();
    assert_eq!(listed(&cut), listed(&all[..2]));
}

#[test]
fn hopeless_blocks_are_left_unread() {
    let mut docs = SortedMap::new();
    for id in 0..600u64 {
        let text = if id < 3 { "rare rare common" } else { "common and a good deal of other words" };
        docs.insert(Id::U64(id), document(id, text));
    }
    let built = build_text_sst(&docs, calc, encode).unwrap().unwrap();
    let reader = SstReader::open(built.bytes).unwrap();
    let stats = term_stats(&reader, "body", "common", decode_term).unwrap().unwrap();
    assert_eq!((stats.doc_freq, stats.block_count), (600, 3));
    assert_eq!(stats.block_max_scores.len(), 3);
    assert!(term_stats(&reader, "body", "absent", decode_term).unwrap().is_none());

    let found = search_sst_top_k_with_stats(
        &reader, "body", "rare common", 3, Bm25Params::default(), calc, decode_field, decode_term, decode_block,
    )
    .unwrap();
    let all = search_sst(
        &reader, "body", "rare common", Bm25Params::default(), calc, decode_field, decode_term, decode_block,
    )
    .unwrap();
    assert_eq!(listed(&found.hits), listed(&all[..3]));
    assert!(found.stats.blocks_skipped > 0);
    assert_eq!(found.stats.blocks_read + found.stats.blocks_skipped, 4);
    assert!(found.stats.postings_scored < 603);
}

#[test]
fn damaged_records_are_corrupt() {
    let docs = corpus();
    let drop_blocks = |record: &TextRecord| -> Result<Vec<u8>, Error> {
        match record {
            TextRecord::Term(t) => encode(&TextRecord::Term(TextTermStats {
                doc_freq: t.doc_freq,
                block_count: t.block_count + 1,
                max_score: t.max_score,
                block_max_scores: t.block_max_scores.clone(),
            })),
            other => encode(other),
        }
    };
    let built = build_text_sst(&docs, calc, drop_blocks).unwrap().unwrap();
    let reader = SstReader::open(built.bytes).unwrap();
    let found = search_sst(
        &reader, "body", "fox", Bm25Params::default(), calc, decode_field, decode_term, decode_block,
    );
    assert!(matches!(found, Err(Error::Corrupt(_))));
    let best = search_sst_top_k(
        &reader, "body", "fox", 1, Bm25Params::default(), calc, decode_field, decode_term, decode_block,
    );
    assert!(matches!(best, Err(Error::Corrupt(_))));
    let refused = |_: &TextRecord| -> Result<Vec<u8>, Error> { Err(Error::Codec("no".into())) };
    assert!(matches!(build_text_sst(&docs, calc, refused), Err(Error::Codec(_))));
    let none: SortedMap<Id, Document> = SortedMap::new();
    assert!(build_text_sst(&none, calc, encode).unwrap().is_none());
}

#[test]
fn weights_are_checked() {
    let with = |k1: f32, b: f32, k3: f32| Bm25Params {
        k1: k1.to_bits(),
        b: b.to_bits(),
        k3: k3.to_bits(),
    };
    assert_eq!(Bm25Params::default(), with(1.2, 0.75, 8.0));
    assert!(with(0.5, 0.0, 1.0).validate().is_ok());
    assert!(with(0.5, 1.0, 1.0).validate().is_ok());
    assert!(with(0.5, -0.0, 1.0).validate().is_ok());
    for bad in [
        with(0.0, 0.5, 1.0),
        with(-1.0, 0.5, 1.0),
        with(f32::NAN, 0.5, 1.0),
        with(f32::INFINITY, 0.5, 1.0),
        with(1.0, 1.5, 1.0),
        with(1.0, -0.1, 1.0),
        with(1.0, 0.5, 0.0),
        with(1.0, 0.5, f32::NAN),
    ] {
        assert!(matches!(bad.validate(), Err(Error::InvalidQuery(_))));
    }
}

#[test]
fn tracker_keeps_the_best() {
    let mut tracker = TopKTracker::new(2);
    assert_eq!(tracker.threshold(), None);
    tracker.observe(Id::U64(1), 1.0f32.to_bits());
    tracker.observe(Id::U64(2), 3.0f32.to_bits());
    assert_eq!(tracker.threshold(), Some(1.0f32.to_bits()));
    tracker.observe(Id::U64(3), 0.5f32.to_bits());
    assert_eq!(tracker.threshold(), Some(1.0f32.to_bits()));
    tracker.observe(Id::U64(4), 2.0f32.to_bits());
    assert_eq!(tracker.threshold(), Some(2.0f32.to_bits()));
    tracker.observe(Id::U64(4), 9.0f32.to_bits());
    assert_eq!(tracker.threshold(), Some(3.0f32.to_bits()));
    let mut none = TopKTracker::new(0);
    none.observe(Id::U64(1), 1.0f32.to_bits());
    assert_eq!(none.threshold(), None);
}
