//! Positions in a namespace's write-ahead log.

use vstd::prelude::*;
use vstd::string::*;

use crate::value;
use crate::textmap::TextMap;
use crate::phrase::say;
use crate::strings;
use crate::value::{Document, DocumentView, Id, IdView, Value, ValueView, VectorValue, VectorView};

verus! {

/// A committed position: the log epoch, and the sequence number in it.
#[derive(Clone, Copy, Debug, PartialEq, Eq, Structural)]
pub struct WalCursor {
    pub epoch: u64,
    pub seq: u64,
}

/// `a` is an earlier position than `b`: epochs come first, then sequence
/// numbers.
pub open spec fn cursor_lt(a: WalCursor, b: WalCursor) -> bool {
    a.epoch < b.epoch || (a.epoch == b.epoch && a.seq < b.seq)
}

/// `a` is no later than `b`.
pub open spec fn cursor_le(a: WalCursor, b: WalCursor) -> bool {
    a == b || cursor_lt(a, b)
}

/// A position, for people.
pub open spec fn cursor_words(c: WalCursor) -> Seq<char> {
    "WalCursor { epoch: "@ + strings::decimal(c.epoch as nat) + ", seq: "@ + strings::decimal(
        c.seq as nat,
    ) + " }"@
}

/// A position that may be missing, for people.
pub open spec fn position_words(c: Option<WalCursor>) -> Seq<char> {
    match c {
        Some(c) => "Some("@ + cursor_words(c) + ")"@,
        None => "None"@,
    }
}

/// A position that may be missing, for people.
pub fn position_text(c: Option<WalCursor>) -> (s: String)
    ensures
        s@ == position_words(c),
{
    match c {
        Some(c) => say("Some(").and(c.text().as_str()).and(")").done(),
        None => "None".to_owned(),
    }
}

impl WalCursor {
    /// The position, for people.
    pub fn text(&self) -> (s: String)
        ensures
            s@ == cursor_words(*self),
    {
        say("WalCursor { epoch: ").number(self.epoch).and(", seq: ").number(self.seq).and(
            " }",
        ).done()
    }

    pub fn new(epoch: u64, seq: u64) -> (c: WalCursor)
        ensures
            c == (WalCursor { epoch, seq }),
    {
        WalCursor { epoch, seq }
    }

    /// Whether this position is earlier than `other`.
    pub fn is_before(&self, other: &WalCursor) -> (b: bool)
        ensures
            b == cursor_lt(*self, *other),
    {
        self.epoch < other.epoch || (self.epoch == other.epoch && self.seq < other.seq)
    }

    /// The position of the next batch, if there is one left.
    pub fn next(&self) -> (r: Option<WalCursor>)
        ensures
            self.seq < u64::MAX ==> r == Some(
                WalCursor { epoch: self.epoch, seq: (self.seq + 1) as u64 },
            ),
            self.seq == u64::MAX ==> r is None,
    {
        match self.seq.checked_add(1) {
            Some(seq) => Some(WalCursor { epoch: self.epoch, seq }),
            None => None,
        }
    }
}

/// Positions are totally ordered.
pub proof fn law_cursors_are_ordered(a: WalCursor, b: WalCursor, c: WalCursor)
    ensures
        !cursor_lt(a, a),
        cursor_lt(a, b) && cursor_lt(b, c) ==> cursor_lt(a, c),
        a == b || cursor_lt(a, b) || cursor_lt(b, a),
        !(cursor_lt(a, b) && cursor_lt(b, a)),
{
}

/// One operation of a write: replace a document, change some of its columns, or
/// delete it.
#[derive(Debug)]
pub enum WalOp {
    Upsert { id: Id, document: Document },
    Patch { id: Id, attributes: TextMap<Value>, vectors: TextMap<VectorValue> },
    Delete { id: Id },
}

/// What an operation stands for.
pub enum OpView {
    Upsert { id: IdView, document: DocumentView },
    Patch {
        id: IdView,
        attributes: Map<Seq<char>, ValueView>,
        vectors: Map<Seq<char>, VectorView>,
    },
    Delete { id: IdView },
}

impl View for WalOp {
    type V = OpView;

    open spec fn view(&self) -> OpView {
        match *self {
            WalOp::Upsert { id, document } => OpView::Upsert { id: id@, document: document@ },
            WalOp::Patch { id, attributes, vectors } => OpView::Patch {
                id: id@,
                attributes: value::attributes_view(attributes),
                vectors: value::vectors_view(vectors),
            },
            WalOp::Delete { id } => OpView::Delete { id: id@ },
        }
    }
}

impl WalOp {
    /// The maps of the operation are in key order.
    pub open spec fn wf(self) -> bool {
        match self {
            WalOp::Upsert { document, .. } => document.wf(),
            WalOp::Patch { attributes, vectors, .. } => attributes.wf() && vectors.wf(),
            WalOp::Delete { .. } => true,
        }
    }
}

/// What a list of operations stands for.
pub open spec fn ops_view(ops: Seq<WalOp>) -> Seq<OpView> {
    Seq::new(ops.len(), |i: int| ops[i]@)
}

/// Every operation of a list is well formed.
pub open spec fn ops_wf(ops: Seq<WalOp>) -> bool {
    forall|i: int| 0 <= i < ops.len() ==> (#[trigger] ops[i]).wf()
}

/// The document that an operation is about.
pub open spec fn id_of_op(op: OpView) -> IdView {
    match op {
        OpView::Upsert { id, .. } => id,
        OpView::Patch { id, .. } => id,
        OpView::Delete { id } => id,
    }
}

/// The document that an operation is about.
pub fn op_id(op: &WalOp) -> (r: &Id)
    ensures
        r@ == id_of_op(op@),
{
    match op {
        WalOp::Upsert { id, .. } => id,
        WalOp::Patch { id, .. } => id,
        WalOp::Delete { id } => id,
    }
}

/// A later epoch is later whatever the sequence numbers, and in one epoch the sequence
/// numbers decide. The next position is later than this one, and no position is between
/// the two.
pub proof fn law_epochs_come_first(a: WalCursor, b: WalCursor, next: WalCursor)
    ensures
        a.epoch < b.epoch ==> cursor_lt(a, b) && !cursor_le(b, a),
        a.epoch == b.epoch ==> cursor_lt(a, b) == (a.seq < b.seq),
        cursor_le(a, b) == !cursor_lt(b, a),
        next.epoch == a.epoch && next.seq == a.seq + 1 ==> cursor_lt(a, next) && !(cursor_lt(a, b)
            && cursor_lt(b, next)),
{
}

} // verus!
