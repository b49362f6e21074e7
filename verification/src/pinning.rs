//! Namespace pinning: which nodes serve as read replicas of a namespace.

use vstd::prelude::*;
use vstd::string::*;

use crate::strings;
use crate::phrase;
use crate::rounding;
use crate::phrase::say;
use crate::arithmetic;
use crate::arithmetic::{compute, Step, NEGATIVE_ZERO};
use crate::hash;
use crate::seqs;
use crate::namespace;
use crate::index_queue;
use crate::error::{corrupt, invalid_write, Error};
use crate::index_queue::Mutation;
use crate::hash::{fnv1a_continue, FNV_OFFSET};
use crate::strings::same_text;

verus! {

pub const PINNING_FORMAT_VERSION: u32 = 1;

/// The most replicas that a namespace can have.
pub const MAX_REPLICAS: u32 = 1024;

/// The object that holds the pinning state of a namespace.
pub fn pinning_key(namespace: &str) -> (key: String)
    ensures
        key@ == namespace::namespace_key(namespace@, "/routing/pinning.json"@),
{
    let mut key = "namespaces/".to_owned();
    key.append(namespace);
    key.append("/routing/pinning.json");
    key
}

/// Whether a replica has loaded the namespace.
#[derive(Clone, Copy, Debug, PartialEq, Eq, Structural)]
pub enum ReplicaStatus {
    Warming,
    Ready,
}

/// A node that serves a slot. The utilization is kept as the bits of a
/// single-precision number.
#[derive(Clone, Debug)]
pub struct ReplicaAssignment {
    pub slot: u32,
    pub node_id: String,
    pub assignment_id: u64,
    pub status: ReplicaStatus,
    pub manifest_generation: u64,
    pub lease_expires_at_ms: u64,
    pub utilization: Option<u32>,
}

pub struct AssignmentView {
    pub slot: u32,
    pub node_id: Seq<char>,
    pub assignment_id: u64,
    pub status: ReplicaStatus,
    pub manifest_generation: u64,
    pub lease_expires_at_ms: u64,
    pub utilization: Option<u32>,
}

impl View for ReplicaAssignment {
    type V = AssignmentView;

    open spec fn view(&self) -> AssignmentView {
        AssignmentView {
            slot: self.slot,
            node_id: self.node_id@,
            assignment_id: self.assignment_id,
            status: self.status,
            manifest_generation: self.manifest_generation,
            lease_expires_at_ms: self.lease_expires_at_ms,
            utilization: self.utilization,
        }
    }
}

/// What a node shows to prove that it holds a slot.
#[derive(Clone, Debug)]
pub struct ReplicaClaim {
    pub namespace: String,
    pub slot: u32,
    pub node_id: String,
    pub assignment_id: u64,
}

pub struct ReplicaClaimView {
    pub namespace: Seq<char>,
    pub slot: u32,
    pub node_id: Seq<char>,
    pub assignment_id: u64,
}

impl View for ReplicaClaim {
    type V = ReplicaClaimView;

    open spec fn view(&self) -> ReplicaClaimView {
        ReplicaClaimView {
            namespace: self.namespace@,
            slot: self.slot,
            node_id: self.node_id@,
            assignment_id: self.assignment_id,
        }
    }
}

/// Where a request goes.
#[derive(Clone, Debug)]
pub struct ReplicaRoute {
    pub slot: u32,
    pub node_id: String,
    pub assignment_id: u64,
}

/// How a namespace is pinned. The utilizations are those of the ready replicas
/// that report one, in slot order.
#[derive(Clone, Debug)]
pub struct PinningMetadata {
    pub replicas: u32,
    pub assigned_replicas: usize,
    pub ready_replicas: usize,
    pub utilizations: Vec<u32>,
}

/// The sum of the first `n` numbers, from the first on.
pub open spec fn sum_of<M: Fn(Step) -> u32>(calc: M, numbers: Seq<u32>, n: int) -> u32
    decreases n,
{
    if n <= 0 {
        arithmetic::NEGATIVE_ZERO
    } else {
        arithmetic::answer(calc, Step::Add(sum_of(calc, numbers, n - 1), numbers[n - 1]))
    }
}

impl PinningMetadata {
    /// The mean of the reported utilizations, if there is one.
    pub fn average_utilization<M: Copy + Fn(Step) -> u32>(&self, calc: M) -> (r: Option<u32>)
        requires
            arithmetic::is_arithmetic(calc),
        ensures
            r == (if self.utilizations@.len() == 0 {
                None::<u32>
            } else {
                let n = self.utilizations@.len();
                Some(
                    arithmetic::answer(
                        calc,
                        Step::Div(
                            sum_of(calc, self.utilizations@, n as int),
                            arithmetic::answer(calc, Step::Count(n as u64)),
                        ),
                    ),
                )
            }),
    {
        if self.utilizations.len() == 0 {
            return None;
        }
        let mut sum: u32 = NEGATIVE_ZERO;
        let mut i: usize = 0;
        while i < self.utilizations.len()
            invariant
                i <= self.utilizations@.len(),
                arithmetic::is_arithmetic(calc),
                sum == sum_of(calc, self.utilizations@, i as int),
            decreases self.utilizations@.len() - i,
        {
            sum = compute(calc, Step::Add(sum, self.utilizations[i]));
            i = i + 1;
        }
        let count: u32 = compute(calc, Step::Count(self.utilizations.len() as u64));
        Some(compute(calc, Step::Div(sum, count)))
    }
}

/// The pinning state of a namespace. Assignments are in slot order.
#[derive(Clone, Debug)]
pub struct PinningFile {
    pub format_version: u32,
    pub revision: u64,
    pub next_assignment_id: u64,
    pub replicas: u32,
    pub assignments: Vec<ReplicaAssignment>,
}

pub struct PinningView {
    pub format_version: u32,
    pub revision: u64,
    pub next_assignment_id: u64,
    pub replicas: u32,
    pub assignments: Seq<AssignmentView>,
}

pub open spec fn assignments_view(a: Seq<ReplicaAssignment>) -> Seq<AssignmentView> {
    Seq::new(a.len(), |i: int| a[i]@)
}

impl View for PinningFile {
    type V = PinningView;

    open spec fn view(&self) -> PinningView {
        PinningView {
            format_version: self.format_version,
            revision: self.revision,
            next_assignment_id: self.next_assignment_id,
            replicas: self.replicas,
            assignments: assignments_view(self.assignments@),
        }
    }
}

/// The bits are those of a number from zero to one.
pub open spec fn is_fraction(bits: u32) -> bool {
    bits <= 0x3f80_0000 || bits == 0x8000_0000
}

/// Slots strictly increase, so each is assigned at most once.
pub open spec fn slots_sorted(a: Seq<AssignmentView>) -> bool {
    forall|i: int, j: int| 0 <= i < j < a.len() ==> #[trigger] a[i].slot < #[trigger] a[j].slot
}

/// An assignment lies in a configured slot, names a node, has a number, and
/// reports a utilization from zero to one if it reports one.
pub open spec fn assignment_valid(a: AssignmentView, replicas: u32) -> bool {
    &&& a.slot < replicas
    &&& a.node_id.len() > 0
    &&& a.assignment_id > 0
    &&& a.utilization matches Some(bits) ==> is_fraction(bits)
}

/// What holds of every stored pinning state.
pub open spec fn pinning_valid(p: PinningView) -> bool {
    &&& p.format_version == PINNING_FORMAT_VERSION
    &&& p.replicas <= MAX_REPLICAS
    &&& p.next_assignment_id > 0
    &&& forall|i: int|
        0 <= i < p.assignments.len() ==> assignment_valid(#[trigger] p.assignments[i], p.replicas)
            && p.assignments[i].assignment_id < p.next_assignment_id
    &&& forall|i: int, j: int|
        0 <= i < j < p.assignments.len() ==> (#[trigger] p.assignments[i]).assignment_id != (
        #[trigger] p.assignments[j]).assignment_id && p.assignments[i].node_id
            != p.assignments[j].node_id
}

/// What is wrong with an assignment, if anything is.
pub open spec fn assignment_complaint(p: PinningView, i: int) -> Option<Seq<char>> {
    let a = p.assignments[i];
    let slot = strings::decimal(a.slot as nat);
    if a.slot >= p.replicas {
        Some(
            "pinning slot "@ + slot + " is outside configured replica count "@ + strings::decimal(
                p.replicas as nat,
            ),
        )
    } else if a.node_id.len() == 0 || a.assignment_id == 0 || exists|k: int|
        0 <= k < i && #[trigger] view_clash(p.assignments, k, i) {
        Some("invalid pinning "@ + "assignment"@ + " in slot "@ + slot)
    } else if a.utilization matches Some(bits) && !is_fraction(bits) {
        Some("invalid pinning "@ + "utilization"@ + " in slot "@ + slot)
    } else {
        None
    }
}

/// What is wrong with the first damaged assignment from the `i`th on.
pub open spec fn assignments_complaint(p: PinningView, i: int) -> Option<Seq<char>>
    decreases p.assignments.len() - i,
{
    if i >= p.assignments.len() {
        None
    } else {
        match assignment_complaint(p, i) {
            Some(text) => Some(text),
            None => assignments_complaint(p, i + 1),
        }
    }
}

/// The highest number of the first `n` assignments.
pub open spec fn highest_assignment(a: Seq<AssignmentView>, n: int) -> u64
    decreases n,
{
    if n <= 0 {
        0
    } else if a[n - 1].assignment_id > highest_assignment(a, n - 1) {
        a[n - 1].assignment_id
    } else {
        highest_assignment(a, n - 1)
    }
}

/// What is wrong with a stored pinning state, if anything is.
pub open spec fn pinning_complaint(p: PinningView) -> Option<Seq<char>> {
    let highest = highest_assignment(p.assignments, p.assignments.len() as int);
    if p.format_version != PINNING_FORMAT_VERSION {
        Some("unsupported pinning format version "@ + strings::decimal(p.format_version as nat))
    } else if p.replicas > MAX_REPLICAS {
        Some(
            "pinning replicas "@ + strings::decimal(p.replicas as nat) + " exceeds maximum "@
                + strings::decimal(MAX_REPLICAS as nat),
        )
    } else if assignments_complaint(p, 0) is Some {
        assignments_complaint(p, 0)
    } else if p.next_assignment_id <= highest {
        Some(
            "next pinning assignment id "@ + strings::decimal(p.next_assignment_id as nat)
                + " is not above live max "@ + strings::decimal(highest as nat),
        )
    } else {
        None
    }
}

/// Two assignments share a number or a node.
pub open spec fn view_clash(a: Seq<AssignmentView>, k: int, i: int) -> bool {
    a[k].assignment_id == a[i].assignment_id || a[k].node_id == a[i].node_id
}

/// The lease of the assignment has not run out.
pub open spec fn leased(a: AssignmentView, now_ms: u64) -> bool {
    a.lease_expires_at_ms > now_ms
}

/// The assignments whose lease has not run out.
pub open spec fn leased_only(a: Seq<AssignmentView>, now_ms: u64) -> Seq<AssignmentView> {
    seqs::kept(a, |x: AssignmentView| leased(x, now_ms))
}

/// The assignment of a node; the number of assignments if it has none.
pub open spec fn of_node(a: Seq<AssignmentView>, node: Seq<char>) -> int {
    seqs::first_where(a, |x: AssignmentView| x.node_id == node)
}

/// The assignment of a slot; the number of assignments if it has none.
pub open spec fn of_slot(a: Seq<AssignmentView>, slot: u32) -> int {
    seqs::first_where(a, |x: AssignmentView| x.slot == slot)
}

/// The slot is assigned.
pub open spec fn taken(a: Seq<AssignmentView>, slot: int) -> bool {
    exists|i: int| 0 <= i < a.len() && (#[trigger] a[i]).slot == slot
}

/// The lowest slot from `from` on that is not assigned; `replicas` if all are.
pub open spec fn lowest_free(a: Seq<AssignmentView>, replicas: int, from: int) -> int
    decreases replicas - from,
{
    if from >= replicas {
        replicas
    } else if taken(a, from) {
        lowest_free(a, replicas, from + 1)
    } else {
        from
    }
}

/// The position at which the assignment of a slot belongs.
pub open spec fn slot_position(a: Seq<AssignmentView>, slot: u32) -> int {
    seqs::first_where(a, |x: AssignmentView| x.slot > slot)
}

/// The claim is the one of the slot's current assignment.
pub open spec fn claim_matches(a: AssignmentView, c: ReplicaClaimView) -> bool {
    a.node_id == c.node_id && a.assignment_id == c.assignment_id
}

/// The assignment that a claim holds; the number of assignments if it holds
/// none.
pub open spec fn held_slot(a: Seq<AssignmentView>, c: ReplicaClaimView) -> int {
    let i = of_slot(a, c.slot);
    if i < a.len() && claim_matches(a[i], c) {
        i
    } else {
        a.len() as int
    }
}

/// The replica is leased, ready, and serves the generation.
pub open spec fn serves(a: AssignmentView, generation: u64, now_ms: u64) -> bool {
    leased(a, now_ms) && a.status == ReplicaStatus::Ready && a.manifest_generation == generation
}

fn stale_claim(claim: &ReplicaClaim, reason: &str) -> (e: Error)
    ensures
        e is InvalidPinningClaim,
        e->InvalidPinningClaim_0@ == "namespace "@ + phrase::quoted(claim.namespace@) + " slot "@
            + strings::decimal(claim.slot as nat) + " assignment "@ + strings::decimal(
            claim.assignment_id as nat,
        ) + " for node "@ + phrase::quoted(claim.node_id@) + ": "@ + reason@,
{
    Error::InvalidPinningClaim(
        say("namespace ").quote(claim.namespace.as_str()).and(" slot ").number(
            claim.slot as u64,
        ).and(" assignment ").number(claim.assignment_id).and(" for node ").quote(
            claim.node_id.as_str(),
        ).and(": ").and(reason).done(),
    )
}

fn invalid_slot(what: &str, slot: u32) -> (e: Error)
    ensures
        e is Corrupt,
        e->Corrupt_0@ == "invalid pinning "@ + what@ + " in slot "@ + strings::decimal(slot as nat),
{
    Error::Corrupt(
        say("invalid pinning ").and(what).and(" in slot ").number(slot as u64).done(),
    )
}

/// Checks what a node asks for.
pub fn validate_claim_input(node_id: &str, lease_ms: u64) -> (r: Result<(), Error>)
    ensures
        node_id@.len() > 0 && lease_ms > 0 ==> r is Ok,
        node_id@.len() == 0 || lease_ms == 0 ==> r is Err && r->Err_0 is InvalidPinningClaim,
{
    if node_id.is_empty() {
        return Err(Error::InvalidPinningClaim("node id cannot be empty".to_owned()));
    }
    if lease_ms == 0 {
        return Err(Error::InvalidPinningClaim("lease duration must be positive".to_owned()));
    }
    Ok(())
}

/// Checks that a claim is for the namespace that a replica is about to warm.
pub fn validate_warm_input(claim: &ReplicaClaim, namespace: &str, lease_ms: u64) -> (r: Result<
    (),
    Error,
>)
    ensures
        r is Ok <==> claim.namespace@ == namespace@ && claim.node_id@.len() > 0 && lease_ms > 0,
        r is Err ==> r->Err_0 is InvalidPinningClaim,
        claim.namespace@ != namespace@ ==> r->Err_0->InvalidPinningClaim_0@ == "claim namespace "@
            + phrase::quoted(claim.namespace@) + " does not match "@ + phrase::quoted(namespace@),
{
    if !same_text(claim.namespace.as_str(), namespace) {
        return Err(
            Error::InvalidPinningClaim(
                say("claim namespace ").quote(claim.namespace.as_str()).and(
                    " does not match ",
                ).quote(namespace).done(),
            ),
        );
    }
    validate_claim_input(claim.node_id.as_str(), lease_ms)
}

/// Checks a reported utilization.
pub fn validate_utilization(utilization: Option<u32>) -> (r: Result<(), Error>)
    ensures
        (utilization matches Some(bits) ==> is_fraction(bits)) ==> r is Ok,
        (utilization matches Some(bits) && !is_fraction(bits)) ==> r is Err
            && r->Err_0 is InvalidPinningClaim,
{
    match utilization {
        Some(bits) => if bits <= 0x3f80_0000 || bits == 0x8000_0000 {
            Ok(())
        } else {
            Err(
                Error::InvalidPinningClaim(
                    "utilization must be finite and between 0 and 1".to_owned(),
                ),
            )
        },
        None => Ok(()),
    }
}

fn copy_assignment(a: &ReplicaAssignment) -> (r: ReplicaAssignment)
    ensures
        r@ == a@,
{
    ReplicaAssignment {
        slot: a.slot,
        node_id: a.node_id.clone(),
        assignment_id: a.assignment_id,
        status: a.status,
        manifest_generation: a.manifest_generation,
        lease_expires_at_ms: a.lease_expires_at_ms,
        utilization: a.utilization,
    }
}

/// The assignments whose lease has not run out.
fn keep_leased(a: &Vec<ReplicaAssignment>, now_ms: u64) -> (r: Vec<ReplicaAssignment>)
    ensures
        assignments_view(r@) == leased_only(assignments_view(a@), now_ms),
{
    let ghost view = assignments_view(a@);
    let ghost p = |x: AssignmentView| leased(x, now_ms);
    let mut r: Vec<ReplicaAssignment> = Vec::new();
    let mut i: usize = 0;
    assert(view.take(0) =~= Seq::empty());
    assert(assignments_view(r@) =~= seqs::kept(view.take(0), p));
    while i < a.len()
        invariant
            i <= a@.len(),
            view == assignments_view(a@),
            p == (|x: AssignmentView| leased(x, now_ms)),
            assignments_view(r@) == seqs::kept(view.take(i as int), p),
        decreases a@.len() - i,
    {
        let ghost before = assignments_view(r@);
        assert(view[i as int] == a@[i as int]@);
        proof {
            seqs::lemma_kept_next(view, p, i as int);
        }
        if a[i].lease_expires_at_ms > now_ms {
            r.push(copy_assignment(&a[i]));
            assert(assignments_view(r@) =~= before.push(view[i as int]));
        }
        i = i + 1;
    }
    assert(view.take(i as int) =~= view);
    r
}

/// The assignments of the slots below `replicas`.
fn keep_slots(a: &Vec<ReplicaAssignment>, replicas: u32) -> (r: Vec<ReplicaAssignment>)
    ensures
        assignments_view(r@) == seqs::kept(
            assignments_view(a@),
            |x: AssignmentView| x.slot < replicas,
        ),
{
    let ghost view = assignments_view(a@);
    let ghost p = |x: AssignmentView| x.slot < replicas;
    let mut r: Vec<ReplicaAssignment> = Vec::new();
    let mut i: usize = 0;
    assert(view.take(0) =~= Seq::empty());
    assert(assignments_view(r@) =~= seqs::kept(view.take(0), p));
    while i < a.len()
        invariant
            i <= a@.len(),
            view == assignments_view(a@),
            p == (|x: AssignmentView| x.slot < replicas),
            assignments_view(r@) == seqs::kept(view.take(i as int), p),
        decreases a@.len() - i,
    {
        let ghost before = assignments_view(r@);
        assert(view[i as int] == a@[i as int]@);
        proof {
            seqs::lemma_kept_next(view, p, i as int);
        }
        if a[i].slot < replicas {
            r.push(copy_assignment(&a[i]));
            assert(assignments_view(r@) =~= before.push(view[i as int]));
        }
        i = i + 1;
    }
    assert(view.take(i as int) =~= view);
    r
}

fn find_node(a: &Vec<ReplicaAssignment>, node: &str) -> (i: usize)
    ensures
        i == of_node(assignments_view(a@), node@),
        i <= a@.len(),
{
    let ghost view = assignments_view(a@);
    let ghost p = |x: AssignmentView| x.node_id == node@;
    let mut i: usize = 0;
    while i < a.len()
        invariant
            i <= a@.len(),
            view == assignments_view(a@),
            p == (|x: AssignmentView| x.node_id == node@),
            forall|j: int| 0 <= j < i ==> !p(#[trigger] view[j]),
        decreases a@.len() - i,
    {
        assert(view[i as int] == a@[i as int]@);
        if same_text(a[i].node_id.as_str(), node) {
            proof {
                seqs::lemma_first_is(view, p, i as int);
            }
            return i;
        }
        i = i + 1;
    }
    proof {
        seqs::lemma_first_is(view, p, i as int);
    }
    i
}

fn find_slot(a: &Vec<ReplicaAssignment>, slot: u32) -> (i: usize)
    ensures
        i == of_slot(assignments_view(a@), slot),
        i <= a@.len(),
{
    let ghost view = assignments_view(a@);
    let ghost p = |x: AssignmentView| x.slot == slot;
    let mut i: usize = 0;
    while i < a.len()
        invariant
            i <= a@.len(),
            view == assignments_view(a@),
            p == (|x: AssignmentView| x.slot == slot),
            forall|j: int| 0 <= j < i ==> !p(#[trigger] view[j]),
        decreases a@.len() - i,
    {
        assert(view[i as int] == a@[i as int]@);
        if a[i].slot == slot {
            proof {
                seqs::lemma_first_is(view, p, i as int);
            }
            return i;
        }
        i = i + 1;
    }
    proof {
        seqs::lemma_first_is(view, p, i as int);
    }
    i
}

fn find_position(a: &Vec<ReplicaAssignment>, slot: u32) -> (i: usize)
    ensures
        i == slot_position(assignments_view(a@), slot),
        i <= a@.len(),
{
    let ghost view = assignments_view(a@);
    let ghost p = |x: AssignmentView| x.slot > slot;
    let mut i: usize = 0;
    while i < a.len()
        invariant
            i <= a@.len(),
            view == assignments_view(a@),
            p == (|x: AssignmentView| x.slot > slot),
            forall|j: int| 0 <= j < i ==> !p(#[trigger] view[j]),
        decreases a@.len() - i,
    {
        assert(view[i as int] == a@[i as int]@);
        if a[i].slot > slot {
            proof {
                seqs::lemma_first_is(view, p, i as int);
            }
            return i;
        }
        i = i + 1;
    }
    proof {
        seqs::lemma_first_is(view, p, i as int);
    }
    i
}

/// The lowest slot that is not assigned.
fn find_free(a: &Vec<ReplicaAssignment>, replicas: u32) -> (slot: u32)
    ensures
        slot == lowest_free(assignments_view(a@), replicas as int, 0),
        slot <= replicas,
{
    let ghost view = assignments_view(a@);
    let mut slot: u32 = 0;
    while slot < replicas
        invariant
            slot <= replicas,
            view == assignments_view(a@),
            lowest_free(view, replicas as int, 0) == lowest_free(
                view,
                replicas as int,
                slot as int,
            ),
        decreases replicas - slot,
    {
        let i = find_slot(a, slot);
        proof {
            seqs::lemma_first_where(view, |x: AssignmentView| x.slot == slot);
        }
        if i >= a.len() {
            assert(!taken(view, slot as int));
            return slot;
        }
        assert(view[i as int].slot == slot);
        assert(taken(view, slot as int));
        slot = slot + 1;
    }
    slot
}

proof fn lemma_lowest_free(a: Seq<AssignmentView>, replicas: int, from: int)
    requires
        0 <= from <= replicas,
    ensures
        from <= lowest_free(a, replicas, from) <= replicas,
        lowest_free(a, replicas, from) < replicas ==> !taken(
            a,
            lowest_free(a, replicas, from),
        ),
    decreases replicas - from,
{
    if from < replicas && taken(a, from) {
        lemma_lowest_free(a, replicas, from + 1);
    }
}

/// What is valid of all assignments is valid of some of them.
proof fn lemma_kept_valid(
    p: PinningView,
    keep: spec_fn(AssignmentView) -> bool,
    replicas: u32,
)
    requires
        pinning_valid(p),
        slots_sorted(p.assignments),
        replicas <= MAX_REPLICAS,
        forall|a: AssignmentView| #[trigger] keep(a) && a.slot < p.replicas ==> a.slot < replicas,
    ensures
        pinning_valid(PinningView { replicas, assignments: seqs::kept(p.assignments, keep), ..p }),
        slots_sorted(seqs::kept(p.assignments, keep)),
{
    let s = seqs::kept(p.assignments, keep);
    assert forall|i: int| 0 <= i < s.len() implies assignment_valid(#[trigger] s[i], replicas)
        && s[i].assignment_id < p.next_assignment_id by {
        seqs::lemma_kept_from(p.assignments, keep, i);
        let k = p.assignments.index_of(s[i]);
        assert(p.assignments[k] == s[i]);
        assert(assignment_valid(p.assignments[k], p.replicas));
        assert(keep(s[i]));
    }
    assert forall|i: int, j: int| 0 <= i < j < s.len() implies (#[trigger] s[i]).assignment_id != (
    #[trigger] s[j]).assignment_id && s[i].node_id != s[j].node_id by {
        let (a, b) = seqs::lemma_kept_order(p.assignments, keep, i, j);
        assert(p.assignments[a].assignment_id != p.assignments[b].assignment_id);
    }
    assert forall|i: int, j: int| 0 <= i < j < s.len() implies #[trigger] s[i].slot
        < #[trigger] s[j].slot by {
        let (a, b) = seqs::lemma_kept_order(p.assignments, keep, i, j);
        assert(p.assignments[a].slot < p.assignments[b].slot);
    }
}

/// Replacing an assignment by one of the same slot, node and number keeps the
/// state valid.
proof fn lemma_update_valid(p: PinningView, i: int, a: AssignmentView)
    requires
        pinning_valid(p),
        slots_sorted(p.assignments),
        0 <= i < p.assignments.len(),
        a.slot == p.assignments[i].slot,
        a.node_id == p.assignments[i].node_id,
        a.assignment_id == p.assignments[i].assignment_id,
        a.utilization matches Some(bits) ==> is_fraction(bits),
    ensures
        pinning_valid(PinningView { assignments: p.assignments.update(i, a), ..p }),
        slots_sorted(p.assignments.update(i, a)),
{
    let s = p.assignments.update(i, a);
    assert forall|k: int| 0 <= k < s.len() implies assignment_valid(#[trigger] s[k], p.replicas)
        && s[k].assignment_id < p.next_assignment_id by {
        assert(assignment_valid(p.assignments[k], p.replicas));
    }
    assert forall|k: int, l: int| 0 <= k < l < s.len() implies (#[trigger] s[k]).assignment_id != (
    #[trigger] s[l]).assignment_id && s[k].node_id != s[l].node_id by {
        assert(p.assignments[k].assignment_id != p.assignments[l].assignment_id);
    }
    assert forall|k: int, l: int| 0 <= k < l < s.len() implies #[trigger] s[k].slot
        < #[trigger] s[l].slot by {
        assert(p.assignments[k].slot < p.assignments[l].slot);
    }
}

impl PinningFile {
    /// A namespace that is not pinned.
    pub fn empty() -> (p: PinningFile)
        ensures
            pinning_valid(p@),
            slots_sorted(p@.assignments),
            p@.assignments.len() == 0,
            p@.replicas == 0,
            p@.revision == 0,
            p@.next_assignment_id == 1,
    {
        PinningFile {
            format_version: PINNING_FORMAT_VERSION,
            revision: 0,
            next_assignment_id: 1,
            replicas: 0,
            assignments: Vec::new(),
        }
    }

    /// Checks what holds of every stored pinning state.
    pub fn validate(&self) -> (r: Result<(), Error>)
        ensures
            pinning_valid(self@) ==> r is Ok,
            !pinning_valid(self@) ==> r is Err && r->Err_0 is Corrupt,
            r is Ok ==> pinning_complaint(self@) is None,
            r is Err ==> pinning_complaint(self@) == Some(r->Err_0->Corrupt_0@),
    {
        if self.format_version != PINNING_FORMAT_VERSION {
            return Err(Error::Corrupt(
                    say("unsupported pinning format version ").number(
                        self.format_version as u64,
                    ).done(),
                ));
        }
        if self.replicas > MAX_REPLICAS {
            return Err(Error::Corrupt(
                    say("pinning replicas ").number(self.replicas as u64).and(
                        " exceeds maximum ",
                    ).number(MAX_REPLICAS as u64).done(),
                ));
        }
        let ghost view = self@;
        let ghost a = self@.assignments;
        let mut max_id: u64 = 0;
        let mut i: usize = 0;
        while i < self.assignments.len()
            invariant
                i <= self.assignments@.len(),
                view == self@,
                a == view.assignments,
                forall|k: int| 0 <= k < i ==> assignment_valid(#[trigger] a[k], view.replicas),
                forall|k: int| 0 <= k < i ==> (#[trigger] a[k]).assignment_id <= max_id,
                max_id > 0 ==> exists|k: int|
                    0 <= k < i && (#[trigger] a[k]).assignment_id == max_id,
                max_id == highest_assignment(a, i as int),
                view.format_version == PINNING_FORMAT_VERSION,
                view.replicas <= MAX_REPLICAS,
                assignments_complaint(view, 0) == assignments_complaint(view, i as int),
                forall|k: int, l: int|
                    0 <= k < l < i ==> (#[trigger] a[k]).assignment_id != (
                    #[trigger] a[l]).assignment_id && a[k].node_id != a[l].node_id,
            decreases self.assignments@.len() - i,
        {
            let x = &self.assignments[i];
            assert(a[i as int] == x@);
            if x.slot >= self.replicas {
                return Err(Error::Corrupt(
                        say("pinning slot ").number(x.slot as u64).and(
                            " is outside configured replica count ",
                        ).number(self.replicas as u64).done(),
                    ));
            }
            if x.node_id.as_str().is_empty() || x.assignment_id == 0 {
                return Err(invalid_slot("assignment", x.slot));
            }
            let mut k: usize = 0;
            while k < i
                invariant
                    k <= i < self.assignments@.len(),
                    view == self@,
                    a == self@.assignments,
                    a[i as int] == x@,
                    x.slot < self.replicas,
                    view.format_version == PINNING_FORMAT_VERSION,
                    view.replicas <= MAX_REPLICAS,
                    assignments_complaint(view, 0) == assignments_complaint(view, i as int),
                    forall|l: int|
                        0 <= l < k ==> (#[trigger] a[l]).assignment_id != x.assignment_id
                            && a[l].node_id != x.node_id@,
                decreases i - k,
            {
                assert(a[k as int] == self.assignments@[k as int]@);
                if self.assignments[k].assignment_id == x.assignment_id || same_text(
                    self.assignments[k].node_id.as_str(),
                    x.node_id.as_str(),
                ) {
                    assert(view_clash(a, k as int, i as int));
                    return Err(invalid_slot("assignment", x.slot));
                }
                k = k + 1;
            }
            if validate_utilization(x.utilization).is_err() {
                return Err(invalid_slot("utilization", x.slot));
            }
            if x.assignment_id > max_id {
                max_id = x.assignment_id;
            }
            i = i + 1;
        }
        if self.next_assignment_id <= max_id {
            return Err(Error::Corrupt(
                    say("next pinning assignment id ").number(self.next_assignment_id).and(
                        " is not above live max ",
                    ).number(max_id).done(),
                ));
        }
        Ok(())
    }

    /// Drops the assignments whose lease has run out; says whether there were
    /// any.
    pub fn remove_expired(&mut self, now_ms: u64) -> (removed: bool)
        ensures
            final(self)@ == (PinningView {
                assignments: leased_only(old(self)@.assignments, now_ms),
                ..old(self)@
            }),
            removed == (final(self)@ != old(self)@),
    {
        let ghost before = self@.assignments;
        let old_len: usize = self.assignments.len();
        self.assignments = keep_leased(&self.assignments, now_ms);
        proof {
            seqs::lemma_kept_len(before, |x: AssignmentView| leased(x, now_ms));
        }
        self.assignments.len() != old_len
    }

    /// Pins the namespace to a number of replicas, or unpins it. Assignments of
    /// slots that no longer exist are dropped.
    pub fn configure(&mut self, replicas: Option<u32>) -> (r: Result<Mutation<()>, Error>)
        ensures
            ({
                let p = old(self)@;
                let n = match replicas {
                    Some(n) => n,
                    None => 0,
                };
                if replicas matches Some(n) && (n == 0 || n > MAX_REPLICAS) {
                    r is Err && r->Err_0 is InvalidWrite && r->Err_0->InvalidWrite_0@
                        == "pinning replicas must be between 1 and 1024"@ && *final(self) == *old(
                        self,
                    )
                } else if p.replicas == n && (n != 0 || p.assignments.len() == 0) {
                    r is Ok && r->Ok_0 is Unchanged && *final(self) == *old(self)
                } else {
                    &&& r is Ok
                    &&& r->Ok_0 is Changed
                    &&& final(self)@ == (PinningView {
                        replicas: n,
                        assignments: seqs::kept(p.assignments, |x: AssignmentView| x.slot < n),
                        ..p
                    })
                }
            }),
            pinning_valid(old(self)@) && slots_sorted(old(self)@.assignments) ==> pinning_valid(
                final(self)@,
            ) && slots_sorted(final(self)@.assignments),
    {
        let ghost p = self@;
        let n: u32 = match replicas {
            Some(n) => {
                if n == 0 || n > MAX_REPLICAS {
                    return Err(invalid_write("pinning replicas must be between 1 and 1024"));
                }
                n
            },
            None => 0,
        };
        if self.replicas == n && (n != 0 || self.assignments.len() == 0) {
            return Ok(Mutation::Unchanged(()));
        }
        self.replicas = n;
        self.assignments = keep_slots(&self.assignments, n);
        proof {
            if pinning_valid(p) && slots_sorted(p.assignments) {
                lemma_kept_valid(p, |x: AssignmentView| x.slot < n, n);
            }
        }
        Ok(Mutation::Changed(()))
    }
}

/// The assignment that a node gets with a free slot.
pub open spec fn fresh_assignment(
    p: PinningView,
    slot: u32,
    node: Seq<char>,
    lease_ms: u64,
    now_ms: u64,
) -> AssignmentView {
    AssignmentView {
        slot,
        node_id: node,
        assignment_id: p.next_assignment_id,
        status: ReplicaStatus::Warming,
        manifest_generation: 0,
        lease_expires_at_ms: index_queue::later(now_ms, lease_ms),
        utilization: None,
    }
}

/// The assignment with its lease extended; a lease never gets shorter.
pub open spec fn renewed(a: AssignmentView, lease_ms: u64, now_ms: u64) -> AssignmentView {
    AssignmentView {
        lease_expires_at_ms: index_queue::max_u64(
            a.lease_expires_at_ms,
            index_queue::later(now_ms, lease_ms),
        ),
        ..a
    }
}

/// The state after the leases that ran out are dropped.
pub open spec fn swept(p: PinningView, now_ms: u64) -> PinningView {
    PinningView { assignments: leased_only(p.assignments, now_ms), ..p }
}

proof fn lemma_insert_valid(p: PinningView, slot: u32, a: AssignmentView)
    requires
        pinning_valid(p),
        slots_sorted(p.assignments),
        p.next_assignment_id < u64::MAX,
        slot < p.replicas,
        !taken(p.assignments, slot as int),
        a.slot == slot,
        a.node_id.len() > 0,
        a.assignment_id == p.next_assignment_id,
        a.utilization is None,
        forall|i: int| 0 <= i < p.assignments.len() ==> (#[trigger] p.assignments[i]).node_id
            != a.node_id,
    ensures
        ({
            let s = p.assignments.insert(slot_position(p.assignments, slot), a);
            &&& pinning_valid(
                PinningView {
                    next_assignment_id: (p.next_assignment_id + 1) as u64,
                    assignments: s,
                    ..p
                },
            )
            &&& slots_sorted(s)
        }),
{
    let at = slot_position(p.assignments, slot);
    seqs::lemma_first_where(p.assignments, |x: AssignmentView| x.slot > slot);
    let s = p.assignments.insert(at, a);
    assert forall|k: int| 0 <= k < s.len() implies assignment_valid(#[trigger] s[k], p.replicas)
        && s[k].assignment_id < p.next_assignment_id + 1 by {
        if k != at {
            let x = if k < at { k } else { k - 1 };
            assert(s[k] == p.assignments[x]);
            assert(assignment_valid(p.assignments[x], p.replicas));
        }
    }
    assert forall|k: int, l: int| 0 <= k < l < s.len() implies (#[trigger] s[k]).assignment_id != (
    #[trigger] s[l]).assignment_id && s[k].node_id != s[l].node_id by {
        let x = if k < at { k } else { k - 1 };
        let y = if l < at { l } else { l - 1 };
        if k != at {
            assert(s[k] == p.assignments[x]);
            assert(assignment_valid(p.assignments[x], p.replicas));
        }
        if l != at {
            assert(s[l] == p.assignments[y]);
            assert(assignment_valid(p.assignments[y], p.replicas));
        }
        if k != at && l != at {
            assert(p.assignments[x].assignment_id != p.assignments[y].assignment_id);
        }
    }
    assert forall|k: int, l: int| 0 <= k < l < s.len() implies #[trigger] s[k].slot
        < #[trigger] s[l].slot by {
        let x = if k < at { k } else { k - 1 };
        let y = if l < at { l } else { l - 1 };
        if k != at {
            assert(s[k] == p.assignments[x]);
        }
        if l != at {
            assert(s[l] == p.assignments[y]);
        }
        if k != at && l != at {
            assert(p.assignments[x].slot < p.assignments[y].slot);
        } else if l == at {
            assert(!(p.assignments[x].slot > slot));
            assert(p.assignments[x].slot != slot);
        } else {
            if y > at {
                assert(p.assignments[at].slot < p.assignments[y].slot);
            }
        }
    }
}

impl PinningFile {
    /// Assigns a slot to a node: the slot that it has, with its lease extended,
    /// or the lowest free one. Assignments whose lease has run out are dropped
    /// first. `None` if the namespace is not pinned or no slot is free.
    pub fn claim(&mut self, namespace: &str, node_id: &str, lease_ms: u64, now_ms: u64) -> (r: Result<
        Mutation<Option<ReplicaClaim>>,
        Error,
    >)
        ensures
            ({
                let p = swept(old(self)@, now_ms);
                let i = of_node(p.assignments, node_id@);
                let slot = lowest_free(p.assignments, p.replicas as int, 0);
                if node_id@.len() == 0 || lease_ms == 0 {
                    r is Err && r->Err_0 is InvalidPinningClaim && *final(self) == *old(self)
                } else if p.replicas == 0 {
                    r is Ok && r->Ok_0.value() is None && final(self)@ == p && r->Ok_0 is Changed
                        == (p != old(self)@)
                } else if i < p.assignments.len() {
                    let a = renewed(p.assignments[i], lease_ms, now_ms);
                    &&& r is Ok
                    &&& r->Ok_0.value() is Some
                    &&& r->Ok_0.value()->Some_0@ == (ReplicaClaimView {
                        namespace: namespace@,
                        slot: a.slot,
                        node_id: node_id@,
                        assignment_id: a.assignment_id,
                    })
                    &&& final(self)@ == (PinningView {
                        assignments: p.assignments.update(i, a),
                        ..p
                    })
                    &&& r->Ok_0 is Changed == (a != p.assignments[i] || p != old(self)@)
                } else if slot >= p.replicas {
                    r is Ok && r->Ok_0 is Unchanged && r->Ok_0.value() is None && final(self)@ == p
                } else if p.next_assignment_id == u64::MAX {
                    r is Err && r->Err_0 is Corrupt && final(self)@ == p
                } else {
                    &&& r is Ok
                    &&& r->Ok_0 is Changed
                    &&& r->Ok_0.value() is Some
                    &&& r->Ok_0.value()->Some_0@ == (ReplicaClaimView {
                        namespace: namespace@,
                        slot: slot as u32,
                        node_id: node_id@,
                        assignment_id: p.next_assignment_id,
                    })
                    &&& final(self)@ == (PinningView {
                        next_assignment_id: (p.next_assignment_id + 1) as u64,
                        assignments: p.assignments.insert(
                            slot_position(p.assignments, slot as u32),
                            fresh_assignment(p, slot as u32, node_id@, lease_ms, now_ms),
                        ),
                        ..p
                    })
                }
            }),
            pinning_valid(old(self)@) && slots_sorted(old(self)@.assignments) ==> pinning_valid(
                final(self)@,
            ) && slots_sorted(final(self)@.assignments),
    {
        let ghost start = self@;
        match validate_claim_input(node_id, lease_ms) {
            Ok(_) => {},
            Err(e) => {
                return Err(e);
            },
        }
        let removed = self.remove_expired(now_ms);
        let ghost p = self@;
        assert(p == swept(start, now_ms));
        proof {
            if pinning_valid(start) && slots_sorted(start.assignments) {
                lemma_kept_valid(start, |x: AssignmentView| leased(x, now_ms), start.replicas);
            }
        }
        if self.replicas == 0 {
            return Ok(
                if removed {
                    Mutation::Changed(None)
                } else {
                    Mutation::Unchanged(None)
                },
            );
        }
        let i = find_node(&self.assignments, node_id);
        if i < self.assignments.len() {
            let mut a = copy_assignment(&self.assignments[i]);
            let ghost before = a@;
            let extended: u64 = now_ms.saturating_add(lease_ms);
            let changed = extended > a.lease_expires_at_ms;
            if changed {
                a.lease_expires_at_ms = extended;
            }
            let ghost after = a@;
            assert(after == renewed(before, lease_ms, now_ms));
            let claim = ReplicaClaim {
                namespace: namespace.to_owned(),
                slot: a.slot,
                node_id: node_id.to_owned(),
                assignment_id: a.assignment_id,
            };
            self.assignments.set(i, a);
            assert(self@.assignments =~= p.assignments.update(i as int, after));
            proof {
                if pinning_valid(p) && slots_sorted(p.assignments) {
                    assert(assignment_valid(p.assignments[i as int], p.replicas));
                    lemma_update_valid(p, i as int, after);
                }
                if !changed {
                    assert(after == before);
                }
            }
            return Ok(
                if changed || removed {
                    Mutation::Changed(Some(claim))
                } else {
                    Mutation::Unchanged(Some(claim))
                },
            );
        }
        let slot = find_free(&self.assignments, self.replicas);
        if slot >= self.replicas {
            return Ok(Mutation::Unchanged(None));
        }
        let assignment_id: u64 = self.next_assignment_id;
        match self.next_assignment_id.checked_add(1) {
            None => {
                return Err(corrupt("pinning assignment id exhausted"));
            },
            Some(next) => {
                self.next_assignment_id = next;
            },
        }
        let a = ReplicaAssignment {
            slot,
            node_id: node_id.to_owned(),
            assignment_id,
            status: ReplicaStatus::Warming,
            manifest_generation: 0,
            lease_expires_at_ms: now_ms.saturating_add(lease_ms),
            utilization: None,
        };
        let ghost fresh = a@;
        let at = find_position(&self.assignments, slot);
        self.assignments.insert(at, a);
        assert(self@.assignments =~= p.assignments.insert(at as int, fresh));
        proof {
            if pinning_valid(p) && slots_sorted(p.assignments) {
                lemma_lowest_free(p.assignments, p.replicas as int, 0);
                seqs::lemma_first_where(
                    p.assignments,
                    |x: AssignmentView| x.node_id == node_id@,
                );
                let q = |x: AssignmentView| x.node_id == node_id@;
                assert forall|k: int| 0 <= k < p.assignments.len() implies (
                #[trigger] p.assignments[k]).node_id != fresh.node_id by {
                    assert(!q(p.assignments[k]));
                }
                lemma_insert_valid(p, slot, fresh);
            }
        }
        Ok(
            Mutation::Changed(
                Some(
                    ReplicaClaim {
                        namespace: namespace.to_owned(),
                        slot,
                        node_id: node_id.to_owned(),
                        assignment_id,
                    },
                ),
            ),
        )
    }

    /// The position of the assignment that a claim holds.
    fn matching_assignment(&self, claim: &ReplicaClaim) -> (r: Result<usize, Error>)
        ensures
            ({
                let i = held_slot(self@.assignments, claim@);
                if i < self@.assignments.len() {
                    r is Ok && r->Ok_0 == i
                } else {
                    r is Err && r->Err_0 is InvalidPinningClaim
                }
            }),
    {
        let i = find_slot(&self.assignments, claim.slot);
        if i >= self.assignments.len() {
            return Err(stale_claim(claim, "slot is no longer assigned"));
        }
        let a = &self.assignments[i];
        assert(self@.assignments[i as int] == a@);
        if a.assignment_id != claim.assignment_id || !same_text(
            a.node_id.as_str(),
            claim.node_id.as_str(),
        ) {
            return Err(stale_claim(claim, "slot is owned by another assignment"));
        }
        Ok(i)
    }

    /// Reports what a replica does, and extends its lease. A claim whose lease
    /// has run out, or whose slot has gone to another assignment, is rejected.
    pub fn heartbeat(
        &mut self,
        claim: &ReplicaClaim,
        status: ReplicaStatus,
        manifest_generation: u64,
        utilization: Option<u32>,
        lease_ms: u64,
        now_ms: u64,
    ) -> (r: Result<Mutation<()>, Error>)
        ensures
            ({
                let p = old(self)@;
                let i = held_slot(p.assignments, claim@);
                if claim@.node_id.len() == 0 || lease_ms == 0 || (utilization matches Some(bits)
                    && !is_fraction(bits)) || i >= p.assignments.len() || !leased(
                    p.assignments[i],
                    now_ms,
                ) {
                    r is Err && r->Err_0 is InvalidPinningClaim && *final(self) == *old(self)
                } else {
                    &&& r is Ok
                    &&& r->Ok_0 is Changed
                    &&& final(self)@ == (PinningView {
                        assignments: p.assignments.update(
                            i,
                            AssignmentView {
                                status,
                                manifest_generation,
                                utilization,
                                ..renewed(p.assignments[i], lease_ms, now_ms)
                            },
                        ),
                        ..p
                    })
                }
            }),
            pinning_valid(old(self)@) && slots_sorted(old(self)@.assignments) ==> pinning_valid(
                final(self)@,
            ) && slots_sorted(final(self)@.assignments),
    {
        let ghost p = self@;
        match validate_claim_input(claim.node_id.as_str(), lease_ms) {
            Ok(_) => {},
            Err(e) => {
                return Err(e);
            },
        }
        match validate_utilization(utilization) {
            Ok(_) => {},
            Err(e) => {
                return Err(e);
            },
        }
        let i = match self.matching_assignment(claim) {
            Ok(i) => i,
            Err(e) => {
                return Err(e);
            },
        };
        let mut a = copy_assignment(&self.assignments[i]);
        let ghost before = a@;
        if a.lease_expires_at_ms <= now_ms {
            return Err(stale_claim(claim, "lease has expired"));
        }
        let extended: u64 = now_ms.saturating_add(lease_ms);
        if extended > a.lease_expires_at_ms {
            a.lease_expires_at_ms = extended;
        }
        a.status = status;
        a.manifest_generation = manifest_generation;
        a.utilization = utilization;
        let ghost after = a@;
        assert(after == (AssignmentView {
            status,
            manifest_generation,
            utilization,
            ..renewed(before, lease_ms, now_ms)
        }));
        self.assignments.set(i, a);
        assert(self@.assignments =~= p.assignments.update(i as int, after));
        proof {
            if pinning_valid(p) && slots_sorted(p.assignments) {
                lemma_update_valid(p, i as int, after);
            }
        }
        Ok(Mutation::Changed(()))
    }

    /// Gives a slot back.
    pub fn release(&mut self, claim: &ReplicaClaim) -> (r: Result<Mutation<()>, Error>)
        ensures
            ({
                let p = old(self)@;
                let i = held_slot(p.assignments, claim@);
                if i >= p.assignments.len() {
                    r is Err && r->Err_0 is InvalidPinningClaim && *final(self) == *old(self)
                } else {
                    &&& r is Ok
                    &&& r->Ok_0 is Changed
                    &&& final(self)@ == (PinningView { assignments: p.assignments.remove(i), ..p })
                }
            }),
            pinning_valid(old(self)@) && slots_sorted(old(self)@.assignments) ==> pinning_valid(
                final(self)@,
            ) && slots_sorted(final(self)@.assignments),
    {
        let ghost p = self@;
        let i = match self.matching_assignment(claim) {
            Ok(i) => i,
            Err(e) => {
                return Err(e);
            },
        };
        let _released = self.assignments.remove(i);
        assert(self@.assignments =~= p.assignments.remove(i as int));
        proof {
            if pinning_valid(p) && slots_sorted(p.assignments) {
                lemma_remove_valid(p, i as int);
            }
        }
        Ok(Mutation::Changed(()))
    }

    /// Counts a change of the stored state.
    pub fn bump_revision(&mut self) -> (r: Result<(), Error>)
        ensures
            old(self).revision == u64::MAX ==> r is Err && r->Err_0 is Corrupt && *final(self)
                == *old(self),
            old(self).revision < u64::MAX ==> r is Ok && final(self)@ == (PinningView {
                revision: (old(self).revision + 1) as u64,
                ..old(self)@
            }),
    {
        match self.revision.checked_add(1) {
            None => Err(corrupt("pinning revision exhausted")),
            Some(revision) => {
                self.revision = revision;
                Ok(())
            },
        }
    }

    /// How the namespace is pinned; `None` if it is not.
    pub fn metadata(&self, current_generation: u64, now_ms: u64) -> (r: Option<PinningMetadata>)
        ensures
            self@.replicas == 0 ==> r is None,
            self@.replicas > 0 ==> r is Some && {
                let m = r->Some_0;
                let live = leased_only(self@.assignments, now_ms);
                let ready = seqs::kept(
                    self@.assignments,
                    |a: AssignmentView| serves(a, current_generation, now_ms),
                );
                &&& m.replicas == self@.replicas
                &&& m.assigned_replicas == live.len()
                &&& m.ready_replicas == ready.len()
                &&& m.utilizations@ == reported(ready)
            },
    {
        if self.replicas == 0 {
            return None;
        }
        let ghost a = self@.assignments;
        let ghost is_leased = |x: AssignmentView| leased(x, now_ms);
        let ghost is_ready = |x: AssignmentView| serves(x, current_generation, now_ms);
        let mut assigned: usize = 0;
        let mut ready: usize = 0;
        let mut utilizations: Vec<u32> = Vec::new();
        let mut i: usize = 0;
        assert(a.take(0) =~= Seq::empty());
        assert(utilizations@ =~= reported(Seq::empty()));
        while i < self.assignments.len()
            invariant
                i <= self.assignments@.len(),
                a == self@.assignments,
                is_leased == (|x: AssignmentView| leased(x, now_ms)),
                is_ready == (|x: AssignmentView| serves(x, current_generation, now_ms)),
                assigned <= i,
                ready <= i,
                assigned == seqs::kept(a.take(i as int), is_leased).len(),
                ready == seqs::kept(a.take(i as int), is_ready).len(),
                utilizations@ == reported(seqs::kept(a.take(i as int), is_ready)),
            decreases self.assignments@.len() - i,
        {
            let x = &self.assignments[i];
            assert(a[i as int] == x@);
            let ghost front = seqs::kept(a.take(i as int), is_ready);
            proof {
                seqs::lemma_kept_next(a, is_leased, i as int);
                seqs::lemma_kept_next(a, is_ready, i as int);
            }
            if x.lease_expires_at_ms > now_ms {
                assigned = assigned + 1;
                if x.status == ReplicaStatus::Ready && x.manifest_generation
                    == current_generation {
                    ready = ready + 1;
                    assert(front.push(x@).drop_last() =~= front);
                    if let Some(bits) = x.utilization {
                        utilizations.push(bits);
                    }
                }
            }
            i = i + 1;
        }
        assert(a.take(i as int) =~= a);
        Some(
            PinningMetadata {
                replicas: self.replicas,
                assigned_replicas: assigned,
                ready_replicas: ready,
                utilizations,
            },
        )
    }

    /// The replica that serves a request of a generation: one of the ready ones,
    /// picked by the hash of the namespace and the request key.
    pub fn route(
        &self,
        namespace: &str,
        request_key: &[u8],
        manifest_generation: u64,
        now_ms: u64,
    ) -> (r: Option<ReplicaRoute>)
        ensures
            ({
                let ready = seqs::kept(
                    self@.assignments,
                    |a: AssignmentView| serves(a, manifest_generation, now_ms),
                );
                if ready.len() == 0 {
                    r is None
                } else {
                    let hash = route_hash_of(vstd::utf8::encode_utf8(namespace@), request_key@);
                    let a = ready[(hash as usize) as int % ready.len() as int];
                    &&& r is Some
                    &&& r->Some_0.slot == a.slot
                    &&& r->Some_0.node_id@ == a.node_id
                    &&& r->Some_0.assignment_id == a.assignment_id
                }
            }),
    {
        let ghost a = self@.assignments;
        let ghost is_ready = |x: AssignmentView| serves(x, manifest_generation, now_ms);
        let mut ready: Vec<usize> = Vec::new();
        let mut i: usize = 0;
        assert(a.take(0) =~= Seq::empty());
        while i < self.assignments.len()
            invariant
                i <= self.assignments@.len(),
                a == self@.assignments,
                is_ready == (|x: AssignmentView| serves(x, manifest_generation, now_ms)),
                ready@.len() == seqs::kept(a.take(i as int), is_ready).len(),
                forall|k: int|
                    0 <= k < ready@.len() ==> #[trigger] ready@[k] < i && a[ready@[k] as int]
                        == seqs::kept(a.take(i as int), is_ready)[k],
            decreases self.assignments@.len() - i,
        {
            let x = &self.assignments[i];
            assert(a[i as int] == x@);
            proof {
                seqs::lemma_kept_next(a, is_ready, i as int);
            }
            if x.lease_expires_at_ms > now_ms && x.status == ReplicaStatus::Ready
                && x.manifest_generation == manifest_generation {
                ready.push(i);
            }
            i = i + 1;
        }
        assert(a.take(i as int) =~= a);
        if ready.len() == 0 {
            return None;
        }
        let hash = route_hash(namespace, request_key);
        let pick: usize = hash as usize % ready.len();
        let x = &self.assignments[ready[pick]];
        assert(a[ready@[pick as int] as int] == x@);
        Some(
            ReplicaRoute {
                slot: x.slot,
                node_id: x.node_id.clone(),
                assignment_id: x.assignment_id,
            },
        )
    }
}

proof fn lemma_remove_valid(p: PinningView, i: int)
    requires
        pinning_valid(p),
        slots_sorted(p.assignments),
        0 <= i < p.assignments.len(),
    ensures
        pinning_valid(PinningView { assignments: p.assignments.remove(i), ..p }),
        slots_sorted(p.assignments.remove(i)),
{
    let s = p.assignments.remove(i);
    assert forall|k: int| 0 <= k < s.len() implies assignment_valid(#[trigger] s[k], p.replicas)
        && s[k].assignment_id < p.next_assignment_id by {
        let x = if k < i { k } else { k + 1 };
        assert(s[k] == p.assignments[x]);
        assert(assignment_valid(p.assignments[x], p.replicas));
    }
    assert forall|k: int, l: int| 0 <= k < l < s.len() implies (#[trigger] s[k]).assignment_id != (
    #[trigger] s[l]).assignment_id && s[k].node_id != s[l].node_id && s[k].slot < s[l].slot by {
        let x = if k < i { k } else { k + 1 };
        let y = if l < i { l } else { l + 1 };
        assert(s[k] == p.assignments[x]);
        assert(s[l] == p.assignments[y]);
        assert(p.assignments[x].assignment_id != p.assignments[y].assignment_id);
        assert(p.assignments[x].slot < p.assignments[y].slot);
    }
    assert forall|k: int, l: int| 0 <= k < l < s.len() implies #[trigger] s[k].slot
        < #[trigger] s[l].slot by {
        assert(s[k].assignment_id != s[l].assignment_id);
    }
}

/// The utilizations that assignments report, in order.
pub open spec fn reported(a: Seq<AssignmentView>) -> Seq<u32>
    decreases a.len(),
{
    if a.len() == 0 {
        Seq::empty()
    } else {
        match a.last().utilization {
            Some(bits) => reported(a.drop_last()).push(bits),
            None => reported(a.drop_last()),
        }
    }
}

/// The hash that picks a replica: FNV-1a over the name, a separator byte that no
/// text contains, and the request key.
pub open spec fn route_hash_of(namespace: Seq<u8>, request_key: Seq<u8>) -> u64 {
    hash::fnv1a(FNV_OFFSET, namespace + seq![0xffu8] + request_key)
}

/// The hash that picks a replica.
pub fn route_hash(namespace: &str, request_key: &[u8]) -> (h: u64)
    ensures
        h == route_hash_of(vstd::utf8::encode_utf8(namespace@), request_key@),
{
    let separator: [u8; 1] = [0xff];
    let a = fnv1a_continue(FNV_OFFSET, namespace.as_bytes());
    let b = fnv1a_continue(a, separator.as_slice());
    let c = fnv1a_continue(b, request_key);
    proof {
        let name = vstd::utf8::encode_utf8(namespace@);
        assert(separator@ =~= seq![0xffu8]);
        hash::lemma_fnv1a_concat(FNV_OFFSET, name, seq![0xffu8]);
        hash::lemma_fnv1a_concat(FNV_OFFSET, name + seq![0xffu8], request_key@);
    }
    c
}

/// A slot that has been given to another node fences the node that held it: the
/// new assignment has a number that no earlier claim has.
pub proof fn law_reassignment_fences_old_claims(
    p: PinningView,
    slot: u32,
    node: Seq<char>,
    lease_ms: u64,
    now_ms: u64,
    old_claim: ReplicaClaimView,
)
    requires
        pinning_valid(p),
        slots_sorted(p.assignments),
        !taken(p.assignments, slot as int),
        old_claim.slot == slot,
        old_claim.assignment_id < p.next_assignment_id,
    ensures
        ({
            let s = p.assignments.insert(
                slot_position(p.assignments, slot),
                fresh_assignment(p, slot, node, lease_ms, now_ms),
            );
            held_slot(s, old_claim) >= s.len()
        }),
{
    let at = slot_position(p.assignments, slot);
    seqs::lemma_first_where(p.assignments, |x: AssignmentView| x.slot > slot);
    let fresh = fresh_assignment(p, slot, node, lease_ms, now_ms);
    let s = p.assignments.insert(at, fresh);
    let q = |x: AssignmentView| x.slot == slot;
    assert forall|j: int| 0 <= j < at implies !q(#[trigger] s[j]) by {
        assert(s[j] == p.assignments[j]);
    }
    seqs::lemma_first_is(s, q, at);
}

/// A request is routed only to a replica that is leased, ready, and serves
/// exactly the generation asked for.
pub proof fn law_route_serves_the_generation(
    p: PinningView,
    generation: u64,
    now_ms: u64,
    i: int,
)
    requires
        0 <= i < seqs::kept(
            p.assignments,
            |a: AssignmentView| serves(a, generation, now_ms),
        ).len(),
    ensures
        ({
            let a = seqs::kept(
                p.assignments,
                |a: AssignmentView| serves(a, generation, now_ms),
            )[i];
            serves(a, generation, now_ms) && p.assignments.contains(a)
        }),
{
    seqs::lemma_kept_from(p.assignments, |a: AssignmentView| serves(a, generation, now_ms), i);
}

/// A slot that is given out is free, and all slots below it are taken; where none is
/// given out, all are taken.
pub proof fn law_lowest_free_slot_is_given_out(a: Seq<AssignmentView>, replicas: int, slot: int)
    requires
        0 <= slot < replicas,
    ensures
        slot < lowest_free(a, replicas, 0) ==> exists|i: int|
            0 <= i < a.len() && (#[trigger] a[i]).slot == slot,
        slot == lowest_free(a, replicas, 0) ==> forall|i: int|
            0 <= i < a.len() ==> (#[trigger] a[i]).slot != slot,
        0 <= lowest_free(a, replicas, 0) <= replicas,
{
    lemma_lowest_from(a, replicas, 0, slot);
}

proof fn lemma_lowest_from(a: Seq<AssignmentView>, replicas: int, from: int, slot: int)
    requires
        0 <= from <= replicas,
        0 <= slot < replicas,
    ensures
        from <= lowest_free(a, replicas, from) <= replicas,
        from <= slot < lowest_free(a, replicas, from) ==> taken(a, slot),
        slot == lowest_free(a, replicas, from) ==> !taken(a, slot),
    decreases replicas - from,
{
    if from < replicas && taken(a, from) {
        lemma_lowest_from(a, replicas, from + 1, slot);
    }
}

/// A request goes only to a replica whose lease lasts beyond now, that is ready, and that
/// serves exactly the generation asked for; and every such replica is among those that
/// requests are shared out to.
pub proof fn law_requests_go_to_ready_replicas(
    p: PinningView,
    generation: u64,
    now_ms: u64,
    a: AssignmentView,
)
    ensures
        seqs::kept(
            p.assignments,
            |a: AssignmentView| serves(a, generation, now_ms),
        ).contains(a) <==> p.assignments.contains(a) && a.lease_expires_at_ms > now_ms && a.status
            == ReplicaStatus::Ready && a.manifest_generation == generation,
        leased_only(p.assignments, now_ms).contains(a) <==> p.assignments.contains(a)
            && a.lease_expires_at_ms > now_ms,
{
    lemma_kept_has(p.assignments, |a: AssignmentView| serves(a, generation, now_ms), a);
    lemma_kept_has(p.assignments, |a: AssignmentView| leased(a, now_ms), a);
}

proof fn lemma_kept_has(
    s: Seq<AssignmentView>,
    p: spec_fn(AssignmentView) -> bool,
    x: AssignmentView,
)
    ensures
        seqs::kept(s, p).contains(x) <==> s.contains(x) && p(x),
    decreases s.len(),
{
    if s.len() > 0 {
        let front = s.drop_last();
        lemma_kept_has(front, p, x);
        let kept = seqs::kept(front, p);
        let all = seqs::kept(s, p);
        if kept.contains(x) {
            let k = kept.index_of(x);
            assert(all[k] == x);
            let i = front.index_of(x);
            assert(s[i] == x);
        }
        if p(s.last()) && s.last() == x {
            assert(all[kept.len() as int] == x);
            assert(s[s.len() - 1] == x);
        }
        if all.contains(x) {
            let k = all.index_of(x);
            if k < kept.len() {
                assert(kept[k] == x);
            } else {
                assert(s[s.len() - 1] == x);
            }
        }
        if s.contains(x) && p(x) && x != s.last() {
            let i = s.index_of(x);
            assert(front[i] == x);
        }
    }
}

/// A claim holds a slot exactly if that slot is assigned to the node of the claim under
/// its number.
pub proof fn law_claim_holds_its_own_slot(a: Seq<AssignmentView>, c: ReplicaClaimView)
    requires
        slots_sorted(a),
    ensures
        held_slot(a, c) < a.len() <==> exists|i: int|
            0 <= i < a.len() && (#[trigger] a[i]).slot == c.slot && a[i].node_id == c.node_id
                && a[i].assignment_id == c.assignment_id,
        held_slot(a, c) < a.len() ==> 0 <= held_slot(a, c) && a[held_slot(a, c)].slot == c.slot
            && a[held_slot(a, c)].node_id == c.node_id && a[held_slot(a, c)].assignment_id
            == c.assignment_id,
{
    let p = |x: AssignmentView| x.slot == c.slot;
    seqs::lemma_first_where(a, p);
    let n = of_slot(a, c.slot);
    if n < a.len() {
        assert(p(a[n]));
    }
    if exists|i: int|
        0 <= i < a.len() && (#[trigger] a[i]).slot == c.slot && a[i].node_id == c.node_id
            && a[i].assignment_id == c.assignment_id {
        let i = choose|i: int|
            0 <= i < a.len() && (#[trigger] a[i]).slot == c.slot && a[i].node_id == c.node_id
                && a[i].assignment_id == c.assignment_id;
        assert(p(a[i]));
        if n < i {
            assert(a[n].slot < a[i].slot);
        } else if i < n {
            assert(!p(a[i]));
        }
    }
}

/// A new assignment warms up first: it serves nothing yet, whatever is asked for. Its
/// lease lasts as long as asked for, and a renewed one never shorter than before.
pub proof fn law_new_replica_warms_up_first(
    p: PinningView,
    slot: u32,
    node: Seq<char>,
    lease_ms: u64,
    now_ms: u64,
    generation: u64,
    when: u64,
    a: AssignmentView,
)
    requires
        now_ms + lease_ms <= u64::MAX,
    ensures
        !serves(fresh_assignment(p, slot, node, lease_ms, now_ms), generation, when),
        fresh_assignment(p, slot, node, lease_ms, now_ms).lease_expires_at_ms == now_ms + lease_ms,
        fresh_assignment(p, slot, node, lease_ms, now_ms).slot == slot,
        fresh_assignment(p, slot, node, lease_ms, now_ms).node_id == node,
        fresh_assignment(p, slot, node, lease_ms, now_ms).assignment_id == p.next_assignment_id,
        renewed(a, lease_ms, now_ms).lease_expires_at_ms >= a.lease_expires_at_ms,
        renewed(a, lease_ms, now_ms).lease_expires_at_ms >= now_ms + lease_ms,
        renewed(a, lease_ms, now_ms).lease_expires_at_ms == a.lease_expires_at_ms || renewed(
            a,
            lease_ms,
            now_ms,
        ).lease_expires_at_ms == now_ms + lease_ms,
        renewed(a, lease_ms, now_ms).slot == a.slot,
        renewed(a, lease_ms, now_ms).node_id == a.node_id,
        renewed(a, lease_ms, now_ms).assignment_id == a.assignment_id,
        renewed(a, lease_ms, now_ms).status == a.status,
{
}

/// The sum of some utilizations is what they come to together, from the first on, where
/// nothing needs rounding.
pub proof fn law_utilizations_are_added<M: Fn(Step) -> u32>(
    calc: M,
    numbers: Seq<u32>,
    n: int,
    sums: Seq<real>,
)
    requires
        rounding::rounds(calc),
        0 <= n <= numbers.len(),
        sums.len() == numbers.len() + 1,
        sums[0] == 0real,
        forall|i: int|
            0 <= i < numbers.len() ==> rounding::is_number(#[trigger] numbers[i])
                && rounding::has_bits(sums[i + 1]) && sums[i + 1] == sums[i] + rounding::number(
                numbers[i],
            ),
    ensures
        rounding::is_number(sum_of(calc, numbers, n)),
        rounding::number(sum_of(calc, numbers, n)) == sums[n],
    decreases n,
{
    if n <= 0 {
        rounding::lemma_constants();
    } else {
        law_utilizations_are_added(calc, numbers, n - 1, sums);
        assert(rounding::is_number(numbers[n - 1]));
        rounding::lemma_exact_step(
            calc,
            Step::Add(sum_of(calc, numbers, n - 1), numbers[n - 1]),
            sums[n],
        );
    }
}

/// A utilization is a number from zero to one.
pub proof fn law_utilization_is_a_fraction(bits: u32)
    requires
        rounding::is_number(bits),
    ensures
        is_fraction(bits) <==> 0real <= rounding::number(bits) <= 1real,
{
    rounding::lemma_constants();
    rounding::lemma_zeros(0);
    rounding::lemma_places(bits, 0);
    rounding::lemma_places(arithmetic::ONE, bits);
}

/// Of the assignments those stay whose lease runs on, in their order, and no other.
pub proof fn law_expired_assignments_are_dropped(p: PinningView, now_ms: u64, x: AssignmentView)
    ensures
        swept(p, now_ms).assignments.contains(x) <==> p.assignments.contains(x)
            && x.lease_expires_at_ms > now_ms,
{
    lemma_still_leased(p.assignments, now_ms, x);
}

proof fn lemma_still_leased(a: Seq<AssignmentView>, now_ms: u64, x: AssignmentView)
    ensures
        leased_only(a, now_ms).contains(x) <==> a.contains(x) && leased(x, now_ms),
    decreases a.len(),
{
    let all = leased_only(a, now_ms);
    if a.len() > 0 {
        let front = leased_only(a.drop_last(), now_ms);
        lemma_still_leased(a.drop_last(), now_ms, x);
        assert(all == if leased(a.last(), now_ms) {
            front.push(a.last())
        } else {
            front
        });
        if a.contains(x) {
            let i = a.index_of(x);
            if i < a.len() - 1 {
                assert(a.drop_last()[i] == x);
            }
        }
        if a.drop_last().contains(x) {
            let i = a.drop_last().index_of(x);
            assert(a[i] == x);
        }
        if front.contains(x) {
            let k = front.index_of(x);
            assert(all[k] == x);
        }
        if all.contains(x) {
            let k = all.index_of(x);
            if k < front.len() {
                assert(front[k] == x);
            }
        }
        if a.last() == x && leased(x, now_ms) {
            assert(all[front.len() as int] == x);
            assert(a[a.len() - 1] == x);
        }
    }
}

/// The highest number is no lower than any, and is that of an assignment where there is one
/// with a number above zero.
pub proof fn law_highest_number_is_that_of_an_assignment(a: Seq<AssignmentView>, n: int, i: int)
    requires
        0 <= i < n <= a.len(),
    ensures
        a[i].assignment_id <= highest_assignment(a, n),
        highest_assignment(a, n) == 0 || exists|k: int|
            0 <= k < n && (#[trigger] a[k]).assignment_id == highest_assignment(a, n),
    decreases n,
{
    if n > 1 {
        law_highest_number_is_that_of_an_assignment(
            a,
            n - 1,
            if i < n - 1 {
                i
            } else {
                0
            },
        );
    } else {
        assert(highest_assignment(a, 0) == 0);
    }
    assert(a[n - 1].assignment_id == a[n - 1].assignment_id);
}

} // verus!
