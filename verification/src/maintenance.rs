//! Background maintenance: the lease that makes one process the leader, the policy
//! that decides what a namespace needs, and the two-pass removal of orphans.

use vstd::prelude::*;
use vstd::string::*;

use crate::phrase;
use crate::phrase::say;
use crate::index_queue;
use crate::error::{corrupt, Error};
use crate::index_queue::Mutation;
use crate::manifest::{NamespaceManifest, VectorIndexMeta};
use crate::strings;
use crate::strings::{push_decimal, same_text};
use crate::textmap::{TextMap, TextSet};
use crate::wal::WalCursor;

verus! {

pub const MAINTENANCE_LEASE_FORMAT_VERSION: u32 = 1;

/// The key of the lease file.
pub fn maintenance_lease_key() -> (key: String)
    ensures
        key@ == "jobs/maintenance_leader.json"@,
{
    "jobs/maintenance_leader.json".to_owned()
}

/// Who leads, under which token, and until when.
#[derive(Debug)]
pub struct MaintenanceLease {
    pub owner_id: String,
    pub fencing_token: u64,
    pub lease_expires_at_ms: u64,
}

/// What a lease stands for.
pub struct LeaseView {
    pub owner_id: Seq<char>,
    pub fencing_token: u64,
    pub lease_expires_at_ms: u64,
}

impl View for MaintenanceLease {
    type V = LeaseView;

    open spec fn view(&self) -> LeaseView {
        LeaseView {
            owner_id: self.owner_id@,
            fencing_token: self.fencing_token,
            lease_expires_at_ms: self.lease_expires_at_ms,
        }
    }
}

impl Clone for MaintenanceLease {
    fn clone(&self) -> (r: MaintenanceLease)
        ensures
            r@ == self@,
    {
        MaintenanceLease {
            owner_id: self.owner_id.clone(),
            fencing_token: self.fencing_token,
            lease_expires_at_ms: self.lease_expires_at_ms,
        }
    }
}

/// The lease file: the leader, if there is one, and the next token to hand out.
#[derive(Debug)]
pub struct MaintenanceLeaseFile {
    pub format_version: u32,
    pub revision: u64,
    pub next_fencing_token: u64,
    pub owner: Option<MaintenanceLease>,
}

/// What a lease file stands for.
#[verifier::ext_equal]
pub struct LeaseFileView {
    pub format_version: u32,
    pub revision: u64,
    pub next_fencing_token: u64,
    pub owner: Option<LeaseView>,
}

pub open spec fn lease_view(owner: Option<MaintenanceLease>) -> Option<LeaseView> {
    match owner {
        None => None,
        Some(lease) => Some(lease@),
    }
}

impl View for MaintenanceLeaseFile {
    type V = LeaseFileView;

    open spec fn view(&self) -> LeaseFileView {
        LeaseFileView {
            format_version: self.format_version,
            revision: self.revision,
            next_fencing_token: self.next_fencing_token,
            owner: lease_view(self.owner),
        }
    }
}

/// A lease file is in this format, and its next token is above zero and above the
/// token of its leader, who has a name and a token above zero.
pub open spec fn lease_file_valid(f: LeaseFileView) -> bool {
    &&& f.format_version == MAINTENANCE_LEASE_FORMAT_VERSION
    &&& f.next_fencing_token > 0
    &&& f.owner matches Some(owner) ==> {
        &&& owner.owner_id.len() > 0
        &&& owner.fencing_token > 0
        &&& owner.fencing_token < f.next_fencing_token
    }
}

/// What is wrong with a stored lease file, if anything is.
pub open spec fn lease_complaint(f: LeaseFileView) -> Option<Seq<char>> {
    if f.format_version != MAINTENANCE_LEASE_FORMAT_VERSION {
        Some(
            "unsupported maintenance lease format version "@ + strings::decimal(
                f.format_version as nat,
            ),
        )
    } else if f.next_fencing_token == 0 {
        Some("maintenance lease next fencing token cannot be zero"@)
    } else {
        match f.owner {
            None => None,
            Some(owner) => if owner.owner_id.len() == 0 {
                Some("maintenance lease owner id cannot be empty"@)
            } else if owner.fencing_token == 0 {
                Some("maintenance lease owner has a zero fencing token"@)
            } else if f.next_fencing_token <= owner.fencing_token {
                Some(
                    "maintenance lease next fencing token "@ + strings::decimal(
                        f.next_fencing_token as nat,
                    ) + " is not above live token "@ + strings::decimal(
                        owner.fencing_token as nat,
                    ),
                )
            } else {
                None
            },
        }
    }
}

/// A lease is live until the time at which it expires.
pub open spec fn lease_live(f: LeaseFileView, now: u64) -> bool {
    f.owner matches Some(owner) && owner.lease_expires_at_ms > now
}

/// A leader's lease made to last at least `lease_ms` more.
pub open spec fn renewed(owner: LeaseView, lease_ms: u64, now: u64) -> LeaseView {
    LeaseView {
        lease_expires_at_ms: index_queue::max_u64(owner.lease_expires_at_ms, index_queue::later(now, lease_ms)),
        ..owner
    }
}

/// What a claim does: while a lease is live it goes to its owner alone, and is
/// renewed; otherwise it is given out under the next token. `None` if there is no
/// next token.
pub open spec fn claimed(f: LeaseFileView, owner_id: Seq<char>, lease_ms: u64, now: u64) -> Option<
    (LeaseFileView, Option<LeaseView>),
> {
    if lease_live(f, now) {
        let owner = f.owner->Some_0;
        if owner.owner_id != owner_id {
            Some((f, None))
        } else {
            let lease = renewed(owner, lease_ms, now);
            Some((LeaseFileView { owner: Some(lease), ..f }, Some(lease)))
        }
    } else if f.next_fencing_token == u64::MAX {
        None
    } else {
        let lease = LeaseView {
            owner_id,
            fencing_token: f.next_fencing_token,
            lease_expires_at_ms: index_queue::later(now, lease_ms),
        };
        Some(
            (
                LeaseFileView {
                    owner: Some(lease),
                    next_fencing_token: (f.next_fencing_token + 1) as u64,
                    ..f
                },
                Some(lease),
            ),
        )
    }
}

/// The lease is the one in the file, and live.
pub open spec fn holds_lease(f: LeaseFileView, lease: LeaseView, now: u64) -> bool {
    &&& lease_live(f, now)
    &&& f.owner->Some_0.owner_id == lease.owner_id
    &&& f.owner->Some_0.fencing_token == lease.fencing_token
}

fn stale(lease: &MaintenanceLease, reason: &str) -> (e: Error)
    ensures
        e is InvalidMaintenanceLease,
        e->InvalidMaintenanceLease_0@ == "maintenance lease token "@ + strings::decimal(
            lease.fencing_token as nat,
        ) + " for owner "@ + phrase::quoted(lease.owner_id@) + ": "@ + reason@,
{
    Error::InvalidMaintenanceLease(
        say("maintenance lease token ").number(lease.fencing_token).and(" for owner ").quote(
            lease.owner_id.as_str(),
        ).and(": ").and(reason).done(),
    )
}

/// The name of the machine: that of the pod if it has one, or else of the host.
pub open spec fn machine_name(pod: Option<&str>, host: Option<&str>) -> Option<Seq<char>> {
    if pod is Some && pod->Some_0@.len() > 0 {
        Some(pod->Some_0@)
    } else if host is Some && host->Some_0@.len() > 0 {
        Some(host->Some_0@)
    } else {
        None
    }
}

/// What a process calls itself: its role, its machine if that has a name, and its
/// number.
pub fn default_maintenance_owner_id(
    role: &str,
    pod: Option<&str>,
    host: Option<&str>,
    process: u64,
) -> (id: String)
    ensures
        id@ == (match machine_name(pod, host) {
            Some(name) => role@ + "-"@ + name + "-"@ + strings::decimal(process as nat),
            None => role@ + "-"@ + strings::decimal(process as nat),
        }),
{
    let mut id = role.to_owned();
    id.append("-");
    let mut named = false;
    if let Some(name) = pod {
        if name.unicode_len() > 0 {
            id.append(name);
            id.append("-");
            named = true;
        }
    }
    if !named {
        if let Some(name) = host {
            if name.unicode_len() > 0 {
                id.append(name);
                id.append("-");
            }
        }
    }
    push_decimal(&mut id, process);
    id
}

/// A claim needs an owner's name and a duration.
pub open spec fn lease_input_valid(owner_id: Seq<char>, lease_ms: u64) -> bool {
    owner_id.len() > 0 && lease_ms > 0
}

/// Checks the arguments of a claim.
pub fn validate_lease_input(owner_id: &str, lease_ms: u64) -> (r: Result<(), Error>)
    ensures
        lease_input_valid(owner_id@, lease_ms) ==> r is Ok,
        !lease_input_valid(owner_id@, lease_ms) ==> r is Err
            && r->Err_0 is InvalidMaintenanceLease,
{
    if owner_id.is_empty() {
        return Err(Error::InvalidMaintenanceLease("owner id cannot be empty".to_owned()));
    }
    if lease_ms == 0 {
        return Err(Error::InvalidMaintenanceLease("lease duration must be positive".to_owned()));
    }
    Ok(())
}

fn expiry(now: u64, lease_ms: u64) -> (t: u64)
    ensures
        t == index_queue::later(now, lease_ms),
{
    match now.checked_add(lease_ms) {
        Some(t) => t,
        None => 0xffff_ffff_ffff_ffff,
    }
}

impl MaintenanceLeaseFile {
    /// A lease file that nobody has claimed yet.
    pub fn empty() -> (f: MaintenanceLeaseFile)
        ensures
            f@ == (LeaseFileView {
                format_version: MAINTENANCE_LEASE_FORMAT_VERSION,
                revision: 0,
                next_fencing_token: 1,
                owner: None,
            }),
            lease_file_valid(f@),
    {
        MaintenanceLeaseFile {
            format_version: MAINTENANCE_LEASE_FORMAT_VERSION,
            revision: 0,
            next_fencing_token: 1,
            owner: None,
        }
    }

    /// Refuses a damaged lease file.
    pub fn validate(&self) -> (r: Result<(), Error>)
        ensures
            lease_file_valid(self@) ==> r is Ok,
            !lease_file_valid(self@) ==> r is Err && r->Err_0 is Corrupt,
            r is Err ==> lease_complaint(self@) == Some(r->Err_0->Corrupt_0@),
    {
        if self.format_version != MAINTENANCE_LEASE_FORMAT_VERSION {
            return Err(Error::Corrupt(
                    say("unsupported maintenance lease format version ").number(
                        self.format_version as u64,
                    ).done(),
                ));
        }
        if self.next_fencing_token == 0 {
            return Err(corrupt("maintenance lease next fencing token cannot be zero"));
        }
        if let Some(owner) = &self.owner {
            if owner.owner_id.as_str().is_empty() {
                return Err(corrupt("maintenance lease owner id cannot be empty"));
            }
            if owner.fencing_token == 0 {
                return Err(corrupt("maintenance lease owner has a zero fencing token"));
            }
            if self.next_fencing_token <= owner.fencing_token {
                return Err(Error::Corrupt(
                        say("maintenance lease next fencing token ").number(
                            self.next_fencing_token,
                        ).and(" is not above live token ").number(owner.fencing_token).done(),
                    ));
            }
        }
        Ok(())
    }

    /// Claims the lease.
    pub fn claim(&mut self, owner_id: &str, lease_ms: u64, now: u64) -> (r: Result<
        Mutation<Option<MaintenanceLease>>,
        Error,
    >)
        ensures
            !lease_input_valid(owner_id@, lease_ms) ==> r is Err
                && r->Err_0 is InvalidMaintenanceLease && final(self)@ == old(self)@,
            lease_input_valid(owner_id@, lease_ms) ==> match claimed(
                old(self)@,
                owner_id@,
                lease_ms,
                now,
            ) {
                None => r is Err && r->Err_0 is Corrupt && final(self)@ == old(self)@,
                Some((f, lease)) => {
                    &&& r is Ok
                    &&& final(self)@ == f
                    &&& lease_view(r->Ok_0.value()) == lease
                    &&& r->Ok_0 is Changed == (f != old(self)@)
                },
            },
    {
        match validate_lease_input(owner_id, lease_ms) {
            Ok(_) => {},
            Err(e) => {
                return Err(e);
            },
        }
        let ghost before = self@;
        if let Some(owner) = &self.owner {
            if owner.lease_expires_at_ms > now {
                if !same_text(owner.owner_id.as_str(), owner_id) {
                    return Ok(Mutation::Unchanged(None));
                }
                let until: u64 = expiry(now, lease_ms);
                if until <= owner.lease_expires_at_ms {
                    let lease = owner.clone();
                    assert(renewed(before.owner->Some_0, lease_ms, now) == lease@);
                    return Ok(Mutation::Unchanged(Some(lease)));
                }
                let lease = MaintenanceLease {
                    owner_id: owner.owner_id.clone(),
                    fencing_token: owner.fencing_token,
                    lease_expires_at_ms: until,
                };
                assert(renewed(before.owner->Some_0, lease_ms, now) == lease@);
                assert(lease@.lease_expires_at_ms != before.owner->Some_0.lease_expires_at_ms);
                self.owner = Some(lease.clone());
                return Ok(Mutation::Changed(Some(lease)));
            }
        }
        let fencing_token: u64 = self.next_fencing_token;
        match fencing_token.checked_add(1) {
            None => Err(corrupt("maintenance fencing token exhausted")),
            Some(next) => {
                let lease = MaintenanceLease {
                    owner_id: owner_id.to_owned(),
                    fencing_token,
                    lease_expires_at_ms: expiry(now, lease_ms),
                };
                self.next_fencing_token = next;
                self.owner = Some(lease.clone());
                Ok(Mutation::Changed(Some(lease)))
            },
        }
    }

    /// Renews a lease.
    pub fn heartbeat(&mut self, lease: &MaintenanceLease, lease_ms: u64, now: u64) -> (r: Result<
        Mutation<MaintenanceLease>,
        Error,
    >)
        ensures
            lease_input_valid(lease@.owner_id, lease_ms) && holds_lease(old(self)@, lease@, now)
                ==> {
                let next = renewed(old(self)@.owner->Some_0, lease_ms, now);
                &&& r is Ok
                &&& r->Ok_0.value()@ == next
                &&& final(self)@ == (LeaseFileView { owner: Some(next), ..old(self)@ })
                &&& r->Ok_0 is Changed == (final(self)@ != old(self)@)
            },
            !(lease_input_valid(lease@.owner_id, lease_ms) && holds_lease(old(self)@, lease@, now))
                ==> r is Err && r->Err_0 is InvalidMaintenanceLease && final(self)@ == old(self)@,
    {
        match validate_lease_input(lease.owner_id.as_str(), lease_ms) {
            Ok(_) => {},
            Err(e) => {
                return Err(e);
            },
        }
        let ghost before = self@;
        let next = match &self.owner {
            None => {
                return Err(stale(lease, "no owner is registered"));
            },
            Some(owner) => {
                if !same_text(owner.owner_id.as_str(), lease.owner_id.as_str())
                    || owner.fencing_token != lease.fencing_token {
                    return Err(stale(lease, "lease is owned by another process"));
                }
                if owner.lease_expires_at_ms <= now {
                    return Err(stale(lease, "lease has expired"));
                }
                let until: u64 = expiry(now, lease_ms);
                if until <= owner.lease_expires_at_ms {
                    let same = owner.clone();
                    assert(renewed(before.owner->Some_0, lease_ms, now) == same@);
                    return Ok(Mutation::Unchanged(same));
                }
                MaintenanceLease {
                    owner_id: owner.owner_id.clone(),
                    fencing_token: owner.fencing_token,
                    lease_expires_at_ms: until,
                }
            },
        };
        assert(renewed(before.owner->Some_0, lease_ms, now) == next@);
        assert(next@.lease_expires_at_ms != before.owner->Some_0.lease_expires_at_ms);
        self.owner = Some(next.clone());
        Ok(Mutation::Changed(next))
    }

    /// Gives a lease up.
    pub fn release(&mut self, lease: &MaintenanceLease, now: u64) -> (r: Result<(), Error>)
        ensures
            holds_lease(old(self)@, lease@, now) ==> r is Ok && final(self)@ == (LeaseFileView {
                owner: None,
                ..old(self)@
            }),
            !holds_lease(old(self)@, lease@, now) ==> r is Err
                && r->Err_0 is InvalidMaintenanceLease && final(self)@ == old(self)@,
    {
        match &self.owner {
            None => {
                return Err(stale(lease, "no owner is registered"));
            },
            Some(owner) => {
                if !same_text(owner.owner_id.as_str(), lease.owner_id.as_str())
                    || owner.fencing_token != lease.fencing_token {
                    return Err(stale(lease, "lease is owned by another process"));
                }
                if owner.lease_expires_at_ms <= now {
                    return Err(stale(lease, "lease has expired"));
                }
            },
        }
        self.owner = None;
        Ok(())
    }

    /// Counts a change of the file.
    pub fn bump_revision(&mut self) -> (r: Result<(), Error>)
        ensures
            old(self).revision < u64::MAX ==> r is Ok && final(self)@ == (LeaseFileView {
                revision: (old(self).revision + 1) as u64,
                ..old(self)@
            }),
            old(self).revision == u64::MAX ==> r is Err && r->Err_0 is Corrupt && final(self)@
                == old(self)@,
    {
        match self.revision.checked_add(1) {
            Some(revision) => {
                self.revision = revision;
                Ok(())
            },
            None => Err(corrupt("maintenance lease revision exhausted")),
        }
    }
}

/// Claims keep the lease file valid.
pub proof fn law_lease_file_stays_valid(
    f: LeaseFileView,
    owner_id: Seq<char>,
    lease_ms: u64,
    now: u64,
)
    requires
        lease_file_valid(f),
        lease_input_valid(owner_id, lease_ms),
        claimed(f, owner_id, lease_ms, now) is Some,
    ensures
        lease_file_valid(claimed(f, owner_id, lease_ms, now)->Some_0.0),
{
}

/// While a lease is live nobody but its owner gets one.
pub proof fn law_lease_is_exclusive(
    f: LeaseFileView,
    owner_id: Seq<char>,
    lease_ms: u64,
    now: u64,
)
    requires
        lease_file_valid(f),
        lease_live(f, now),
        f.owner->Some_0.owner_id != owner_id,
    ensures
        claimed(f, owner_id, lease_ms, now) == Some((f, None::<LeaseView>)),
{
}

/// Once a lease has expired and another was given out, the old one no longer
/// counts: it can be neither renewed nor given up, whenever that is tried.
pub proof fn law_new_lease_fences_the_old(
    f: LeaseFileView,
    old_lease: LeaseView,
    owner_id: Seq<char>,
    lease_ms: u64,
    now: u64,
    when: u64,
)
    requires
        lease_file_valid(f),
        old_lease.fencing_token < f.next_fencing_token,
        !lease_live(f, now),
        claimed(f, owner_id, lease_ms, now) is Some,
    ensures
        !holds_lease(claimed(f, owner_id, lease_ms, now)->Some_0.0, old_lease, when),
        claimed(f, owner_id, lease_ms, now)->Some_0.1->Some_0.fencing_token
            > old_lease.fencing_token,
{
}

// ---------------------------------------------------------------------------
// Policy
// ---------------------------------------------------------------------------

/// When a namespace is compacted, and what else is done to it.
#[derive(Clone, Copy, Debug, PartialEq, Eq, Structural)]
pub struct MaintenancePolicy {
    /// Compact a namespace when it has this many tables of documents or attributes.
    pub compact_at_runs: usize,
    /// Compact when a vector index has this many extensions.
    pub compact_at_vector_appends: usize,
    /// Do the vector work that manifests ask for.
    pub vector_maintenance: bool,
    /// Delete orphaned objects. This is off by default, since it is safe only while
    /// no other process reads or publishes.
    pub gc: bool,
}

impl Default for MaintenancePolicy {
    fn default() -> (p: MaintenancePolicy)
        ensures
            p == (MaintenancePolicy {
                compact_at_runs: 8,
                compact_at_vector_appends: 4,
                vector_maintenance: true,
                gc: false,
            }),
    {
        MaintenancePolicy {
            compact_at_runs: 8,
            compact_at_vector_appends: 4,
            vector_maintenance: true,
            gc: false,
        }
    }
}

/// What a pass does to a namespace.
#[derive(Clone, Copy, Debug, PartialEq, Eq, Structural)]
pub enum MaintenanceStep {
    Compact,
    MaintainVectors,
    Nothing,
}

/// Some vector index has at least that many extensions.
pub open spec fn long_append_chain(metas: Seq<VectorIndexMeta>, at: usize) -> bool {
    exists|i: int| 0 <= i < metas.len() && (#[trigger] metas[i]).append_indexes@.len() >= at
}

/// Some vector index has work to do.
pub open spec fn vector_work(metas: Seq<VectorIndexMeta>) -> bool {
    exists|i: int|
        0 <= i < metas.len() && (#[trigger] metas[i]).maintenance_plan is Some
            && metas[i].maintenance_plan->Some_0.tasks@.len() > 0
}

/// What a pass does to a namespace. Nothing while its log is not indexed in full:
/// that is the flushing worker's to catch up with. A compaction rebuilds the vector
/// indexes too, so at most one of the two runs in a pass.
pub open spec fn step_for(m: NamespaceManifest, commit: WalCursor, p: MaintenancePolicy) -> MaintenanceStep {
    if m.indexed_cursor != Some(commit) {
        MaintenanceStep::Nothing
    } else if m.doc_ssts@.len() >= p.compact_at_runs || m.attr_ssts@.len() >= p.compact_at_runs
        || long_append_chain(m.vector_indexes.values(), p.compact_at_vector_appends) {
        MaintenanceStep::Compact
    } else if p.vector_maintenance && vector_work(m.vector_indexes.values()) {
        MaintenanceStep::MaintainVectors
    } else {
        MaintenanceStep::Nothing
    }
}

/// Decides what a pass does to a namespace.
pub fn plan_step(manifest: &NamespaceManifest, commit: WalCursor, policy: &MaintenancePolicy) -> (s:
    MaintenanceStep)
    ensures
        s == step_for(*manifest, commit, *policy),
{
    let indexed = match manifest.indexed_cursor {
        Some(cursor) => cursor == commit,
        None => false,
    };
    if !indexed {
        return MaintenanceStep::Nothing;
    }
    let metas = &manifest.vector_indexes;
    let count: usize = metas.len();
    let mut long_chain = false;
    let mut work = false;
    let mut i: usize = 0;
    while i < count
        invariant
            i <= count,
            count == metas.keys().len(),
            count == metas.values().len(),
            *metas == manifest.vector_indexes,
            long_chain == long_append_chain(
                metas.values().take(i as int),
                policy.compact_at_vector_appends,
            ),
            work == vector_work(metas.values().take(i as int)),
        decreases count - i,
    {
        let meta = metas.value_at(i);
        let ghost was = metas.values().take(i as int);
        let ghost now = metas.values().take(i + 1);
        let is_long = meta.append_indexes.len() >= policy.compact_at_vector_appends;
        let has_work = match &meta.maintenance_plan {
            Some(plan) => plan.tasks.len() > 0,
            None => false,
        };
        proof {
            assert(now[i as int] == *meta);
            assert(forall|j: int| 0 <= j < i ==> #[trigger] was[j] == now[j]);
            assert(forall|j: int| 0 <= j < i ==> #[trigger] now[j] == was[j]);
        }
        long_chain = long_chain || is_long;
        work = work || has_work;
        i = i + 1;
    }
    assert(metas.values().take(i as int) =~= metas.values());
    if manifest.doc_ssts.len() >= policy.compact_at_runs || manifest.attr_ssts.len()
        >= policy.compact_at_runs || long_chain {
        MaintenanceStep::Compact
    } else if policy.vector_maintenance && work {
        MaintenanceStep::MaintainVectors
    } else {
        MaintenanceStep::Nothing
    }
}

/// What is in one set and in another, or not in the other.
fn pick(from: &TextSet, other: &TextSet, in_both: bool) -> (r: TextSet)
    requires
        from.wf(),
        other.wf(),
    ensures
        r.wf(),
        in_both ==> r.set() == from.set().intersect(other.set()),
        !in_both ==> r.set() == from.set().difference(other.set()),
{
    let mut r = TextSet::new();
    let count: usize = from.len();
    let ghost items = from.items();
    let mut i: usize = 0;
    proof {
        assert(items.take(0).to_set() =~= Set::empty());
        assert(r.set() =~= picked(items.take(0), other.set(), in_both));
    }
    while i < count
        invariant
            i <= count,
            count == items.len(),
            items == from.items(),
            other.wf(),
            r.wf(),
            r.set() == picked(items.take(i as int), other.set(), in_both),
        decreases count - i,
    {
        let item = from.item_at(i);
        let ghost before = r.set();
        let ghost was = items.take(i as int);
        let ghost now = items.take(i + 1);
        proof {
            assert(now =~= was.push(item@));
            assert forall|x: Seq<char>| now.contains(x) <==> was.contains(x) || x == item@ by {
                if now.contains(x) && x != item@ {
                    assert(was[now.index_of(x)] == x);
                }
                if was.contains(x) {
                    assert(now[was.index_of(x)] == x);
                }
                assert(now[i as int] == item@);
            }
        }
        if other.contains(item.as_str()) == in_both {
            r.insert(item.clone());
        }
        assert(r.set() =~= picked(now, other.set(), in_both));
        i = i + 1;
    }
    proof {
        assert(items.take(i as int) =~= items);
        assert(in_both ==> r.set() =~= from.set().intersect(other.set()));
        assert(!in_both ==> r.set() =~= from.set().difference(other.set()));
    }
    r
}

spec fn picked(items: Seq<Seq<char>>, other: Set<Seq<char>>, in_both: bool) -> Set<Seq<char>> {
    Set::new(|x: Seq<char>| items.contains(x) && other.contains(x) == in_both)
}

/// The orphans: the objects that are stored and that nothing needs.
pub fn find_orphans(stored: &TextSet, live: &TextSet) -> (orphans: TextSet)
    requires
        stored.wf(),
        live.wf(),
    ensures
        orphans.wf(),
        orphans.set() == stored.set().difference(live.set()),
{
    pick(stored, live, false)
}

/// What a pass of orphan removal does: delete the orphans that the pass before
/// found too, and remember the new ones.
#[derive(Debug)]
pub struct GcPlan {
    pub delete: TextSet,
    pub pending: TextSet,
}

/// Decides which orphans a pass deletes and which it remembers.
pub fn plan_gc(orphans: &TextSet, prior: &TextSet) -> (plan: GcPlan)
    requires
        orphans.wf(),
        prior.wf(),
    ensures
        plan.delete.wf(),
        plan.pending.wf(),
        plan.delete.set() == orphans.set().intersect(prior.set()),
        plan.pending.set() == orphans.set().difference(prior.set()),
{
    GcPlan { delete: pick(orphans, prior, true), pending: pick(orphans, prior, false) }
}

/// No object is deleted that was not an orphan in two passes, one after the other;
/// and an orphan is either deleted or remembered, never both.
pub proof fn law_gc_deletes_only_what_two_passes_agree_on(
    orphans: Set<Seq<char>>,
    prior: Set<Seq<char>>,
    key: Seq<char>,
)
    ensures
        orphans.intersect(prior).contains(key) ==> orphans.contains(key) && prior.contains(key),
        orphans.contains(key) ==> orphans.intersect(prior).contains(key) != orphans.difference(
            prior,
        ).contains(key),
{
}

/// The orphans that the pass before found, by namespace.
#[derive(Debug)]
pub struct MaintenanceState {
    pub gc_candidates: TextMap<TextSet>,
}

impl Default for MaintenanceState {
    fn default() -> (s: MaintenanceState)
        ensures
            s.wf(),
            s.gc_candidates.map() == Map::<Seq<char>, TextSet>::empty(),
    {
        let s = MaintenanceState { gc_candidates: TextMap::new() };
        s
    }
}

impl MaintenanceState {
    pub open spec fn wf(self) -> bool {
        &&& self.gc_candidates.wf()
        &&& forall|k: Seq<char>|
            self.gc_candidates.map().dom().contains(k) ==> (
            #[trigger] self.gc_candidates.map()[k]).wf()
    }

    /// The orphans remembered of a namespace.
    pub open spec fn remembered(self, name: Seq<char>) -> Set<Seq<char>> {
        if self.gc_candidates.map().dom().contains(name) {
            self.gc_candidates.map()[name].set()
        } else {
            Set::empty()
        }
    }

    /// Takes the orphans remembered of a namespace.
    pub fn take(&mut self, name: &str) -> (prior: TextSet)
        requires
            old(self).wf(),
        ensures
            final(self).wf(),
            prior.wf(),
            prior.set() == old(self).remembered(name@),
            final(self).gc_candidates.map() == old(self).gc_candidates.map().remove(name@),
    {
        match self.gc_candidates.remove(name) {
            Some(prior) => prior,
            None => TextSet::new(),
        }
    }

    /// Remembers the orphans of a namespace, if there are any.
    pub fn remember(&mut self, name: &str, pending: TextSet)
        requires
            old(self).wf(),
            pending.wf(),
        ensures
            final(self).wf(),
            final(self).gc_candidates.map() == (if pending.items().len() == 0 {
                old(self).gc_candidates.map()
            } else {
                old(self).gc_candidates.map().insert(name@, pending)
            }),
    {
        if pending.len() > 0 {
            self.gc_candidates.insert(name.to_owned(), pending);
        }
    }

    /// Forgets the namespaces that are not among `names`.
    pub fn retain(&mut self, names: &TextSet)
        requires
            old(self).wf(),
            names.wf(),
        ensures
            final(self).wf(),
            final(self).gc_candidates.map() == old(self).gc_candidates.map().restrict(names.set()),
    {
        let ghost start = self.gc_candidates.map();
        let ghost keys = self.gc_candidates.keys();
        let mut gone: Vec<String> = Vec::new();
        let count: usize = self.gc_candidates.len();
        let mut i: usize = 0;
        while i < count
            invariant
                i <= count,
                count == keys.len(),
                keys == self.gc_candidates.keys(),
                names.wf(),
                forall|j: int|
                    0 <= j < gone@.len() ==> !names.set().contains((#[trigger] gone@[j])@),
                forall|j: int|
                    0 <= j < i && !names.set().contains(#[trigger] keys[j]) ==> exists|n: int|
                        0 <= n < gone@.len() && (#[trigger] gone@[n])@ == keys[j],
            decreases count - i,
        {
            let name = self.gc_candidates.key_at(i);
            let ghost before = gone@;
            if !names.contains(name.as_str()) {
                gone.push(name.clone());
                proof {
                    assert forall|j: int| 0 <= j < i + 1 && !names.set().contains(
                        #[trigger] keys[j],
                    ) implies exists|n: int|
                        0 <= n < gone@.len() && (#[trigger] gone@[n])@ == keys[j] by {
                        if j < i {
                            let n = choose|n: int|
                                0 <= n < before.len() && (#[trigger] before[n])@ == keys[j];
                            assert(gone@[n]@ == keys[j]);
                        } else {
                            assert(gone@[before.len() as int]@ == keys[j]);
                        }
                    }
                }
            }
            i = i + 1;
        }
        let mut n: usize = 0;
        while n < gone.len()
            invariant
                n <= gone@.len(),
                self.wf(),
                forall|j: int|
                    0 <= j < gone@.len() ==> !names.set().contains((#[trigger] gone@[j])@),
                forall|k: Seq<char>|
                    #![trigger self.gc_candidates.map().dom().contains(k)]
                    #![trigger start.dom().contains(k)]
                    self.gc_candidates.map().dom().contains(k) == (start.dom().contains(k)
                        && forall|j: int| 0 <= j < n ==> (#[trigger] gone@[j])@ != k),
                forall|k: Seq<char>|
                    self.gc_candidates.map().dom().contains(k) ==> (
                    #[trigger] self.gc_candidates.map()[k]) == start[k],
            decreases gone@.len() - n,
        {
            let ghost before = self.gc_candidates.map();
            self.gc_candidates.remove(gone[n].as_str());
            proof {
                let map = self.gc_candidates.map();
                assert forall|k: Seq<char>|
                    #![trigger map.dom().contains(k)]
                    #![trigger start.dom().contains(k)]
                    map.dom().contains(k) == (start.dom().contains(k) && forall|j: int|
                        0 <= j < n + 1 ==> (#[trigger] gone@[j])@ != k) by {
                    assert(before.dom().contains(k) == (start.dom().contains(k) && forall|j: int|
                        0 <= j < n ==> (#[trigger] gone@[j])@ != k));
                    if map.dom().contains(k) {
                        assert forall|j: int| 0 <= j < n + 1 implies (#[trigger] gone@[j])@ != k by {
                            if j == n {
                                assert(k != gone@[n as int]@);
                            }
                        }
                    }
                    if start.dom().contains(k) && forall|j: int|
                        0 <= j < n + 1 ==> (#[trigger] gone@[j])@ != k {
                        assert(gone@[n as int]@ != k);
                        assert(forall|j: int| 0 <= j < n ==> (#[trigger] gone@[j])@ != k);
                    }
                }
            }
            n = n + 1;
        }
        proof {
            let map = self.gc_candidates.map();
            assert forall|k: Seq<char>| map.dom().contains(k) == start.restrict(
                names.set(),
            ).dom().contains(k) by {
                if start.dom().contains(k) && !names.set().contains(k) {
                    let j = keys.index_of(k);
                    assert(keys[j] == k);
                    let n = choose|n: int| 0 <= n < gone@.len() && (#[trigger] gone@[n])@ == keys[j];
                    assert(gone@[n]@ == k);
                }
                if start.dom().contains(k) && names.set().contains(k) {
                    assert forall|j: int| 0 <= j < gone@.len() implies (#[trigger] gone@[j])@
                        != k by {}
                }
            }
            assert(map =~= start.restrict(names.set()));
        }
    }
}

/// What a pass did.
#[derive(Debug)]
pub struct MaintenanceReport {
    pub skipped_leader_lease: bool,
    pub scanned_namespaces: usize,
    pub compacted: Vec<String>,
    pub vector_maintained: Vec<String>,
    pub gc_deleted_objects: usize,
    pub gc_pending_objects: usize,
    pub errors: Vec<String>,
}

/// A report of nothing.
pub open spec fn report_is_blank(r: MaintenanceReport) -> bool {
    &&& r.compacted@.len() == 0
    &&& r.vector_maintained@.len() == 0
    &&& r.gc_deleted_objects == 0
    &&& r.gc_pending_objects == 0
    &&& r.errors@.len() == 0
}

impl MaintenanceReport {
    /// The report of a pass that starts.
    pub fn started(scanned_namespaces: usize) -> (r: MaintenanceReport)
        ensures
            report_is_blank(r),
            !r.skipped_leader_lease,
            r.scanned_namespaces == scanned_namespaces,
    {
        MaintenanceReport {
            skipped_leader_lease: false,
            scanned_namespaces,
            compacted: Vec::new(),
            vector_maintained: Vec::new(),
            gc_deleted_objects: 0,
            gc_pending_objects: 0,
            errors: Vec::new(),
        }
    }

    /// The report of a pass that found another leader, and did nothing.
    pub fn skipped() -> (r: MaintenanceReport)
        ensures
            report_is_blank(r),
            r.skipped_leader_lease,
            r.scanned_namespaces == 0,
    {
        let mut r = MaintenanceReport::started(0);
        r.skipped_leader_lease = true;
        r
    }
}

impl Default for MaintenanceReport {
    fn default() -> (r: MaintenanceReport)
        ensures
            report_is_blank(r),
            !r.skipped_leader_lease,
            r.scanned_namespaces == 0,
    {
        MaintenanceReport::started(0)
    }
}

/// What a pass under a lease comes to. Its report stands only if the lease was held
/// throughout: every renewal went through, and the last one after the pass too. A
/// failure of the pass itself is told before one of the lease.
pub fn settle_pass(
    pass: Result<MaintenanceReport, Error>,
    renewal: Result<(), Error>,
    last_heartbeat: Result<(), Error>,
) -> (r: Result<MaintenanceReport, Error>)
    ensures
        match pass {
            Err(e) => r == Err::<MaintenanceReport, Error>(e),
            Ok(report) => match renewal {
                Err(e) => r == Err::<MaintenanceReport, Error>(e),
                Ok(()) => match last_heartbeat {
                    Err(e) => r == Err::<MaintenanceReport, Error>(e),
                    Ok(()) => r == Ok::<MaintenanceReport, Error>(report),
                },
            },
        },
{
    match pass {
        Err(e) => Err(e),
        Ok(report) => match renewal {
            Err(e) => Err(e),
            Ok(()) => match last_heartbeat {
                Err(e) => Err(e),
                Ok(()) => Ok(report),
            },
        },
    }
}

/// A lease that is given out lasts as long as asked for, and the owner of a live one
/// keeps its number and never has it shortened. A lease that runs out now is no longer
/// live, so that another owner gets the next number.
pub proof fn law_lease_lasts_as_asked(
    f: LeaseFileView,
    owner_id: Seq<char>,
    lease_ms: u64,
    now: u64,
)
    requires
        now + lease_ms <= u64::MAX,
        f.next_fencing_token < u64::MAX,
    ensures
        ({
            let held = f.owner matches Some(o) && o.lease_expires_at_ms > now;
            let (after, lease) = claimed(f, owner_id, lease_ms, now)->Some_0;
            &&& claimed(f, owner_id, lease_ms, now) is Some
            &&& held && f.owner->Some_0.owner_id != owner_id ==> lease is None && after == f
            &&& held && f.owner->Some_0.owner_id == owner_id ==> {
                &&& lease is Some
                &&& lease->Some_0.owner_id == owner_id
                &&& lease->Some_0.fencing_token == f.owner->Some_0.fencing_token
                &&& lease->Some_0.lease_expires_at_ms >= f.owner->Some_0.lease_expires_at_ms
                &&& lease->Some_0.lease_expires_at_ms >= now + lease_ms
                &&& after.next_fencing_token == f.next_fencing_token
            }
            &&& !held ==> {
                &&& lease is Some
                &&& lease->Some_0.owner_id == owner_id
                &&& lease->Some_0.fencing_token == f.next_fencing_token
                &&& lease->Some_0.lease_expires_at_ms == now + lease_ms
                &&& after.next_fencing_token == f.next_fencing_token + 1
            }
            &&& lease is Some ==> after.owner == lease
            &&& lease matches Some(l) ==> lease_ms > 0 ==> holds_lease(after, l, now)
        }),
{
}

/// A lease counts only for the owner and under the number that it was given out with, and
/// only before it runs out.
pub proof fn law_lease_counts_for_its_owner(f: LeaseFileView, lease: LeaseView, now: u64)
    ensures
        holds_lease(f, lease, now) <==> (f.owner matches Some(o) && o.owner_id == lease.owner_id
            && o.fencing_token == lease.fencing_token && o.lease_expires_at_ms > now),
{
}

/// Nothing is done to a namespace whose log is not indexed to the end. One that is, is
/// compacted exactly if it has as many tables, or one of its vector indexes as many
/// extensions, as the policy sets; else its vectors are worked on where the policy wants
/// that and there is work.
pub proof fn law_maintenance_follows_the_policy(
    m: NamespaceManifest,
    commit: WalCursor,
    p: MaintenancePolicy,
)
    ensures
        m.indexed_cursor != Some(commit) ==> step_for(m, commit, p) == MaintenanceStep::Nothing,
        m.indexed_cursor == Some(commit) ==> {
            let long = m.doc_ssts@.len() >= p.compact_at_runs || m.attr_ssts@.len()
                >= p.compact_at_runs || exists|i: int|
                0 <= i < m.vector_indexes.values().len() && (
                #[trigger] m.vector_indexes.values()[i]).append_indexes@.len()
                    >= p.compact_at_vector_appends;
            let work = exists|i: int|
                0 <= i < m.vector_indexes.values().len() && (
                #[trigger] m.vector_indexes.values()[i]).maintenance_plan is Some
                    && m.vector_indexes.values()[i].maintenance_plan->Some_0.tasks@.len() > 0;
            &&& long <==> step_for(m, commit, p) == MaintenanceStep::Compact
            &&& !long && work && p.vector_maintenance <==> step_for(m, commit, p)
                == MaintenanceStep::MaintainVectors
        },
{
}

/// The name of the pod counts before that of the host, an empty name counts for none, and a
/// name that is given is never empty.
pub proof fn law_first_name_given_counts(pod: &str, host: &str)
    ensures
        pod@.len() > 0 ==> machine_name(Some(pod), Some(host)) == machine_name(Some(pod), None)
            && machine_name(Some(pod), None) == Some(pod@),
        pod@.len() == 0 ==> machine_name(Some(pod), Some(host)) == machine_name(None, Some(host)),
        host@.len() > 0 ==> machine_name(None, Some(host)) == Some(host@),
        machine_name(Some(pod), Some(host)) matches Some(n) ==> n.len() > 0,
{
}

} // verus!
