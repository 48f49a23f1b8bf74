//! The DNS record reconciler: comparing the resolved address with the record
//! a provider currently publishes, and planning a write only on mismatch.
//!
//! The reconciler never talks to the provider itself. It receives a snapshot
//! of the published record, decides among no-op, dry-run report and update,
//! and hands back an update request that preserves every attribute of the
//! record other than the address.

use vstd::prelude::*;

use crate::ip::Ipv4;

verus! {

/// One zone as the provider lists it: its opaque identifier and its name.
pub struct ZoneEntry {
    pub id: String,
    pub name: String,
}

/// The address data a published record carries: an IPv4 address, or content
/// of some other kind, which never equals a resolved address.
#[derive(Clone, Copy, Debug, PartialEq, Eq, Structural)]
pub enum RecordContent {
    V4 { addr: Ipv4 },
    Other,
}

/// A read-only snapshot of one published DNS record, fetched once per run.
pub struct DnsRecordSnapshot {
    /// The provider's opaque record identifier, needed for an update.
    pub id: String,
    /// The host name the record answers for.
    pub name: String,
    /// The published address data.
    pub content: RecordContent,
    /// Time-to-live, as configured at the provider.
    pub ttl: u32,
    /// The provider's proxy flag, as configured.
    pub proxied: bool,
}

/// A single write to the provider: the record it names and the values it
/// carries. Everything but the address is taken from the current record.
pub struct UpdateRequest {
    pub record_id: String,
    pub name: String,
    pub addr: Ipv4,
    pub ttl: u32,
    pub proxied: bool,
}

/// What one reconciliation pass decides to do.
pub enum ReconcileAction {
    /// The published record already carries the resolved address.
    NoOp,
    /// The record is stale, but this is a dry run: report only.
    WouldUpdate { addr: Ipv4 },
    /// The record is stale: issue exactly this update.
    Update { request: UpdateRequest },
}

/// The decision of one reconciliation pass over a record snapshot.
pub open spec fn spec_reconcile(
    current: DnsRecordSnapshot,
    resolved: Ipv4,
    dry_run: bool,
) -> ReconcileAction {
    if current.content == (RecordContent::V4 { addr: resolved }) {
        ReconcileAction::NoOp
    } else if dry_run {
        ReconcileAction::WouldUpdate { addr: resolved }
    } else {
        ReconcileAction::Update {
            request: UpdateRequest {
                record_id: current.id,
                name: current.name,
                addr: resolved,
                ttl: current.ttl,
                proxied: current.proxied,
            },
        }
    }
}

/// The record as the provider publishes it once it has honored an update
/// request: new address, all other attributes as the request carried them.
pub open spec fn spec_apply_update(
    current: DnsRecordSnapshot,
    request: UpdateRequest,
) -> DnsRecordSnapshot {
    DnsRecordSnapshot {
        id: current.id,
        name: request.name,
        content: RecordContent::V4 { addr: request.addr },
        ttl: request.ttl,
        proxied: request.proxied,
    }
}

/// The published record after one planned action has been carried out: only
/// an update changes it.
pub open spec fn spec_perform(
    current: DnsRecordSnapshot,
    action: ReconcileAction,
) -> DnsRecordSnapshot {
    match action {
        ReconcileAction::NoOp => current,
        ReconcileAction::WouldUpdate { addr: _ } => current,
        ReconcileAction::Update { request } => spec_apply_update(current, request),
    }
}

/// Compare the published record with the resolved address and plan the run's
/// one action.
pub fn reconcile(current: &DnsRecordSnapshot, resolved: Ipv4, dry_run: bool) -> (action:
    ReconcileAction)
    ensures
        action == spec_reconcile(*current, resolved, dry_run),
{
    if current.content == (RecordContent::V4 { addr: resolved }) {
        ReconcileAction::NoOp
    } else if dry_run {
        ReconcileAction::WouldUpdate { addr: resolved }
    } else {
        ReconcileAction::Update {
            request: UpdateRequest {
                record_id: current.id.clone(),
                name: current.name.clone(),
                addr: resolved,
                ttl: current.ttl,
                proxied: current.proxied,
            },
        }
    }
}

/// Attribute-preservation law: the update a reconciliation pass plans names
/// the current record and changes nothing but the address; in particular the
/// TTL and the proxy flag survive both in the request and in the record the
/// provider then publishes.
pub proof fn lemma_update_preserves_attributes(
    current: DnsRecordSnapshot,
    resolved: Ipv4,
    request: UpdateRequest,
)
    requires
        spec_reconcile(current, resolved, false) == (ReconcileAction::Update { request }),
    ensures
        request.record_id == current.id,
        request.name == current.name,
        request.addr == resolved,
        request.ttl == current.ttl,
        request.proxied == current.proxied,
        spec_apply_update(current, request).id == current.id,
        spec_apply_update(current, request).name == current.name,
        spec_apply_update(current, request).ttl == current.ttl,
        spec_apply_update(current, request).proxied == current.proxied,
{
}

/// Idempotence law: after a pass that was no dry run, a second pass with the
/// same resolved address and an unchanged provider plans no further action,
/// whatever its dry-run flag.
pub proof fn lemma_reconcile_idempotent(
    current: DnsRecordSnapshot,
    resolved: Ipv4,
    dry_run_again: bool,
)
    ensures
        spec_reconcile(
            spec_perform(current, spec_reconcile(current, resolved, false)),
            resolved,
            dry_run_again,
        ) == ReconcileAction::NoOp,
{
}

/// Position of the first zone of the listing that carries `name`.
pub open spec fn zone_index(zones: Seq<ZoneEntry>, name: Seq<char>) -> Option<int>
    decreases zones.len(),
{
    if zones.len() == 0 {
        None
    } else if zones[0].name@ == name {
        Some(0)
    } else {
        match zone_index(zones.drop_first(), name) {
            Some(j) => Some(j + 1),
            None => None,
        }
    }
}

/// `zone_index` names the first zone with the wanted name, and fails only
/// when no zone carries it.
pub proof fn lemma_zone_index(zones: Seq<ZoneEntry>, name: Seq<char>)
    ensures
        match zone_index(zones, name) {
            Some(j) => 0 <= j < zones.len() && zones[j].name@ == name && (forall|k: int|
                0 <= k < j ==> (#[trigger] zones[k]).name@ != name),
            None => forall|k: int| 0 <= k < zones.len() ==> (#[trigger] zones[k]).name@ != name,
        },
    decreases zones.len(),
{
    if zones.len() > 0 && zones[0].name@ != name {
        let rest = zones.drop_first();
        lemma_zone_index(rest, name);
        match zone_index(rest, name) {
            Some(j) => {
                assert(zones[j + 1] == rest[j]);
                assert forall|k: int| 0 <= k < j + 1 implies (#[trigger] zones[k]).name@
                    != name by {
                    if k > 0 {
                        assert(rest[k - 1] == zones[k]);
                    }
                }
            },
            None => {
                assert forall|k: int| 0 <= k < zones.len() implies (#[trigger] zones[k]).name@
                    != name by {
                    if k > 0 {
                        assert(rest[k - 1] == zones[k]);
                    }
                }
            },
        }
    }
}

/// Find the zone a name belongs to in the provider's listing: the first
/// entry with that exact name, as the zone lookup goes by name.
pub fn select_zone(zones: &Vec<ZoneEntry>, name: &String) -> (r: Option<usize>)
    ensures
        r is None <==> zone_index(zones@, name@) is None,
        r matches Some(i) ==> i < zones@.len() && zone_index(zones@, name@) == Some(i as int),
{
    let ghost zs = zones@;
    let mut i: usize = 0;
    while i < zones.len()
        invariant
            i <= zs.len(),
            zs == zones@,
            forall|k: int| 0 <= k < i ==> (#[trigger] zs[k]).name@ != name@,
        decreases zs.len() - i,
    {
        if zones[i].name == *name {
            proof {
                lemma_zone_index(zs, name@);
            }
            return Some(i);
        }
        i = i + 1;
    }
    proof {
        lemma_zone_index(zs, name@);
        if zone_index(zs, name@) is Some {
            let j0 = zone_index(zs, name@)->Some_0;
            assert(zs[j0].name@ == name@);
        }
    }
    None
}

/// Position of the first record of the listing that answers for `name`.
pub open spec fn record_index(records: Seq<DnsRecordSnapshot>, name: Seq<char>) -> Option<int>
    decreases records.len(),
{
    if records.len() == 0 {
        None
    } else if records[0].name@ == name {
        Some(0)
    } else {
        match record_index(records.drop_first(), name) {
            Some(j) => Some(j + 1),
            None => None,
        }
    }
}

/// `record_index` names the first record with the wanted name, and fails
/// only when no record carries it.
pub proof fn lemma_record_index(records: Seq<DnsRecordSnapshot>, name: Seq<char>)
    ensures
        match record_index(records, name) {
            Some(j) => 0 <= j < records.len() && records[j].name@ == name && (forall|k: int|
                0 <= k < j ==> (#[trigger] records[k]).name@ != name),
            None => forall|k: int|
                0 <= k < records.len() ==> (#[trigger] records[k]).name@ != name,
        },
    decreases records.len(),
{
    if records.len() > 0 && records[0].name@ != name {
        let rest = records.drop_first();
        lemma_record_index(rest, name);
        match record_index(rest, name) {
            Some(j) => {
                assert(records[j + 1] == rest[j]);
                assert forall|k: int| 0 <= k < j + 1 implies (#[trigger] records[k]).name@
                    != name by {
                    if k > 0 {
                        assert(rest[k - 1] == records[k]);
                    }
                }
            },
            None => {
                assert forall|k: int| 0 <= k < records.len() implies (#[trigger] records[k]).name@
                    != name by {
                    if k > 0 {
                        assert(rest[k - 1] == records[k]);
                    }
                }
            },
        }
    }
}

/// Find the record to reconcile in the provider's listing: the first record
/// that answers for the wanted host name.
pub fn select_record(records: &Vec<DnsRecordSnapshot>, name: &String) -> (r: Option<usize>)
    ensures
        r is None <==> record_index(records@, name@) is None,
        r matches Some(i) ==> i < records@.len() && record_index(records@, name@) == Some(i as int),
{
    let ghost rs = records@;
    let mut i: usize = 0;
    while i < records.len()
        invariant
            i <= rs.len(),
            rs == records@,
            forall|k: int| 0 <= k < i ==> (#[trigger] rs[k]).name@ != name@,
        decreases rs.len() - i,
    {
        if records[i].name == *name {
            proof {
                lemma_record_index(rs, name@);
            }
            return Some(i);
        }
        i = i + 1;
    }
    proof {
        lemma_record_index(rs, name@);
        if record_index(rs, name@) is Some {
            let j0 = record_index(rs, name@)->Some_0;
            assert(rs[j0].name@ == name@);
        }
    }
    None
}

} // verus!
