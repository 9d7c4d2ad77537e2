//! The liveness tick: which addresses the network engine is asked to dial.
use crate::address::{multiaddr_bytes, multiaddr_from_str, multiaddr_parsed};
use crate::registry::{record_views, PeerRecord, PeerStat, Registry};
use libp2p::Multiaddr;
use vstd::prelude::*;

verus! {

/// One step of a tick, for one stored address of one peer.
#[derive(Debug, PartialEq, Eq)]
pub enum DialStep {
    /// The engine is asked to dial `address`.
    Dial { peer: String, address: Multiaddr },
    /// The stored text is no multiaddress: it is reported, and the tick goes on.
    Malformed { peer: String, text: String },
}

/// `step` is what a tick does for the stored address `text` of `peer`:
/// it dials the multiaddress that the text reads as, or reports the text
/// where it reads as none.
pub open spec fn step_for(step: DialStep, peer: Seq<char>, text: Seq<char>) -> bool {
    match step {
        DialStep::Dial { peer: p, address } => p@ == peer && multiaddr_parsed(text) == Some(
            multiaddr_bytes(address),
        ),
        DialStep::Malformed { peer: p, text: t } => p@ == peer && t@ == text && multiaddr_parsed(
            text,
        ).is_none(),
    }
}

/// The stored addresses of one record, each with its peer.
pub open spec fn targets_of(record: PeerRecord) -> Seq<(Seq<char>, Seq<char>)> {
    Seq::new(record.addresses.len(), |i: int| (record.peer, record.addresses[i]))
}

/// Every stored address of every record, record by record.
pub open spec fn dial_targets(records: Seq<PeerRecord>) -> Seq<(Seq<char>, Seq<char>)>
    decreases records.len(),
{
    if records.len() == 0 {
        Seq::empty()
    } else {
        dial_targets(records.drop_last()) + targets_of(records.last())
    }
}

/// `plan` holds one step for each target, in the same order.
pub open spec fn plan_covers(plan: Seq<DialStep>, targets: Seq<(Seq<char>, Seq<char>)>) -> bool {
    plan.len() == targets.len() && forall|k: int|
        0 <= k < plan.len() ==> step_for(#[trigger] plan[k], targets[k].0, targets[k].1)
}

/// The step for one stored address.
pub fn dial_step(peer: &str, text: &str) -> (step: DialStep)
    ensures
        step_for(step, peer@, text@),
{
    match multiaddr_from_str(text) {
        Some(address) => DialStep::Dial { peer: peer.to_owned(), address },
        None => DialStep::Malformed { peer: peer.to_owned(), text: text.to_owned() },
    }
}

/// The steps of a tick over a snapshot: one for every address of every
/// record, in the order of the snapshot. A malformed address costs its own
/// step and no other.
pub fn plan_dials(snapshot: &Vec<PeerStat>) -> (plan: Vec<DialStep>)
    ensures
        plan_covers(plan@, dial_targets(record_views(snapshot@))),
{
    let ghost records = record_views(snapshot@);
    let mut plan: Vec<DialStep> = Vec::new();
    let mut i: usize = 0;
    assert(records.take(0) =~= Seq::<PeerRecord>::empty());
    while i < snapshot.len()
        invariant
            i <= snapshot.len(),
            records == record_views(snapshot@),
            plan_covers(plan@, dial_targets(records.take(i as int))),
        decreases snapshot.len() - i,
    {
        let stat = &snapshot[i];
        let ghost before = dial_targets(records.take(i as int));
        let ghost own = targets_of(records[i as int]);
        let mut j: usize = 0;
        while j < stat.addrinfo.len()
            invariant
                j <= stat.addrinfo.len(),
                i < snapshot.len(),
                stat == snapshot[i as int],
                records == record_views(snapshot@),
                own == targets_of(records[i as int]),
                plan_covers(plan@, before + own.take(j as int)),
            decreases stat.addrinfo.len() - j,
        {
            let step = dial_step(stat.peer.as_str(), stat.addrinfo[j].address.as_str());
            proof {
                let wanted = before + own.take(j as int + 1);
                assert(wanted =~= (before + own.take(j as int)).push(own[j as int]));
                assert forall|k: int| 0 <= k < plan@.push(step).len() implies step_for(
                    #[trigger] plan@.push(step)[k],
                    wanted[k].0,
                    wanted[k].1,
                ) by {
                    if k < plan@.len() {
                        assert(plan@.push(step)[k] == plan@[k]);
                    }
                }
            }
            plan.push(step);
            j += 1;
        }
        proof {
            assert(own.take(j as int) =~= own);
            let next = records.take(i as int + 1);
            assert(next.drop_last() =~= records.take(i as int));
            assert(next.last() == records[i as int]);
        }
        i += 1;
    }
    assert(records.take(i as int) =~= records);
    plan
}

/// The steps of one tick over the registry as it stands. The registry is
/// not changed, and an empty registry gives no step.
pub fn tick(registry: &Registry) -> (plan: Vec<DialStep>)
    ensures
        plan_covers(plan@, dial_targets(registry.records())),
        registry@ == Map::<Seq<char>, PeerRecord>::empty() ==> plan@.len() == 0,
{
    let snapshot = registry.snapshot();
    proof {
        if registry@ == Map::<Seq<char>, PeerRecord>::empty() {
            assert(registry@.dom() =~= Set::<Seq<char>>::empty());
            assert(record_views(snapshot@) =~= Seq::<PeerRecord>::empty());
        }
    }
    plan_dials(&snapshot)
}

/// A tick over no records asks for no dial and reports nothing.
pub proof fn lemma_idle_tick(plan: Seq<DialStep>)
    requires
        plan_covers(plan, dial_targets(Seq::<PeerRecord>::empty())),
    ensures
        plan == Seq::<DialStep>::empty(),
{
    assert(plan =~= Seq::<DialStep>::empty());
}

} // verus!
