//! Laws of the issuer registry.

use crate::interfaces::{Address, Invocation, Issuers, Trap};
use crate::issuer_registry::{
    Action, ActionCanceled, ActionExecuted, ActionQueued, ActionView, IssuerInfo, IssuerRegistry,
    IssuerView, PendingAction, PendingView, RegistryError, RegistryState,
};
use vstd::prelude::*;

verus! {

/// **A registry begins empty.** It has the administrator and the delay that it
/// was made with, and no issuers and no actions.
pub proof fn lemma_new(admin: Address, delay: u64, registry: IssuerRegistry)
    requires
        call_ensures(IssuerRegistry::new, (admin, delay), registry),
    ensures
        registry.wf(),
        registry@.admin == admin@,
        registry@.delay == delay,
        registry@.next_id == 0,
        forall|id: u64| !(#[trigger] registry@.pending.dom().contains(id)),
        forall|i: Seq<u8>| !(#[trigger] registry@.issuers.dom().contains(i)),
        forall|k: Seq<u8>| !(#[trigger] registry@.key_owner.dom().contains(k)),
{
}

/// **Queueing.** The administrator, and no one else, queues actions. An action
/// gets the next id and waits for the delay from then on; nothing else changes.
pub proof fn lemma_queue(
    registry: &mut IssuerRegistry,
    call: &Invocation,
    action: Action,
    queued: Result<ActionQueued, Trap<RegistryError>>,
)
    requires
        call_ensures(IssuerRegistry::queue, (registry, call, action), queued),
        call.now + old(registry)@.delay <= u64::MAX,
        old(registry)@.next_id < u64::MAX,
    ensures
        queued is Ok <==> call.signed_by(old(registry)@.admin),
        queued matches Err(trap) ==> trap == Trap::<RegistryError>::Unauthorized
            && *final(registry) == *old(registry),
        queued matches Ok(event) ==> {
            let (s, t) = (old(registry)@, final(registry)@);
            &&& event.id == s.next_id
            &&& event.action@ == action@
            &&& event.eta == call.now + s.delay
            &&& t.next_id == s.next_id + 1
            &&& t.pending.dom().contains(event.id)
            &&& t.pending[event.id].action == action@
            &&& t.pending[event.id].eta == call.now + s.delay
            &&& forall|id: u64|
                id != event.id ==> (#[trigger] t.pending.dom().contains(id)
                    == s.pending.dom().contains(id) && (s.pending.dom().contains(id)
                    ==> t.pending[id] == s.pending[id]))
            &&& t.admin == s.admin
            &&& t.delay == s.delay
            &&& t.issuers == s.issuers
            &&& t.key_owner == s.key_owner
        },
{
}

/// **Canceling.** The administrator, and no one else, takes a queued action out
/// of the queue, at any time; nothing else changes.
pub proof fn lemma_cancel(
    registry: &mut IssuerRegistry,
    call: &Invocation,
    id: u64,
    canceled: Result<ActionCanceled, Trap<RegistryError>>,
)
    requires
        call_ensures(IssuerRegistry::cancel, (registry, call, id), canceled),
    ensures
        canceled is Ok <==> call.signed_by(old(registry)@.admin)
            && old(registry)@.pending.dom().contains(id),
        canceled matches Err(trap) ==> {
            &&& *final(registry) == *old(registry)
            &&& trap == (if call.signed_by(old(registry)@.admin) {
                Trap::Error(RegistryError::UnknownAction)
            } else {
                Trap::Unauthorized
            })
        },
        canceled matches Ok(event) ==> {
            let (s, t) = (old(registry)@, final(registry)@);
            &&& event.id == id
            &&& t.pending == s.pending.remove(id)
            &&& t.next_id == s.next_id
            &&& t.admin == s.admin
            &&& t.delay == s.delay
            &&& t.issuers == s.issuers
            &&& t.key_owner == s.key_owner
        },
{
}

/// **Refused executions.** An execution that is not signed by the
/// administrator, that names no queued action, or that comes before the
/// action's time, is refused for that reason, in this order. It is refused for
/// no other reason but what the action itself meets, and a refusal changes
/// nothing.
pub proof fn lemma_execution_refused(
    registry: &mut IssuerRegistry,
    call: &Invocation,
    id: u64,
    executed: Result<ActionExecuted, Trap<RegistryError>>,
)
    requires
        call_ensures(IssuerRegistry::execute, (registry, call, id), executed),
    ensures
        !call.signed_by(old(registry)@.admin) <==> executed == Err::<
            ActionExecuted,
            Trap<RegistryError>,
        >(Trap::Unauthorized),
        call.signed_by(old(registry)@.admin) && !old(registry)@.pending.dom().contains(id)
            <==> executed == Err::<ActionExecuted, Trap<RegistryError>>(
            Trap::Error(RegistryError::UnknownAction),
        ),
        call.signed_by(old(registry)@.admin) && old(registry)@.pending.dom().contains(id)
            && call.now < old(registry)@.pending[id].eta <==> executed == Err::<
            ActionExecuted,
            Trap<RegistryError>,
        >(Trap::Error(RegistryError::TimelockNotElapsed)),
        executed is Err ==> *final(registry) == *old(registry),
        executed matches Ok(event) ==> event.id == id && event.action@
            == old(registry)@.pending[id].action,
{
}

/// The queued action may be executed in this call.
pub open spec fn is_due(s: RegistryState, call: Invocation, id: u64) -> bool {
    &&& call.signed_by(s.admin)
    &&& s.pending.dom().contains(id)
    &&& s.pending[id].eta <= call.now
}

/// The second state differs from the first in its issuers and their keys at
/// most, and in that an action has left the queue.
pub open spec fn dequeued(s: RegistryState, t: RegistryState, id: u64) -> bool {
    &&& t.pending == s.pending.remove(id)
    &&& t.next_id == s.next_id
    &&& t.admin == s.admin
    &&& t.delay == s.delay
}

/// **Due additions.** At its time and at any later time, an action that adds an
/// issuer is executed if and only if the issuer is new and the key is no
/// issuer's. Then there is one issuer more: active, with that key and name.
pub proof fn lemma_addition_executed(
    registry: &mut IssuerRegistry,
    call: &Invocation,
    id: u64,
    issuer: Seq<u8>,
    key: Seq<u8>,
    name: Seq<char>,
    executed: Result<ActionExecuted, Trap<RegistryError>>,
)
    requires
        call_ensures(IssuerRegistry::execute, (registry, call, id), executed),
        is_due(old(registry)@, *call, id),
        old(registry)@.pending[id].action == ActionView::AddIssuer(issuer, key, name),
    ensures
        ({
            let (s, t) = (old(registry)@, final(registry)@);
            if s.issuers.dom().contains(issuer) {
                executed == Err::<ActionExecuted, Trap<RegistryError>>(
                    Trap::Error(RegistryError::IssuerExists),
                )
            } else if s.key_owner.dom().contains(key) {
                executed == Err::<ActionExecuted, Trap<RegistryError>>(
                    Trap::Error(RegistryError::KeyInUse),
                )
            } else {
                &&& executed is Ok
                &&& dequeued(s, t, id)
                &&& t.issuers.dom() == s.issuers.dom().insert(issuer)
                &&& t.issuers[issuer].signing_key == key
                &&& t.issuers[issuer].name == name
                &&& t.issuers[issuer].registered_at == call.now
                &&& t.issuers[issuer].active
                &&& forall|i: Seq<u8>|
                    i != issuer && #[trigger] s.issuers.dom().contains(i) ==> t.issuers[i]
                        == s.issuers[i]
                &&& t.key_owner.dom() == s.key_owner.dom().insert(key)
                &&& t.key_owner[key] == issuer
                &&& forall|k: Seq<u8>|
                    k != key && #[trigger] s.key_owner.dom().contains(k) ==> t.key_owner[k]
                        == s.key_owner[k]
            }
        }),
{
    let (s, t) = (old(registry)@, final(registry)@);
    if executed is Ok {
        assert(t.issuers.dom() =~= s.issuers.dom().insert(issuer));
        assert(t.key_owner.dom() =~= s.key_owner.dom().insert(key));
    }
}

/// **Due removals.** At its time and at any later time, an action that removes
/// an issuer is executed if and only if the issuer is known. Then its record
/// stays, but is inactive.
pub proof fn lemma_removal_executed(
    registry: &mut IssuerRegistry,
    call: &Invocation,
    id: u64,
    issuer: Seq<u8>,
    executed: Result<ActionExecuted, Trap<RegistryError>>,
)
    requires
        call_ensures(IssuerRegistry::execute, (registry, call, id), executed),
        is_due(old(registry)@, *call, id),
        old(registry)@.pending[id].action == ActionView::RemoveIssuer(issuer),
    ensures
        ({
            let (s, t) = (old(registry)@, final(registry)@);
            if !s.issuers.dom().contains(issuer) {
                executed == Err::<ActionExecuted, Trap<RegistryError>>(
                    Trap::Error(RegistryError::UnknownIssuer),
                )
            } else {
                &&& executed is Ok
                &&& dequeued(s, t, id)
                &&& t.issuers.dom() == s.issuers.dom()
                &&& !t.issuers[issuer].active
                &&& t.issuers[issuer].signing_key == s.issuers[issuer].signing_key
                &&& t.issuers[issuer].name == s.issuers[issuer].name
                &&& t.issuers[issuer].registered_at == s.issuers[issuer].registered_at
                &&& forall|i: Seq<u8>|
                    i != issuer && #[trigger] s.issuers.dom().contains(i) ==> t.issuers[i]
                        == s.issuers[i]
                &&& t.key_owner == s.key_owner
            }
        }),
{
    let (s, t) = (old(registry)@, final(registry)@);
    if executed is Ok {
        assert(t.issuers.dom() =~= s.issuers.dom());
    }
}

/// **Due rotations.** At its time and at any later time, an action that gives
/// an issuer a new key is executed if and only if the issuer is known and the
/// key is no issuer's. Then the issuer holds the new key in place of the old
/// one, and stays as active as it was.
pub proof fn lemma_rotation_executed(
    registry: &mut IssuerRegistry,
    call: &Invocation,
    id: u64,
    issuer: Seq<u8>,
    key: Seq<u8>,
    executed: Result<ActionExecuted, Trap<RegistryError>>,
)
    requires
        call_ensures(IssuerRegistry::execute, (registry, call, id), executed),
        old(registry).wf(),
        is_due(old(registry)@, *call, id),
        old(registry)@.pending[id].action == ActionView::RotateKey(issuer, key),
    ensures
        ({
            let (s, t) = (old(registry)@, final(registry)@);
            if !s.issuers.dom().contains(issuer) {
                executed == Err::<ActionExecuted, Trap<RegistryError>>(
                    Trap::Error(RegistryError::UnknownIssuer),
                )
            } else if s.key_owner.dom().contains(key) {
                executed == Err::<ActionExecuted, Trap<RegistryError>>(
                    Trap::Error(RegistryError::KeyInUse),
                )
            } else {
                let last = s.issuers[issuer].signing_key;
                &&& executed is Ok
                &&& dequeued(s, t, id)
                &&& t.issuers.dom() == s.issuers.dom()
                &&& t.issuers[issuer].signing_key == key
                &&& t.issuers[issuer].active == s.issuers[issuer].active
                &&& t.issuers[issuer].name == s.issuers[issuer].name
                &&& t.issuers[issuer].registered_at == s.issuers[issuer].registered_at
                &&& forall|i: Seq<u8>|
                    i != issuer && #[trigger] s.issuers.dom().contains(i) ==> t.issuers[i]
                        == s.issuers[i]
                &&& t.key_owner.dom() == s.key_owner.dom().remove(last).insert(key)
                &&& t.key_owner[key] == issuer
                &&& forall|k: Seq<u8>|
                    k != key && k != last && #[trigger] s.key_owner.dom().contains(k)
                        ==> t.key_owner[k] == s.key_owner[k]
            }
        }),
{
    crate::issuer_registry::lemma_registry_in_order(*old(registry));
    let (s, t) = (old(registry)@, final(registry)@);
    if executed is Ok {
        let last = s.issuers[issuer].signing_key;
        assert(s.key_owner.dom().contains(last));
        assert(t.issuers.dom() =~= s.issuers.dom());
        assert(t.key_owner.dom() =~= s.key_owner.dom().remove(last).insert(key));
    }
}

/// **The timelock opens and stays open.** What executing a queued action comes
/// to does not depend on when it is executed, from its time on: two executions
/// from one state are both carried out or refused for the same reason.
pub proof fn lemma_timelock_stays_open(
    registry: &mut IssuerRegistry,
    call: &Invocation,
    executed: Result<ActionExecuted, Trap<RegistryError>>,
    other: &mut IssuerRegistry,
    later: &Invocation,
    again: Result<ActionExecuted, Trap<RegistryError>>,
    id: u64,
)
    requires
        call_ensures(IssuerRegistry::execute, (registry, call, id), executed),
        call_ensures(IssuerRegistry::execute, (other, later, id), again),
        *old(other) == *old(registry),
        is_due(old(registry)@, *call, id),
        later.now >= call.now,
        later.signed_by(old(registry)@.admin),
    ensures
        executed is Ok <==> again is Ok,
        executed matches Err(trap) ==> again == Err::<ActionExecuted, Trap<RegistryError>>(trap),
        executed != Err::<ActionExecuted, Trap<RegistryError>>(
            Trap::Error(RegistryError::TimelockNotElapsed),
        ),
        final(registry)@.key_owner == final(other)@.key_owner,
{
    assert(final(registry)@.key_owner =~= final(other)@.key_owner);
}

/// **Queue, then execute.** A new issuer with an unused key that the
/// administrator queues and executes, at any time once the delay has passed, is
/// an active issuer from then on, and its key an active key.
pub proof fn lemma_queued_addition_takes_effect(
    registry: &mut IssuerRegistry,
    call: &Invocation,
    issuer: Address,
    key: [u8; 32],
    name: String,
    queued: Result<ActionQueued, Trap<RegistryError>>,
    after: &mut IssuerRegistry,
    later: &Invocation,
    executed: Result<ActionExecuted, Trap<RegistryError>>,
    active: bool,
    key_active: bool,
    info: Option<&IssuerInfo>,
)
    requires
        call_ensures(
            IssuerRegistry::queue,
            (registry, call, Action::AddIssuer(issuer, key, name)),
            queued,
        ),
        call.now + old(registry)@.delay <= u64::MAX,
        old(registry)@.next_id < u64::MAX,
        call.signed_by(old(registry)@.admin),
        *old(after) == *final(registry),
        call_ensures(
            IssuerRegistry::execute,
            (after, later, old(registry)@.next_id),
            executed,
        ),
        later.signed_by(old(registry)@.admin),
        later.now >= call.now + old(registry)@.delay,
        !old(registry)@.issuers.dom().contains(issuer@),
        !old(registry)@.key_owner.dom().contains(key@),
        call_ensures(
            <IssuerRegistry as Issuers>::is_issuer,
            (&*final(after), &issuer),
            active,
        ),
        call_ensures(
            <IssuerRegistry as Issuers>::is_key_active,
            (&*final(after), &key),
            key_active,
        ),
        call_ensures(IssuerRegistry::get_issuer, (&*final(after), &issuer), info),
    ensures
        executed is Ok,
        active,
        key_active,
        info matches Some(i) && i.signing_key@ == key@ && i.name@ == name@ && i.active
            && i.registered_at == later.now,
{
}

/// **Active issuers and keys.** An address is an issuer if its record is
/// active; a key is active if the issuer that holds it is.
pub proof fn lemma_active(
    registry: &IssuerRegistry,
    issuer: &Address,
    key: &[u8; 32],
    is_issuer: bool,
    is_key_active: bool,
)
    requires
        call_ensures(<IssuerRegistry as Issuers>::is_issuer, (registry, issuer), is_issuer),
        call_ensures(<IssuerRegistry as Issuers>::is_key_active, (registry, key), is_key_active),
        registry.wf(),
    ensures
        is_issuer <==> registry@.issuers.dom().contains(issuer@)
            && registry@.issuers[issuer@].active,
        is_key_active <==> exists|i: Seq<u8>| #[trigger]
            registry@.issuers.dom().contains(i) && registry@.issuers[i].active
                && registry@.issuers[i].signing_key == key@,
{
    crate::issuer_registry::lemma_registry_in_order(*registry);
    crate::issuer_registry::lemma_key_active(registry@, key@);
}

/// **Lookups.** Queued actions and records are found under their ids and
/// addresses, as they are, and nothing else is.
pub proof fn lemma_lookups(
    registry: &IssuerRegistry,
    id: u64,
    pending: Option<&PendingAction>,
    issuer: &Address,
    info: Option<&IssuerInfo>,
)
    requires
        call_ensures(IssuerRegistry::pending, (registry, id), pending),
        call_ensures(IssuerRegistry::get_issuer, (registry, issuer), info),
    ensures
        pending is Some <==> registry@.pending.dom().contains(id),
        pending matches Some(p) ==> registry@.pending[id] == (PendingView {
            action: p.action@,
            eta: p.eta,
        }),
        info is Some <==> registry@.issuers.dom().contains(issuer@),
        info matches Some(i) ==> registry@.issuers[issuer@] == (IssuerView {
            signing_key: i.signing_key@,
            name: i.name@,
            registered_at: i.registered_at,
            active: i.active,
        }),
{
}

} // verus!
