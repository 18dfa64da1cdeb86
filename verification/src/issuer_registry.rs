//! Governance-curated list of credential issuers with published signing keys.
//!
//! Attestation circuits verify credentials against these keys, so this
//! registry is the trust root of the attestation layer. Additions, removals
//! and key rotations are queued by governance and can be executed only after
//! the configured delay, with events at every step.

use crate::interfaces::{Address, Invocation, Issuers, Trap};
use crate::store::{Key, Store};
use vstd::prelude::*;

verus! {

/// An issuer's record.
#[derive(Debug, PartialEq, Eq)]
pub struct IssuerInfo {
    /// Public signing key credentials are verified against (as a public input
    /// to attestation circuits).
    pub signing_key: [u8; 32],
    /// Display name or metadata pointer.
    pub name: String,
    pub registered_at: u64,
    pub active: bool,
}

/// An issuer's record, as plain values.
pub struct IssuerView {
    pub signing_key: Seq<u8>,
    pub name: Seq<char>,
    pub registered_at: u64,
    pub active: bool,
}

impl View for IssuerInfo {
    type V = IssuerView;

    open spec fn view(&self) -> IssuerView {
        IssuerView {
            signing_key: self.signing_key@,
            name: self.name@,
            registered_at: self.registered_at,
            active: self.active,
        }
    }
}

/// Governance actions that must pass through the timelock.
#[derive(Debug, PartialEq, Eq)]
pub enum Action {
    AddIssuer(Address, [u8; 32], String),
    RemoveIssuer(Address),
    RotateKey(Address, [u8; 32]),
}

/// A governance action, as plain values.
pub enum ActionView {
    AddIssuer(Seq<u8>, Seq<u8>, Seq<char>),
    RemoveIssuer(Seq<u8>),
    RotateKey(Seq<u8>, Seq<u8>),
}

impl View for Action {
    type V = ActionView;

    open spec fn view(&self) -> ActionView {
        match *self {
            Action::AddIssuer(issuer, key, name) => ActionView::AddIssuer(issuer@, key@, name@),
            Action::RemoveIssuer(issuer) => ActionView::RemoveIssuer(issuer@),
            Action::RotateKey(issuer, key) => ActionView::RotateKey(issuer@, key@),
        }
    }
}

impl Clone for Action {
    fn clone(&self) -> (copy: Action)
        ensures
            copy@ == self@,
    {
        match self {
            Action::AddIssuer(issuer, key, name) => Action::AddIssuer(
                issuer.clone(),
                *key,
                name.clone(),
            ),
            Action::RemoveIssuer(issuer) => Action::RemoveIssuer(issuer.clone()),
            Action::RotateKey(issuer, key) => Action::RotateKey(issuer.clone(), *key),
        }
    }
}

/// An action in the timelock queue.
#[derive(Debug)]
pub struct PendingAction {
    pub action: Action,
    /// Earliest ledger timestamp at which the action may execute.
    pub eta: u64,
}

/// An action in the timelock queue, as plain values.
pub struct PendingView {
    pub action: ActionView,
    pub eta: u64,
}

impl View for PendingAction {
    type V = PendingView;

    open spec fn view(&self) -> PendingView {
        PendingView { action: self.action@, eta: self.eta }
    }
}

/// A curation action entered the timelock queue.
#[derive(Debug)]
pub struct ActionQueued {
    pub id: u64,
    pub action: Action,
    pub eta: u64,
}

/// A queued action was canceled.
#[derive(Clone, Copy, Debug, PartialEq, Eq, Structural)]
pub struct ActionCanceled {
    pub id: u64,
}

/// A queued action was executed.
#[derive(Debug)]
pub struct ActionExecuted {
    pub id: u64,
    pub action: Action,
}

/// Errors of the registry.
#[derive(Clone, Copy, Debug, PartialEq, Eq, Structural)]
pub enum RegistryError {
    UnknownAction,
    TimelockNotElapsed,
    IssuerExists,
    UnknownIssuer,
    KeyInUse,
}

impl RegistryError {
    /// The error's number on the ledger.
    pub fn code(&self) -> (code: u32)
        ensures
            code == match *self {
                RegistryError::UnknownAction => 1u32,
                RegistryError::TimelockNotElapsed => 2,
                RegistryError::IssuerExists => 3,
                RegistryError::UnknownIssuer => 4,
                RegistryError::KeyInUse => 5,
            },
    {
        match self {
            RegistryError::UnknownAction => 1,
            RegistryError::TimelockNotElapsed => 2,
            RegistryError::IssuerExists => 3,
            RegistryError::UnknownIssuer => 4,
            RegistryError::KeyInUse => 5,
        }
    }
}

/// The registry's state, as plain values.
#[verifier::ext_equal]
pub struct RegistryState {
    /// The governance multi-sig.
    pub admin: Seq<u8>,
    /// Timelock delay in seconds for every curation action.
    pub delay: u64,
    /// The id that the next queued action gets.
    pub next_id: u64,
    /// Queued actions.
    pub pending: Map<u64, PendingView>,
    /// Issuer records.
    pub issuers: Map<Seq<u8>, IssuerView>,
    /// The issuer that holds a signing key.
    pub key_owner: Map<Seq<u8>, Seq<u8>>,
}

impl RegistryState {
    /// Every issuer holds its signing key, every held key is its holder's
    /// signing key, and no id of a queued action is still to be given.
    pub open spec fn in_order(self) -> bool {
        &&& forall|i: Seq<u8>| #[trigger]
            self.issuers.dom().contains(i) ==> {
                &&& self.key_owner.dom().contains(self.issuers[i].signing_key)
                &&& self.key_owner[self.issuers[i].signing_key] == i
            }
        &&& forall|k: Seq<u8>| #[trigger]
            self.key_owner.dom().contains(k) ==> {
                &&& self.issuers.dom().contains(self.key_owner[k])
                &&& self.issuers[self.key_owner[k]].signing_key == k
            }
        &&& forall|id: u64| #[trigger] self.pending.dom().contains(id) ==> id < self.next_id
    }

    /// The state after an action was queued.
    pub open spec fn queued(self, now: u64, action: ActionView) -> RegistryState {
        RegistryState {
            next_id: (self.next_id + 1) as u64,
            pending: self.pending.insert(
                self.next_id,
                PendingView { action, eta: (now + self.delay) as u64 },
            ),
            ..self
        }
    }

    /// The state without a queued action.
    pub open spec fn without(self, id: u64) -> RegistryState {
        RegistryState { pending: self.pending.remove(id), ..self }
    }

    /// The state after an action took effect, or why it cannot.
    pub open spec fn applied(self, now: u64, action: ActionView) -> Result<
        RegistryState,
        RegistryError,
    > {
        match action {
            ActionView::AddIssuer(issuer, key, name) => if self.issuers.dom().contains(issuer) {
                Err(RegistryError::IssuerExists)
            } else if self.key_owner.dom().contains(key) {
                Err(RegistryError::KeyInUse)
            } else {
                Ok(
                    RegistryState {
                        issuers: self.issuers.insert(
                            issuer,
                            IssuerView {
                                signing_key: key,
                                name,
                                registered_at: now,
                                active: true,
                            },
                        ),
                        key_owner: self.key_owner.insert(key, issuer),
                        ..self
                    },
                )
            },
            ActionView::RemoveIssuer(issuer) => if !self.issuers.dom().contains(issuer) {
                Err(RegistryError::UnknownIssuer)
            } else {
                Ok(
                    RegistryState {
                        issuers: self.issuers.insert(
                            issuer,
                            IssuerView { active: false, ..self.issuers[issuer] },
                        ),
                        ..self
                    },
                )
            },
            ActionView::RotateKey(issuer, key) => if !self.issuers.dom().contains(issuer) {
                Err(RegistryError::UnknownIssuer)
            } else if self.key_owner.dom().contains(key) {
                Err(RegistryError::KeyInUse)
            } else {
                Ok(
                    RegistryState {
                        issuers: self.issuers.insert(
                            issuer,
                            IssuerView { signing_key: key, ..self.issuers[issuer] },
                        ),
                        key_owner: self.key_owner.insert(key, issuer).remove(
                            self.issuers[issuer].signing_key,
                        ),
                        ..self
                    },
                )
            },
        }
    }

    /// The state after a queued action was executed, or why it cannot be.
    pub open spec fn executed(self, now: u64, id: u64) -> Result<RegistryState, RegistryError> {
        if !self.pending.dom().contains(id) {
            Err(RegistryError::UnknownAction)
        } else if now < self.pending[id].eta {
            Err(RegistryError::TimelockNotElapsed)
        } else {
            self.without(id).applied(now, self.pending[id].action)
        }
    }

    /// Whether an address is a registered, active issuer.
    pub open spec fn issuer_active(self, issuer: Seq<u8>) -> bool {
        self.issuers.dom().contains(issuer) && self.issuers[issuer].active
    }

    /// Whether a key is the signing key of an active issuer.
    pub open spec fn key_active(self, key: Seq<u8>) -> bool {
        self.key_owner.dom().contains(key) && self.issuer_active(self.key_owner[key])
    }
}

/// What an action does does not depend on the queue.
proof fn lemma_without(s: RegistryState, now: u64, action: ActionView, id: u64)
    ensures
        s.without(id).applied(now, action) == match s.applied(now, action) {
            Ok(t) => Ok::<RegistryState, RegistryError>(t.without(id)),
            Err(e) => Err::<RegistryState, RegistryError>(e),
        },
{
}

/// The values of a map by their views.
spec fn viewed<I, V: View>(m: Map<I, V>) -> Map<I, V::V> {
    m.map_values(|v: V| v@)
}

proof fn lemma_viewed_insert<I, V: View>(m: Map<I, V>, k: I, v: V)
    ensures
        viewed(m.insert(k, v)) == viewed(m).insert(k, v@),
{
    assert(viewed(m.insert(k, v)) =~= viewed(m).insert(k, v@));
}

proof fn lemma_viewed_remove<I, V: View>(m: Map<I, V>, k: I)
    ensures
        viewed(m.remove(k)) == viewed(m).remove(k),
{
    assert(viewed(m.remove(k)) =~= viewed(m).remove(k));
}

/// The issuer registry.
#[derive(Debug)]
pub struct IssuerRegistry {
    admin: Address,
    delay: u64,
    next_action_id: u64,
    pending: Store<u64, PendingAction>,
    issuers: Store<Address, IssuerInfo>,
    key_owner: Store<[u8; 32], Address>,
}

impl View for IssuerRegistry {
    type V = RegistryState;

    closed spec fn view(&self) -> RegistryState {
        RegistryState {
            admin: self.admin@,
            delay: self.delay,
            next_id: self.next_action_id,
            pending: viewed(self.pending.map()),
            issuers: viewed(self.issuers.map()),
            key_owner: viewed(self.key_owner.map()),
        }
    }
}

impl IssuerRegistry {
    /// The stores and the state are in order.
    pub closed spec fn wf(self) -> bool {
        &&& self.pending.wf()
        &&& self.issuers.wf()
        &&& self.key_owner.wf()
        &&& self@.in_order()
    }

    /// * `admin`: the governance multi-sig.
    /// * `delay`: timelock delay in seconds for every curation action.
    pub fn new(admin: Address, delay: u64) -> (registry: IssuerRegistry)
        ensures
            registry.wf(),
            registry@ == (RegistryState {
                admin: admin@,
                delay,
                next_id: 0,
                pending: Map::empty(),
                issuers: Map::empty(),
                key_owner: Map::empty(),
            }),
    {
        let registry = IssuerRegistry {
            admin,
            delay,
            next_action_id: 0,
            pending: Store::new(),
            issuers: Store::new(),
            key_owner: Store::new(),
        };
        proof {
            assert(registry@.pending =~= Map::empty());
            assert(registry@.issuers =~= Map::empty());
            assert(registry@.key_owner =~= Map::empty());
        }
        registry
    }

    /// Queues a curation action behind the timelock. The event carries the
    /// action id.
    pub fn queue(&mut self, call: &Invocation, action: Action) -> (queued: Result<
        ActionQueued,
        Trap<RegistryError>,
    >)
        requires
            old(self).wf(),
            call.now + old(self)@.delay <= u64::MAX,
            old(self)@.next_id < u64::MAX,
        ensures
            final(self).wf(),
            match queued {
                Ok(event) => {
                    &&& call.signed_by(old(self)@.admin)
                    &&& final(self)@ == old(self)@.queued(call.now, action@)
                    &&& event.id == old(self)@.next_id
                    &&& event.action@ == action@
                    &&& event.eta == call.now + old(self)@.delay
                },
                Err(trap) => {
                    &&& !call.signed_by(old(self)@.admin)
                    &&& trap == Trap::<RegistryError>::Unauthorized
                    &&& *final(self) == *old(self)
                },
            },
    {
        if !call.is_signed_by(&self.admin) {
            return Err(Trap::Unauthorized);
        }
        let id: u64 = self.next_action_id;
        let eta: u64 = call.now + self.delay;
        let held = PendingAction { action: action.clone(), eta };
        proof {
            lemma_viewed_insert(self.pending.map(), id, held);
        }
        self.pending.set(id, held);
        self.next_action_id = id + 1;
        proof {
            assert(self@ =~= old(self)@.queued(call.now, action@));
        }
        Ok(ActionQueued { id, action, eta })
    }

    /// Cancels a queued action before execution.
    pub fn cancel(&mut self, call: &Invocation, id: u64) -> (canceled: Result<
        ActionCanceled,
        Trap<RegistryError>,
    >)
        requires
            old(self).wf(),
        ensures
            final(self).wf(),
            match canceled {
                Ok(event) => {
                    &&& call.signed_by(old(self)@.admin)
                    &&& old(self)@.pending.dom().contains(id)
                    &&& final(self)@ == old(self)@.without(id)
                    &&& event.id == id
                },
                Err(trap) => {
                    &&& trap == if !call.signed_by(old(self)@.admin) {
                        Trap::Unauthorized
                    } else {
                        Trap::Error(RegistryError::UnknownAction)
                    }
                    &&& call.signed_by(old(self)@.admin) ==> !old(self)@.pending.dom().contains(id)
                    &&& *final(self) == *old(self)
                },
            },
    {
        if !call.is_signed_by(&self.admin) {
            return Err(Trap::Unauthorized);
        }
        if !self.pending.has(&id) {
            return Err(Trap::Error(RegistryError::UnknownAction));
        }
        proof {
            lemma_viewed_remove(self.pending.map(), id);
        }
        self.pending.remove(&id);
        proof {
            assert(self@ =~= old(self)@.without(id));
        }
        Ok(ActionCanceled { id })
    }

    /// Executes a queued action once its timelock has elapsed.
    pub fn execute(&mut self, call: &Invocation, id: u64) -> (executed: Result<
        ActionExecuted,
        Trap<RegistryError>,
    >)
        requires
            old(self).wf(),
        ensures
            final(self).wf(),
            match executed {
                Ok(event) => {
                    &&& call.signed_by(old(self)@.admin)
                    &&& old(self)@.executed(call.now, id) == Ok::<RegistryState, RegistryError>(
                        final(self)@,
                    )
                    &&& event.id == id
                    &&& event.action@ == old(self)@.pending[id].action
                },
                Err(trap) => {
                    &&& !call.signed_by(old(self)@.admin) ==> trap
                        == Trap::<RegistryError>::Unauthorized
                    &&& call.signed_by(old(self)@.admin) ==> (old(self)@.executed(
                        call.now,
                        id,
                    ) matches Err(e) && trap == Trap::Error(e))
                    &&& *final(self) == *old(self)
                },
            },
    {
        if !call.is_signed_by(&self.admin) {
            return Err(Trap::Unauthorized);
        }
        let action: Action = match self.pending.get(&id) {
            None => {
                return Err(Trap::Error(RegistryError::UnknownAction));
            },
            Some(pending) => {
                if call.now < pending.eta {
                    return Err(Trap::Error(RegistryError::TimelockNotElapsed));
                }
                pending.action.clone()
            },
        };
        let outcome: Result<(), RegistryError> = match &action {
            Action::AddIssuer(issuer, key, name) => self.add_issuer(call.now, issuer, key, name),
            Action::RemoveIssuer(issuer) => self.remove_issuer(issuer),
            Action::RotateKey(issuer, new_key) => self.rotate_key(issuer, new_key),
        };
        proof {
            lemma_without(old(self)@, call.now, action@, id);
        }
        if let Err(e) = outcome {
            return Err(Trap::Error(e));
        }
        proof {
            lemma_viewed_remove(self.pending.map(), id);
        }
        let ghost applied = self@;
        self.pending.remove(&id);
        proof {
            assert(self@ =~= applied.without(id));
        }
        Ok(ActionExecuted { id, action })
    }

    fn add_issuer(&mut self, now: u64, issuer: &Address, key: &[u8; 32], name: &String) -> (done:
        Result<(), RegistryError>)
        requires
            old(self).wf(),
        ensures
            final(self).wf(),
            match done {
                Ok(_) => old(self)@.applied(
                    now,
                    ActionView::AddIssuer(issuer@, key@, name@),
                ) == Ok::<RegistryState, RegistryError>(final(self)@),
                Err(e) => old(self)@.applied(now, ActionView::AddIssuer(issuer@, key@, name@))
                    == Err::<RegistryState, RegistryError>(e) && *final(self) == *old(self),
            },
    {
        if self.issuers.has(issuer) {
            return Err(RegistryError::IssuerExists);
        }
        if self.key_owner.has(key) {
            return Err(RegistryError::KeyInUse);
        }
        let owner = issuer.clone();
        let info = IssuerInfo {
            signing_key: *key,
            name: name.clone(),
            registered_at: now,
            active: true,
        };
        proof {
            lemma_viewed_insert(self.key_owner.map(), key@, owner);
            lemma_viewed_insert(self.issuers.map(), issuer@, info);
        }
        self.key_owner.set(*key, owner);
        self.issuers.set(issuer.clone(), info);
        Ok(())
    }

    fn remove_issuer(&mut self, issuer: &Address) -> (done: Result<(), RegistryError>)
        requires
            old(self).wf(),
        ensures
            final(self).wf(),
            match done {
                Ok(_) => forall|now: u64|
                    #![auto]
                    old(self)@.applied(now, ActionView::RemoveIssuer(issuer@)) == Ok::<
                        RegistryState,
                        RegistryError,
                    >(final(self)@),
                Err(e) => (forall|now: u64|
                    #![auto]
                    old(self)@.applied(now, ActionView::RemoveIssuer(issuer@)) == Err::<
                        RegistryState,
                        RegistryError,
                    >(e)) && *final(self) == *old(self),
            },
    {
        // Deactivate rather than delete: history stays queryable, and the
        // issuer's key goes inactive at once.
        let info: IssuerInfo = match self.issuers.get(issuer) {
            None => {
                return Err(RegistryError::UnknownIssuer);
            },
            Some(known) => IssuerInfo {
                signing_key: known.signing_key,
                name: known.name.clone(),
                registered_at: known.registered_at,
                active: false,
            },
        };
        proof {
            lemma_viewed_insert(self.issuers.map(), issuer@, info);
        }
        self.issuers.set(issuer.clone(), info);
        Ok(())
    }

    fn rotate_key(&mut self, issuer: &Address, new_key: &[u8; 32]) -> (done: Result<
        (),
        RegistryError,
    >)
        requires
            old(self).wf(),
        ensures
            final(self).wf(),
            match done {
                Ok(_) => forall|now: u64|
                    #![auto]
                    old(self)@.applied(now, ActionView::RotateKey(issuer@, new_key@)) == Ok::<
                        RegistryState,
                        RegistryError,
                    >(final(self)@),
                Err(e) => (forall|now: u64|
                    #![auto]
                    old(self)@.applied(now, ActionView::RotateKey(issuer@, new_key@)) == Err::<
                        RegistryState,
                        RegistryError,
                    >(e)) && *final(self) == *old(self),
            },
    {
        let (info, old_key): (IssuerInfo, [u8; 32]) = match self.issuers.get(issuer) {
            None => {
                return Err(RegistryError::UnknownIssuer);
            },
            Some(known) => (
                IssuerInfo {
                    signing_key: *new_key,
                    name: known.name.clone(),
                    registered_at: known.registered_at,
                    active: known.active,
                },
                known.signing_key,
            ),
        };
        if self.key_owner.has(new_key) {
            return Err(RegistryError::KeyInUse);
        }
        let owner = issuer.clone();
        proof {
            lemma_viewed_insert(self.key_owner.map(), new_key@, owner);
            lemma_viewed_remove(self.key_owner.map().insert(new_key@, owner), old_key@);
            lemma_viewed_insert(self.issuers.map(), issuer@, info);
        }
        self.key_owner.set(*new_key, owner);
        // The old key stops validating at once.
        self.key_owner.remove(&old_key);
        self.issuers.set(issuer.clone(), info);
        Ok(())
    }

    /// A queued action, for integrators watching pending changes.
    pub fn pending(&self, id: u64) -> (found: Option<&PendingAction>)
        requires
            self.wf(),
        ensures
            match found {
                Some(p) => self@.pending.dom().contains(id) && p@ == self@.pending[id],
                None => !self@.pending.dom().contains(id),
            },
    {
        self.pending.get(&id)
    }

    /// An issuer's record.
    pub fn get_issuer(&self, issuer: &Address) -> (found: Option<&IssuerInfo>)
        requires
            self.wf(),
        ensures
            match found {
                Some(i) => self@.issuers.dom().contains(issuer@) && i@ == self@.issuers[issuer@],
                None => !self@.issuers.dom().contains(issuer@),
            },
    {
        self.issuers.get(issuer)
    }
}

impl Issuers for IssuerRegistry {
    open spec fn issuer_active(&self, issuer: Seq<u8>) -> bool {
        self@.issuer_active(issuer)
    }

    open spec fn key_active(&self, signing_key: Seq<u8>) -> bool {
        self@.key_active(signing_key)
    }

    open spec fn in_order(&self) -> bool {
        self.wf()
    }

    fn is_issuer(&self, issuer: &Address) -> (active: bool) {
        match self.issuers.get(issuer) {
            Some(info) => info.active,
            None => false,
        }
    }

    fn is_key_active(&self, signing_key: &[u8; 32]) -> (active: bool) {
        match self.key_owner.get(signing_key) {
            Some(owner) => self.is_issuer(owner),
            None => false,
        }
    }
}

/// **The timelock.** An action cannot be executed before its delay has
/// passed since it was queued.
pub proof fn lemma_timelock(s: RegistryState, queued_at: u64, action: ActionView, now: u64)
    requires
        queued_at + s.delay <= u64::MAX,
        now < queued_at + s.delay,
    ensures
        s.queued(queued_at, action).executed(now, s.next_id) == Err::<
            RegistryState,
            RegistryError,
        >(RegistryError::TimelockNotElapsed),
{
}

/// **Queued actions wait unchanged.** What is queued, canceled or executed
/// under another id leaves a queued action as it is.
pub proof fn lemma_pending_kept(
    s: RegistryState,
    id: u64,
    now: u64,
    action: ActionView,
    other: u64,
)
    requires
        s.in_order(),
        s.pending.dom().contains(id),
        other != id,
    ensures
        s.queued(now, action).pending.dom().contains(id),
        s.queued(now, action).pending[id] == s.pending[id],
        s.without(other).pending.dom().contains(id),
        s.without(other).pending[id] == s.pending[id],
        s.executed(now, other) matches Ok(t) ==> t.pending.dom().contains(id) && t.pending[id]
            == s.pending[id],
{
}

/// **An action executes at most once.** After an action was executed or
/// canceled, its id is unknown, and no action queued later gets it again.
pub proof fn lemma_executes_once(
    s: RegistryState,
    id: u64,
    now: u64,
    later: u64,
    action: ActionView,
)
    requires
        s.in_order(),
        s.next_id < u64::MAX,
    ensures
        s.executed(now, id) matches Ok(t) ==> {
            &&& t.executed(later, id) == Err::<RegistryState, RegistryError>(
                RegistryError::UnknownAction,
            )
            &&& t.queued(later, action).executed(later, id) == Err::<RegistryState, RegistryError>(
                RegistryError::UnknownAction,
            )
        },
        s.pending.dom().contains(id) ==> {
            &&& s.without(id).executed(later, id) == Err::<RegistryState, RegistryError>(
                RegistryError::UnknownAction,
            )
            &&& s.without(id).queued(later, action).executed(later, id) == Err::<
                RegistryState,
                RegistryError,
            >(RegistryError::UnknownAction)
        },
{
}

/// **Every step keeps the registry in order.** Queueing, canceling and
/// executing keep each issuer tied to exactly one signing key.
pub proof fn lemma_in_order_kept(s: RegistryState, now: u64, action: ActionView, id: u64)
    requires
        s.in_order(),
        s.next_id < u64::MAX,
    ensures
        s.queued(now, action).in_order(),
        s.without(id).in_order(),
        s.executed(now, id) matches Ok(t) ==> t.in_order(),
{
}

/// **A registry is in order.** In every registry that a caller holds, each
/// issuer is tied to exactly one signing key.
pub proof fn lemma_registry_in_order(registry: IssuerRegistry)
    requires
        registry.wf(),
    ensures
        registry@.in_order(),
{
}

/// **Keys are not shared.** Two issuers with one signing key are the same.
pub proof fn lemma_keys_unique(s: RegistryState, a: Seq<u8>, b: Seq<u8>)
    requires
        s.in_order(),
        s.issuers.dom().contains(a),
        s.issuers.dom().contains(b),
        s.issuers[a].signing_key == s.issuers[b].signing_key,
    ensures
        a == b,
{
}

/// **A key is active if and only if an active issuer signs with it.**
pub proof fn lemma_key_active(s: RegistryState, key: Seq<u8>)
    requires
        s.in_order(),
    ensures
        s.key_active(key) <==> exists|i: Seq<u8>| #[trigger]
            s.issuers.dom().contains(i) && s.issuers[i].active && s.issuers[i].signing_key == key,
{
    if s.key_active(key) {
        let i = s.key_owner[key];
        assert(s.issuers.dom().contains(i) && s.issuers[i].active && s.issuers[i].signing_key
            == key);
    }
}

/// **Addition.** A new issuer is active, and so is its key.
pub proof fn lemma_addition(
    s: RegistryState,
    now: u64,
    issuer: Seq<u8>,
    key: Seq<u8>,
    name: Seq<char>,
)
    requires
        s.in_order(),
    ensures
        s.applied(now, ActionView::AddIssuer(issuer, key, name)) matches Ok(t) ==> t.issuer_active(
            issuer,
        ) && t.key_active(key),
{
}

/// **Rotation.** The old key stops validating at once, the new one validates
/// if the issuer is active, and the issuer stays what it was.
pub proof fn lemma_rotation(s: RegistryState, now: u64, issuer: Seq<u8>, new_key: Seq<u8>)
    requires
        s.in_order(),
    ensures
        s.applied(now, ActionView::RotateKey(issuer, new_key)) matches Ok(t) ==> {
            &&& !t.key_active(s.issuers[issuer].signing_key)
            &&& t.key_active(new_key) == s.issuer_active(issuer)
            &&& t.issuer_active(issuer) == s.issuer_active(issuer)
        },
{
}

/// **Removal.** A removed issuer is inactive, and so is its key; its record
/// stays.
pub proof fn lemma_removal(s: RegistryState, now: u64, issuer: Seq<u8>)
    requires
        s.in_order(),
    ensures
        s.applied(now, ActionView::RemoveIssuer(issuer)) matches Ok(t) ==> {
            &&& !t.issuer_active(issuer)
            &&& !t.key_active(s.issuers[issuer].signing_key)
            &&& t.issuers.dom().contains(issuer)
        },
{
}

/// The issuer that an action is about.
pub open spec fn subject(action: ActionView) -> Seq<u8> {
    match action {
        ActionView::AddIssuer(issuer, _, _) => issuer,
        ActionView::RemoveIssuer(issuer) => issuer,
        ActionView::RotateKey(issuer, _) => issuer,
    }
}

/// **Other issuers are untouched.** An action changes the record and the key
/// of the issuer it is about alone.
pub proof fn lemma_others_untouched(
    s: RegistryState,
    now: u64,
    action: ActionView,
    other: Seq<u8>,
)
    requires
        s.in_order(),
        other != subject(action),
    ensures
        s.applied(now, action) matches Ok(t) ==> {
            &&& t.issuers.dom().contains(other) == s.issuers.dom().contains(other)
            &&& s.issuers.dom().contains(other) ==> {
                &&& t.issuers[other] == s.issuers[other]
                &&& t.key_active(s.issuers[other].signing_key) == s.key_active(
                    s.issuers[other].signing_key,
                )
            }
        },
{
}

} // verus!
