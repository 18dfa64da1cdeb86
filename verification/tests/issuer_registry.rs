//! The issuer registry and its timelock.

use attesta::interfaces::{Address, Invocation, Issuers, Trap};
use attesta::issuer_registry::{Action, IssuerRegistry, RegistryError};

const DELAY: u64 = 86_400; // 24h timelock

fn address(tag: u8) -> Address {
    Address { xdr: vec![tag; 4] }
}

const ADMIN: u8 = 200;

fn at(now: u64) -> Invocation {
    Invocation {
        now,
        signers: vec![address(ADMIN)],
    }
}

fn setup() -> IssuerRegistry {
    IssuerRegistry::new(address(ADMIN), DELAY)
}

fn key(seed: u8) -> [u8; 32] {
    [seed; 32]
}

fn add_issuer(registry: &mut IssuerRegistry, now: u64, issuer: u8, k: [u8; 32]) -> u64 {
    let queued = registry
        .queue(
            &at(now),
            Action::AddIssuer(address(issuer), k, "Anchor One".to_string()),
        )
        .unwrap();
    registry.execute(&at(now + DELAY), queued.id).unwrap();
    now + DELAY
}

#[test]
fn add_issuer_after_timelock() {
    let mut registry = setup();
    let issuer = address(1);
    let queued = registry
        .queue(
            &at(0),
            Action::AddIssuer(issuer.clone(), key(1), "Anchor One".to_string()),
        )
        .unwrap();
    assert_eq!(queued.eta, DELAY);
    let id = queued.id;
    assert!(registry.pending(id).is_some());
    assert!(!registry.is_issuer(&issuer));

    registry.execute(&at(DELAY), id).unwrap();

    assert!(registry.is_issuer(&issuer));
    assert!(registry.is_key_active(&key(1)));
    assert!(registry.pending(id).is_none());
    let info = registry.get_issuer(&issuer).unwrap();
    assert_eq!(info.signing_key, key(1));
    assert_eq!(info.name, "Anchor One");
    assert_eq!(info.registered_at, DELAY);
    assert!(info.active);
}

#[test]
fn execute_before_timelock_fails() {
    let mut registry = setup();
    let id = registry
        .queue(
            &at(0),
            Action::AddIssuer(address(1), key(1), "Too Eager".to_string()),
        )
        .unwrap()
        .id;
    let trap = registry.execute(&at(DELAY - 1), id).unwrap_err();
    assert_eq!(trap, Trap::Error(RegistryError::TimelockNotElapsed));
    assert_eq!(RegistryError::TimelockNotElapsed.code(), 2);
    assert!(registry.pending(id).is_some());
}

#[test]
fn canceled_action_cannot_execute() {
    let mut registry = setup();
    let id = registry
        .queue(
            &at(0),
            Action::AddIssuer(address(1), key(1), "Canceled".to_string()),
        )
        .unwrap()
        .id;
    assert_eq!(registry.cancel(&at(0), id).unwrap().id, id);
    let trap = registry.execute(&at(DELAY), id).unwrap_err();
    assert_eq!(trap, Trap::Error(RegistryError::UnknownAction));
    assert_eq!(RegistryError::UnknownAction.code(), 1);
}

#[test]
fn rotate_key_deactivates_old_key() {
    let mut registry = setup();
    let now = add_issuer(&mut registry, 0, 1, key(1));
    let id = registry
        .queue(&at(now), Action::RotateKey(address(1), key(2)))
        .unwrap()
        .id;
    registry.execute(&at(now + DELAY), id).unwrap();

    assert!(!registry.is_key_active(&key(1)));
    assert!(registry.is_key_active(&key(2)));
    assert!(registry.is_issuer(&address(1)));
}

#[test]
fn remove_issuer_deactivates_keys() {
    let mut registry = setup();
    let now = add_issuer(&mut registry, 0, 1, key(1));
    let id = registry
        .queue(&at(now), Action::RemoveIssuer(address(1)))
        .unwrap()
        .id;
    registry.execute(&at(now + DELAY), id).unwrap();

    assert!(!registry.is_issuer(&address(1)));
    assert!(!registry.is_key_active(&key(1)));
}

#[test]
fn duplicate_signing_key_rejected() {
    let mut registry = setup();
    let now = add_issuer(&mut registry, 0, 1, key(1));
    let id = registry
        .queue(
            &at(now),
            Action::AddIssuer(address(2), key(1), "Copycat".to_string()),
        )
        .unwrap()
        .id;
    let trap = registry.execute(&at(now + DELAY), id).unwrap_err();
    assert_eq!(trap, Trap::Error(RegistryError::KeyInUse));
    assert_eq!(RegistryError::KeyInUse.code(), 5);
    // The refused action is still queued, and nothing else changed.
    assert!(registry.pending(id).is_some());
    assert!(!registry.is_issuer(&address(2)));
}

#[test]
fn governance_is_the_admins() {
    let mut registry = setup();
    let outsider = Invocation {
        now: 0,
        signers: vec![address(1)],
    };
    let queued = registry.queue(&outsider, Action::RemoveIssuer(address(1)));
    assert_eq!(queued.unwrap_err(), Trap::Unauthorized);
    let id = registry
        .queue(&at(0), Action::RemoveIssuer(address(1)))
        .unwrap()
        .id;
    assert_eq!(
        registry.cancel(&outsider, id).unwrap_err(),
        Trap::Unauthorized
    );
    let later = Invocation {
        now: DELAY,
        signers: vec![address(1)],
    };
    assert_eq!(
        registry.execute(&later, id).unwrap_err(),
        Trap::Unauthorized
    );
    // The admin may; here there is no such issuer.
    let trap = registry.execute(&at(DELAY), id).unwrap_err();
    assert_eq!(trap, Trap::Error(RegistryError::UnknownIssuer));
    assert_eq!(RegistryError::UnknownIssuer.code(), 4);
}

#[test]
fn issuers_are_added_once() {
    let mut registry = setup();
    let now = add_issuer(&mut registry, 0, 1, key(1));
    let id = registry
        .queue(
            &at(now),
            Action::AddIssuer(address(1), key(2), "Again".to_string()),
        )
        .unwrap()
        .id;
    let trap = registry.execute(&at(now + DELAY), id).unwrap_err();
    assert_eq!(trap, Trap::Error(RegistryError::IssuerExists));
    assert_eq!(RegistryError::IssuerExists.code(), 3);
}

#[test]
fn actions_execute_once() {
    let mut registry = setup();
    let id = registry
        .queue(
            &at(0),
            Action::AddIssuer(address(1), key(1), "Anchor One".to_string()),
        )
        .unwrap()
        .id;
    registry.execute(&at(DELAY), id).unwrap();
    assert_eq!(
        registry.execute(&at(DELAY), id).unwrap_err(),
        Trap::Error(RegistryError::UnknownAction)
    );
    assert_eq!(
        registry.cancel(&at(DELAY), id).unwrap_err(),
        Trap::Error(RegistryError::UnknownAction)
    );
}

#[test]
fn ids_count_up() {
    let mut registry = setup();
    let a = registry
        .queue(&at(0), Action::RemoveIssuer(address(1)))
        .unwrap()
        .id;
    let b = registry
        .queue(&at(5), Action::RemoveIssuer(address(1)))
        .unwrap();
    assert_eq!((a, b.id), (0, 1));
    assert_eq!(b.eta, DELAY + 5);
    registry.cancel(&at(5), a).unwrap();
    // Other actions stay queued.
    assert!(registry.pending(b.id).is_some());
    assert!(registry.pending(a).is_none());
}

#[test]
fn rotation_of_an_unknown_issuer_fails() {
    let mut registry = setup();
    let id = registry
        .queue(&at(0), Action::RotateKey(address(9), key(2)))
        .unwrap()
        .id;
    assert_eq!(
        registry.execute(&at(DELAY), id).unwrap_err(),
        Trap::Error(RegistryError::UnknownIssuer)
    );
}

#[test]
fn rotation_to_a_used_key_fails() {
    let mut registry = setup();
    let now = add_issuer(&mut registry, 0, 1, key(1));
    let now = add_issuer(&mut registry, now, 2, key(2));
    let id = registry
        .queue(&at(now), Action::RotateKey(address(1), key(2)))
        .unwrap()
        .id;
    assert_eq!(
        registry.execute(&at(now + DELAY), id).unwrap_err(),
        Trap::Error(RegistryError::KeyInUse)
    );
    assert!(registry.is_key_active(&key(1)));
}
