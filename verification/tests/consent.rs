//! Consent: grants, revocations, expiry and authority passed on.

use hivedb::clock::MockClock;
use hivedb::db::HiveDB;
use hivedb::event::{AgentId, EventInput, EventKind, Scope};
use hivedb::state::consent_graph::{is_expired, ConsentGraph};

fn db() -> HiveDB<MockClock> {
    HiveDB::open_temp_with_clock(MockClock::at(0)).unwrap()
}

fn scope(action: &str, resource: &str) -> Scope {
    Scope::new(action, resource)
}

fn consent_granted(from: &str, to: &str, scope: Scope, expires: Option<u64>) -> EventInput {
    EventInput::new(
        from,
        "consent",
        EventKind::ConsentGranted { from: from.into(), to: to.into(), scope, expires },
    )
}

fn consent_revoked(grant_seq: u64) -> EventInput {
    EventInput::new("PM", "consent", EventKind::ConsentRevoked { grant_seq })
}

#[test]
fn consent_grant_then_query() {
    let mut db = db();
    db.append(consent_granted("PM", "Backend", scope("deploy", "staging"), None)).unwrap();

    assert!(db.can("Backend", "deploy", "staging").unwrap().allowed());
    assert!(!db.can("Backend", "deploy", "prod").unwrap().allowed());
    assert!(!db.can("Frontend", "deploy", "staging").unwrap().allowed());
}

#[test]
fn consent_revoke_takes_effect() {
    let mut db = db();
    let grant =
        db.append(consent_granted("PM", "Backend", scope("deploy", "staging"), None)).unwrap();

    assert!(db.can("Backend", "deploy", "staging").unwrap().allowed());
    db.append(consent_revoked(grant)).unwrap();
    assert!(!db.can("Backend", "deploy", "staging").unwrap().allowed());
}

#[test]
fn authorized_action_logs_intent_with_provenance() {
    let mut db = db();
    let grant =
        db.append(consent_granted("PM", "Backend", scope("deploy", "staging"), None)).unwrap();

    let decision = db.can("Backend", "deploy", "staging").unwrap();
    let intent_seq = decision.intent_log_seq().unwrap();

    let intent = db.read(intent_seq).unwrap();
    assert_eq!(intent.authorized_by(), Some(grant));
}

#[test]
fn expired_consent_does_not_authorize() {
    let mut db = HiveDB::open_temp_with_clock(MockClock::at(1000)).unwrap();
    db.append(consent_granted("PM", "Backend", scope("deploy", "staging"), Some(1500))).unwrap();

    db.advance_clock_to(2000);
    assert!(!db.can("Backend", "deploy", "staging").unwrap().allowed());
}

#[test]
fn consent_transitive_authorization() {
    let mut db = db();
    let _pm_to_lead =
        db.append(consent_granted("PM", "Lead", scope("deploy", "staging"), None)).unwrap();
    let lead_to_backend =
        db.append(consent_granted("Lead", "Backend", scope("deploy", "staging"), None)).unwrap();

    let decision = db.can("Backend", "deploy", "staging").unwrap();
    assert!(decision.allowed());

    let intent = db.read(decision.intent_log_seq().unwrap()).unwrap();
    // `authorized_by` must point to the direct grant that closes the chain.
    assert_eq!(intent.authorized_by(), Some(lead_to_backend));
}

#[test]
fn consent_cycle_does_not_loop_forever() {
    let mut db = db();
    db.append(consent_granted("PM", "Lead", scope("deploy", "staging"), None)).unwrap();
    db.append(consent_granted("Lead", "Backend", scope("deploy", "staging"), None)).unwrap();
    db.append(consent_granted("Backend", "PM", scope("deploy", "staging"), None)).unwrap();

    // A pure cycle has no root, so it must not authorize.
    assert!(!db.can("Backend", "deploy", "staging").unwrap().allowed());
}

#[test]
fn transitive_consent_honors_expiration_on_any_link() {
    let mut db = HiveDB::open_temp_with_clock(MockClock::at(1000)).unwrap();
    db.append(consent_granted("PM", "Lead", scope("deploy", "staging"), Some(1500))).unwrap();
    db.append(consent_granted("Lead", "Backend", scope("deploy", "staging"), None)).unwrap();

    db.advance_clock_to(2000);
    assert!(!db.can("Backend", "deploy", "staging").unwrap().allowed());
}

#[test]
fn refused_actions_log_their_intent_too() {
    let mut db = db();
    let decision = db.can("Backend", "deploy", "prod").unwrap();
    assert!(!decision.allowed());
    assert_eq!(decision.intent_log_seq(), Some(1));
    let intent = db.read(1).unwrap();
    assert_eq!(intent.authorized_by(), None);
    assert_eq!(
        intent.kind,
        EventKind::IntentLogged {
            actor: AgentId::from("Backend"),
            intent: "deploy:prod".to_string(),
            authorized_by: None,
        }
    );
}

#[test]
fn grants_expire_after_their_time() {
    assert!(!is_expired(None, u64::MAX));
    assert!(!is_expired(Some(1500), 1499));
    assert!(is_expired(Some(1500), 1500));
}

#[test]
fn the_grant_of_a_root_is_found() {
    let mut db = db();
    let grant =
        db.append(consent_granted("PM", "Backend", scope("deploy", "staging"), Some(10))).unwrap();
    let state = db.project::<ConsentGraph>().unwrap();
    let backend = AgentId::from("Backend");
    assert_eq!(state.find_active_grant(&backend, "deploy", "staging", 0), Some(grant));
    assert!(state.is_authorized(&backend, "deploy", "staging", 0));
    assert_eq!(state.find_active_grant(&backend, "deploy", "staging", 20), None);
    assert!(!state.is_authorized(&AgentId::from("PM"), "deploy", "staging", 0));
}

#[test]
fn a_chain_breaks_with_any_revoked_link() {
    let mut db = db();
    let deploy = || scope("deploy", "staging");
    let lead = db.append(consent_granted("PM", "Lead", deploy(), None)).unwrap();
    let backend = db.append(consent_granted("Lead", "Backend", deploy(), None)).unwrap();
    let grants = db.project::<ConsentGraph>().unwrap();
    assert_eq!(grants.find_active_grant(&"Backend".into(), "deploy", "staging", 0), Some(backend));

    db.append(consent_revoked(lead)).unwrap();
    let grants = db.project::<ConsentGraph>().unwrap();
    assert_eq!(grants.find_active_grant(&"Lead".into(), "deploy", "staging", 0), None);
    assert_eq!(grants.find_active_grant(&"Backend".into(), "deploy", "staging", 0), None);

    // A new grant to the middle agent mends the chain; revoking it again breaks it.
    let again = db.append(consent_granted("PM", "Lead", deploy(), None)).unwrap();
    let grants = db.project::<ConsentGraph>().unwrap();
    assert_eq!(grants.find_active_grant(&"Backend".into(), "deploy", "staging", 0), Some(backend));
    db.append(consent_revoked(again)).unwrap();
    db.append(consent_revoked(99)).unwrap();
    assert!(!db.can("Backend", "deploy", "staging").unwrap().allowed());

    // Another scope is not touched.
    db.append(consent_granted("Lead", "Backend", scope("deploy", "prod"), None)).unwrap();
    assert!(db.can("Backend", "deploy", "prod").unwrap().allowed());
}
