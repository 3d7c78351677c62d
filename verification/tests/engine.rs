use nimbus_core::enrollment::{reconcile, BucketConfig, DisqualifiedReason, EnrollmentChangeEventType,
    EnrollmentStatus, NotEnrolledReason, Recipe};
use nimbus_core::evaluator::{AppContext, ContextValue, Expr, Value};
use nimbus_core::events::EventStore;

fn ctx() -> AppContext {
    AppContext {
        fields: vec![("nimbus_id".to_string(), ContextValue::Str("client-1".to_string()))],
    }
}

fn recipe(slug: &str, count: u32, features: &[&str]) -> Recipe {
    Recipe {
        slug: slug.to_string(),
        targeting: Some(Expr::Lit(Value::Bool(true))),
        bucket_config: BucketConfig {
            namespace: slug.to_string(),
            start: 0,
            count,
            total: 10000,
            randomization_unit: "nimbus_id".to_string(),
        },
        branches: vec!["control".to_string()],
        feature_ids: features.iter().map(|f| f.to_string()).collect(),
    }
}

#[test]
fn full_rollout_always_enrolls() {
    let recipes = vec![recipe("exp1", 10000, &["f1"])];
    let store = EventStore::new();
    let (map, events) = reconcile(&recipes, &ctx(), &store, &Vec::new(), 0);
    assert_eq!(map.len(), 1);
    assert_eq!(map[0].0, "exp1");
    assert_eq!(
        map[0].1,
        EnrollmentStatus::Enrolled {
            branch: "control".to_string(),
            reason: nimbus_core::enrollment::EnrolledReason::Qualified,
        }
    );
    assert_eq!(events.len(), 1);
    assert_eq!(events[0].slug, "exp1");
    assert_eq!(events[0].change, EnrollmentChangeEventType::Enrollment);
}

#[test]
fn shrunk_rollout_disqualifies_enrolled() {
    let recipes = vec![recipe("exp1", 10000, &["f1"])];
    let store = EventStore::new();
    let (map, _) = reconcile(&recipes, &ctx(), &store, &Vec::new(), 0);
    // The rollout shrinks to zero buckets; the enrolled client is dropped.
    let shrunk = vec![recipe("exp1", 0, &["f1"])];
    let (map2, events2) = reconcile(&shrunk, &ctx(), &store, &map, 0);
    assert_eq!(
        map2[0].1,
        EnrollmentStatus::Disqualified {
            reason: DisqualifiedReason::NotSelected,
            branch: "control".to_string(),
        }
    );
    assert_eq!(events2.len(), 1);
    assert_eq!(events2[0].change, EnrollmentChangeEventType::Disqualification);
}

#[test]
fn reconciliation_is_idempotent() {
    let recipes = vec![
        recipe("exp1", 10000, &["f1"]),
        recipe("exp2", 0, &["f2"]),
        recipe("exp3", 10000, &["f1"]),
    ];
    let store = EventStore::new();
    let prior = vec![("gone".to_string(), EnrollmentStatus::Enrolled {
        branch: "b".to_string(),
        reason: nimbus_core::enrollment::EnrolledReason::Qualified,
    })];
    let (map, events) = reconcile(&recipes, &ctx(), &store, &prior, 0);
    assert!(!events.is_empty());
    let (map2, events2) = reconcile(&recipes, &ctx(), &store, &map, 0);
    assert_eq!(events2.len(), 0);
    assert_eq!(map2, map);
}

#[test]
fn feature_conflict_first_wins() {
    let recipes = vec![recipe("exp-a", 10000, &["f"]), recipe("exp-b", 10000, &["f"])];
    let store = EventStore::new();
    let (map, _) = reconcile(&recipes, &ctx(), &store, &Vec::new(), 0);
    assert!(matches!(map[0].1, EnrollmentStatus::Enrolled { .. }));
    assert_eq!(
        map[1].1,
        EnrollmentStatus::NotEnrolled { reason: NotEnrolledReason::FeatureConflict }
    );
}

#[test]
fn departed_recipe_unenrolls() {
    let recipes = vec![recipe("exp1", 10000, &["f1"])];
    let store = EventStore::new();
    let (map, _) = reconcile(&recipes, &ctx(), &store, &Vec::new(), 0);
    let (map2, events2) = reconcile(&Vec::new(), &ctx(), &store, &map, 0);
    assert_eq!(map2.len(), 1);
    assert_eq!(map2[0].0, "exp1");
    assert_eq!(map2[0].1, EnrollmentStatus::WasEnrolled);
    assert_eq!(events2.len(), 1);
    assert_eq!(events2[0].change, EnrollmentChangeEventType::Unenrollment);
}

#[test]
fn failing_targeting_never_enrolls() {
    let mut r = recipe("exp1", 10000, &["f1"]);
    r.targeting = Some(Expr::Lit(Value::Bool(false)));
    let store = EventStore::new();
    let (map, events) = reconcile(&vec![r], &ctx(), &store, &Vec::new(), 0);
    assert_eq!(map[0].1, EnrollmentStatus::NotEnrolled { reason: NotEnrolledReason::NotTargeted });
    assert_eq!(events.len(), 0);
}

#[test]
fn broken_targeting_isolates_one_recipe() {
    let mut bad = recipe("bad", 10000, &["f1"]);
    bad.targeting = Some(Expr::Lit(Value::Int(3)));
    let good = recipe("good", 10000, &["f2"]);
    let store = EventStore::new();
    let (map, _) = reconcile(&vec![bad, good], &ctx(), &store, &Vec::new(), 0);
    assert_eq!(
        map[0].1,
        EnrollmentStatus::NotEnrolled { reason: NotEnrolledReason::EvaluationError }
    );
    assert!(matches!(map[1].1, EnrollmentStatus::Enrolled { .. }));
}

#[test]
fn missing_randomization_id_is_an_error_state() {
    let r = recipe("exp1", 10000, &["f1"]);
    let empty_ctx = AppContext { fields: Vec::new() };
    let store = EventStore::new();
    let (map, _) = reconcile(&vec![r], &empty_ctx, &store, &Vec::new(), 0);
    assert_eq!(
        map[0].1,
        EnrollmentStatus::NotEnrolled { reason: NotEnrolledReason::EvaluationError }
    );
}
