use nimbus_core::evaluator::{evaluate, AppContext, ContextValue, Expr, QueryCall, TargetingError, Value};
use nimbus_core::events::{EventQueryType, EventStore, Interval};

fn ctx() -> AppContext {
    AppContext {
        fields: vec![
            ("app_name".to_string(), ContextValue::Str("fenix".to_string())),
            ("days_since_install".to_string(), ContextValue::Int(7)),
            (
                "app".to_string(),
                ContextValue::Obj(vec![("version".to_string(), ContextValue::Int(42))]),
            ),
        ],
    }
}

fn field(path: &[&str]) -> Expr {
    Expr::Field(path.iter().map(|s| s.to_string()).collect())
}

#[test]
fn literals_and_fields_evaluate() {
    let store = EventStore::new();
    let r = evaluate(&Expr::Lit(Value::Int(3)), &ctx(), &store, 0);
    assert_eq!(r, Ok(Value::Int(3)));
    let r = evaluate(&field(&["app_name"]), &ctx(), &store, 0);
    assert_eq!(r, Ok(Value::Str("fenix".to_string())));
    let r = evaluate(&field(&["app", "version"]), &ctx(), &store, 0);
    assert_eq!(r, Ok(Value::Int(42)));
}

#[test]
fn comparisons_and_membership() {
    let store = EventStore::new();
    let e = Expr::Ge(Box::new(field(&["days_since_install"])), Box::new(Expr::Lit(Value::Int(5))));
    assert_eq!(evaluate(&e, &ctx(), &store, 0), Ok(Value::Bool(true)));
    let e = Expr::Eq(
        Box::new(field(&["app_name"])),
        Box::new(Expr::Lit(Value::Str("fenix".to_string()))),
    );
    assert_eq!(evaluate(&e, &ctx(), &store, 0), Ok(Value::Bool(true)));
    let e = Expr::In(
        Box::new(field(&["app_name"])),
        vec![Value::Str("firefox".to_string()), Value::Str("fenix".to_string())],
    );
    assert_eq!(evaluate(&e, &ctx(), &store, 0), Ok(Value::Bool(true)));
    let e = Expr::In(Box::new(field(&["app_name"])), vec![Value::Str("focus".to_string())]);
    assert_eq!(evaluate(&e, &ctx(), &store, 0), Ok(Value::Bool(false)));
}

#[test]
fn missing_field_compares_false() {
    let store = EventStore::new();
    let absent = field(&["no_such_field"]);
    let e = Expr::Eq(Box::new(absent), Box::new(Expr::Lit(Value::Int(1))));
    assert_eq!(evaluate(&e, &ctx(), &store, 0), Ok(Value::Bool(false)));
    let e = Expr::Ne(
        Box::new(field(&["no_such_field"])),
        Box::new(Expr::Lit(Value::Int(1))),
    );
    assert_eq!(evaluate(&e, &ctx(), &store, 0), Ok(Value::Bool(false)));
    let e = Expr::Present(vec!["no_such_field".to_string()]);
    assert_eq!(evaluate(&e, &ctx(), &store, 0), Ok(Value::Bool(false)));
    let e = Expr::Present(vec!["app".to_string(), "version".to_string()]);
    assert_eq!(evaluate(&e, &ctx(), &store, 0), Ok(Value::Bool(true)));
}

#[test]
fn incoercible_comparison_is_an_error() {
    let store = EventStore::new();
    let e = Expr::Lt(
        Box::new(Expr::Lit(Value::Str("abc".to_string()))),
        Box::new(Expr::Lit(Value::Int(1))),
    );
    assert_eq!(evaluate(&e, &ctx(), &store, 0), Err(TargetingError::InvalidExpression));
    let e = Expr::Not(Box::new(Expr::Lit(Value::Int(1))));
    assert_eq!(evaluate(&e, &ctx(), &store, 0), Err(TargetingError::InvalidExpression));
}

#[test]
fn boolean_operators_short_circuit() {
    let store = EventStore::new();
    // The incoercible right operand is never evaluated.
    let bad = Expr::Not(Box::new(Expr::Lit(Value::Int(1))));
    let e = Expr::And(Box::new(Expr::Lit(Value::Bool(false))), Box::new(bad));
    assert_eq!(evaluate(&e, &ctx(), &store, 0), Ok(Value::Bool(false)));
    let bad = Expr::Not(Box::new(Expr::Lit(Value::Int(1))));
    let e = Expr::Or(Box::new(Expr::Lit(Value::Bool(true))), Box::new(bad));
    assert_eq!(evaluate(&e, &ctx(), &store, 0), Ok(Value::Bool(true)));
}

#[test]
fn event_store_queries_are_bound() {
    let mut store = EventStore::new();
    store.record_event("login", 86400).unwrap();
    store.record_event("login", 86400 * 2).unwrap();
    let q = Expr::EventQuery(QueryCall {
        event_id: "login".to_string(),
        interval: Interval::Day,
        num_buckets: 7,
        starting_bucket: 0,
        query_type: EventQueryType::Count,
    });
    let e = Expr::Ge(Box::new(q), Box::new(Expr::Lit(Value::Int(2))));
    assert_eq!(evaluate(&e, &ctx(), &store, 86400 * 2), Ok(Value::Bool(true)));
}

#[test]
fn string_order_is_version_aware() {
    let store = EventStore::new();
    let lt = |a: &str, b: &str| {
        Expr::Lt(
            Box::new(Expr::Lit(Value::Str(a.to_string()))),
            Box::new(Expr::Lit(Value::Str(b.to_string()))),
        )
    };
    // Numeric per component, not lexicographic: 1.9 precedes 1.10.
    assert_eq!(evaluate(&lt("1.9", "1.10"), &ctx(), &store, 0), Ok(Value::Bool(true)));
    assert_eq!(evaluate(&lt("1.10", "1.9"), &ctx(), &store, 0), Ok(Value::Bool(false)));
    assert_eq!(evaluate(&lt("2.0", "10.0"), &ctx(), &store, 0), Ok(Value::Bool(true)));
    // Missing components count zero: 1.2 and 1.2.0 are the same version.
    let e = Expr::Le(
        Box::new(Expr::Lit(Value::Str("1.2".to_string()))),
        Box::new(Expr::Lit(Value::Str("1.2.0".to_string()))),
    );
    assert_eq!(evaluate(&e, &ctx(), &store, 0), Ok(Value::Bool(true)));
    let e = Expr::Ge(
        Box::new(Expr::Lit(Value::Str("1.2".to_string()))),
        Box::new(Expr::Lit(Value::Str("1.2.0".to_string()))),
    );
    assert_eq!(evaluate(&e, &ctx(), &store, 0), Ok(Value::Bool(true)));
    assert_eq!(
        evaluate(&lt("109.0.1", "110.0"), &ctx(), &store, 0),
        Ok(Value::Bool(true))
    );
}
