use vstd::prelude::*;
use vstd::string::StringSliceAdditionalSpecFns;
use vstd::utf8::encode_utf8;
use crate::evaluator::{AppContext, ContextValue, Expr, Value, TargetingError, evaluate,
    spec_eval, spec_truthy, spec_find_field, find_field};
use crate::events::{EventStore, EventDataV};
use crate::sampling::{compute_bucket, is_in_range, spec_compute_bucket, spec_in_range};

verus! {

/// Why a recipe is enrolled.
#[derive(Clone, Copy, PartialEq, Eq, Structural, Debug)]
pub enum EnrolledReason {
    /// Targeting and bucket sampling both passed.
    Qualified,
    /// The user opted in explicitly.
    OptIn,
}

/// Why a never-enrolled recipe is not enrolled.
#[derive(Clone, Copy, PartialEq, Eq, Structural, Debug)]
pub enum NotEnrolledReason {
    /// Its targeting expression did not match.
    NotTargeted,
    /// Targeting matched but the sampler bucket fell outside the rollout
    /// range.
    NotSelected,
    /// A feature it claims was already claimed by an enrolled recipe.
    FeatureConflict,
    /// Its targeting or sampling could not be evaluated.
    EvaluationError,
}

/// Why a previously enrolled recipe was disqualified.
#[derive(Clone, Copy, PartialEq, Eq, Structural, Debug)]
pub enum DisqualifiedReason {
    /// Its targeting expression stopped matching.
    NotTargeted,
    /// Its rollout range no longer covers the sampler bucket.
    NotSelected,
    /// The user opted out.
    OptOut,
    /// A feature it claims was claimed by an earlier enrolled recipe.
    FeatureConflict,
    /// Its targeting or sampling could not be evaluated.
    EvaluationError,
}

/// The persisted enrollment state of one recipe slug.
#[derive(Debug, PartialEq)]
pub enum EnrollmentStatus {
    NotEnrolled { reason: NotEnrolledReason },
    Enrolled { branch: String, reason: EnrolledReason },
    Disqualified { reason: DisqualifiedReason, branch: String },
    /// Terminal marker: the recipe left the recipe set after enrollment
    /// bookkeeping had seen it.
    WasEnrolled,
}

/// The mathematical content of an enrollment state.
pub ghost enum StatusV {
    NotEnrolled(NotEnrolledReason),
    Enrolled(Seq<char>, EnrolledReason),
    Disqualified(DisqualifiedReason, Seq<char>),
    WasEnrolled,
}

/// The view of an enrollment state.
pub open spec fn status_v(s: EnrollmentStatus) -> StatusV {
    match s {
        EnrollmentStatus::NotEnrolled { reason } => StatusV::NotEnrolled(reason),
        EnrollmentStatus::Enrolled { branch, reason } => StatusV::Enrolled(branch@, reason),
        EnrollmentStatus::Disqualified { reason, branch } => StatusV::Disqualified(
            reason,
            branch@,
        ),
        EnrollmentStatus::WasEnrolled => StatusV::WasEnrolled,
    }
}

/// The deterministic slot configuration of a recipe's percentage rollout.
#[derive(Debug, PartialEq)]
pub struct BucketConfig {
    /// The sampler namespace the rollout draws its buckets in.
    pub namespace: String,
    /// First bucket of the rollout range.
    pub start: u32,
    /// Number of buckets in the rollout range; may wrap around `total`.
    pub count: u32,
    /// Total number of buckets in the namespace.
    pub total: u32,
    /// The name of the top-level context field holding the identifier that
    /// is hashed for bucket assignment.
    pub randomization_unit: String,
}

/// One experiment or rollout configuration.
#[derive(Debug, PartialEq)]
pub struct Recipe {
    /// Unique name of the recipe.
    pub slug: String,
    /// Targeting predicate; a recipe without one targets everybody.
    pub targeting: Option<Expr>,
    pub bucket_config: BucketConfig,
    /// The branch slugs a fresh enrollment chooses between.
    pub branches: Vec<String>,
    /// The feature identifiers this recipe claims while enrolled.
    pub feature_ids: Vec<String>,
}

/// The kind of state change one reconciliation pass reports for a slug.
#[derive(Clone, Copy, PartialEq, Eq, Structural, Debug)]
pub enum EnrollmentChangeEventType {
    Enrollment,
    Disqualification,
    Unenrollment,
    Update,
}

/// One state change reported by a reconciliation pass.
#[derive(Debug, PartialEq)]
pub struct EnrollmentChangeEvent {
    pub slug: String,
    pub change: EnrollmentChangeEventType,
}

/// How one recipe's targeting turned out.
pub ghost enum TargetingOutcome {
    Pass,
    Fail,
    EvalError,
}

/// The targeting outcome of a recipe: no expression targets everybody; a
/// boolean (or `Undefined`, read as false) decides; any other value or an
/// evaluation error leaves the recipe in an error state.
pub open spec fn spec_targeting_outcome(
    r: Recipe,
    ctx: AppContext,
    store: Seq<(Seq<char>, EventDataV)>,
    now: u64,
) -> TargetingOutcome {
    match r.targeting {
        None => TargetingOutcome::Pass,
        Some(e) => match spec_eval(e, ctx, store, now) {
            Ok(v) => match spec_truthy(v) {
                Some(true) => TargetingOutcome::Pass,
                Some(false) => TargetingOutcome::Fail,
                None => TargetingOutcome::EvalError,
            },
            Err(_) => TargetingOutcome::EvalError,
        },
    }
}

/// The randomization identifier a recipe hashes: the string in the
/// top-level context field named by its `randomization_unit`.
pub open spec fn spec_randomization_id(r: Recipe, ctx: AppContext) -> Option<String> {
    match spec_find_field(ctx.fields@, r.bucket_config.randomization_unit@) {
        Some(ContextValue::Str(s)) => Some(s),
        _ => None,
    }
}

/// The sampling outcome of a recipe: `None` where no identifier is in the
/// context or the bucket total is zero; otherwise whether the stable bucket
/// of the identifier falls in the rollout range.
pub open spec fn spec_sampling_outcome(r: Recipe, ctx: AppContext) -> Option<bool> {
    match spec_randomization_id(r, ctx) {
        None => None,
        Some(id) => if r.bucket_config.total == 0 {
            None
        } else {
            Some(
                spec_in_range(
                    spec_compute_bucket(
                        encode_utf8(r.bucket_config.namespace@),
                        encode_utf8(id@),
                        r.bucket_config.total,
                    ) as u32,
                    r.bucket_config.start,
                    r.bucket_config.count,
                    r.bucket_config.total,
                ),
            )
        },
    }
}

/// The branch a fresh enrollment receives: a stable hash of the recipe slug
/// and the identifier picks one of the branch slugs; a recipe without
/// branches enrolls under its own slug.
pub open spec fn spec_new_branch(r: Recipe, id: String) -> Seq<char> {
    if r.branches@.len() == 0 {
        r.slug@
    } else if r.branches@.len() > u32::MAX {
        r.branches@[0]@
    } else {
        r.branches@[spec_compute_bucket(
            encode_utf8(r.slug@),
            encode_utf8(id@),
            r.branches@.len() as u32,
        )]@
    }
}

/// The state a recipe falls to when targeting or sampling fails: a
/// previously enrolled recipe is disqualified keeping its branch, an
/// already disqualified one is left as it is, anything else is not
/// enrolled, with the reason the failure gives.
pub open spec fn spec_fail_state(
    prior: Option<StatusV>,
    nr: NotEnrolledReason,
    dr: DisqualifiedReason,
) -> StatusV {
    match prior {
        Some(StatusV::Enrolled(b, _)) => StatusV::Disqualified(dr, b),
        Some(StatusV::Disqualified(r0, b)) => StatusV::Disqualified(r0, b),
        _ => StatusV::NotEnrolled(nr),
    }
}

/// The state a fully passing recipe reaches: an enrolled recipe keeps its
/// branch and reason, a disqualified one re-enrolls on its former branch,
/// anything else enrolls freshly on a deterministically picked branch.
pub open spec fn spec_enroll_state(r: Recipe, ctx: AppContext, prior: Option<StatusV>) -> StatusV {
    match prior {
        Some(StatusV::Enrolled(b, reason)) => StatusV::Enrolled(b, reason),
        Some(StatusV::Disqualified(_, b)) => StatusV::Enrolled(b, EnrolledReason::Qualified),
        _ => match spec_randomization_id(r, ctx) {
            Some(id) => StatusV::Enrolled(spec_new_branch(r, id), EnrolledReason::Qualified),
            None => StatusV::NotEnrolled(NotEnrolledReason::EvaluationError),
        },
    }
}

/// The new state of one recipe in one reconciliation pass, given its prior
/// state and whether a feature it claims was already claimed this pass.
/// Targeting is decided first, then sampling, then the feature conflict;
/// a failure of either evaluation downgrades only this recipe.
pub open spec fn spec_decide(
    r: Recipe,
    ctx: AppContext,
    store: Seq<(Seq<char>, EventDataV)>,
    now: u64,
    prior: Option<StatusV>,
    conflict: bool,
) -> StatusV {
    match spec_targeting_outcome(r, ctx, store, now) {
        TargetingOutcome::Fail => spec_fail_state(
            prior,
            NotEnrolledReason::NotTargeted,
            DisqualifiedReason::NotTargeted,
        ),
        TargetingOutcome::EvalError => spec_fail_state(
            prior,
            NotEnrolledReason::EvaluationError,
            DisqualifiedReason::EvaluationError,
        ),
        TargetingOutcome::Pass => match spec_sampling_outcome(r, ctx) {
            None => spec_fail_state(
                prior,
                NotEnrolledReason::EvaluationError,
                DisqualifiedReason::EvaluationError,
            ),
            Some(false) => spec_fail_state(
                prior,
                NotEnrolledReason::NotSelected,
                DisqualifiedReason::NotSelected,
            ),
            Some(true) => if conflict {
                spec_fail_state(
                    prior,
                    NotEnrolledReason::FeatureConflict,
                    DisqualifiedReason::FeatureConflict,
                )
            } else {
                spec_enroll_state(r, ctx, prior)
            },
        },
    }
}

/// The concrete state a failing recipe falls to.
fn fail_state(
    prior: Option<&EnrollmentStatus>,
    nr: NotEnrolledReason,
    dr: DisqualifiedReason,
) -> (r: EnrollmentStatus)
    ensures
        status_v(r) == spec_fail_state(
            match prior {
                Some(p) => Some(status_v(*p)),
                None => None,
            },
            nr,
            dr,
        ),
{
    match prior {
        Some(EnrollmentStatus::Enrolled { branch, .. }) => EnrollmentStatus::Disqualified {
            reason: dr,
            branch: branch.clone(),
        },
        Some(EnrollmentStatus::Disqualified { reason, branch }) => EnrollmentStatus::Disqualified {
            reason: *reason,
            branch: branch.clone(),
        },
        _ => EnrollmentStatus::NotEnrolled { reason: nr },
    }
}

/// Decide the new state of one recipe against the context, the event-store
/// snapshot and its prior state; `conflict` says whether a feature it
/// claims was already claimed by an earlier enrolled recipe this pass.
pub fn decide(
    r: &Recipe,
    ctx: &AppContext,
    store: &EventStore,
    now: u64,
    prior: Option<&EnrollmentStatus>,
    conflict: bool,
) -> (st: EnrollmentStatus)
    requires
        store.wf(),
    ensures
        status_v(st) == spec_decide(
            *r,
            *ctx,
            store@,
            now,
            match prior {
                Some(p) => Some(status_v(*p)),
                None => None,
            },
            conflict,
        ),
{
    let targeting_pass: Result<bool, TargetingError> = match &r.targeting {
        None => Ok(true),
        Some(e) => match evaluate(e, ctx, store, now) {
            Ok(v) => match v {
                Value::Bool(b) => Ok(b),
                Value::Undefined => Ok(false),
                _ => Err(TargetingError::InvalidExpression),
            },
            Err(err) => Err(err),
        },
    };
    match targeting_pass {
        Err(_) => fail_state(
            prior,
            NotEnrolledReason::EvaluationError,
            DisqualifiedReason::EvaluationError,
        ),
        Ok(false) => fail_state(
            prior,
            NotEnrolledReason::NotTargeted,
            DisqualifiedReason::NotTargeted,
        ),
        Ok(true) => {
            let id_opt = match find_field(
                &ctx.fields,
                r.bucket_config.randomization_unit.as_str(),
            ) {
                Some(ContextValue::Str(s)) => Some(s),
                _ => None,
            };
            match id_opt {
                None => fail_state(
                    prior,
                    NotEnrolledReason::EvaluationError,
                    DisqualifiedReason::EvaluationError,
                ),
                Some(id) => {
                    if r.bucket_config.total == 0 {
                        return fail_state(
                            prior,
                            NotEnrolledReason::EvaluationError,
                            DisqualifiedReason::EvaluationError,
                        );
                    }
                    let bucket = match compute_bucket(
                        r.bucket_config.namespace.as_str(),
                        id.as_str(),
                        r.bucket_config.total,
                    ) {
                        Ok(b) => b,
                        Err(_) => {
                            return fail_state(
                                prior,
                                NotEnrolledReason::EvaluationError,
                                DisqualifiedReason::EvaluationError,
                            );
                        },
                    };
                    let selected = is_in_range(
                        bucket,
                        r.bucket_config.start,
                        r.bucket_config.count,
                        r.bucket_config.total,
                    );
                    if !selected {
                        fail_state(
                            prior,
                            NotEnrolledReason::NotSelected,
                            DisqualifiedReason::NotSelected,
                        )
                    } else if conflict {
                        fail_state(
                            prior,
                            NotEnrolledReason::FeatureConflict,
                            DisqualifiedReason::FeatureConflict,
                        )
                    } else {
                        match prior {
                            Some(EnrollmentStatus::Enrolled { branch, reason }) => {
                                EnrollmentStatus::Enrolled {
                                    branch: branch.clone(),
                                    reason: *reason,
                                }
                            },
                            Some(EnrollmentStatus::Disqualified { branch, .. }) => {
                                EnrollmentStatus::Enrolled {
                                    branch: branch.clone(),
                                    reason: EnrolledReason::Qualified,
                                }
                            },
                            _ => {
                                let branch: String = if r.branches.len() == 0 {
                                    r.slug.clone()
                                } else if r.branches.len() > u32::MAX as usize {
                                    r.branches[0].clone()
                                } else {
                                    let h = match compute_bucket(
                                        r.slug.as_str(),
                                        id.as_str(),
                                        r.branches.len() as u32,
                                    ) {
                                        Ok(b) => b,
                                        Err(_) => 0,
                                    };
                                    r.branches[h as usize].clone()
                                };
                                EnrollmentStatus::Enrolled {
                                    branch,
                                    reason: EnrolledReason::Qualified,
                                }
                            },
                        }
                    }
                },
            }
        },
    }
}


/// The view of a persisted state list.
pub open spec fn prior_view(prior: Seq<(String, EnrollmentStatus)>) -> Seq<(Seq<char>, StatusV)> {
    prior.map(|i: int, e: (String, EnrollmentStatus)| (e.0@, status_v(e.1)))
}

/// The view of a computed state list.
pub open spec fn out_view(out: Seq<(String, EnrollmentStatus)>) -> Seq<(Seq<char>, StatusV)> {
    out.map(|i: int, e: (String, EnrollmentStatus)| (e.0@, status_v(e.1)))
}

/// The view of an event list.
pub open spec fn events_view(events: Seq<EnrollmentChangeEvent>) -> Seq<
    (Seq<char>, EnrollmentChangeEventType),
> {
    events.map(|i: int, e: EnrollmentChangeEvent| (e.slug@, e.change))
}

/// The state stored under a slug, if any (first match).
pub open spec fn spec_lookup(prior: Seq<(Seq<char>, StatusV)>, slug: Seq<char>) -> Option<StatusV>
    decreases prior.len(),
{
    if prior.len() == 0 {
        None
    } else if prior[0].0 == slug {
        Some(prior[0].1)
    } else {
        spec_lookup(prior.drop_first(), slug)
    }
}

/// Whether a feature id is among the claimed ones.
pub open spec fn spec_claimed_has(claimed: Seq<String>, x: Seq<char>) -> bool
    decreases claimed.len(),
{
    if claimed.len() == 0 {
        false
    } else {
        claimed[0]@ == x || spec_claimed_has(claimed.drop_first(), x)
    }
}

/// Whether any feature of a recipe is already claimed.
pub open spec fn spec_has_conflict(features: Seq<String>, claimed: Seq<String>) -> bool
    decreases features.len(),
{
    if features.len() == 0 {
        false
    } else {
        spec_claimed_has(claimed, features[0]@) || spec_has_conflict(
            features.drop_first(),
            claimed,
        )
    }
}

/// Whether a slug names a recipe of the set.
pub open spec fn spec_slug_in(recipes: Seq<Recipe>, slug: Seq<char>) -> bool
    decreases recipes.len(),
{
    if recipes.len() == 0 {
        false
    } else {
        recipes[0].slug@ == slug || spec_slug_in(recipes.drop_first(), slug)
    }
}

/// The change event one slug's transition reports: one exactly when the
/// new state differs from the prior one in kind, or in branch between two
/// enrolled states; entering `NotEnrolled` is silent.
pub open spec fn spec_change_event(old: Option<StatusV>, new: StatusV) -> Option<
    EnrollmentChangeEventType,
> {
    match new {
        StatusV::Enrolled(b, _) => match old {
            Some(StatusV::Enrolled(b0, _)) => if b0 == b {
                None
            } else {
                Some(EnrollmentChangeEventType::Update)
            },
            _ => Some(EnrollmentChangeEventType::Enrollment),
        },
        StatusV::Disqualified(_, _) => match old {
            Some(StatusV::Disqualified(_, _)) => None,
            _ => Some(EnrollmentChangeEventType::Disqualification),
        },
        StatusV::WasEnrolled => match old {
            Some(StatusV::WasEnrolled) => None,
            _ => Some(EnrollmentChangeEventType::Unenrollment),
        },
        StatusV::NotEnrolled(_) => None,
    }
}

/// The claimed feature list after one recipe's decision: an enrolled
/// recipe claims all its features.
pub open spec fn spec_claim_after(r: Recipe, st: StatusV, claimed: Seq<String>) -> Seq<String> {
    if st is Enrolled {
        claimed + r.feature_ids@
    } else {
        claimed
    }
}

/// The states the recipes of the set reach, in recipe order, together with
/// the features claimed on the way: the heart of one reconciliation pass.
/// Feature conflicts resolve first-seen-wins in this order.
pub open spec fn spec_reconcile_recipes(
    recipes: Seq<Recipe>,
    ctx: AppContext,
    store: Seq<(Seq<char>, EventDataV)>,
    now: u64,
    prior: Seq<(Seq<char>, StatusV)>,
    claimed: Seq<String>,
) -> (Seq<(Seq<char>, StatusV)>, Seq<String>)
    decreases recipes.len(),
{
    if recipes.len() == 0 {
        (Seq::<(Seq<char>, StatusV)>::empty(), claimed)
    } else {
        let r0 = recipes[0];
        let st = spec_decide(
            r0,
            ctx,
            store,
            now,
            spec_lookup(prior, r0.slug@),
            spec_has_conflict(r0.feature_ids@, claimed),
        );
        let rest = spec_reconcile_recipes(
            recipes.drop_first(),
            ctx,
            store,
            now,
            prior,
            spec_claim_after(r0, st, claimed),
        );
        (seq![(r0.slug@, st)] + rest.0, rest.1)
    }
}

/// The change events the recipes of the set report, in recipe order.
pub open spec fn spec_events_recipes(
    recipes: Seq<Recipe>,
    ctx: AppContext,
    store: Seq<(Seq<char>, EventDataV)>,
    now: u64,
    prior: Seq<(Seq<char>, StatusV)>,
    claimed: Seq<String>,
) -> Seq<(Seq<char>, EnrollmentChangeEventType)>
    decreases recipes.len(),
{
    if recipes.len() == 0 {
        Seq::<(Seq<char>, EnrollmentChangeEventType)>::empty()
    } else {
        let r0 = recipes[0];
        let p0 = spec_lookup(prior, r0.slug@);
        let st = spec_decide(r0, ctx, store, now, p0, spec_has_conflict(r0.feature_ids@, claimed));
        let head = match spec_change_event(p0, st) {
            Some(t) => seq![(r0.slug@, t)],
            None => Seq::<(Seq<char>, EnrollmentChangeEventType)>::empty(),
        };
        head + spec_events_recipes(
            recipes.drop_first(),
            ctx,
            store,
            now,
            prior,
            spec_claim_after(r0, st, claimed),
        )
    }
}

/// The terminal states of slugs that left the recipe set: each prior entry
/// whose slug no current recipe bears moves to `WasEnrolled`.
pub open spec fn spec_absent_states(
    prior: Seq<(Seq<char>, StatusV)>,
    recipes: Seq<Recipe>,
) -> Seq<(Seq<char>, StatusV)>
    decreases prior.len(),
{
    if prior.len() == 0 {
        Seq::<(Seq<char>, StatusV)>::empty()
    } else {
        let head = if !spec_slug_in(recipes, prior[0].0) {
            seq![(prior[0].0, StatusV::WasEnrolled)]
        } else {
            Seq::<(Seq<char>, StatusV)>::empty()
        };
        head + spec_absent_states(prior.drop_first(), recipes)
    }
}

/// The unenrollment events of slugs that left the recipe set.
pub open spec fn spec_absent_events(
    prior: Seq<(Seq<char>, StatusV)>,
    recipes: Seq<Recipe>,
) -> Seq<(Seq<char>, EnrollmentChangeEventType)>
    decreases prior.len(),
{
    if prior.len() == 0 {
        Seq::<(Seq<char>, EnrollmentChangeEventType)>::empty()
    } else {
        let head = if !spec_slug_in(recipes, prior[0].0) && !(prior[0].1 is WasEnrolled) {
            seq![(prior[0].0, EnrollmentChangeEventType::Unenrollment)]
        } else {
            Seq::<(Seq<char>, EnrollmentChangeEventType)>::empty()
        };
        head + spec_absent_events(prior.drop_first(), recipes)
    }
}

/// One whole reconciliation pass: the new state of every current recipe in
/// recipe order, then the terminal states of departed slugs; beside them
/// the ordered change events of both parts.
pub open spec fn spec_reconcile(
    recipes: Seq<Recipe>,
    ctx: AppContext,
    store: Seq<(Seq<char>, EventDataV)>,
    now: u64,
    prior: Seq<(Seq<char>, StatusV)>,
) -> (Seq<(Seq<char>, StatusV)>, Seq<(Seq<char>, EnrollmentChangeEventType)>) {
    (
        spec_reconcile_recipes(recipes, ctx, store, now, prior, Seq::<String>::empty()).0
            + spec_absent_states(prior, recipes),
        spec_events_recipes(recipes, ctx, store, now, prior, Seq::<String>::empty())
            + spec_absent_events(prior, recipes),
    )
}

pub proof fn lemma_reconcile_recipes_push(
    recipes: Seq<Recipe>,
    r: Recipe,
    ctx: AppContext,
    store: Seq<(Seq<char>, EventDataV)>,
    now: u64,
    prior: Seq<(Seq<char>, StatusV)>,
    claimed: Seq<String>,
)
    ensures
        ({
            let pre = spec_reconcile_recipes(recipes, ctx, store, now, prior, claimed);
            let st = spec_decide(
                r,
                ctx,
                store,
                now,
                spec_lookup(prior, r.slug@),
                spec_has_conflict(r.feature_ids@, pre.1),
            );
            spec_reconcile_recipes(recipes.push(r), ctx, store, now, prior, claimed) == (
                pre.0.push((r.slug@, st)),
                spec_claim_after(r, st, pre.1),
            )
        }),
    decreases recipes.len(),
{
    let pre = spec_reconcile_recipes(recipes, ctx, store, now, prior, claimed);
    let st = spec_decide(
        r,
        ctx,
        store,
        now,
        spec_lookup(prior, r.slug@),
        spec_has_conflict(r.feature_ids@, pre.1),
    );
    if recipes.len() == 0 {
        assert(recipes.push(r).drop_first() =~= recipes);
        assert(recipes.push(r)[0] == r);
        assert(spec_reconcile_recipes(
            recipes,
            ctx,
            store,
            now,
            prior,
            spec_claim_after(r, st, claimed),
        ).0 =~= Seq::<(Seq<char>, StatusV)>::empty());
        assert(spec_reconcile_recipes(recipes.push(r), ctx, store, now, prior, claimed).0
            =~= pre.0.push((r.slug@, st)));
    } else {
        let r0 = recipes[0];
        let st0 = spec_decide(
            r0,
            ctx,
            store,
            now,
            spec_lookup(prior, r0.slug@),
            spec_has_conflict(r0.feature_ids@, claimed),
        );
        assert(recipes.push(r).drop_first() =~= recipes.drop_first().push(r));
        assert(recipes.push(r)[0] == r0);
        lemma_reconcile_recipes_push(
            recipes.drop_first(),
            r,
            ctx,
            store,
            now,
            prior,
            spec_claim_after(r0, st0, claimed),
        );
        assert(spec_reconcile_recipes(recipes.push(r), ctx, store, now, prior, claimed).0
            =~= pre.0.push((r.slug@, st)));
    }
}

pub proof fn lemma_events_recipes_push(
    recipes: Seq<Recipe>,
    r: Recipe,
    ctx: AppContext,
    store: Seq<(Seq<char>, EventDataV)>,
    now: u64,
    prior: Seq<(Seq<char>, StatusV)>,
    claimed: Seq<String>,
)
    ensures
        ({
            let pre = spec_reconcile_recipes(recipes, ctx, store, now, prior, claimed);
            let p0 = spec_lookup(prior, r.slug@);
            let st = spec_decide(
                r,
                ctx,
                store,
                now,
                p0,
                spec_has_conflict(r.feature_ids@, pre.1),
            );
            spec_events_recipes(recipes.push(r), ctx, store, now, prior, claimed)
                == spec_events_recipes(recipes, ctx, store, now, prior, claimed) + (match
            spec_change_event(p0, st) {
                Some(t) => seq![(r.slug@, t)],
                None => Seq::<(Seq<char>, EnrollmentChangeEventType)>::empty(),
            })
        }),
    decreases recipes.len(),
{
    let pre = spec_reconcile_recipes(recipes, ctx, store, now, prior, claimed);
    let p0 = spec_lookup(prior, r.slug@);
    let st = spec_decide(r, ctx, store, now, p0, spec_has_conflict(r.feature_ids@, pre.1));
    let tail = match spec_change_event(p0, st) {
        Some(t) => seq![(r.slug@, t)],
        None => Seq::<(Seq<char>, EnrollmentChangeEventType)>::empty(),
    };
    if recipes.len() == 0 {
        assert(recipes.push(r).drop_first() =~= recipes);
        assert(recipes.push(r)[0] == r);
        assert(spec_events_recipes(
            recipes,
            ctx,
            store,
            now,
            prior,
            spec_claim_after(r, st, claimed),
        ) =~= Seq::<(Seq<char>, EnrollmentChangeEventType)>::empty());
        assert(spec_events_recipes(recipes.push(r), ctx, store, now, prior, claimed)
            =~= spec_events_recipes(recipes, ctx, store, now, prior, claimed) + tail);
    } else {
        let r0 = recipes[0];
        let st0 = spec_decide(
            r0,
            ctx,
            store,
            now,
            spec_lookup(prior, r0.slug@),
            spec_has_conflict(r0.feature_ids@, claimed),
        );
        assert(recipes.push(r).drop_first() =~= recipes.drop_first().push(r));
        assert(recipes.push(r)[0] == r0);
        lemma_events_recipes_push(
            recipes.drop_first(),
            r,
            ctx,
            store,
            now,
            prior,
            spec_claim_after(r0, st0, claimed),
        );
        assert(spec_events_recipes(recipes.push(r), ctx, store, now, prior, claimed)
            =~= spec_events_recipes(recipes, ctx, store, now, prior, claimed) + tail);
    }
}

pub proof fn lemma_absent_push(
    prior: Seq<(Seq<char>, StatusV)>,
    e: (Seq<char>, StatusV),
    recipes: Seq<Recipe>,
)
    ensures
        spec_absent_states(prior.push(e), recipes) == spec_absent_states(prior, recipes) + (
        if !spec_slug_in(recipes, e.0) {
            seq![(e.0, StatusV::WasEnrolled)]
        } else {
            Seq::<(Seq<char>, StatusV)>::empty()
        }),
        spec_absent_events(prior.push(e), recipes) == spec_absent_events(prior, recipes) + (
        if !spec_slug_in(recipes, e.0) && !(e.1 is WasEnrolled) {
            seq![(e.0, EnrollmentChangeEventType::Unenrollment)]
        } else {
            Seq::<(Seq<char>, EnrollmentChangeEventType)>::empty()
        }),
    decreases prior.len(),
{
    let stail = if !spec_slug_in(recipes, e.0) {
        seq![(e.0, StatusV::WasEnrolled)]
    } else {
        Seq::<(Seq<char>, StatusV)>::empty()
    };
    let etail = if !spec_slug_in(recipes, e.0) && !(e.1 is WasEnrolled) {
        seq![(e.0, EnrollmentChangeEventType::Unenrollment)]
    } else {
        Seq::<(Seq<char>, EnrollmentChangeEventType)>::empty()
    };
    if prior.len() == 0 {
        assert(prior.push(e).drop_first() =~= prior);
        assert(prior.push(e)[0] == e);
        assert(spec_absent_states(prior.push(e), recipes) =~= spec_absent_states(prior, recipes)
            + stail);
        assert(spec_absent_events(prior.push(e), recipes) =~= spec_absent_events(prior, recipes)
            + etail);
    } else {
        assert(prior.push(e).drop_first() =~= prior.drop_first().push(e));
        assert(prior.push(e)[0] == prior[0]);
        lemma_absent_push(prior.drop_first(), e, recipes);
        assert(spec_absent_states(prior.push(e), recipes) =~= spec_absent_states(prior, recipes)
            + stail);
        assert(spec_absent_events(prior.push(e), recipes) =~= spec_absent_events(prior, recipes)
            + etail);
    }
}

/// The prior state stored for a slug, if any.
fn lookup_status<'a>(prior: &'a Vec<(String, EnrollmentStatus)>, slug: &str) -> (r: Option<
    &'a EnrollmentStatus,
>)
    ensures
        match r {
            Some(p) => spec_lookup(prior_view(prior@), slug@) == Some(status_v(*p)),
            None => spec_lookup(prior_view(prior@), slug@) is None,
        },
{
    let key: String = slug.to_owned();
    let ghost pv = prior_view(prior@);
    let mut i: usize = 0;
    proof {
        assert(pv.skip(0) =~= pv);
    }
    while i < prior.len()
        invariant
            i <= prior@.len(),
            key@ == slug@,
            pv == prior_view(prior@),
            spec_lookup(pv, slug@) == spec_lookup(pv.skip(i as int), slug@),
        decreases prior@.len() - i,
    {
        proof {
            assert(pv.skip(i as int)[0] == pv[i as int]);
        }
        if prior[i].0 == key {
            return Some(&prior[i].1);
        }
        proof {
            assert(pv.skip(i as int).drop_first() =~= pv.skip(i + 1));
        }
        i = i + 1;
    }
    proof {
        assert(pv.skip(pv.len() as int) =~= Seq::<(Seq<char>, StatusV)>::empty());
    }
    None
}

/// Whether the claimed feature list holds a feature id.
fn claimed_has(claimed: &Vec<String>, x: &String) -> (r: bool)
    ensures
        r == spec_claimed_has(claimed@, x@),
{
    let mut i: usize = 0;
    proof {
        assert(claimed@.skip(0) =~= claimed@);
    }
    while i < claimed.len()
        invariant
            i <= claimed@.len(),
            spec_claimed_has(claimed@, x@) == spec_claimed_has(claimed@.skip(i as int), x@),
        decreases claimed@.len() - i,
    {
        proof {
            assert(claimed@.skip(i as int)[0] == claimed@[i as int]);
            assert(claimed@.skip(i as int).drop_first() =~= claimed@.skip(i + 1));
        }
        if claimed[i] == *x {
            return true;
        }
        i = i + 1;
    }
    proof {
        assert(claimed@.skip(claimed@.len() as int) =~= Seq::<String>::empty());
    }
    false
}

/// Whether any feature of `features` is already claimed.
fn has_conflict(features: &Vec<String>, claimed: &Vec<String>) -> (r: bool)
    ensures
        r == spec_has_conflict(features@, claimed@),
{
    let mut i: usize = 0;
    proof {
        assert(features@.skip(0) =~= features@);
    }
    while i < features.len()
        invariant
            i <= features@.len(),
            spec_has_conflict(features@, claimed@) == spec_has_conflict(
                features@.skip(i as int),
                claimed@,
            ),
        decreases features@.len() - i,
    {
        proof {
            assert(features@.skip(i as int)[0] == features@[i as int]);
            assert(features@.skip(i as int).drop_first() =~= features@.skip(i + 1));
        }
        if claimed_has(claimed, &features[i]) {
            return true;
        }
        i = i + 1;
    }
    proof {
        assert(features@.skip(features@.len() as int) =~= Seq::<String>::empty());
    }
    false
}

/// Whether a slug names a recipe of the set.
fn slug_in_recipes(recipes: &Vec<Recipe>, slug: &String) -> (r: bool)
    ensures
        r == spec_slug_in(recipes@, slug@),
{
    let mut i: usize = 0;
    proof {
        assert(recipes@.skip(0) =~= recipes@);
    }
    while i < recipes.len()
        invariant
            i <= recipes@.len(),
            spec_slug_in(recipes@, slug@) == spec_slug_in(recipes@.skip(i as int), slug@),
        decreases recipes@.len() - i,
    {
        proof {
            assert(recipes@.skip(i as int)[0] == recipes@[i as int]);
            assert(recipes@.skip(i as int).drop_first() =~= recipes@.skip(i + 1));
        }
        if recipes[i].slug == *slug {
            return true;
        }
        i = i + 1;
    }
    proof {
        assert(recipes@.skip(recipes@.len() as int) =~= Seq::<Recipe>::empty());
    }
    false
}

/// The change event of one slug's transition.
fn change_event_of(old: Option<&EnrollmentStatus>, new: &EnrollmentStatus) -> (r: Option<
    EnrollmentChangeEventType,
>)
    ensures
        r == spec_change_event(
            match old {
                Some(p) => Some(status_v(*p)),
                None => None,
            },
            status_v(*new),
        ),
{
    match new {
        EnrollmentStatus::Enrolled { branch, .. } => match old {
            Some(EnrollmentStatus::Enrolled { branch: b0, .. }) => if *b0 == *branch {
                None
            } else {
                Some(EnrollmentChangeEventType::Update)
            },
            _ => Some(EnrollmentChangeEventType::Enrollment),
        },
        EnrollmentStatus::Disqualified { .. } => match old {
            Some(EnrollmentStatus::Disqualified { .. }) => None,
            _ => Some(EnrollmentChangeEventType::Disqualification),
        },
        EnrollmentStatus::WasEnrolled => match old {
            Some(EnrollmentStatus::WasEnrolled) => None,
            _ => Some(EnrollmentChangeEventType::Unenrollment),
        },
        EnrollmentStatus::NotEnrolled { .. } => None,
    }
}

/// One reconciliation pass: for every recipe of the current set, decide its
/// new state from targeting, sampling, feature conflicts and its prior
/// state; slugs that left the set become `WasEnrolled`. Returns the full
/// new state map (recipes in order, then departed slugs) and the ordered
/// change events of the pass. Pure in its inputs: nothing is read but the
/// arguments, and the store is only read. Errors of one recipe downgrade
/// that recipe alone and never abort the pass.
pub fn reconcile(
    recipes: &Vec<Recipe>,
    ctx: &AppContext,
    store: &EventStore,
    prior: &Vec<(String, EnrollmentStatus)>,
    now: u64,
) -> (r: (Vec<(String, EnrollmentStatus)>, Vec<EnrollmentChangeEvent>))
    requires
        store.wf(),
    ensures
        out_view(r.0@) == spec_reconcile(recipes@, *ctx, store@, now, prior_view(prior@)).0,
        events_view(r.1@) == spec_reconcile(recipes@, *ctx, store@, now, prior_view(prior@)).1,
{
    let ghost pv = prior_view(prior@);
    let mut out: Vec<(String, EnrollmentStatus)> = Vec::new();
    let mut events: Vec<EnrollmentChangeEvent> = Vec::new();
    let mut claimed: Vec<String> = Vec::new();
    let mut i: usize = 0;
    proof {
        assert(recipes@.take(0) =~= Seq::<Recipe>::empty());
        assert(out_view(out@) =~= Seq::<(Seq<char>, StatusV)>::empty());
        assert(events_view(events@) =~= Seq::<(Seq<char>, EnrollmentChangeEventType)>::empty());
    }
    while i < recipes.len()
        invariant
            i <= recipes@.len(),
            store.wf(),
            pv == prior_view(prior@),
            out_view(out@) == spec_reconcile_recipes(
                recipes@.take(i as int),
                *ctx,
                store@,
                now,
                pv,
                Seq::<String>::empty(),
            ).0,
            claimed@ == spec_reconcile_recipes(
                recipes@.take(i as int),
                *ctx,
                store@,
                now,
                pv,
                Seq::<String>::empty(),
            ).1,
            events_view(events@) == spec_events_recipes(
                recipes@.take(i as int),
                *ctx,
                store@,
                now,
                pv,
                Seq::<String>::empty(),
            ),
        decreases recipes@.len() - i,
    {
        let r = &recipes[i];
        let prior_st = lookup_status(prior, r.slug.as_str());
        let conflict = has_conflict(&r.feature_ids, &claimed);
        let st = decide(r, ctx, store, now, prior_st, conflict);
        let ev = change_event_of(prior_st, &st);
        proof {
            lemma_reconcile_recipes_push(
                recipes@.take(i as int),
                recipes@[i as int],
                *ctx,
                store@,
                now,
                pv,
                Seq::<String>::empty(),
            );
            lemma_events_recipes_push(
                recipes@.take(i as int),
                recipes@[i as int],
                *ctx,
                store@,
                now,
                pv,
                Seq::<String>::empty(),
            );
            assert(recipes@.take(i + 1) =~= recipes@.take(i as int).push(recipes@[i as int]));
        }
        let enrolled_now = matches!(st, EnrollmentStatus::Enrolled { .. });
        if enrolled_now {
            let ghost claimed_pre = claimed@;
            let mut j: usize = 0;
            proof {
                assert(claimed@ =~= claimed_pre + r.feature_ids@.take(0));
            }
            while j < r.feature_ids.len()
                invariant
                    j <= r.feature_ids@.len(),
                    claimed@ == claimed_pre + r.feature_ids@.take(j as int),
                decreases r.feature_ids@.len() - j,
            {
                claimed.push(r.feature_ids[j].clone());
                proof {
                    assert(claimed@ =~= claimed_pre + r.feature_ids@.take(j + 1));
                }
                j = j + 1;
            }
            proof {
                assert(r.feature_ids@.take(r.feature_ids@.len() as int) =~= r.feature_ids@);
            }
        }
        let ghost stv = status_v(st);
        let ghost out_pre = out@;
        let ghost events_pre = events@;
        match ev {
            Some(t) => {
                events.push(EnrollmentChangeEvent { slug: r.slug.clone(), change: t });
            },
            None => {},
        }
        out.push((r.slug.clone(), st));
        proof {
            assert(out_view(out@) =~= out_view(out_pre).push((r.slug@, stv)));
            match ev {
                Some(t) => {
                    assert(events_view(events@) =~= events_view(events_pre) + seq![
                        (r.slug@, t),
                    ]);
                },
                None => {
                    assert(events_view(events@) =~= events_view(events_pre));
                    assert(events_view(events_pre) + Seq::<
                        (Seq<char>, EnrollmentChangeEventType),
                    >::empty() =~= events_view(events_pre));
                },
            }
        }
        i = i + 1;
    }
    proof {
        assert(recipes@.take(recipes@.len() as int) =~= recipes@);
    }
    let ghost rec_states = spec_reconcile_recipes(
        recipes@,
        *ctx,
        store@,
        now,
        pv,
        Seq::<String>::empty(),
    ).0;
    let ghost rec_events = spec_events_recipes(
        recipes@,
        *ctx,
        store@,
        now,
        pv,
        Seq::<String>::empty(),
    );
    let mut k: usize = 0;
    proof {
        assert(pv.take(0) =~= Seq::<(Seq<char>, StatusV)>::empty());
        assert(spec_absent_states(pv.take(0), recipes@) =~= Seq::<(Seq<char>, StatusV)>::empty());
        assert(spec_absent_events(pv.take(0), recipes@) =~= Seq::<
            (Seq<char>, EnrollmentChangeEventType),
        >::empty());
        assert(out_view(out@) =~= rec_states + spec_absent_states(pv.take(0), recipes@));
        assert(events_view(events@) =~= rec_events + spec_absent_events(pv.take(0), recipes@));
    }
    while k < prior.len()
        invariant
            k <= prior@.len(),
            pv == prior_view(prior@),
            out_view(out@) == rec_states + spec_absent_states(pv.take(k as int), recipes@),
            events_view(events@) == rec_events + spec_absent_events(pv.take(k as int), recipes@),
        decreases prior@.len() - k,
    {
        let entry = &prior[k];
        let absent = !slug_in_recipes(recipes, &entry.0);
        let ghost out_pre = out@;
        let ghost events_pre = events@;
        let was = matches!(entry.1, EnrollmentStatus::WasEnrolled);
        if absent {
            out.push((entry.0.clone(), EnrollmentStatus::WasEnrolled));
            if !was {
                events.push(
                    EnrollmentChangeEvent {
                        slug: entry.0.clone(),
                        change: EnrollmentChangeEventType::Unenrollment,
                    },
                );
            }
        }
        proof {
            lemma_absent_push(pv.take(k as int), pv[k as int], recipes@);
            assert(pv.take(k + 1) =~= pv.take(k as int).push(pv[k as int]));
            assert(pv[k as int].0 == prior@[k as int].0@);
            assert(pv[k as int].1 == status_v(prior@[k as int].1));
            if absent {
                assert(out_view(out@) =~= out_view(out_pre).push(
                    (prior@[k as int].0@, StatusV::WasEnrolled),
                ));
                assert(out_view(out@) =~= rec_states + spec_absent_states(
                    pv.take(k + 1),
                    recipes@,
                ));
                if !was {
                    assert(events_view(events@) =~= events_view(events_pre) + seq![
                        (prior@[k as int].0@, EnrollmentChangeEventType::Unenrollment),
                    ]);
                }
                assert(events_view(events@) =~= rec_events + spec_absent_events(
                    pv.take(k + 1),
                    recipes@,
                ));
            } else {
                assert(spec_absent_states(pv.take(k + 1), recipes@) =~= spec_absent_states(
                    pv.take(k as int),
                    recipes@,
                ));
                assert(spec_absent_events(pv.take(k + 1), recipes@) =~= spec_absent_events(
                    pv.take(k as int),
                    recipes@,
                ));
            }
        }
        k = k + 1;
    }
    proof {
        assert(pv.take(pv.len() as int) =~= pv);
    }
    (out, events)
}


pub proof fn lemma_decide_idempotent(
    r: Recipe,
    ctx: AppContext,
    store: Seq<(Seq<char>, EventDataV)>,
    now: u64,
    prior: Option<StatusV>,
    conflict: bool,
)
    ensures
        spec_decide(
            r,
            ctx,
            store,
            now,
            Some(spec_decide(r, ctx, store, now, prior, conflict)),
            conflict,
        ) == spec_decide(r, ctx, store, now, prior, conflict),
{
}

/// A transition that keeps the state reports no change event.
pub proof fn lemma_no_change_no_event(s: StatusV)
    ensures
        spec_change_event(Some(s), s) is None,
{
}

/// Nothing conflicts with an empty claimed list.
pub proof fn lemma_no_conflict_empty(features: Seq<String>)
    ensures
        !spec_has_conflict(features, Seq::<String>::empty()),
    decreases features.len(),
{
    if features.len() > 0 {
        lemma_no_conflict_empty(features.drop_first());
    }
}

/// A feature both lists hold makes them conflict.
pub proof fn lemma_conflict_of_common(features: Seq<String>, claimed: Seq<String>, f: Seq<char>)
    requires
        spec_claimed_has(features, f),
        spec_claimed_has(claimed, f),
    ensures
        spec_has_conflict(features, claimed),
    decreases features.len(),
{
    if features.len() > 0 {
        if features[0]@ == f {
        } else {
            lemma_conflict_of_common(features.drop_first(), claimed, f);
        }
    }
}

/// Feature-conflict resolution: of two recipes that both target and sample
/// successfully, have never been enrolled before, and claim a feature in
/// common, exactly the first (in stable recipe order) enrolls; the second
/// is turned away with a feature conflict.
pub proof fn lemma_feature_conflict_first_wins(
    r1: Recipe,
    r2: Recipe,
    ctx: AppContext,
    store: Seq<(Seq<char>, EventDataV)>,
    now: u64,
    prior: Seq<(Seq<char>, StatusV)>,
    f: Seq<char>,
)
    requires
        spec_targeting_outcome(r1, ctx, store, now) is Pass,
        spec_targeting_outcome(r2, ctx, store, now) is Pass,
        spec_sampling_outcome(r1, ctx) == Some(true),
        spec_sampling_outcome(r2, ctx) == Some(true),
        spec_claimed_has(r1.feature_ids@, f),
        spec_claimed_has(r2.feature_ids@, f),
        spec_lookup(prior, r1.slug@) is None,
        spec_lookup(prior, r2.slug@) is None,
    ensures
        spec_reconcile_recipes(seq![r1, r2], ctx, store, now, prior, Seq::<String>::empty()).0[0].1
            is Enrolled,
        spec_reconcile_recipes(seq![r1, r2], ctx, store, now, prior, Seq::<String>::empty()).0[1].1
            == StatusV::NotEnrolled(NotEnrolledReason::FeatureConflict),
{
    let rs = seq![r1, r2];
    lemma_no_conflict_empty(r1.feature_ids@);
    let st1 = spec_decide(r1, ctx, store, now, spec_lookup(prior, r1.slug@), false);
    assert(st1 is Enrolled);
    let claimed1 = Seq::<String>::empty() + r1.feature_ids@;
    assert(claimed1 =~= r1.feature_ids@);
    lemma_conflict_of_common(r2.feature_ids@, r1.feature_ids@, f);
    let st2 = spec_decide(r2, ctx, store, now, spec_lookup(prior, r2.slug@), true);
    assert(st2 == StatusV::NotEnrolled(NotEnrolledReason::FeatureConflict));
    assert(rs[0] == r1);
    assert(rs.drop_first() =~= seq![r2]);
    assert(rs.drop_first()[0] == r2);
    assert(rs.drop_first().drop_first() =~= Seq::<Recipe>::empty());
    let out = spec_reconcile_recipes(rs, ctx, store, now, prior, Seq::<String>::empty());
    let out2 = spec_reconcile_recipes(rs.drop_first(), ctx, store, now, prior, claimed1);
    assert(spec_reconcile_recipes(
        rs.drop_first().drop_first(),
        ctx,
        store,
        now,
        prior,
        spec_claim_after(r2, st2, claimed1),
    ).0 =~= Seq::<(Seq<char>, StatusV)>::empty());
    assert(out2.0 =~= seq![(r2.slug@, st2)]);
    assert(out.0 =~= seq![(r1.slug@, st1)] + out2.0);
    assert(out.0[0].1 == st1);
    assert(out.0[1].1 == st2);
}

pub proof fn lemma_lookup_append(
    a: Seq<(Seq<char>, StatusV)>,
    b: Seq<(Seq<char>, StatusV)>,
    k: Seq<char>,
)
    ensures
        spec_lookup(a + b, k) == if spec_lookup(a, k) is Some {
            spec_lookup(a, k)
        } else {
            spec_lookup(b, k)
        },
    decreases a.len(),
{
    if a.len() == 0 {
        assert(a + b =~= b);
    } else {
        assert((a + b)[0] == a[0]);
        assert((a + b).drop_first() =~= a.drop_first() + b);
        lemma_lookup_append(a.drop_first(), b, k);
    }
}

pub proof fn lemma_lookup_found_at(s: Seq<(Seq<char>, StatusV)>, i: int)
    requires
        0 <= i < s.len(),
        forall|j: int| 0 <= j < i ==> (#[trigger] s[j]).0 != s[i].0,
    ensures
        spec_lookup(s, s[i].0) == Some(s[i].1),
    decreases i,
{
    if i > 0 {
        lemma_lookup_found_at(s.drop_first(), i - 1);
        assert(forall|j: int|
            0 <= j < i - 1 ==> (#[trigger] s.drop_first()[j]).0 == s[j + 1].0);
    }
}

/// The recipe part of a pass covers exactly the recipes, slug for slug.
pub proof fn lemma_reconcile_out_slugs(
    recipes: Seq<Recipe>,
    ctx: AppContext,
    store: Seq<(Seq<char>, EventDataV)>,
    now: u64,
    prior: Seq<(Seq<char>, StatusV)>,
    claimed: Seq<String>,
)
    ensures
        spec_reconcile_recipes(recipes, ctx, store, now, prior, claimed).0.len()
            == recipes.len(),
        forall|i: int|
            0 <= i < recipes.len() ==> (#[trigger] spec_reconcile_recipes(
                recipes,
                ctx,
                store,
                now,
                prior,
                claimed,
            ).0[i]).0 == recipes[i].slug@,
    decreases recipes.len(),
{
    if recipes.len() > 0 {
        let r0 = recipes[0];
        let st0 = spec_decide(
            r0,
            ctx,
            store,
            now,
            spec_lookup(prior, r0.slug@),
            spec_has_conflict(r0.feature_ids@, claimed),
        );
        lemma_reconcile_out_slugs(
            recipes.drop_first(),
            ctx,
            store,
            now,
            prior,
            spec_claim_after(r0, st0, claimed),
        );
    }
}

/// A slug taken from the set is in the set.
pub proof fn lemma_slug_in_at(recipes: Seq<Recipe>, i: int)
    requires
        0 <= i < recipes.len(),
    ensures
        spec_slug_in(recipes, recipes[i].slug@),
    decreases i,
{
    if i > 0 {
        lemma_slug_in_at(recipes.drop_first(), i - 1);
    }
}

pub proof fn lemma_absent_events_append(
    a: Seq<(Seq<char>, StatusV)>,
    b: Seq<(Seq<char>, StatusV)>,
    recipes: Seq<Recipe>,
)
    ensures
        spec_absent_events(a + b, recipes) == spec_absent_events(a, recipes)
            + spec_absent_events(b, recipes),
    decreases a.len(),
{
    if a.len() == 0 {
        assert(a + b =~= b);
        assert(spec_absent_events(a, recipes) =~= Seq::<
            (Seq<char>, EnrollmentChangeEventType),
        >::empty());
        assert(spec_absent_events(a + b, recipes) =~= spec_absent_events(a, recipes)
            + spec_absent_events(b, recipes));
    } else {
        assert((a + b)[0] == a[0]);
        assert((a + b).drop_first() =~= a.drop_first() + b);
        lemma_absent_events_append(a.drop_first(), b, recipes);
        assert(spec_absent_events(a + b, recipes) =~= spec_absent_events(a, recipes)
            + spec_absent_events(b, recipes));
    }
}

/// Entries whose slug is in the set contribute no unenrollment events.
pub proof fn lemma_absent_events_all_in(s: Seq<(Seq<char>, StatusV)>, recipes: Seq<Recipe>)
    requires
        forall|i: int| 0 <= i < s.len() ==> spec_slug_in(recipes, (#[trigger] s[i]).0),
    ensures
        spec_absent_events(s, recipes) =~= Seq::<(Seq<char>, EnrollmentChangeEventType)>::empty(),
    decreases s.len(),
{
    if s.len() > 0 {
        assert(forall|i: int|
            0 <= i < s.drop_first().len() ==> (#[trigger] s.drop_first()[i]) == s[i + 1]);
        lemma_absent_events_all_in(s.drop_first(), recipes);
    }
}

/// Departed entries are all terminal.
pub proof fn lemma_absent_states_all_was(prior: Seq<(Seq<char>, StatusV)>, recipes: Seq<Recipe>)
    ensures
        forall|i: int|
            0 <= i < spec_absent_states(prior, recipes).len() ==> (#[trigger] spec_absent_states(
                prior,
                recipes,
            )[i]).1 is WasEnrolled,
    decreases prior.len(),
{
    if prior.len() > 0 {
        lemma_absent_states_all_was(prior.drop_first(), recipes);
    }
}

/// Terminal entries contribute no unenrollment events.
pub proof fn lemma_absent_events_all_was(s: Seq<(Seq<char>, StatusV)>, recipes: Seq<Recipe>)
    requires
        forall|i: int| 0 <= i < s.len() ==> (#[trigger] s[i]).1 is WasEnrolled,
    ensures
        spec_absent_events(s, recipes) =~= Seq::<(Seq<char>, EnrollmentChangeEventType)>::empty(),
    decreases s.len(),
{
    if s.len() > 0 {
        assert(forall|i: int|
            0 <= i < s.drop_first().len() ==> (#[trigger] s.drop_first()[i]) == s[i + 1]);
        lemma_absent_events_all_was(s.drop_first(), recipes);
    }
}

pub proof fn lemma_idem_go(
    recipes: Seq<Recipe>,
    ctx: AppContext,
    store: Seq<(Seq<char>, EventDataV)>,
    now: u64,
    prior1: Seq<(Seq<char>, StatusV)>,
    prior2: Seq<(Seq<char>, StatusV)>,
    claimed: Seq<String>,
)
    requires
        forall|i: int|
            0 <= i < recipes.len() ==> spec_lookup(prior2, (#[trigger] recipes[i]).slug@)
                == Some(spec_reconcile_recipes(recipes, ctx, store, now, prior1, claimed).0[i].1),
    ensures
        spec_reconcile_recipes(recipes, ctx, store, now, prior2, claimed)
            == spec_reconcile_recipes(recipes, ctx, store, now, prior1, claimed),
        spec_events_recipes(recipes, ctx, store, now, prior2, claimed) =~= Seq::<
            (Seq<char>, EnrollmentChangeEventType),
        >::empty(),
    decreases recipes.len(),
{
    if recipes.len() == 0 {
        assert(spec_reconcile_recipes(recipes, ctx, store, now, prior2, claimed).0
            =~= spec_reconcile_recipes(recipes, ctx, store, now, prior1, claimed).0);
    } else {
        let r0 = recipes[0];
        let c0 = spec_has_conflict(r0.feature_ids@, claimed);
        let st0 = spec_decide(r0, ctx, store, now, spec_lookup(prior1, r0.slug@), c0);
        let out1 = spec_reconcile_recipes(recipes, ctx, store, now, prior1, claimed);
        assert(out1.0[0] == (r0.slug@, st0));
        assert(spec_lookup(prior2, r0.slug@) == Some(st0));
        lemma_decide_idempotent(r0, ctx, store, now, spec_lookup(prior1, r0.slug@), c0);
        assert(spec_decide(r0, ctx, store, now, spec_lookup(prior2, r0.slug@), c0) == st0);
        lemma_no_change_no_event(st0);
        let claimed1 = spec_claim_after(r0, st0, claimed);
        let rest1 = spec_reconcile_recipes(recipes.drop_first(), ctx, store, now, prior1, claimed1);
        assert(forall|i: int|
            0 <= i < recipes.drop_first().len() ==> (#[trigger] recipes.drop_first()[i])
                == recipes[i + 1]);
        lemma_reconcile_out_slugs(
            recipes.drop_first(),
            ctx,
            store,
            now,
            prior1,
            claimed1,
        );
        assert(out1.0 == seq![(r0.slug@, st0)] + rest1.0);
        assert forall|i: int| 0 <= i < recipes.drop_first().len() implies out1.0[i + 1]
            == rest1.0[i] by {
            assert((seq![(r0.slug@, st0)] + rest1.0)[i + 1] == rest1.0[i]);
        }
        lemma_idem_go(recipes.drop_first(), ctx, store, now, prior1, prior2, claimed1);
        assert(spec_reconcile_recipes(recipes, ctx, store, now, prior2, claimed).0
            =~= spec_reconcile_recipes(recipes, ctx, store, now, prior1, claimed).0);
        assert(spec_events_recipes(recipes, ctx, store, now, prior2, claimed) =~= Seq::<
            (Seq<char>, EnrollmentChangeEventType),
        >::empty());
    }
}

/// Enrollment idempotence: a second reconciliation pass over an unchanged
/// recipe set, context, event store and instant, starting from the state
/// map the first pass produced, reports no change events at all.
pub proof fn lemma_reconcile_idempotent(
    recipes: Seq<Recipe>,
    ctx: AppContext,
    store: Seq<(Seq<char>, EventDataV)>,
    now: u64,
    prior: Seq<(Seq<char>, StatusV)>,
)
    requires
        forall|i: int, j: int|
            0 <= i < j < recipes.len() ==> (#[trigger] recipes[i]).slug@ != (
            #[trigger] recipes[j]).slug@,
    ensures
        spec_reconcile(
            recipes,
            ctx,
            store,
            now,
            spec_reconcile(recipes, ctx, store, now, prior).0,
        ).1 =~= Seq::<(Seq<char>, EnrollmentChangeEventType)>::empty(),
{
    let empty_claimed = Seq::<String>::empty();
    let pass1 = spec_reconcile_recipes(recipes, ctx, store, now, prior, empty_claimed);
    let absent1 = spec_absent_states(prior, recipes);
    let prior2 = pass1.0 + absent1;
    lemma_reconcile_out_slugs(recipes, ctx, store, now, prior, empty_claimed);
    assert forall|i: int| 0 <= i < recipes.len() implies spec_lookup(
        prior2,
        (#[trigger] recipes[i]).slug@,
    ) == Some(pass1.0[i].1) by {
        assert(forall|j: int| 0 <= j < recipes.len() ==> (#[trigger] pass1.0[j]).0
            == recipes[j].slug@);
        lemma_lookup_found_at(pass1.0, i);
        lemma_lookup_append(pass1.0, absent1, recipes[i].slug@);
    }
    lemma_idem_go(recipes, ctx, store, now, prior, prior2, empty_claimed);
    lemma_absent_events_append(pass1.0, absent1, recipes);
    assert forall|i: int| 0 <= i < pass1.0.len() implies spec_slug_in(
        recipes,
        (#[trigger] pass1.0[i]).0,
    ) by {
        lemma_slug_in_at(recipes, i);
    }
    lemma_absent_events_all_in(pass1.0, recipes);
    lemma_absent_states_all_was(prior, recipes);
    lemma_absent_events_all_was(absent1, recipes);
    assert(spec_reconcile(recipes, ctx, store, now, prior2).1 =~= Seq::<
        (Seq<char>, EnrollmentChangeEventType),
    >::empty());
}

} // verus!
