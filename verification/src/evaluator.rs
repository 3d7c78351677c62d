use vstd::prelude::*;
use vstd::string::StringSliceAdditionalSpecFns;
use vstd::utf8::encode_utf8;
use crate::events::{EventQueryType, EventStore, EventDataV, Interval, spec_store_query};

verus! {

/// Error raised by the targeting evaluator.
#[derive(Clone, Copy, PartialEq, Eq, Structural, Debug)]
pub enum TargetingError {
    /// The expression asked for a comparison its operand kinds cannot
    /// support (for instance ordering a string against a number).
    InvalidExpression,
}

/// A scalar value a targeting expression works with. `Undefined` is what a
/// missing context field yields; any comparison against it is `false`,
/// never an error.
#[derive(Debug, PartialEq)]
pub enum Value {
    Undefined,
    Null,
    Bool(bool),
    Int(i64),
    Str(String),
}

/// One node of the context tree: a JSON-like tagged value whose leaves are
/// scalars and whose branches are objects.
#[derive(Debug, PartialEq)]
pub enum ContextValue {
    Null,
    Bool(bool),
    Int(i64),
    Str(String),
    Obj(Vec<(String, ContextValue)>),
}

/// The immutable application/device context an expression is evaluated
/// against: a tree of named fields, read only.
#[derive(Debug, PartialEq)]
pub struct AppContext {
    pub fields: Vec<(String, ContextValue)>,
}

/// A bound event-store query a targeting expression may call.
#[derive(Debug, PartialEq)]
pub struct QueryCall {
    pub event_id: String,
    pub interval: Interval,
    pub num_buckets: usize,
    pub starting_bucket: usize,
    pub query_type: EventQueryType,
}

/// A targeting predicate: an immutable tree of typed nodes, evaluated
/// against a context and an event store.
#[derive(Debug, PartialEq)]
pub enum Expr {
    /// A literal scalar.
    Lit(Value),
    /// A dotted-path lookup into the context; a missing path yields
    /// `Undefined`, not an error.
    Field(Vec<String>),
    /// An explicit presence check: true iff the path exists in the context.
    Present(Vec<String>),
    Not(Box<Expr>),
    And(Box<Expr>, Box<Expr>),
    Or(Box<Expr>, Box<Expr>),
    Eq(Box<Expr>, Box<Expr>),
    Ne(Box<Expr>, Box<Expr>),
    Lt(Box<Expr>, Box<Expr>),
    Le(Box<Expr>, Box<Expr>),
    Gt(Box<Expr>, Box<Expr>),
    Ge(Box<Expr>, Box<Expr>),
    /// Membership of the operand in a literal list.
    In(Box<Expr>, Vec<Value>),
    /// A call into the bound event-store query function.
    EventQuery(QueryCall),
}

/// Structural equality of two defined scalars; `Undefined` equals nothing,
/// and values of different kinds are unequal rather than coerced.
pub open spec fn spec_value_eq(a: Value, b: Value) -> bool {
    match (a, b) {
        (Value::Null, Value::Null) => true,
        (Value::Bool(x), Value::Bool(y)) => x == y,
        (Value::Int(x), Value::Int(y)) => x == y,
        (Value::Str(x), Value::Str(y)) => x@ == y@,
        _ => false,
    }
}

/// The truth value of a scalar where a boolean is needed: booleans stand
/// for themselves, `Undefined` is false, anything else is incoercible.
pub open spec fn spec_truthy(v: Value) -> Option<bool> {
    match v {
        Value::Bool(b) => Some(b),
        Value::Undefined => Some(false),
        _ => None,
    }
}

/// The first field of an object with the given name, if any.
pub open spec fn spec_find_field(fields: Seq<(String, ContextValue)>, name: Seq<char>) -> Option<
    ContextValue,
>
    decreases fields.len(),
{
    if fields.len() == 0 {
        None
    } else if fields[0].0@ == name {
        Some(fields[0].1)
    } else {
        spec_find_field(fields.drop_first(), name)
    }
}

/// What a dotted path resolves to under a context node: the scalar at its
/// end, or `Undefined` where the path is missing, runs through a scalar,
/// or ends on an object.
pub open spec fn spec_resolve(v: ContextValue, path: Seq<String>) -> Value
    decreases path.len(),
{
    if path.len() == 0 {
        match v {
            ContextValue::Null => Value::Null,
            ContextValue::Bool(b) => Value::Bool(b),
            ContextValue::Int(i) => Value::Int(i),
            ContextValue::Str(s) => Value::Str(s),
            ContextValue::Obj(_) => Value::Undefined,
        }
    } else {
        match v {
            ContextValue::Obj(fields) => match spec_find_field(fields@, path[0]@) {
                Some(child) => spec_resolve(child, path.drop_first()),
                None => Value::Undefined,
            },
            _ => Value::Undefined,
        }
    }
}

/// Whether a dotted path names an existing node under a context node.
pub open spec fn spec_present(v: ContextValue, path: Seq<String>) -> bool
    decreases path.len(),
{
    if path.len() == 0 {
        true
    } else {
        match v {
            ContextValue::Obj(fields) => match spec_find_field(fields@, path[0]@) {
                Some(child) => spec_present(child, path.drop_first()),
                None => false,
            },
            _ => false,
        }
    }
}

/// Membership of a scalar in a literal list, by `spec_value_eq`.
pub open spec fn spec_in_list(v: Value, list: Seq<Value>) -> bool
    decreases list.len(),
{
    if list.len() == 0 {
        false
    } else {
        spec_value_eq(v, list[0]) || spec_in_list(v, list.drop_first())
    }
}

/// Whether a byte is an ASCII decimal digit.
pub open spec fn spec_is_digit(b: u8) -> bool {
    48 <= b <= 57
}

/// The value of the leading decimal digits of a byte string, folded onto
/// `acc` and saturating at the largest 64-bit value.
pub open spec fn spec_leading_num(s: Seq<u8>, acc: u64) -> u64
    decreases s.len(),
{
    if s.len() == 0 || !spec_is_digit(s[0]) {
        acc
    } else {
        let next = acc * 10 + (s[0] - 48);
        let clamped: u64 = if next > u64::MAX {
            u64::MAX
        } else {
            next as u64
        };
        spec_leading_num(s.drop_first(), clamped)
    }
}

/// How many bytes the first dot-separated component of a version string
/// spans.
pub open spec fn spec_component_len(s: Seq<u8>) -> nat
    decreases s.len(),
{
    if s.len() == 0 || s[0] == 46 {
        0
    } else {
        1 + spec_component_len(s.drop_first())
    }
}

/// A version string with its first component and its dot removed.
pub open spec fn spec_version_rest(s: Seq<u8>) -> Seq<u8> {
    let k = spec_component_len(s);
    if k >= s.len() {
        s.skip(s.len() as int)
    } else {
        s.skip((k + 1) as int)
    }
}

/// Version order on byte strings: components are dot-separated, each one
/// worth the decimal value of its leading digits (zero where none), and
/// compare numerically left to right; a missing component counts zero, so
/// `1.2` and `1.2.0` are equal and `1.9` precedes `1.10`.
pub open spec fn spec_version_lt(a: Seq<u8>, b: Seq<u8>) -> bool
    decreases a.len() + b.len(),
{
    if a.len() == 0 && b.len() == 0 {
        false
    } else {
        let va = spec_leading_num(a, 0);
        let vb = spec_leading_num(b, 0);
        if va < vb {
            true
        } else if vb < va {
            false
        } else {
            spec_version_lt(spec_version_rest(a), spec_version_rest(b))
        }
    }
}

/// A query result clamped into the range of an expression integer.
pub open spec fn spec_sat_i64(x: int) -> int {
    if x > i64::MAX {
        i64::MAX as int
    } else {
        x
    }
}

/// The root of the context seen as an object node.
pub open spec fn spec_ctx_root(ctx: AppContext) -> ContextValue {
    ContextValue::Obj(ctx.fields)
}

/// The value of an expression under a context and an event-store snapshot
/// at instant `now`: a total function — every well-formed expression either
/// has a value or a `TargetingError`, and the same inputs always give the
/// same result. Comparisons against `Undefined` are `false`; `&&` and `||`
/// evaluate their left operand first and short-circuit; order comparisons
/// are defined on integers, and on strings as dotted version numbers.
pub open spec fn spec_eval(
    e: Expr,
    ctx: AppContext,
    store: Seq<(Seq<char>, EventDataV)>,
    now: u64,
) -> Result<Value, TargetingError>
    decreases e,
{
    match e {
        Expr::Lit(v) => Ok(v),
        Expr::Field(path) => Ok(spec_resolve(spec_ctx_root(ctx), path@)),
        Expr::Present(path) => Ok(Value::Bool(spec_present(spec_ctx_root(ctx), path@))),
        Expr::Not(a) => match spec_eval(*a, ctx, store, now) {
            Ok(v) => match spec_truthy(v) {
                Some(b) => Ok(Value::Bool(!b)),
                None => Err(TargetingError::InvalidExpression),
            },
            Err(err) => Err(err),
        },
        Expr::And(a, b) => match spec_eval(*a, ctx, store, now) {
            Ok(va) => match spec_truthy(va) {
                Some(false) => Ok(Value::Bool(false)),
                Some(true) => match spec_eval(*b, ctx, store, now) {
                    Ok(vb) => match spec_truthy(vb) {
                        Some(bb) => Ok(Value::Bool(bb)),
                        None => Err(TargetingError::InvalidExpression),
                    },
                    Err(err) => Err(err),
                },
                None => Err(TargetingError::InvalidExpression),
            },
            Err(err) => Err(err),
        },
        Expr::Or(a, b) => match spec_eval(*a, ctx, store, now) {
            Ok(va) => match spec_truthy(va) {
                Some(true) => Ok(Value::Bool(true)),
                Some(false) => match spec_eval(*b, ctx, store, now) {
                    Ok(vb) => match spec_truthy(vb) {
                        Some(bb) => Ok(Value::Bool(bb)),
                        None => Err(TargetingError::InvalidExpression),
                    },
                    Err(err) => Err(err),
                },
                None => Err(TargetingError::InvalidExpression),
            },
            Err(err) => Err(err),
        },
        Expr::Eq(a, b) => match (spec_eval(*a, ctx, store, now), spec_eval(*b, ctx, store, now)) {
            (Ok(va), Ok(vb)) => if va is Undefined || vb is Undefined {
                Ok(Value::Bool(false))
            } else {
                Ok(Value::Bool(spec_value_eq(va, vb)))
            },
            (Err(err), _) => Err(err),
            (_, Err(err)) => Err(err),
        },
        Expr::Ne(a, b) => match (spec_eval(*a, ctx, store, now), spec_eval(*b, ctx, store, now)) {
            (Ok(va), Ok(vb)) => if va is Undefined || vb is Undefined {
                Ok(Value::Bool(false))
            } else {
                Ok(Value::Bool(!spec_value_eq(va, vb)))
            },
            (Err(err), _) => Err(err),
            (_, Err(err)) => Err(err),
        },
        Expr::Lt(a, b) => spec_eval_ord(
            spec_eval(*a, ctx, store, now),
            spec_eval(*b, ctx, store, now),
            true,
            false,
        ),
        Expr::Le(a, b) => spec_eval_ord(
            spec_eval(*a, ctx, store, now),
            spec_eval(*b, ctx, store, now),
            true,
            true,
        ),
        Expr::Gt(a, b) => spec_eval_ord(
            spec_eval(*a, ctx, store, now),
            spec_eval(*b, ctx, store, now),
            false,
            false,
        ),
        Expr::Ge(a, b) => spec_eval_ord(
            spec_eval(*a, ctx, store, now),
            spec_eval(*b, ctx, store, now),
            false,
            true,
        ),
        Expr::In(a, list) => match spec_eval(*a, ctx, store, now) {
            Ok(va) => if va is Undefined {
                Ok(Value::Bool(false))
            } else {
                Ok(Value::Bool(spec_in_list(va, list@)))
            },
            Err(err) => Err(err),
        },
        Expr::EventQuery(q) => Ok(
            Value::Int(
                spec_sat_i64(
                    spec_store_query(
                        store,
                        q.event_id@,
                        q.interval,
                        q.num_buckets as int,
                        q.starting_bucket as int,
                        q.query_type,
                        now,
                    ),
                ) as i64,
            ),
        ),
    }
}

/// An order comparison of two evaluated operands: `Undefined` on either
/// side is `false`; two integers compare numerically, two strings as
/// dotted version numbers (`less`/`or_equal` select which of the four
/// operators); anything else is incoercible.
pub open spec fn spec_eval_ord(
    ra: Result<Value, TargetingError>,
    rb: Result<Value, TargetingError>,
    less: bool,
    or_equal: bool,
) -> Result<Value, TargetingError> {
    match (ra, rb) {
        (Ok(va), Ok(vb)) => if va is Undefined || vb is Undefined {
            Ok(Value::Bool(false))
        } else {
            match (va, vb) {
                (Value::Int(x), Value::Int(y)) => if less {
                    if or_equal {
                        Ok(Value::Bool(x <= y))
                    } else {
                        Ok(Value::Bool(x < y))
                    }
                } else {
                    if or_equal {
                        Ok(Value::Bool(x >= y))
                    } else {
                        Ok(Value::Bool(x > y))
                    }
                },
                (Value::Str(x), Value::Str(y)) => {
                    let xa = encode_utf8(x@);
                    let ya = encode_utf8(y@);
                    if less {
                        if or_equal {
                            Ok(Value::Bool(!spec_version_lt(ya, xa)))
                        } else {
                            Ok(Value::Bool(spec_version_lt(xa, ya)))
                        }
                    } else {
                        if or_equal {
                            Ok(Value::Bool(!spec_version_lt(xa, ya)))
                        } else {
                            Ok(Value::Bool(spec_version_lt(ya, xa)))
                        }
                    }
                },
                _ => Err(TargetingError::InvalidExpression),
            }
        },
        (Err(err), _) => Err(err),
        (_, Err(err)) => Err(err),
    }
}

/// The length of the first dot-separated component of `s`, from byte
/// `from` on.
fn component_len_from(s: &[u8], from: usize) -> (r: usize)
    requires
        from <= s@.len(),
    ensures
        r == spec_component_len(s@.skip(from as int)),
        from + r <= s@.len(),
{
    let mut j: usize = from;
    while j < s.len() && s[j] != 46
        invariant
            from <= j <= s@.len(),
            spec_component_len(s@.skip(from as int)) == (j - from) + spec_component_len(
                s@.skip(j as int),
            ),
        decreases s@.len() - j,
    {
        proof {
            assert(s@.skip(j as int)[0] == s@[j as int]);
            assert(s@.skip(j as int).drop_first() =~= s@.skip(j + 1));
        }
        j = j + 1;
    }
    proof {
        if j == s.len() {
            assert(s@.skip(j as int) =~= Seq::<u8>::empty());
        } else {
            assert(s@.skip(j as int)[0] == s@[j as int]);
        }
        assert(spec_component_len(s@.skip(j as int)) == 0);
    }
    j - from
}

/// The saturating decimal value of the leading digits of `s`, from byte
/// `from` on.
fn leading_num_from(s: &[u8], from: usize) -> (r: u64)
    requires
        from <= s@.len(),
    ensures
        r == spec_leading_num(s@.skip(from as int), 0),
{
    let mut acc: u64 = 0;
    let mut j: usize = from;
    while j < s.len() && 48 <= s[j] && s[j] <= 57
        invariant
            from <= j <= s@.len(),
            spec_leading_num(s@.skip(from as int), 0) == spec_leading_num(
                s@.skip(j as int),
                acc,
            ),
        decreases s@.len() - j,
    {
        proof {
            assert(s@.skip(j as int)[0] == s@[j as int]);
            assert(s@.skip(j as int).drop_first() =~= s@.skip(j + 1));
        }
        let d: u64 = (s[j] - 48) as u64;
        let next128: u128 = acc as u128 * 10 + d as u128;
        if next128 > u64::MAX as u128 {
            acc = u64::MAX;
        } else {
            acc = next128 as u64;
        }
        j = j + 1;
    }
    proof {
        if j == s.len() {
            assert(s@.skip(j as int) =~= Seq::<u8>::empty());
        } else {
            assert(s@.skip(j as int)[0] == s@[j as int]);
        }
        assert(spec_leading_num(s@.skip(j as int), acc) == acc);
    }
    acc
}

/// Version order from byte `ia` of `a` and byte `ib` of `b` on.
fn version_lt_from(a: &[u8], b: &[u8], ia: usize, ib: usize) -> (r: bool)
    requires
        ia <= a@.len(),
        ib <= b@.len(),
    ensures
        r == spec_version_lt(a@.skip(ia as int), b@.skip(ib as int)),
    decreases a@.len() - ia + b@.len() - ib,
{
    if ia == a.len() && ib == b.len() {
        proof {
            assert(a@.skip(ia as int) =~= Seq::<u8>::empty());
            assert(b@.skip(ib as int) =~= Seq::<u8>::empty());
        }
        return false;
    }
    let va = leading_num_from(a, ia);
    let vb = leading_num_from(b, ib);
    if va < vb {
        true
    } else if vb < va {
        false
    } else {
        let ca = component_len_from(a, ia);
        let cb = component_len_from(b, ib);
        let na: usize = if ca < a.len() - ia {
            ia + ca + 1
        } else {
            a.len()
        };
        let nb: usize = if cb < b.len() - ib {
            ib + cb + 1
        } else {
            b.len()
        };
        proof {
            assert(a@.skip(ia as int).skip(ca as int) =~= a@.skip(ia + ca));
            assert(spec_version_rest(a@.skip(ia as int)) =~= a@.skip(na as int));
            assert(b@.skip(ib as int).skip(cb as int) =~= b@.skip(ib + cb));
            assert(spec_version_rest(b@.skip(ib as int)) =~= b@.skip(nb as int));
        }
        version_lt_from(a, b, na, nb)
    }
}

/// Version order on two strings: `a` strictly precedes `b`.
fn version_lt(a: &str, b: &str) -> (r: bool)
    ensures
        r == spec_version_lt(a.spec_bytes(), b.spec_bytes()),
{
    let ab = a.as_bytes();
    let bb = b.as_bytes();
    proof {
        assert(ab@.skip(0) =~= ab@);
        assert(bb@.skip(0) =~= bb@);
    }
    version_lt_from(ab, bb, 0, 0)
}

/// An exact copy of a scalar.
fn clone_value(v: &Value) -> (r: Value)
    ensures
        r == *v,
{
    match v {
        Value::Undefined => Value::Undefined,
        Value::Null => Value::Null,
        Value::Bool(b) => Value::Bool(*b),
        Value::Int(i) => Value::Int(*i),
        Value::Str(s) => Value::Str(s.clone()),
    }
}

/// Structural equality of two scalars.
fn value_eq(a: &Value, b: &Value) -> (r: bool)
    ensures
        r == spec_value_eq(*a, *b),
{
    match (a, b) {
        (Value::Null, Value::Null) => true,
        (Value::Bool(x), Value::Bool(y)) => *x == *y,
        (Value::Int(x), Value::Int(y)) => *x == *y,
        (Value::Str(x), Value::Str(y)) => *x == *y,
        _ => false,
    }
}

/// The first field of `fields` named `name`, if any.
pub(crate) fn find_field<'a>(fields: &'a Vec<(String, ContextValue)>, name: &str) -> (r: Option<
    &'a ContextValue,
>)
    ensures
        match r {
            Some(c) => spec_find_field(fields@, name@) == Some(*c),
            None => spec_find_field(fields@, name@) is None,
        },
    decreases fields@.len(),
{
    let key: String = name.to_owned();
    let mut i: usize = 0;
    proof {
        assert(fields@.skip(0) =~= fields@);
    }
    while i < fields.len()
        invariant
            i <= fields@.len(),
            key@ == name@,
            spec_find_field(fields@, name@) == spec_find_field(fields@.skip(i as int), name@),
        decreases fields@.len() - i,
    {
        if fields[i].0 == key {
            proof {
                assert(fields@.skip(i as int)[0] == fields@[i as int]);
            }
            return Some(&fields[i].1);
        }
        proof {
            assert(fields@.skip(i as int)[0] == fields@[i as int]);
            assert(fields@.skip(i as int).drop_first() =~= fields@.skip(i + 1));
        }
        i = i + 1;
    }
    proof {
        assert(fields@.skip(fields@.len() as int) =~= Seq::<(String, ContextValue)>::empty());
    }
    None
}

/// The scalar a dotted path (from its `k`-th segment on) resolves to under
/// a context node.
fn resolve_in(v: &ContextValue, path: &Vec<String>, k: usize) -> (r: Value)
    requires
        k <= path@.len(),
    ensures
        r == spec_resolve(*v, path@.skip(k as int)),
    decreases path@.len() - k,
{
    if k == path.len() {
        proof {
            assert(path@.skip(k as int).len() == 0);
        }
        match v {
            ContextValue::Null => Value::Null,
            ContextValue::Bool(b) => Value::Bool(*b),
            ContextValue::Int(i) => Value::Int(*i),
            ContextValue::Str(s) => Value::Str(s.clone()),
            ContextValue::Obj(_) => Value::Undefined,
        }
    } else {
        proof {
            assert(path@.skip(k as int)[0] == path@[k as int]);
            assert(path@.skip(k as int).drop_first() =~= path@.skip(k + 1));
        }
        match v {
            ContextValue::Obj(fields) => match find_field(fields, path[k].as_str()) {
                Some(child) => resolve_in(child, path, k + 1),
                None => Value::Undefined,
            },
            _ => Value::Undefined,
        }
    }
}

/// Whether the dotted path (from its `k`-th segment on) exists under a
/// context node.
fn present_in(v: &ContextValue, path: &Vec<String>, k: usize) -> (r: bool)
    requires
        k <= path@.len(),
    ensures
        r == spec_present(*v, path@.skip(k as int)),
    decreases path@.len() - k,
{
    if k == path.len() {
        proof {
            assert(path@.skip(k as int).len() == 0);
        }
        true
    } else {
        proof {
            assert(path@.skip(k as int)[0] == path@[k as int]);
            assert(path@.skip(k as int).drop_first() =~= path@.skip(k + 1));
        }
        match v {
            ContextValue::Obj(fields) => match find_field(fields, path[k].as_str()) {
                Some(child) => present_in(child, path, k + 1),
                None => false,
            },
            _ => false,
        }
    }
}

/// Membership of a scalar in the tail of a literal list from index `k` on.
fn in_list_from(v: &Value, list: &Vec<Value>, k: usize) -> (r: bool)
    requires
        k <= list@.len(),
    ensures
        r == spec_in_list(*v, list@.skip(k as int)),
    decreases list@.len() - k,
{
    if k == list.len() {
        proof {
            assert(list@.skip(k as int).len() == 0);
        }
        false
    } else {
        proof {
            assert(list@.skip(k as int)[0] == list@[k as int]);
            assert(list@.skip(k as int).drop_first() =~= list@.skip(k + 1));
        }
        if value_eq(v, &list[k]) {
            true
        } else {
            in_list_from(v, list, k + 1)
        }
    }
}

/// The truth value of an evaluated operand, or `None` where it cannot be
/// read as a boolean.
fn truthy(v: &Value) -> (r: Option<bool>)
    ensures
        r == spec_truthy(*v),
{
    match v {
        Value::Bool(b) => Some(*b),
        Value::Undefined => Some(false),
        _ => None,
    }
}

/// Evaluate a targeting expression against a context and an event-store
/// snapshot at instant `now`. Total and deterministic: the result is
/// exactly `spec_eval` of the inputs — a value or a `TargetingError`,
/// never a failure — and evaluation does not change the store.
pub fn evaluate(expr: &Expr, ctx: &AppContext, store: &EventStore, now: u64) -> (r: Result<
    Value,
    TargetingError,
>)
    requires
        store.wf(),
    ensures
        r == spec_eval(*expr, *ctx, store@, now),
    decreases *expr,
{
    match expr {
        Expr::Lit(v) => Ok(clone_value(v)),
        Expr::Field(path) => {
            proof {
                assert(path@.skip(0) =~= path@);
            }
            if path.len() == 0 {
                Ok(Value::Undefined)
            } else {
                proof {
                    assert(path@[0] == path@.skip(0)[0]);
                }
                match find_field(&ctx.fields, path[0].as_str()) {
                    Some(child) => {
                        proof {
                            assert(path@.skip(0).drop_first() =~= path@.skip(1));
                        }
                        Ok(resolve_in(child, path, 1))
                    },
                    None => Ok(Value::Undefined),
                }
            }
        },
        Expr::Present(path) => {
            proof {
                assert(path@.skip(0) =~= path@);
            }
            if path.len() == 0 {
                Ok(Value::Bool(true))
            } else {
                proof {
                    assert(path@[0] == path@.skip(0)[0]);
                }
                match find_field(&ctx.fields, path[0].as_str()) {
                    Some(child) => {
                        proof {
                            assert(path@.skip(0).drop_first() =~= path@.skip(1));
                        }
                        Ok(Value::Bool(present_in(child, path, 1)))
                    },
                    None => Ok(Value::Bool(false)),
                }
            }
        },
        Expr::Not(a) => match evaluate(a, ctx, store, now) {
            Ok(v) => match truthy(&v) {
                Some(b) => Ok(Value::Bool(!b)),
                None => Err(TargetingError::InvalidExpression),
            },
            Err(err) => Err(err),
        },
        Expr::And(a, b) => match evaluate(a, ctx, store, now) {
            Ok(va) => match truthy(&va) {
                Some(false) => Ok(Value::Bool(false)),
                Some(true) => match evaluate(b, ctx, store, now) {
                    Ok(vb) => match truthy(&vb) {
                        Some(bb) => Ok(Value::Bool(bb)),
                        None => Err(TargetingError::InvalidExpression),
                    },
                    Err(err) => Err(err),
                },
                None => Err(TargetingError::InvalidExpression),
            },
            Err(err) => Err(err),
        },
        Expr::Or(a, b) => match evaluate(a, ctx, store, now) {
            Ok(va) => match truthy(&va) {
                Some(true) => Ok(Value::Bool(true)),
                Some(false) => match evaluate(b, ctx, store, now) {
                    Ok(vb) => match truthy(&vb) {
                        Some(bb) => Ok(Value::Bool(bb)),
                        None => Err(TargetingError::InvalidExpression),
                    },
                    Err(err) => Err(err),
                },
                None => Err(TargetingError::InvalidExpression),
            },
            Err(err) => Err(err),
        },
        Expr::Eq(a, b) => match (evaluate(a, ctx, store, now), evaluate(b, ctx, store, now)) {
            (Ok(va), Ok(vb)) => if matches!(va, Value::Undefined) || matches!(
                vb,
                Value::Undefined,
            ) {
                Ok(Value::Bool(false))
            } else {
                Ok(Value::Bool(value_eq(&va, &vb)))
            },
            (Err(err), _) => Err(err),
            (_, Err(err)) => Err(err),
        },
        Expr::Ne(a, b) => match (evaluate(a, ctx, store, now), evaluate(b, ctx, store, now)) {
            (Ok(va), Ok(vb)) => if matches!(va, Value::Undefined) || matches!(
                vb,
                Value::Undefined,
            ) {
                Ok(Value::Bool(false))
            } else {
                Ok(Value::Bool(!value_eq(&va, &vb)))
            },
            (Err(err), _) => Err(err),
            (_, Err(err)) => Err(err),
        },
        Expr::Lt(a, b) => eval_ord(
            evaluate(a, ctx, store, now),
            evaluate(b, ctx, store, now),
            true,
            false,
        ),
        Expr::Le(a, b) => eval_ord(
            evaluate(a, ctx, store, now),
            evaluate(b, ctx, store, now),
            true,
            true,
        ),
        Expr::Gt(a, b) => eval_ord(
            evaluate(a, ctx, store, now),
            evaluate(b, ctx, store, now),
            false,
            false,
        ),
        Expr::Ge(a, b) => eval_ord(
            evaluate(a, ctx, store, now),
            evaluate(b, ctx, store, now),
            false,
            true,
        ),
        Expr::In(a, list) => match evaluate(a, ctx, store, now) {
            Ok(va) => if matches!(va, Value::Undefined) {
                Ok(Value::Bool(false))
            } else {
                proof {
                    assert(list@.skip(0) =~= list@);
                }
                Ok(Value::Bool(in_list_from(&va, list, 0)))
            },
            Err(err) => Err(err),
        },
        Expr::EventQuery(q) => {
            let raw = store.query(
                q.event_id.as_str(),
                q.interval,
                q.num_buckets,
                q.starting_bucket,
                q.query_type,
                now,
            );
            let clamped: i64 = if raw > i64::MAX as u64 {
                i64::MAX
            } else {
                raw as i64
            };
            Ok(Value::Int(clamped))
        },
    }
}

/// The shared arm of the four order comparisons.
fn eval_ord(
    ra: Result<Value, TargetingError>,
    rb: Result<Value, TargetingError>,
    less: bool,
    or_equal: bool,
) -> (r: Result<Value, TargetingError>)
    ensures
        r == spec_eval_ord(ra, rb, less, or_equal),
{
    match (ra, rb) {
        (Ok(va), Ok(vb)) => if matches!(va, Value::Undefined) || matches!(vb, Value::Undefined) {
            Ok(Value::Bool(false))
        } else {
            match (va, vb) {
                (Value::Int(x), Value::Int(y)) => if less {
                    if or_equal {
                        Ok(Value::Bool(x <= y))
                    } else {
                        Ok(Value::Bool(x < y))
                    }
                } else {
                    if or_equal {
                        Ok(Value::Bool(x >= y))
                    } else {
                        Ok(Value::Bool(x > y))
                    }
                },
                (Value::Str(x), Value::Str(y)) => if less {
                    if or_equal {
                        Ok(Value::Bool(!version_lt(y.as_str(), x.as_str())))
                    } else {
                        Ok(Value::Bool(version_lt(x.as_str(), y.as_str())))
                    }
                } else {
                    if or_equal {
                        Ok(Value::Bool(!version_lt(x.as_str(), y.as_str())))
                    } else {
                        Ok(Value::Bool(version_lt(y.as_str(), x.as_str())))
                    }
                },
                _ => Err(TargetingError::InvalidExpression),
            }
        },
        (Err(err), _) => Err(err),
        (_, Err(err)) => Err(err),
    }
}


/// Comparing an absent top-level context field with `==` against any
/// literal evaluates to `false`, never to `true` and never to an error.
pub proof fn lemma_missing_field_eq_false(
    e: Expr,
    ctx: AppContext,
    store: Seq<(Seq<char>, EventDataV)>,
    now: u64,
)
    requires
        e matches Expr::Eq(l, r) && (*l) matches Expr::Field(p) && (*r) matches Expr::Lit(_)
            && p@.len() > 0 && spec_find_field(ctx.fields@, p@[0]@) is None,
    ensures
        spec_eval(e, ctx, store, now) == Ok::<Value, TargetingError>(Value::Bool(false)),
{
    match e {
        Expr::Eq(l, r) => {
            match *l {
                Expr::Field(p) => {
                    assert(spec_resolve(spec_ctx_root(ctx), p@) == Value::Undefined);
                    assert(spec_eval(*l, ctx, store, now) == Ok::<Value, TargetingError>(
                        Value::Undefined,
                    ));
                },
                _ => {},
            }
            match *r {
                Expr::Lit(v) => {
                    assert(spec_eval(*r, ctx, store, now) == Ok::<Value, TargetingError>(v));
                },
                _ => {},
            }
        },
        _ => {},
    }
}

/// An explicit presence check of an absent top-level context field
/// evaluates to `false`, never to `true`.
pub proof fn lemma_missing_field_presence_false(
    path: Vec<String>,
    ctx: AppContext,
    store: Seq<(Seq<char>, EventDataV)>,
    now: u64,
)
    requires
        path@.len() > 0,
        spec_find_field(ctx.fields@, path@[0]@) is None,
    ensures
        spec_eval(Expr::Present(path), ctx, store, now) == Ok::<Value, TargetingError>(
            Value::Bool(false),
        ),
{
    assert(!spec_present(spec_ctx_root(ctx), path@));
}

} // verus!
