//! The value store: type-erased argument values and their checked narrowing.

use vstd::prelude::*;

verus! {

/// The concrete kind held by a [`Value`].
#[derive(PartialEq, Eq, Structural, Clone, Copy, Debug)]
pub enum ValueKind {
    Str,
    U64,
    I64,
    F64,
    Vec,
}

/// One scalar of a declared element type.
///
/// A float is held as the decimal text it was written in.
#[derive(Clone, Debug)]
pub enum Scalar {
    Str(String),
    U64(u64),
    I64(i64),
    F64(String),
}

/// A type-erased argument value: one scalar, or a sequence of scalars.
///
/// A float is held as the decimal text it was written in; parsing stores
/// only text in decimal float notation (`numeric::is_float_literal`).
#[derive(Clone, Debug)]
pub enum Value {
    Str(String),
    U64(u64),
    I64(i64),
    F64(String),
    Vec(Vec<Scalar>),
}

/// Mathematical model of a [`Value`] or a [`Scalar`].
pub enum Val {
    Str(Seq<char>),
    U64(u64),
    I64(i64),
    F64(Seq<char>),
    List(Seq<Val>),
}

impl View for Scalar {
    type V = Val;

    open spec fn view(&self) -> Val {
        match self {
            Scalar::Str(s) => Val::Str(s@),
            Scalar::U64(n) => Val::U64(*n),
            Scalar::I64(n) => Val::I64(*n),
            Scalar::F64(s) => Val::F64(s@),
        }
    }
}

pub open spec fn scalars_model(items: Seq<Scalar>) -> Seq<Val> {
    items.map_values(|x: Scalar| x@)
}

pub open spec fn values_model(items: Seq<Value>) -> Seq<Val> {
    items.map_values(|x: Value| x@)
}

pub open spec fn value_model(v: Value) -> Val {
    match v {
        Value::Str(s) => Val::Str(s@),
        Value::U64(n) => Val::U64(n),
        Value::I64(n) => Val::I64(n),
        Value::F64(s) => Val::F64(s@),
        Value::Vec(items) => Val::List(scalars_model(items@)),
    }
}

impl View for Value {
    type V = Val;

    open spec fn view(&self) -> Val {
        value_model(*self)
    }
}

pub open spec fn kind_of(v: Val) -> ValueKind {
    match v {
        Val::Str(_) => ValueKind::Str,
        Val::U64(_) => ValueKind::U64,
        Val::I64(_) => ValueKind::I64,
        Val::F64(_) => ValueKind::F64,
        Val::List(_) => ValueKind::Vec,
    }
}

/// Errors of schema resolution and of value narrowing.
#[derive(Clone, Debug, PartialEq, Eq)]
pub enum CmdError {
    /// The token line ended where a token was still needed.
    Arity,
    /// The first token does not name this command; holds that token.
    NameMismatch(String),
    /// A required argument was never given; holds its name.
    MissingRequired(String),
    /// A token matched no open slot; holds the token.
    UnexpectedArgument(String),
    /// A token is not a valid literal of its declared number type.
    InvalidNumber(String),
    /// A value was narrowed to a kind other than the one it holds.
    TypeMismatch { actual: ValueKind, requested: ValueKind },
}

/// Mathematical model of a [`CmdError`].
pub enum Fault {
    Arity,
    NameMismatch(Seq<char>),
    MissingRequired(Seq<char>),
    UnexpectedArgument(Seq<char>),
    InvalidNumber(Seq<char>),
    TypeMismatch(ValueKind, ValueKind),
}

impl View for CmdError {
    type V = Fault;

    open spec fn view(&self) -> Fault {
        match self {
            CmdError::Arity => Fault::Arity,
            CmdError::NameMismatch(s) => Fault::NameMismatch(s@),
            CmdError::MissingRequired(s) => Fault::MissingRequired(s@),
            CmdError::UnexpectedArgument(s) => Fault::UnexpectedArgument(s@),
            CmdError::InvalidNumber(s) => Fault::InvalidNumber(s@),
            CmdError::TypeMismatch { actual, requested } => Fault::TypeMismatch(*actual, *requested),
        }
    }
}

pub open spec fn mismatch(v: Val, requested: ValueKind) -> Fault {
    Fault::TypeMismatch(kind_of(v), requested)
}

/// What narrowing `v` to kind `k` gives: `v` itself, or a type mismatch.
pub open spec fn narrow(v: Val, k: ValueKind) -> Result<Val, Fault> {
    if kind_of(v) == k {
        Ok(v)
    } else {
        Err(mismatch(v, k))
    }
}

/// Index of the first element at or after `i` whose kind is not `k`, or `s.len()`.
pub open spec fn first_not_kind(s: Seq<Val>, k: ValueKind, i: int) -> int
    decreases s.len() - i,
{
    if i < 0 || i >= s.len() {
        s.len() as int
    } else if kind_of(s[i]) != k {
        i
    } else {
        first_not_kind(s, k, i + 1)
    }
}

/// What narrowing `v` to a sequence of kind `k` gives: the elements, or the fault.
pub open spec fn narrow_list(v: Val, k: ValueKind) -> Result<Seq<Val>, Fault> {
    match v {
        Val::List(s) => {
            let j = first_not_kind(s, k, 0);
            if j == s.len() {
                Ok(s)
            } else {
                Err(mismatch(s[j], k))
            }
        },
        _ => Err(mismatch(v, ValueKind::Vec)),
    }
}

pub proof fn lemma_first_not_kind(s: Seq<Val>, k: ValueKind, i: int)
    requires
        0 <= i <= s.len(),
        forall|j: int| 0 <= j < i ==> kind_of(s[j]) == k,
    ensures
        first_not_kind(s, k, 0) == first_not_kind(s, k, i),
    decreases i,
{
    if i > 0 {
        lemma_first_not_kind(s, k, i - 1);
    }
}

/// Narrowing a value to its own kind gives it back unchanged; narrowing it to
/// any other kind fails with a type mismatch that names both kinds. A value
/// that is no sequence fails likewise when narrowed to a sequence of any kind.
pub proof fn lemma_narrow_own_kind(v: Val, k: ValueKind)
    ensures
        narrow(v, kind_of(v)) == Ok::<Val, Fault>(v),
        k != kind_of(v) ==> narrow(v, k) == Err::<Val, Fault>(Fault::TypeMismatch(kind_of(v), k)),
        kind_of(v) != ValueKind::Vec ==> narrow_list(v, k) == Err::<Seq<Val>, Fault>(
            Fault::TypeMismatch(kind_of(v), ValueKind::Vec),
        ),
{
}

/// A sequence whose elements are all of kind `k` narrows to a sequence of
/// kind `k` with those very elements; one whose element `j` is the first of
/// another kind fails with the mismatch of that element.
pub proof fn lemma_narrow_list(s: Seq<Val>, k: ValueKind, j: int)
    ensures
        (forall|i: int| 0 <= i < s.len() ==> kind_of(#[trigger] s[i]) == k) ==> narrow_list(
            Val::List(s),
            k,
        ) == Ok::<Seq<Val>, Fault>(s),
        0 <= j < s.len() && kind_of(s[j]) != k && (forall|i: int|
            0 <= i < j ==> kind_of(#[trigger] s[i]) == k) ==> narrow_list(Val::List(s), k) == Err::<
            Seq<Val>,
            Fault,
        >(Fault::TypeMismatch(kind_of(s[j]), k)),
{
    if forall|i: int| 0 <= i < s.len() ==> kind_of(#[trigger] s[i]) == k {
        lemma_first_not_kind(s, k, s.len() as int);
    }
    if 0 <= j < s.len() && kind_of(s[j]) != k && (forall|i: int|
        0 <= i < j ==> kind_of(#[trigger] s[i]) == k) {
        lemma_first_not_kind(s, k, j);
    }
}

impl Value {
    /// The kind of value held.
    pub fn kind(&self) -> (r: ValueKind)
        ensures
            r == kind_of(self@),
    {
        match self {
            Value::Str(_) => ValueKind::Str,
            Value::U64(_) => ValueKind::U64,
            Value::I64(_) => ValueKind::I64,
            Value::F64(_) => ValueKind::F64,
            Value::Vec(_) => ValueKind::Vec,
        }
    }

    /// Text held by a text value. Any other kind fails with `TypeMismatch`.
    pub fn as_string(self) -> (r: Result<String, CmdError>)
        ensures
            match narrow(self@, ValueKind::Str) {
                Ok(x) => r matches Ok(y) && x == Val::Str(y@),
                Err(f) => r matches Err(e) && e@ == f,
            },
    {
        match self {
            Value::Str(x) => Ok(x),
            other => {
                let actual = other.kind();
                Err(CmdError::TypeMismatch { actual, requested: ValueKind::Str })
            },
        }
    }

    /// The unsigned integer held. Any other kind fails with `TypeMismatch`.
    pub fn as_u64(self) -> (r: Result<u64, CmdError>)
        ensures
            match narrow(self@, ValueKind::U64) {
                Ok(x) => r matches Ok(y) && x == Val::U64(y),
                Err(f) => r matches Err(e) && e@ == f,
            },
    {
        match self {
            Value::U64(x) => Ok(x),
            other => {
                let actual = other.kind();
                Err(CmdError::TypeMismatch { actual, requested: ValueKind::U64 })
            },
        }
    }

    /// The signed integer held. Any other kind fails with `TypeMismatch`.
    pub fn as_i64(self) -> (r: Result<i64, CmdError>)
        ensures
            match narrow(self@, ValueKind::I64) {
                Ok(x) => r matches Ok(y) && x == Val::I64(y),
                Err(f) => r matches Err(e) && e@ == f,
            },
    {
        match self {
            Value::I64(x) => Ok(x),
            other => {
                let actual = other.kind();
                Err(CmdError::TypeMismatch { actual, requested: ValueKind::I64 })
            },
        }
    }

    /// The decimal text of the float held. Any other kind fails with `TypeMismatch`.
    pub fn as_f64_text(self) -> (r: Result<String, CmdError>)
        ensures
            match narrow(self@, ValueKind::F64) {
                Ok(x) => r matches Ok(y) && x == Val::F64(y@),
                Err(f) => r matches Err(e) && e@ == f,
            },
    {
        match self {
            Value::F64(x) => Ok(x),
            other => {
                let actual = other.kind();
                Err(CmdError::TypeMismatch { actual, requested: ValueKind::F64 })
            },
        }
    }

    /// The elements of a sequence value, each as a stand-alone value. Any
    /// other kind fails with `TypeMismatch`.
    pub fn as_vec(self) -> (r: Result<Vec<Value>, CmdError>)
        ensures
            match narrow(self@, ValueKind::Vec) {
                Ok(x) => r matches Ok(v) && x == Val::List(values_model(v@)),
                Err(f) => r matches Err(e) && e@ == f,
            },
    {
        match self {
            Value::Vec(items) => {
                let ghost before = scalars_model(items@);
                let mut rest = items;
                let mut out: Vec<Value> = Vec::new();
                while rest.len() > 0
                    invariant
                        before == values_model(out@) + scalars_model(rest@),
                    decreases rest.len(),
                {
                    let ghost old_rest = rest@;
                    let ghost old_out = out@;
                    let x = rest.remove(0);
                    assert(scalars_model(old_rest) =~= seq![x@] + scalars_model(rest@));
                    out.push(x.into_value());
                    assert(values_model(out@) =~= values_model(old_out).push(x@));
                    assert(before =~= values_model(out@) + scalars_model(rest@));
                }
                assert(values_model(out@) =~= before);
                Ok(out)
            },
            other => {
                let actual = other.kind();
                Err(CmdError::TypeMismatch { actual, requested: ValueKind::Vec })
            },
        }
    }

    /// The elements of a sequence whose elements are all of kind `Str`. A
    /// value that is no sequence, or the first element of another kind,
    /// fails with `TypeMismatch`.
    pub fn as_stringvec(self) -> (r: Result<Vec<String>, CmdError>)
        ensures
            match narrow_list(self@, ValueKind::Str) {
                Ok(s) => r matches Ok(v) && v@.len() == s.len() && forall|i: int|
                    0 <= i < s.len() ==> #[trigger] s[i] == Val::Str(v@[i]@),
                Err(f) => r matches Err(e) && e@ == f,
            },
    {
        let items = match self.as_vec() {
            Ok(items) => items,
            Err(e) => return Err(e),
        };
        let ghost s = values_model(items@);
        let mut out: Vec<String> = Vec::new();
        let mut rest = items;
        while rest.len() > 0
            invariant
                self@ == Val::List(s),
                s == Seq::new(out@.len() as nat, |i: int| Val::Str(out@[i]@)) + values_model(rest@),
            decreases rest.len(),
        {
            let ghost old_rest = rest@;
            let x = rest.remove(0);
            let ghost xm = x@;
            assert(s[out@.len() as int] == xm) by {
                assert(values_model(old_rest)[0] == xm);
            }
            match x.as_string() {
                Ok(y) => out.push(y),
                Err(e) => {
                    proof {
                        let k = out@.len() as int;
                        assert forall|j: int| 0 <= j < k implies kind_of(s[j]) == ValueKind::Str by {
                            assert(s[j] == Val::Str(out@[j]@));
                        }
                        lemma_first_not_kind(s, ValueKind::Str, k);
                    }
                    return Err(e);
                },
            }
        }
        proof {
            let k = out@.len() as int;
            assert forall|j: int| 0 <= j < k implies kind_of(s[j]) == ValueKind::Str by {
                assert(s[j] == Val::Str(out@[j]@));
            }
            lemma_first_not_kind(s, ValueKind::Str, k);
        }
        Ok(out)
    }

    /// The elements of a sequence whose elements are all of kind `U64`. A
    /// value that is no sequence, or the first element of another kind,
    /// fails with `TypeMismatch`.
    pub fn as_u64vec(self) -> (r: Result<Vec<u64>, CmdError>)
        ensures
            match narrow_list(self@, ValueKind::U64) {
                Ok(s) => r matches Ok(v) && v@.len() == s.len() && forall|i: int|
                    0 <= i < s.len() ==> #[trigger] s[i] == Val::U64(v@[i]),
                Err(f) => r matches Err(e) && e@ == f,
            },
    {
        let items = match self.as_vec() {
            Ok(items) => items,
            Err(e) => return Err(e),
        };
        let ghost s = values_model(items@);
        let mut out: Vec<u64> = Vec::new();
        let mut rest = items;
        while rest.len() > 0
            invariant
                self@ == Val::List(s),
                s == Seq::new(out@.len() as nat, |i: int| Val::U64(out@[i])) + values_model(rest@),
            decreases rest.len(),
        {
            let ghost old_rest = rest@;
            let x = rest.remove(0);
            let ghost xm = x@;
            assert(s[out@.len() as int] == xm) by {
                assert(values_model(old_rest)[0] == xm);
            }
            match x.as_u64() {
                Ok(y) => out.push(y),
                Err(e) => {
                    proof {
                        let k = out@.len() as int;
                        assert forall|j: int| 0 <= j < k implies kind_of(s[j]) == ValueKind::U64 by {
                            assert(s[j] == Val::U64(out@[j]));
                        }
                        lemma_first_not_kind(s, ValueKind::U64, k);
                    }
                    return Err(e);
                },
            }
        }
        proof {
            let k = out@.len() as int;
            assert forall|j: int| 0 <= j < k implies kind_of(s[j]) == ValueKind::U64 by {
                assert(s[j] == Val::U64(out@[j]));
            }
            lemma_first_not_kind(s, ValueKind::U64, k);
        }
        Ok(out)
    }

    /// The elements of a sequence whose elements are all of kind `I64`. A
    /// value that is no sequence, or the first element of another kind,
    /// fails with `TypeMismatch`.
    pub fn as_i64vec(self) -> (r: Result<Vec<i64>, CmdError>)
        ensures
            match narrow_list(self@, ValueKind::I64) {
                Ok(s) => r matches Ok(v) && v@.len() == s.len() && forall|i: int|
                    0 <= i < s.len() ==> #[trigger] s[i] == Val::I64(v@[i]),
                Err(f) => r matches Err(e) && e@ == f,
            },
    {
        let items = match self.as_vec() {
            Ok(items) => items,
            Err(e) => return Err(e),
        };
        let ghost s = values_model(items@);
        let mut out: Vec<i64> = Vec::new();
        let mut rest = items;
        while rest.len() > 0
            invariant
                self@ == Val::List(s),
                s == Seq::new(out@.len() as nat, |i: int| Val::I64(out@[i])) + values_model(rest@),
            decreases rest.len(),
        {
            let ghost old_rest = rest@;
            let x = rest.remove(0);
            let ghost xm = x@;
            assert(s[out@.len() as int] == xm) by {
                assert(values_model(old_rest)[0] == xm);
            }
            match x.as_i64() {
                Ok(y) => out.push(y),
                Err(e) => {
                    proof {
                        let k = out@.len() as int;
                        assert forall|j: int| 0 <= j < k implies kind_of(s[j]) == ValueKind::I64 by {
                            assert(s[j] == Val::I64(out@[j]));
                        }
                        lemma_first_not_kind(s, ValueKind::I64, k);
                    }
                    return Err(e);
                },
            }
        }
        proof {
            let k = out@.len() as int;
            assert forall|j: int| 0 <= j < k implies kind_of(s[j]) == ValueKind::I64 by {
                assert(s[j] == Val::I64(out@[j]));
            }
            lemma_first_not_kind(s, ValueKind::I64, k);
        }
        Ok(out)
    }

    /// The elements of a sequence whose elements are all of kind `F64`. A
    /// value that is no sequence, or the first element of another kind,
    /// fails with `TypeMismatch`.
    pub fn as_f64vec_text(self) -> (r: Result<Vec<String>, CmdError>)
        ensures
            match narrow_list(self@, ValueKind::F64) {
                Ok(s) => r matches Ok(v) && v@.len() == s.len() && forall|i: int|
                    0 <= i < s.len() ==> #[trigger] s[i] == Val::F64(v@[i]@),
                Err(f) => r matches Err(e) && e@ == f,
            },
    {
        let items = match self.as_vec() {
            Ok(items) => items,
            Err(e) => return Err(e),
        };
        let ghost s = values_model(items@);
        let mut out: Vec<String> = Vec::new();
        let mut rest = items;
        while rest.len() > 0
            invariant
                self@ == Val::List(s),
                s == Seq::new(out@.len() as nat, |i: int| Val::F64(out@[i]@)) + values_model(rest@),
            decreases rest.len(),
        {
            let ghost old_rest = rest@;
            let x = rest.remove(0);
            let ghost xm = x@;
            assert(s[out@.len() as int] == xm) by {
                assert(values_model(old_rest)[0] == xm);
            }
            match x.as_f64_text() {
                Ok(y) => out.push(y),
                Err(e) => {
                    proof {
                        let k = out@.len() as int;
                        assert forall|j: int| 0 <= j < k implies kind_of(s[j]) == ValueKind::F64 by {
                            assert(s[j] == Val::F64(out@[j]@));
                        }
                        lemma_first_not_kind(s, ValueKind::F64, k);
                    }
                    return Err(e);
                },
            }
        }
        proof {
            let k = out@.len() as int;
            assert forall|j: int| 0 <= j < k implies kind_of(s[j]) == ValueKind::F64 by {
                assert(s[j] == Val::F64(out@[j]@));
            }
            lemma_first_not_kind(s, ValueKind::F64, k);
        }
        Ok(out)
    }

    /// A copy that holds the same kind and contents.
    pub fn duplicate(&self) -> (r: Value)
        ensures
            r@ == self@,
    {
        match self {
            Value::Str(s) => Value::Str(s.clone()),
            Value::U64(n) => Value::U64(*n),
            Value::I64(n) => Value::I64(*n),
            Value::F64(s) => Value::F64(s.clone()),
            Value::Vec(items) => {
                let mut out: Vec<Scalar> = Vec::new();
                let mut i: usize = 0;
                while i < items.len()
                    invariant
                        i <= items.len(),
                        out@.len() == i,
                        forall|j: int| 0 <= j < i ==> out@[j]@ == items@[j]@,
                    decreases items.len() - i,
                {
                    out.push(items[i].duplicate());
                    i += 1;
                }
                let r = Value::Vec(out);
                assert(scalars_model(out@) =~= scalars_model(items@));
                r
            },
        }
    }
}

impl Scalar {
    /// A copy that holds the same kind and contents.
    pub fn duplicate(&self) -> (r: Scalar)
        ensures
            r@ == self@,
    {
        match self {
            Scalar::Str(s) => Scalar::Str(s.clone()),
            Scalar::U64(n) => Scalar::U64(*n),
            Scalar::I64(n) => Scalar::I64(*n),
            Scalar::F64(s) => Scalar::F64(s.clone()),
        }
    }

    /// The same scalar as a stand-alone value.
    pub fn into_value(self) -> (r: Value)
        ensures
            r@ == self@,
    {
        match self {
            Scalar::Str(s) => Value::Str(s),
            Scalar::U64(n) => Value::U64(n),
            Scalar::I64(n) => Value::I64(n),
            Scalar::F64(s) => Value::F64(s),
        }
    }
}

} // verus!
