//! Typed projections: narrowing a parsed value to the shape a caller expects.
use crate::value::{spec_data_type, RESPDataType, RESPValue, SpecValue};
use vstd::prelude::*;
use vstd::std_specs::convert::{FromSpecImpl, TryFromSpec, TryFromSpecImpl};

verus! {

/// Why a projection failed.
#[derive(Debug, Copy, Clone, PartialEq, Eq, Structural)]
pub enum RESPValueConversionError {
    /// (expected, actual)
    DataTypeMismatch(RESPDataType, RESPDataType),
}

/// The failure of projecting `v` onto the shape `expected`.
pub open spec fn mismatch(expected: RESPDataType, v: SpecValue) -> RESPValueConversionError {
    RESPValueConversionError::DataTypeMismatch(expected, spec_data_type(v))
}

/// A bulk string taken out of a value, the null marker kept as `None`.
#[derive(Debug, PartialEq)]
pub struct BulkString(pub Option<String>);

/// A simple string taken out of a value.
#[derive(Debug, PartialEq)]
pub struct SimpleString(pub String);

/// An error line taken out of a value.
#[derive(Debug, PartialEq)]
pub struct RESPError(pub String);

impl TryFrom<RESPValue> for i64 {
    type Error = RESPValueConversionError;

    fn try_from(v: RESPValue) -> (r: Result<i64, RESPValueConversionError>)
        ensures
            r == (match v@ {
                SpecValue::Integer(i) => Ok(i),
                _ => Err(mismatch(RESPDataType::Integer, v@)),
            }),
    {
        match v {
            RESPValue::Integer(i) => Ok(i),
            v => Err(RESPValueConversionError::DataTypeMismatch(RESPDataType::Integer, v.data_type())),
        }
    }
}

impl TryFromSpecImpl<RESPValue> for i64 {
    open spec fn obeys_try_from_spec() -> bool {
        true
    }

    open spec fn try_from_spec(v: RESPValue) -> Result<i64, RESPValueConversionError> {
        match v {
            RESPValue::Integer(i) => Ok(i),
            _ => Err(mismatch(RESPDataType::Integer, v@)),
        }
    }
}

impl TryFrom<RESPValue> for BulkString {
    type Error = RESPValueConversionError;

    fn try_from(v: RESPValue) -> (r: Result<BulkString, RESPValueConversionError>)
        ensures
            r == (match v {
                RESPValue::BulkString(s) => Ok(BulkString(s)),
                _ => Err(mismatch(RESPDataType::BulkString, v@)),
            }),
    {
        match v {
            RESPValue::BulkString(s) => Ok(BulkString(s)),
            v => Err(
                RESPValueConversionError::DataTypeMismatch(RESPDataType::BulkString, v.data_type()),
            ),
        }
    }
}

impl TryFromSpecImpl<RESPValue> for BulkString {
    open spec fn obeys_try_from_spec() -> bool {
        true
    }

    open spec fn try_from_spec(v: RESPValue) -> Result<BulkString, RESPValueConversionError> {
        match v {
            RESPValue::BulkString(s) => Ok(BulkString(s)),
            _ => Err(mismatch(RESPDataType::BulkString, v@)),
        }
    }
}

impl From<BulkString> for Option<String> {
    fn from(b: BulkString) -> (r: Option<String>)
        ensures
            r == b.0,
    {
        b.0
    }
}

impl FromSpecImpl<BulkString> for Option<String> {
    open spec fn obeys_from_spec() -> bool {
        true
    }

    open spec fn from_spec(b: BulkString) -> Option<String> {
        b.0
    }
}

impl core::ops::Deref for BulkString {
    type Target = Option<String>;

    fn deref(&self) -> (r: &Option<String>)
        ensures
            *r == self.0,
    {
        &self.0
    }
}

impl core::ops::DerefMut for BulkString {
    fn deref_mut(&mut self) -> (r: &mut Option<String>)
        ensures
            *r == old(self).0,
            final(self).0 == *final(r),
    {
        &mut self.0
    }
}

impl TryFrom<RESPValue> for SimpleString {
    type Error = RESPValueConversionError;

    fn try_from(v: RESPValue) -> (r: Result<SimpleString, RESPValueConversionError>)
        ensures
            r == (match v {
                RESPValue::SimpleString(s) => Ok(SimpleString(s)),
                _ => Err(mismatch(RESPDataType::SimpleString, v@)),
            }),
    {
        match v {
            RESPValue::SimpleString(s) => Ok(SimpleString(s)),
            v => Err(
                RESPValueConversionError::DataTypeMismatch(
                    RESPDataType::SimpleString,
                    v.data_type(),
                ),
            ),
        }
    }
}

impl TryFromSpecImpl<RESPValue> for SimpleString {
    open spec fn obeys_try_from_spec() -> bool {
        true
    }

    open spec fn try_from_spec(v: RESPValue) -> Result<SimpleString, RESPValueConversionError> {
        match v {
            RESPValue::SimpleString(s) => Ok(SimpleString(s)),
            _ => Err(mismatch(RESPDataType::SimpleString, v@)),
        }
    }
}

impl From<SimpleString> for String {
    fn from(s: SimpleString) -> (r: String)
        ensures
            r == s.0,
    {
        s.0
    }
}

impl FromSpecImpl<SimpleString> for String {
    open spec fn obeys_from_spec() -> bool {
        true
    }

    open spec fn from_spec(s: SimpleString) -> String {
        s.0
    }
}

impl core::ops::Deref for SimpleString {
    type Target = String;

    fn deref(&self) -> (r: &String)
        ensures
            *r == self.0,
    {
        &self.0
    }
}

impl core::ops::DerefMut for SimpleString {
    fn deref_mut(&mut self) -> (r: &mut String)
        ensures
            *r == old(self).0,
            final(self).0 == *final(r),
    {
        &mut self.0
    }
}

impl TryFrom<RESPValue> for RESPError {
    type Error = RESPValueConversionError;

    fn try_from(v: RESPValue) -> (r: Result<RESPError, RESPValueConversionError>)
        ensures
            r == (match v {
                RESPValue::Error(s) => Ok(RESPError(s)),
                _ => Err(mismatch(RESPDataType::Error, v@)),
            }),
    {
        match v {
            RESPValue::Error(s) => Ok(RESPError(s)),
            v => Err(RESPValueConversionError::DataTypeMismatch(RESPDataType::Error, v.data_type())),
        }
    }
}

impl TryFromSpecImpl<RESPValue> for RESPError {
    open spec fn obeys_try_from_spec() -> bool {
        true
    }

    open spec fn try_from_spec(v: RESPValue) -> Result<RESPError, RESPValueConversionError> {
        match v {
            RESPValue::Error(s) => Ok(RESPError(s)),
            _ => Err(mismatch(RESPDataType::Error, v@)),
        }
    }
}

impl From<RESPError> for String {
    fn from(e: RESPError) -> (r: String)
        ensures
            r == e.0,
    {
        e.0
    }
}

impl FromSpecImpl<RESPError> for String {
    open spec fn obeys_from_spec() -> bool {
        true
    }

    open spec fn from_spec(e: RESPError) -> String {
        e.0
    }
}

impl core::ops::Deref for RESPError {
    type Target = String;

    fn deref(&self) -> (r: &String)
        ensures
            *r == self.0,
    {
        &self.0
    }
}

impl core::ops::DerefMut for RESPError {
    fn deref_mut(&mut self) -> (r: &mut String)
        ensures
            *r == old(self).0,
            final(self).0 == *final(r),
    {
        &mut self.0
    }
}

/// Each value projected in order; the first failure is the result.
pub open spec fn spec_convert_values<T: TryFrom<RESPValue, Error = RESPValueConversionError>>(
    vs: Seq<RESPValue>,
) -> Result<Seq<T>, RESPValueConversionError>
    decreases vs.len(),
{
    if vs.len() == 0 {
        Ok(Seq::empty())
    } else {
        match <T as TryFromSpec<RESPValue>>::try_from_spec(vs[0]) {
            Err(e) => Err(e),
            Ok(x) => match spec_convert_values::<T>(vs.drop_first()) {
                Ok(xs) => Ok(seq![x] + xs),
                Err(e) => Err(e),
            },
        }
    }
}

/// The projection of a value onto a nullable array of `T`.
pub open spec fn spec_into_array<T: TryFrom<RESPValue, Error = RESPValueConversionError>>(
    v: RESPValue,
) -> Result<Option<Seq<T>>, RESPValueConversionError> {
    match v {
        RESPValue::Array(Some(vs)) => match spec_convert_values::<T>(vs@) {
            Ok(xs) => Ok(Some(xs)),
            Err(e) => Err(e),
        },
        RESPValue::Array(None) => Ok(None),
        _ => Err(mismatch(RESPDataType::Array, v@)),
    }
}

pub open spec fn array_result_view<T>(
    r: Result<Option<Vec<T>>, RESPValueConversionError>,
) -> Result<Option<Seq<T>>, RESPValueConversionError> {
    match r {
        Ok(Some(w)) => Ok(Some(w@)),
        Ok(None) => Ok(None),
        Err(e) => Err(e),
    }
}

pub open spec fn prepend_converted<T>(
    pre: Seq<T>,
    r: Result<Seq<T>, RESPValueConversionError>,
) -> Result<Seq<T>, RESPValueConversionError> {
    match r {
        Ok(xs) => Ok(pre + xs),
        Err(e) => Err(e),
    }
}

/// The elements of a present array, empty for any other value.
pub open spec fn array_elements(v: RESPValue) -> Seq<RESPValue> {
    match v {
        RESPValue::Array(Some(vs)) => vs@,
        _ => Seq::empty(),
    }
}

/// Whether `T`'s projection may succeed on `v`.
pub open spec fn converts_ok<T: TryFrom<RESPValue, Error = RESPValueConversionError>>(
    v: RESPValue,
) -> bool {
    exists|t: T|
        #[trigger] call_ensures(
            <T as TryFrom<RESPValue>>::try_from,
            (v,),
            Ok::<T, RESPValueConversionError>(t),
        )
}

/// What converting the elements `vs` one by one gave, whatever `T`'s own
/// projection promises: a vector with one result per element, in order, or
/// the error of an element before which every element converted.
pub open spec fn array_converted<T: TryFrom<RESPValue, Error = RESPValueConversionError>>(
    vs: Seq<RESPValue>,
    r: Result<Option<Vec<T>>, RESPValueConversionError>,
) -> bool {
    match r {
        Ok(Some(w)) => w@.len() == vs.len() && forall|i: int|
            0 <= i < vs.len() ==> #[trigger] call_ensures(
                <T as TryFrom<RESPValue>>::try_from,
                (vs[i],),
                Ok::<T, RESPValueConversionError>(w@[i]),
            ),
        Ok(None) => false,
        Err(e) => exists|k: int|
            0 <= k < vs.len() && #[trigger] call_ensures(
                <T as TryFrom<RESPValue>>::try_from,
                (vs[k],),
                Err::<T, RESPValueConversionError>(e),
            ) && forall|j: int| 0 <= j < k ==> #[trigger] converts_ok::<T>(vs[j]),
    }
}

impl RESPValue {
    /// Projects an array value onto a nullable vector of `T`, converting each
    /// element in order; the first element that fails decides the error.
    pub fn into_array<T: TryFrom<RESPValue, Error = RESPValueConversionError>>(self) -> (r: Result<
        Option<Vec<T>>,
        RESPValueConversionError,
    >)
        ensures
            <T as TryFromSpec<RESPValue>>::obeys_try_from_spec() ==> array_result_view(r)
                == spec_into_array::<T>(self),
            !(self@ is Array) ==> r == Err::<Option<Vec<T>>, RESPValueConversionError>(
                mismatch(RESPDataType::Array, self@),
            ),
            self@ == SpecValue::Array(None) ==> r == Ok::<
                Option<Vec<T>>,
                RESPValueConversionError,
            >(None),
            self matches RESPValue::Array(Some(_)) ==> array_converted::<T>(array_elements(self), r),
    {
        match self {
            RESPValue::Array(Some(vs)) => {
                let ghost orig = vs@;
                let ghost n = orig.len();
                let mut vs = vs;
                let mut rev: Vec<RESPValue> = Vec::new();
                while vs.len() > 0
                    invariant
                        rev@.len() + vs@.len() == n,
                        n == orig.len(),
                        vs@ == orig.subrange(0, vs@.len() as int),
                        forall|j: int| 0 <= j < rev@.len() ==> #[trigger] rev@[j] == orig[n - 1 - j],
                    decreases vs@.len(),
                {
                    match vs.pop() {
                        Some(x) => rev.push(x),
                        None => {},
                    }
                }
                let mut out: Vec<T> = Vec::new();
                proof {
                    assert(orig.subrange(0, n as int) =~= orig);
                    match spec_convert_values::<T>(orig) {
                        Ok(xs) => {
                            assert(out@ + xs =~= xs);
                        },
                        Err(_) => {},
                    }
                }
                while rev.len() > 0
                    invariant
                        self@ is Array,
                        self@ != SpecValue::Array(None),
                        spec_into_array::<T>(self) == (match spec_convert_values::<T>(orig) {
                            Ok(xs) => Ok(Some(xs)),
                            Err(e) => Err(e),
                        }),
                        rev@.len() <= n,
                        n == orig.len(),
                        self matches RESPValue::Array(Some(_)),
                        array_elements(self) == orig,
                        out@.len() == n - rev@.len(),
                        forall|j: int|
                            0 <= j < out@.len() ==> #[trigger] call_ensures(
                                <T as TryFrom<RESPValue>>::try_from,
                                (orig[j],),
                                Ok::<T, RESPValueConversionError>(out@[j]),
                            ),
                        forall|j: int| 0 <= j < rev@.len() ==> #[trigger] rev@[j] == orig[n - 1 - j],
                        <T as TryFromSpec<RESPValue>>::obeys_try_from_spec() ==> spec_convert_values::<
                            T,
                        >(orig) == prepend_converted(
                            out@,
                            spec_convert_values::<T>(orig.subrange(n - rev@.len(), n as int)),
                        ),
                    decreases rev@.len(),
                {
                    let ghost k = n - rev@.len();
                    let x = match rev.pop() {
                        Some(x) => x,
                        None => {
                            return Ok(Some(out));
                        },
                    };
                    assert(x == orig[k]);
                    assert(orig.subrange(k, n as int).drop_first() =~= orig.subrange(k + 1, n as int));
                    let res = T::try_from(x);
                    assert(call_ensures(<T as TryFrom<RESPValue>>::try_from, (x,), res));
                    proof {
                        if res is Err {
                            assert forall|j: int| 0 <= j < k implies #[trigger] converts_ok::<T>(
                                orig[j],
                            ) by {
                                assert(call_ensures(
                                    <T as TryFrom<RESPValue>>::try_from,
                                    (orig[j],),
                                    Ok::<T, RESPValueConversionError>(out@[j]),
                                ));
                            }
                        }
                    }
                    match res {
                        Ok(y) => {
                            proof {
                                match spec_convert_values::<T>(orig.subrange(k + 1, n as int)) {
                                    Ok(xs) => {
                                        assert(out@ + (seq![y] + xs) =~= out@.push(y) + xs);
                                    },
                                    Err(_) => {},
                                }
                            }
                            out.push(y);
                        },
                        Err(e) => {
                            return Err(e);
                        },
                    }
                }
                proof {
                    assert(out@ + Seq::<T>::empty() =~= out@);
                }
                Ok(Some(out))
            },
            RESPValue::Array(None) => Ok(None),
            v => Err(RESPValueConversionError::DataTypeMismatch(RESPDataType::Array, v.data_type())),
        }
    }
}

impl<T: TryFrom<RESPValue, Error = RESPValueConversionError>> TryFrom<RESPValue> for Option<
    Vec<T>,
> {
    type Error = RESPValueConversionError;

    /// Converts each element in order; the first element that fails decides
    /// the error, which comes back as that element's own error.
    fn try_from(v: RESPValue) -> (r: Result<Option<Vec<T>>, RESPValueConversionError>)
        ensures
            <T as TryFromSpec<RESPValue>>::obeys_try_from_spec() ==> array_result_view(r)
                == spec_into_array::<T>(v),
            !(v@ is Array) ==> r == Err::<Option<Vec<T>>, RESPValueConversionError>(
                mismatch(RESPDataType::Array, v@),
            ),
            v@ == SpecValue::Array(None) ==> r == Ok::<
                Option<Vec<T>>,
                RESPValueConversionError,
            >(None),
            v matches RESPValue::Array(Some(_)) ==> array_converted::<T>(array_elements(v), r),
    {
        v.into_array()
    }
}

/// The trait's own single-valued statement is not used here: a vector is not
/// determined by its view, so no spec function can name the result. The impl
/// of `try_from` above states the result over views instead.
impl<T: TryFrom<RESPValue, Error = RESPValueConversionError>> TryFromSpecImpl<RESPValue> for Option<
    Vec<T>,
> {
    open spec fn obeys_try_from_spec() -> bool {
        false
    }

    open spec fn try_from_spec(v: RESPValue) -> Result<Option<Vec<T>>, RESPValueConversionError> {
        vstd::pervasive::arbitrary()
    }
}

} // verus!
