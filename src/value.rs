//! The data model: shape tags, the value tree and its mathematical view,
//! and the closed set of parse failures.
use vstd::prelude::*;

verus! {

/// The five shapes a message can take, each named by its leading byte.
#[derive(Debug, Copy, Clone, PartialEq, Eq, Structural)]
pub enum RESPDataType {
    SimpleString,
    Error,
    Integer,
    BulkString,
    Array,
}

/// The byte that introduces a value of the given shape.
pub open spec fn spec_tag_byte(t: RESPDataType) -> u8 {
    match t {
        RESPDataType::SimpleString => 0x2b,  // '+'
        RESPDataType::Error => 0x2d,  // '-'
        RESPDataType::Integer => 0x3a,  // ':'
        RESPDataType::BulkString => 0x24,  // '$'
        RESPDataType::Array => 0x2a,  // '*'
    }
}

/// The shape a leading byte names, if it names one.
pub open spec fn spec_tag_of(b: u8) -> Option<RESPDataType> {
    if b == 0x2b {
        Some(RESPDataType::SimpleString)
    } else if b == 0x2d {
        Some(RESPDataType::Error)
    } else if b == 0x3a {
        Some(RESPDataType::Integer)
    } else if b == 0x24 {
        Some(RESPDataType::BulkString)
    } else if b == 0x2a {
        Some(RESPDataType::Array)
    } else {
        None
    }
}

/// Why a parse failed.
#[derive(Debug, PartialEq, Eq, Structural)]
pub enum ParseError {
    /// The leading byte names no shape.
    UnknownDataType(char),
    /// (expected, actual)
    UnexpectedDataType(RESPDataType, RESPDataType),
    /// The input ended before the value did.
    NotEnoughBytes,
    /// The byte that ended a numeral where it could not end: a byte other
    /// than a decimal digit, or a digit that would take the value out of the
    /// range of `i64`.
    UnexpectedNonNumericCharacter(char),
    /// The CR LF terminator was not where it had to be.
    MissingCLRF,
    /// A length field held a negative value other than -1.
    NegativeValueLength,
}

/// The character a byte stands for when a payload is read as text: the byte's
/// own code point.
pub open spec fn byte_char(b: u8) -> char {
    (b as u32) as char
}

impl TryFrom<u8> for RESPDataType {
    type Error = ParseError;

    /// The shape a leading byte names; any byte outside the five is rejected.
    fn try_from(b: u8) -> (r: Result<RESPDataType, ParseError>)
        ensures
            r == (match spec_tag_of(b) {
                Some(t) => Ok(t),
                None => Err(ParseError::UnknownDataType(byte_char(b))),
            }),
    {
        if b == 0x2b {
            Ok(RESPDataType::SimpleString)
        } else if b == 0x2d {
            Ok(RESPDataType::Error)
        } else if b == 0x3a {
            Ok(RESPDataType::Integer)
        } else if b == 0x24 {
            Ok(RESPDataType::BulkString)
        } else if b == 0x2a {
            Ok(RESPDataType::Array)
        } else {
            Err(ParseError::UnknownDataType(b as char))
        }
    }
}

impl vstd::std_specs::convert::TryFromSpecImpl<u8> for RESPDataType {
    open spec fn obeys_try_from_spec() -> bool {
        true
    }

    open spec fn try_from_spec(b: u8) -> Result<RESPDataType, ParseError> {
        match spec_tag_of(b) {
            Some(t) => Ok(t),
            None => Err(ParseError::UnknownDataType(byte_char(b))),
        }
    }
}

impl From<RESPDataType> for u8 {
    /// The byte that introduces a value of the given shape.
    fn from(t: RESPDataType) -> (r: u8)
        ensures
            r == spec_tag_byte(t),
    {
        match t {
            RESPDataType::SimpleString => 0x2b,
            RESPDataType::Error => 0x2d,
            RESPDataType::Integer => 0x3a,
            RESPDataType::BulkString => 0x24,
            RESPDataType::Array => 0x2a,
        }
    }
}

impl vstd::std_specs::convert::FromSpecImpl<RESPDataType> for u8 {
    open spec fn obeys_from_spec() -> bool {
        true
    }

    open spec fn from_spec(t: RESPDataType) -> u8 {
        spec_tag_byte(t)
    }
}

/// Every shape has one byte, and that byte names the shape back.
pub proof fn lemma_tag_bijective(t: RESPDataType, b: u8)
    ensures
        spec_tag_of(spec_tag_byte(t)) == Some(t),
        spec_tag_of(b) == Some(t) <==> b == spec_tag_byte(t),
{
}

/// The mathematical model of a value: text as a sequence of characters,
/// arrays as sequences of models.
pub enum SpecValue {
    Integer(i64),
    BulkString(Option<Seq<char>>),
    SimpleString(Seq<char>),
    Error(Seq<char>),
    Array(Option<Seq<SpecValue>>),
}

/// A decoded message. `None` in `BulkString` and `Array` is the protocol's
/// null marker (length -1), distinct from a present empty string or array.
#[derive(Debug, PartialEq)]
pub enum RESPValue {
    Integer(i64),
    BulkString(Option<String>),
    SimpleString(String),
    Error(String),
    Array(Option<Vec<RESPValue>>),
}

/// The models of a sequence of values, element by element.
pub open spec fn view_values(vs: Seq<RESPValue>) -> Seq<SpecValue>
    decreases vs,
{
    Seq::new(vs.len(), |i: int| if 0 <= i < vs.len() { vs[i].view_value() } else { SpecValue::Integer(0) })
}

impl RESPValue {
    pub open spec fn view_value(&self) -> SpecValue
        decreases self,
    {
        match self {
            RESPValue::Integer(i) => SpecValue::Integer(*i),
            RESPValue::BulkString(s) => SpecValue::BulkString(
                match s {
                    Some(t) => Some(t@),
                    None => None,
                },
            ),
            RESPValue::SimpleString(s) => SpecValue::SimpleString(s@),
            RESPValue::Error(s) => SpecValue::Error(s@),
            RESPValue::Array(vs) => SpecValue::Array(
                match vs {
                    Some(v) => Some(view_values(v@)),
                    None => None,
                },
            ),
        }
    }
}

/// The shape of a model value.
pub open spec fn spec_data_type(v: SpecValue) -> RESPDataType {
    match v {
        SpecValue::Integer(_) => RESPDataType::Integer,
        SpecValue::BulkString(_) => RESPDataType::BulkString,
        SpecValue::SimpleString(_) => RESPDataType::SimpleString,
        SpecValue::Error(_) => RESPDataType::Error,
        SpecValue::Array(_) => RESPDataType::Array,
    }
}

impl RESPValue {
    pub fn bulk_string(s: Option<String>) -> (r: RESPValue)
        ensures
            r == RESPValue::BulkString(s),
    {
        RESPValue::BulkString(s)
    }

    pub fn simple_string(s: String) -> (r: RESPValue)
        ensures
            r == RESPValue::SimpleString(s),
    {
        RESPValue::SimpleString(s)
    }

    pub fn error(s: String) -> (r: RESPValue)
        ensures
            r == RESPValue::Error(s),
    {
        RESPValue::Error(s)
    }

    pub fn integer(i: i64) -> (r: RESPValue)
        ensures
            r == RESPValue::Integer(i),
    {
        RESPValue::Integer(i)
    }

    /// The shape of this value.
    pub fn data_type(&self) -> (r: RESPDataType)
        ensures
            r == spec_data_type(self@),
    {
        match self {
            RESPValue::Integer(_) => RESPDataType::Integer,
            RESPValue::BulkString(_) => RESPDataType::BulkString,
            RESPValue::SimpleString(_) => RESPDataType::SimpleString,
            RESPValue::Error(_) => RESPDataType::Error,
            RESPValue::Array(_) => RESPDataType::Array,
        }
    }
}

impl View for RESPValue {
    type V = SpecValue;

    open spec fn view(&self) -> SpecValue {
        self.view_value()
    }
}

} // verus!
