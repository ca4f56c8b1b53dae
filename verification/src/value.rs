//! The tree-shaped value model that value sources present to an encoder,
//! together with record severities and the encoder error type.

use vstd::prelude::*;
use vstd::string::StringExecFns;

use crate::strutil::{dec_of, dec_of_int, push_char};

verus! {

/// The payload shape of a named variant: empty, a single value, an ordered
/// list, or a nested mapping.
#[derive(Debug)]
pub enum VariantPayload {
    Unit,
    Newtype(Box<EncodableValue>),
    Tuple(Vec<EncodableValue>),
    Struct(Vec<(String, EncodableValue)>),
}

/// The abstract shape a value presents to an encoder.
///
/// All narrower numeric widths are widened to one of the three numeric leaf
/// kinds before reaching the encoder. A sixty-four-bit floating-point leaf
/// carries its decimal rendering as text, produced by the caller; the encoder
/// emits it verbatim and performs no arithmetic on it. Mapping keys are not
/// required to be unique at this level: uniqueness is a property of the
/// producer.
#[derive(Debug)]
pub enum EncodableValue {
    Null,
    Bool(bool),
    Int64(i64),
    UInt64(u64),
    Float64(String),
    Char(char),
    Str(String),
    Bytes(Vec<u8>),
    Sequence(Vec<EncodableValue>),
    Mapping(Vec<(String, EncodableValue)>),
    Variant { name: String, payload: VariantPayload },
}

impl EncodableValue {
    /// A leaf value: rendered on one line, with no nested structure.
    pub open spec fn is_leaf(self) -> bool {
        match self {
            EncodableValue::Null => true,
            EncodableValue::Bool(_) => true,
            EncodableValue::Int64(_) => true,
            EncodableValue::UInt64(_) => true,
            EncodableValue::Float64(_) => true,
            EncodableValue::Char(_) => true,
            EncodableValue::Str(_) => true,
            _ => false,
        }
    }
}

/// The one-line text of a leaf value, as both renderers print it.
pub open spec fn scalar_text(v: EncodableValue) -> Seq<char>
    recommends
        v.is_leaf(),
{
    match v {
        EncodableValue::Null => seq!['n', 'u', 'l', 'l'],
        EncodableValue::Bool(b) => if b {
            seq!['t', 'r', 'u', 'e']
        } else {
            seq!['f', 'a', 'l', 's', 'e']
        },
        EncodableValue::Int64(i) => dec_of_int(i as int),
        EncodableValue::UInt64(u) => dec_of(u as nat),
        EncodableValue::Float64(s) => s@,
        EncodableValue::Char(c) => seq![c],
        EncodableValue::Str(s) => s@,
        _ => Seq::<char>::empty(),
    }
}

/// Appends the one-line text of a leaf value to `out`.
pub fn append_scalar_text(out: &mut String, v: &EncodableValue)
    requires
        v.is_leaf(),
    ensures
        final(out)@ == old(out)@ + scalar_text(*v),
{
    match v {
        EncodableValue::Null => {
            out.append("null");
            proof {
                reveal_strlit("null");
                assert("null"@ =~= scalar_text(*v));
            }
        },
        EncodableValue::Bool(b) => {
            if *b {
                out.append("true");
                proof {
                    reveal_strlit("true");
                    assert("true"@ =~= scalar_text(*v));
                }
            } else {
                out.append("false");
                proof {
                    reveal_strlit("false");
                    assert("false"@ =~= scalar_text(*v));
                }
            }
        },
        EncodableValue::Int64(i) => {
            crate::strutil::append_dec_i64(out, *i);
        },
        EncodableValue::UInt64(u) => {
            crate::strutil::append_dec_u64(out, *u);
        },
        EncodableValue::Float64(s) => {
            out.append(s.as_str());
        },
        EncodableValue::Char(c) => {
            push_char(out, *c);
        },
        EncodableValue::Str(s) => {
            out.append(s.as_str());
        },
        _ => {
            proof {
                assert(false);
            }
        },
    }
}

/// A record severity, from most to least urgent.
#[derive(Clone, Copy, Debug, PartialEq)]
pub enum Level {
    Error,
    Warn,
    Info,
    Debug,
    Trace,
}

/// The lower-case name of a severity.
pub open spec fn level_name(l: Level) -> Seq<char> {
    match l {
        Level::Error => seq!['e', 'r', 'r', 'o', 'r'],
        Level::Warn => seq!['w', 'a', 'r', 'n'],
        Level::Info => seq!['i', 'n', 'f', 'o'],
        Level::Debug => seq!['d', 'e', 'b', 'u', 'g'],
        Level::Trace => seq!['t', 'r', 'a', 'c', 'e'],
    }
}

impl Level {
    /// The lower-case name of this severity.
    pub fn as_text(&self) -> (r: &'static str)
        ensures
            r@ == level_name(*self),
    {
        match self {
            Level::Error => {
                proof {
                    reveal_strlit("error");
                    assert("error"@ =~= level_name(*self));
                }
                "error"
            },
            Level::Warn => {
                proof {
                    reveal_strlit("warn");
                    assert("warn"@ =~= level_name(*self));
                }
                "warn"
            },
            Level::Info => {
                proof {
                    reveal_strlit("info");
                    assert("info"@ =~= level_name(*self));
                }
                "info"
            },
            Level::Debug => {
                proof {
                    reveal_strlit("debug");
                    assert("debug"@ =~= level_name(*self));
                }
                "debug"
            },
            Level::Trace => {
                proof {
                    reveal_strlit("trace");
                    assert("trace"@ =~= level_name(*self));
                }
                "trace"
            },
        }
    }
}

/// The one error kind an encoder reports. A failed render never panics the
/// calling process: a renderer returns this value instead and writes nothing
/// further.
#[derive(Debug, PartialEq)]
pub enum EncodeError {
    /// An `end` call arrived with no open `begin` to match it.
    UnbalancedEnd,
    /// A sequence or mapping was opened where a mapping key was expected;
    /// only a leaf can stand in key position.
    ContainerAsKey,
    /// A free-text diagnostic from a nested value that failed to encode.
    Message(String),
}

impl EncodeError {
    /// A short description of the failure, for callers that log or wrap it.
    pub fn describe(&self) -> (r: &'static str)
    {
        match self {
            EncodeError::UnbalancedEnd => "end call without a matching begin",
            EncodeError::ContainerAsKey => "container opened in key position",
            EncodeError::Message(_) => "a nested value failed to encode",
        }
    }
}

} // verus!
