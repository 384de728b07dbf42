use vstd::prelude::*;
use crate::bytes::{le_bytes, le_value, push_u32_le, read_u32_le, lemma_le_round_trip};
use crate::calendar::{epoch_seconds, lemma_u32_window_years, CivilTime};
use crate::error::{CodecError, Rendered, SerializationContext};
use crate::literal::{civil_text, format_civil, lemma_literal_round_trip, parse_civil, parse_civil_literal};
use crate::param::TypedValue;

verus! {

/// Seconds of 0001-01-01T00:00:00Z.
pub const FIRST_FOUR_DIGIT_SECS: i64 = -62135596800;

/// Seconds of 9999-12-31T23:59:59Z.
pub const LAST_FOUR_DIGIT_SECS: i64 = 253402300799;

/// Relies on chrono's `DateTime::<Utc>::from_timestamp` and its `Datelike` /
/// `Timelike` getters: the UTC calendar fields of a count of non-leap seconds
/// since 1970-01-01T00:00:00Z, `None` only outside chrono's range of years.
#[verifier::external_body]
fn civil_from_timestamp(secs: i64) -> (r: Option<CivilTime>)
    ensures
        r is Some ==> r.unwrap().wf() && epoch_seconds(r.unwrap()) == secs,
        FIRST_FOUR_DIGIT_SECS <= secs <= LAST_FOUR_DIGIT_SECS ==> r is Some,
{
    let dt = chrono::DateTime::from_timestamp(secs, 0)?;
    Some(
        CivilTime {
            year: chrono::Datelike::year(&dt),
            month: chrono::Datelike::month(&dt),
            day: chrono::Datelike::day(&dt),
            hour: chrono::Timelike::hour(&dt),
            minute: chrono::Timelike::minute(&dt),
            second: chrono::Timelike::second(&dt),
        },
    )
}

/// Relies on chrono's `NaiveDate::from_ymd_opt`, `NaiveDate::and_hms_opt`,
/// `NaiveDateTime::and_utc` and `DateTime::timestamp`: the non-leap seconds
/// since the epoch of a real date and time, `None` for fields that name none.
#[verifier::external_body]
fn timestamp_from_civil(c: CivilTime) -> (r: Option<i64>)
    ensures
        r == (if c.wf() {
            Some(epoch_seconds(c) as i64)
        } else {
            None::<i64>
        }),
{
    let date = chrono::NaiveDate::from_ymd_opt(c.year, c.month, c.day)?;
    let naive = date.and_hms_opt(c.hour, c.minute, c.second)?;
    Some(naive.and_utc().timestamp())
}

/// The instants that fit an unsigned 32-bit count of seconds since the epoch.
pub open spec fn in_u32_window(secs: int) -> bool {
    0 <= secs <= u32::MAX
}

/// `t` is the `YYYY-MM-DD HH:MM:SS` literal, at UTC, of the instant `secs`.
pub open spec fn is_literal_of(t: Seq<char>, secs: int) -> bool {
    exists|c: CivilTime|
        c.wf() && 0 <= c.year <= 9999 && epoch_seconds(c) == secs && t == #[trigger] civil_text(c)
}

/// The instant that a literal denotes, if it is well formed and names a real
/// date and time.
pub open spec fn literal_instant(t: Seq<char>) -> Option<int> {
    match parse_civil(t) {
        Some(c) => if c.wf() {
            Some(epoch_seconds(c))
        } else {
            None
        },
        None => None,
    }
}

/// A UTC instant at one-second resolution, held as seconds since
/// 1970-01-01T00:00:00Z, bound as a `DateTime` query parameter.
#[derive(Clone, Copy, Debug, PartialEq, Eq, Structural)]
pub struct DateTimeParam(pub i64);

impl DateTimeParam {
    pub fn new(secs: i64) -> (r: Self)
        ensures
            r.0 == secs,
    {
        DateTimeParam(secs)
    }

    /// Seconds since the epoch.
    pub fn timestamp(&self) -> (r: i64)
        ensures
            r == self.0,
    {
        self.0
    }

    /// Reads an instant from its `YYYY-MM-DD HH:MM:SS` literal.
    pub fn from_literal(t: &str) -> (r: Result<DateTimeParam, CodecError>)
        ensures
            r == (match literal_instant(t@) {
                Some(secs) => Ok(DateTimeParam(secs as i64)),
                None => Err(CodecError::MalformedLiteral),
            }),
    {
        match parse_civil_literal(t) {
            Some(c) => match timestamp_from_civil(c) {
                Some(secs) => Ok(DateTimeParam(secs)),
                None => Err(CodecError::MalformedLiteral),
            },
            None => Err(CodecError::MalformedLiteral),
        }
    }

    /// Reads an instant from four little-endian bytes at `pos`; the second
    /// part of the result is the number of bytes read.
    pub fn from_binary(b: &[u8], pos: usize) -> (r: Result<(DateTimeParam, usize), CodecError>)
        ensures
            r == (if pos + 4 <= b@.len() {
                Ok((DateTimeParam(le_value(b@, pos as int) as i64), 4usize))
            } else {
                Err(CodecError::Truncated)
            }),
    {
        if pos <= b.len() && b.len() - pos >= 4 {
            let v = read_u32_le(b, pos);
            Ok((DateTimeParam(v as i64), 4))
        } else {
            Err(CodecError::Truncated)
        }
    }
}

impl TypedValue for DateTimeParam {
    /// What rendering this instant in `ctx` gives: the four little-endian
    /// bytes of the seconds, or the literal; a range error where it does not fit.
    open spec fn renders_as(&self, ctx: SerializationContext, r: Result<Rendered, CodecError>) -> bool {
        match ctx {
            SerializationContext::NativeBinary => if in_u32_window(self.0 as int) {
                match r {
                    Ok(Rendered::Binary(b)) => b@ == le_bytes(self.0 as u32),
                    _ => false,
                }
            } else {
                r == Err::<Rendered, CodecError>(CodecError::Range { instant: self.0 })
            },
            SerializationContext::TextLiteral => {
                &&& in_u32_window(self.0 as int) ==> r is Ok
                &&& match r {
                    Ok(Rendered::Text(t)) => is_literal_of(t@, self.0 as int),
                    Ok(Rendered::Binary(_)) => false,
                    Err(e) => e == CodecError::Range { instant: self.0 },
                }
            },
        }
    }

    /// Renders the instant as literal text or as native bytes, as `ctx` says.
    fn serialize(&self, ctx: SerializationContext) -> (r: Result<Rendered, CodecError>) {
        match ctx {
            SerializationContext::NativeBinary => {
                if 0 <= self.0 && self.0 <= u32::MAX as i64 {
                    let mut out: Vec<u8> = Vec::new();
                    push_u32_le(self.0 as u32, &mut out);
                    assert(out@ =~= le_bytes(self.0 as u32));
                    Ok(Rendered::Binary(out))
                } else {
                    Err(CodecError::Range { instant: self.0 })
                }
            },
            SerializationContext::TextLiteral => {
                match civil_from_timestamp(self.0) {
                    Some(c) => {
                        if 0 <= self.0 && self.0 <= u32::MAX as i64 {
                            proof {
                                lemma_u32_window_years(c);
                            }
                        }
                        if 0 <= c.year && c.year <= 9999 {
                            let t = format_civil(c);
                            assert(is_literal_of(t@, self.0 as int));
                            Ok(Rendered::Text(t))
                        } else {
                            Err(CodecError::Range { instant: self.0 })
                        }
                    },
                    None => Err(CodecError::Range { instant: self.0 }),
                }
            },
        }
    }
}

/// Any literal that rendering an instant of the 32-bit window can give reads
/// back as that instant.
pub proof fn lemma_literal_instant_round_trip(secs: int, t: Seq<char>)
    requires
        in_u32_window(secs),
        is_literal_of(t, secs),
    ensures
        literal_instant(t) == Some(secs),
{
    let c = choose|c: CivilTime|
        c.wf() && 0 <= c.year <= 9999 && epoch_seconds(c) == secs && t == #[trigger] civil_text(c);
    lemma_literal_round_trip(c);
}

/// The native bytes of an instant of the 32-bit window read back as that
/// instant, wherever they stand in a buffer.
pub proof fn lemma_binary_instant_round_trip(secs: u32, prefix: Seq<u8>, suffix: Seq<u8>)
    ensures
        le_value(prefix + le_bytes(secs) + suffix, prefix.len() as int) == secs as int,
{
    let b = prefix + le_bytes(secs) + suffix;
    let n = prefix.len() as int;
    lemma_le_round_trip(secs);
    assert(b[n] == le_bytes(secs)[0]);
    assert(b[n + 1] == le_bytes(secs)[1]);
    assert(b[n + 2] == le_bytes(secs)[2]);
    assert(b[n + 3] == le_bytes(secs)[3]);
}

} // verus!
