//! The primality protocol: newline-delimited JSON requests and responses.
//!
//! Each line must parse as JSON and hold `method` equal to `"isPrime"`
//! and a numeric `number`. A structurally valid request is answered with
//! a JSON verdict line and the connection stays open; anything else gets
//! the literal `ERROR` marker and the connection is closed (the strict
//! policy, unlike the lenient price protocol). A number that is negative
//! or not an integer is reported as not prime rather than as an error;
//! of the numeric values only NaN counts as a structural violation.

use vstd::prelude::*;

verus! {

/// What the protocol reads of a parsed JSON number: whether it is NaN,
/// its sign, and the decimal mantissa/exponent pair of its magnitude.
#[derive(Debug, PartialEq, Eq, Structural, Copy, Clone)]
pub struct NumberParts {
    pub nan: bool,
    pub positive: bool,
    pub mantissa: u64,
    pub exponent: i16,
}

/// One field of the request object as the protocol reads it. A field
/// that is JSON `null` and one that is missing are treated alike, so
/// both map to `Absent`.
#[derive(Debug)]
pub enum FieldValue {
    Absent,
    Text(String),
    Num(NumberParts),
    Other,
}

/// A request line after parsing: not JSON at all, or the two fields the
/// protocol reads from the parsed value.
#[derive(Debug)]
pub enum RawRequest {
    Malformed,
    Fields { method: FieldValue, number: FieldValue },
}

/// The mathematical model of a parsed field, with text as characters.
pub enum FieldModel {
    Absent,
    Text(Seq<char>),
    Num(NumberParts),
    Other,
}

/// The mathematical model of a parsed request line.
pub enum RequestModel {
    Malformed,
    Fields { method: FieldModel, number: FieldModel },
}

impl View for FieldValue {
    type V = FieldModel;

    open spec fn view(&self) -> FieldModel {
        match self {
            FieldValue::Absent => FieldModel::Absent,
            FieldValue::Text(s) => FieldModel::Text(s@),
            FieldValue::Num(p) => FieldModel::Num(*p),
            FieldValue::Other => FieldModel::Other,
        }
    }
}

impl View for RawRequest {
    type V = RequestModel;

    open spec fn view(&self) -> RequestModel {
        match self {
            RawRequest::Malformed => RequestModel::Malformed,
            RawRequest::Fields { method, number } => RequestModel::Fields {
                method: method@,
                number: number@,
            },
        }
    }
}

/// What the JSON parser makes of a request line: a pure function of the
/// line's characters alone.
pub uninterp spec fn parse_of(s: Seq<char>) -> RequestModel;

/// Relies on `json::parse` and the accessors of `json::JsonValue`:
/// parsing is a pure function of the line; indexing a missing key (or a
/// non-object) yields JSON null; `json::number::Number::as_parts` exposes
/// the sign, mantissa and exponent, and `is_nan` the NaN flag.
#[verifier::external_body]
fn parse_line(line: &str) -> (r: RawRequest)
    ensures
        r@ == parse_of(line@),
{
    let v = match json::parse(line) { Ok(v) => v, Err(_) => return RawRequest::Malformed };
    let method = match &v["method"] {
        json::JsonValue::Short(s) => FieldValue::Text(s.as_str().to_string()),
        json::JsonValue::String(s) => FieldValue::Text(s.clone()),
        json::JsonValue::Null => FieldValue::Absent,
        _ => FieldValue::Other,
    };
    let number = match &v["number"] {
        json::JsonValue::Number(n) => FieldValue::Num(NumberParts {
            nan: n.is_nan(), positive: n.as_parts().0, mantissa: n.as_parts().1,
            exponent: n.as_parts().2 }),
        json::JsonValue::Null => FieldValue::Absent,
        _ => FieldValue::Other,
    };
    RawRequest::Fields { method, number }
}

/// Mathematical primality of an unsigned 64-bit value.
pub open spec fn is_prime_spec(n: u64) -> bool {
    n >= 2 && forall|d: u64| 1 < d < n ==> #[trigger] ((n as int) % (d as int)) != 0
}

/// Relies on `primal::is_prime` (`primal_check::miller_rabin`), a
/// deterministic Miller-Rabin test exact over the whole `u64` range.
#[verifier::external_body]
fn is_prime_u64(n: u64) -> (r: bool)
    ensures
        r == is_prime_spec(n),
{
    primal::is_prime(n)
}

/// Structural validation: the line parsed, its `method` is exactly
/// `"isPrime"`, and its `number` is a number other than NaN.
pub open spec fn request_valid(r: RequestModel) -> bool {
    match r {
        RequestModel::Malformed => false,
        RequestModel::Fields { method, number } => {
            &&& method matches FieldModel::Text(m) && m == "isPrime"@
            &&& number matches FieldModel::Num(p) && !p.nan
        },
    }
}

/// The verdict owed to a structurally valid request: only a non-negative
/// integer (positive sign, zero exponent) can be prime; every other
/// number is reported as not prime rather than as an error.
pub open spec fn request_prime(r: RequestModel) -> bool
    recommends
        request_valid(r),
{
    match r {
        RequestModel::Fields { method: _, number: FieldModel::Num(p) } => {
            p.positive && p.exponent == 0 && is_prime_spec(p.mantissa)
        },
        _ => false,
    }
}

/// What the handler must do after reading one request line.
#[derive(Debug, PartialEq, Eq, Structural, Copy, Clone)]
pub enum LineAction {
    /// Write the verdict's JSON response line and keep the connection
    /// open for further requests.
    Respond { prime: bool },
    /// Write the literal error marker, then close the connection.
    ErrorClose,
}

/// The action owed for one parsed line: a verdict for a valid request,
/// the error marker and a close for anything else.
pub open spec fn line_action_spec(r: RequestModel) -> LineAction {
    if request_valid(r) {
        LineAction::Respond { prime: request_prime(r) }
    } else {
        LineAction::ErrorClose
    }
}

/// Decides the action for one parsed request, whatever the parser
/// returned for the line.
pub fn process_request(request: &RawRequest) -> (a: LineAction)
    ensures
        a == line_action_spec(request@),
{
    match request {
        RawRequest::Fields { method, number } => {
            let method_ok = match method {
                FieldValue::Text(m) => {
                    let want: String = "isPrime".to_owned();
                    *m == want
                },
                _ => false,
            };
            match number {
                FieldValue::Num(p) => {
                    if method_ok && !p.nan {
                        let prime = if p.positive && p.exponent == 0 {
                            is_prime_u64(p.mantissa)
                        } else {
                            false
                        };
                        LineAction::Respond { prime }
                    } else {
                        LineAction::ErrorClose
                    }
                },
                _ => LineAction::ErrorClose,
            }
        },
        RawRequest::Malformed => LineAction::ErrorClose,
    }
}

/// The exact response line for a verdict, newline terminated: the
/// compact JSON dump of `{"method": "isPrime", "prime": <verdict>}`.
pub open spec fn response_line_spec(prime: bool) -> Seq<char> {
    if prime {
        "{\"method\":\"isPrime\",\"prime\":true}\n"@
    } else {
        "{\"method\":\"isPrime\",\"prime\":false}\n"@
    }
}

/// Builds the response line for a verdict.
pub fn response_line(prime: bool) -> (r: String)
    ensures
        r@ == response_line_spec(prime),
{
    if prime {
        "{\"method\":\"isPrime\",\"prime\":true}\n".to_owned()
    } else {
        "{\"method\":\"isPrime\",\"prime\":false}\n".to_owned()
    }
}

/// The literal marker written for a malformed request, with no newline.
pub fn error_marker() -> (r: &'static str)
    ensures
        r@ == "ERROR"@,
{
    "ERROR"
}

/// Handles one request line: parse, validate, decide. This is the whole
/// per-line decision of the read loop; only the parse itself is
/// delegated to the JSON library.
pub fn respond_to_line(line: &str) -> (a: LineAction)
    ensures
        a == line_action_spec(parse_of(line@)),
{
    let request = parse_line(line);
    process_request(&request)
}

} // verus!
