//! Conversion of binary numerals to arbitrary-precision integers.
//!
//! Each input string is parsed as a base-2 integer; strings the parser
//! rejects are reported with a message naming the offending input.  The
//! values may be thousands of bits long, hence the arbitrary-precision
//! result type.

use vstd::prelude::*;
use vstd::string::StringExecFns;

use num_bigint::BigInt;

verus! {

#[verifier::external_type_specification]
#[verifier::external_body]
pub struct ExBigInt(BigInt);

/// The characters after an optional sign: a nonempty run of binary digits,
/// with `'_'` separators allowed after the first digit.
pub open spec fn binary_body_ok(s: Seq<char>) -> bool {
    &&& s.len() > 0
    &&& s[0] != '_'
    &&& forall|i: int| 0 <= i < s.len() ==> (s[i] == '0' || s[i] == '1' || s[i] == '_')
}

/// A string accepted as a base-2 numeral: an optional leading `'-'` or
/// `'+'` (not followed by a second `'+'`) and then binary digits.
pub open spec fn binary_literal_ok(s: Seq<char>) -> bool {
    if s.len() >= 1 && (s[0] == '-' || s[0] == '+') && !(s.len() >= 2 && s[1] == '+') {
        binary_body_ok(s.skip(1))
    } else {
        binary_body_ok(s)
    }
}

/// The integer denoted by an accepted base-2 numeral.  The parse depends on
/// the characters alone, so the value can be given a name even though its
/// digit-by-digit construction is not restated here.
pub uninterp spec fn parsed_binary(s: Seq<char>) -> BigInt;

/// The message reported for a rejected input.
pub open spec fn parse_failure_text(s: Seq<char>) -> Seq<char> {
    "Failed to parse: "@ + s
}

/// Relies on num_bigint::BigInt::parse_bytes with radix 2: it accepts an
/// optional sign followed by a nonempty run of binary digits (with `'_'`
/// separators after a leading digit) and returns the parsed integer; it
/// returns None for any other string.
#[verifier::external_body]
fn parse_binary(s: &String) -> (r: Option<BigInt>)
    ensures
        r is Some <==> binary_literal_ok(s@),
        r matches Option::Some(b) ==> b == parsed_binary(s@),
{
    BigInt::parse_bytes(s.as_bytes(), 2)
}

/// How one output entry relates to its input string: the parsed integer for
/// an accepted numeral, otherwise an error naming the input.
pub open spec fn converted_ok(s: Seq<char>, e: Result<BigInt, String>) -> bool {
    match e {
        Result::Ok(b) => binary_literal_ok(s) && b == parsed_binary(s),
        Result::Err(msg) => !binary_literal_ok(s) && msg@ == parse_failure_text(s),
    }
}

/// Parses each input string as a base-2 integer, keeping the outcomes in
/// input order: `Ok` with the parsed value for an accepted numeral, `Err`
/// with a message naming the input otherwise.
pub fn convert_numbers(input: Vec<String>) -> (r: Vec<Result<BigInt, String>>)
    ensures
        r@.len() == input@.len(),
        forall|i: int| 0 <= i < input@.len() ==> converted_ok(input@[i]@, #[trigger] r@[i]),
{
    let mut r: Vec<Result<BigInt, String>> = Vec::new();
    let mut i: usize = 0;
    while i < input.len()
        invariant
            i <= input@.len(),
            r@.len() == i,
            forall|k: int| 0 <= k < i ==> converted_ok(input@[k]@, #[trigger] r@[k]),
        decreases input@.len() - i,
    {
        let s = &input[i];
        match parse_binary(s) {
            Option::Some(b) => {
                r.push(Result::Ok(b));
            },
            Option::None => {
                let mut msg = "Failed to parse: ".to_owned();
                msg.append(s.as_str());
                r.push(Result::Err(msg));
            },
        }
        i = i + 1;
    }
    r
}

} // verus!
