use vstd::prelude::*;

verus! {

/// The canonical serialized form of a list of time slots, as the JSON
/// encoder produces it. Uninterpreted: the exact text is the encoder's
/// business; the library relies only on the round trip below.
pub uninterp spec fn json_slots(v: Seq<i64>) -> Seq<char>;

/// Relies on serde_json::to_string: serializing a list of 64-bit
/// integers cannot fail and depends on the list alone.
#[verifier::external_body]
pub(crate) fn encode_slots(v: &Vec<i64>) -> (r: String)
    ensures
        r@ == json_slots(v@),
{
    serde_json::to_string(v).unwrap_or_else(|_| String::from("[]"))
}

/// Holds when `r` is what parsing the text `s` must yield: whenever
/// `s` is the canonical encoding of a slot list, the parse succeeds
/// and returns exactly that list.
pub open spec fn parses_back(s: Seq<char>, r: Option<Vec<i64>>) -> bool {
    forall|v: Seq<i64>| s == #[trigger] json_slots(v) ==> (r matches Some(w) && w@ == v)
}

/// Relies on serde_json::from_str: parsing the encoder's own output
/// yields the serialized list again, exactly (64-bit integers survive
/// the JSON round trip), and the encoding of a list determines the
/// list.
#[verifier::external_body]
pub(crate) fn decode_slots(s: &str) -> (r: Option<Vec<i64>>)
    ensures
        parses_back(s@, r),
{
    serde_json::from_str::<Vec<i64>>(s).ok()
}

} // verus!
