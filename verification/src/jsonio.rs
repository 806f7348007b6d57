//! The border to the JSON parser.
//!
//! The eight-direction reply and the reference files carry a JSON object
//! mapping a tag key to a list of angle pairs. Parsing it is delegated to
//! the `serde_json` crate behind the trusted items below; everything done
//! with the parsed entries is verified.

use vstd::prelude::*;
use crate::StationError;

verus! {

/// The parser's error type, carried through as an opaque value.
#[verifier::external_type_specification]
#[verifier::external_body]
pub struct ExSerdeError(serde_json::Error);

/// What the JSON parser makes of a text: the object from string keys to
/// lists of unsigned angle pairs that it denotes, or nothing when the
/// parser refuses it. The answer depends on the text alone; only the order
/// in which a later map walk hands the entries out does not, so the
/// content is named and the order is left open.
pub uninterp spec fn angle_parse_of(s: Seq<char>) -> Option<Map<Seq<char>, Seq<(u32, u32)>>>;

/// The parser accepts the text.
pub open spec fn json_angle_ok(s: Seq<char>) -> bool {
    angle_parse_of(s) is Some
}

/// The key-to-angles map an accepted text denotes.
pub open spec fn angle_map_of(s: Seq<char>) -> Map<Seq<char>, Seq<(u32, u32)>> {
    angle_parse_of(s)->Some_0
}

/// The returned entries are exactly the entries of the map the text
/// denotes: each entry is in the map, every key of the map appears, and
/// the keys are distinct. Only the entry order is left open.
pub open spec fn entries_match_map(v: Seq<(String, Vec<(u32, u32)>)>, s: Seq<char>) -> bool {
    &&& forall|i: int|
        0 <= i < v.len() ==> angle_map_of(s).contains_key((#[trigger] v[i]).0@) && angle_map_of(
            s,
        )[v[i].0@] == v[i].1@
    &&& forall|k: Seq<char>|
        #[trigger] angle_map_of(s).contains_key(k) ==> exists|i: int|
            0 <= i < v.len() && (#[trigger] v[i]).0@ == k
    &&& forall|i: int, j: int|
        0 <= i < j < v.len() ==> (#[trigger] v[i]).0@ != (#[trigger] v[j]).0@
}

/// Relies on serde_json::from_str: it succeeds exactly on well-formed JSON
/// of the requested shape; the parsed content is a function of the text;
/// a map's keys are distinct. The entry order is whatever the map
/// iteration gives and is not specified.
#[verifier::external_body]
fn parse_angle_entries(s: &str) -> (r: Result<
    Vec<(String, Vec<(u32, u32)>)>,
    serde_json::Error,
>)
    ensures
        r is Ok <==> angle_parse_of(s@) is Some,
        r matches Ok(v) ==> forall|i: int|
            0 <= i < v@.len() ==> angle_map_of(s@).contains_key((#[trigger] v@[i]).0@)
                && angle_map_of(s@)[v@[i].0@] == v@[i].1@,
        r matches Ok(v) ==> forall|k: Seq<char>|
            #[trigger] angle_map_of(s@).contains_key(k) ==> exists|i: int|
                0 <= i < v@.len() && (#[trigger] v@[i]).0@ == k,
        r matches Ok(v) ==> forall|i: int, j: int|
            0 <= i < j < v@.len() ==> (#[trigger] v@[i]).0@ != (#[trigger] v@[j]).0@,
{
    match serde_json::from_str::<std::collections::HashMap<String, Vec<(u32, u32)>>>(s) {
        Ok(m) => Ok(m.into_iter().collect()),
        Err(e) => Err(e),
    }
}

/// Parse an angle map; a text the parser refuses is a decode error. An
/// accepted text yields exactly the entries of the map it denotes, in an
/// unspecified order.
pub fn parse_angle_text(s: &str) -> (r: Result<Vec<(String, Vec<(u32, u32)>)>, StationError>)
    ensures
        r is Ok <==> json_angle_ok(s@),
        r matches Err(e) ==> e == StationError::Decode,
        r matches Ok(v) ==> entries_match_map(v@, s@),
{
    match parse_angle_entries(s) {
        Ok(v) => Ok(v),
        Err(_) => Err(StationError::Decode),
    }
}

/// What reading a byte sequence as text with replacement characters gives.
/// The result depends on the bytes alone.
pub uninterp spec fn lossy_of(b: Seq<u8>) -> Seq<char>;

/// Relies on String::from_utf8_lossy: plain seven-bit bytes come through
/// character for character.
#[verifier::external_body]
pub fn lossy_utf8(b: &Vec<u8>) -> (r: String)
    ensures
        r@ == lossy_of(b@),
        (forall|i: int| 0 <= i < b@.len() ==> b@[i] < 0x80) ==> r@.len() == b@.len() && (forall|
            i: int,
        |
            0 <= i < b@.len() ==> r@[i] == b@[i] as char),
{
    String::from_utf8_lossy(b).into_owned()
}

} // verus!
