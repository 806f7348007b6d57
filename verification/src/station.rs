//! The test orchestrator: the fixture command lines, the antenna schedule,
//! the eight-direction data reduction and the per-unit report text.

use vstd::prelude::*;
use crate::codec::{spec_ant_request, encode_ant_request};
use crate::stats::{
    calc_avg_index0, calculate_mean, eight_calculate_variance, fold_all, ints, len_ok, max_of,
    min_of, round_div, samples_bounded, spec_max, spec_min, spec_sum, spec_var_num,
};
use crate::strutil::{
    all_dec_digits, all_hex_digits, dec_digit_char, lemma_join_push, lemma_trim_end_by_at,
    lemma_trim_start_by_at, parse_dec_u8, parse_hex_u32, push_byte_hex, push_dec_i64,
    push_dec_u64, push_dec_u128, remove_all, spec_byte_hex, spec_dec, spec_dec_signed,
    spec_dec_value, spec_hex_value, spec_join, spec_num_body, spec_remove_all, spec_split,
    spec_trim, spec_trim_by, split_char, trim, views,
};
use crate::jsonio::{angle_map_of, json_angle_ok, parse_angle_text};
use crate::StationError;

verus! {

/// The antenna positions the antenna phase visits, in ascending order:
/// every index from one to eighteen except the two unused fixture slots.
pub open spec fn spec_antenna_indices() -> Seq<u8> {
    seq![1u8, 2u8, 3u8, 5u8, 6u8, 7u8, 8u8, 9u8, 10u8, 11u8, 13u8, 14u8, 15u8, 16u8, 17u8, 18u8]
}

/// The antenna schedule as a vector.
pub fn antenna_indices() -> (r: Vec<u8>)
    ensures
        r@ == spec_antenna_indices(),
{
    let mut r: Vec<u8> = Vec::new();
    r.push(1);
    r.push(2);
    r.push(3);
    r.push(5);
    r.push(6);
    r.push(7);
    r.push(8);
    r.push(9);
    r.push(10);
    r.push(11);
    r.push(13);
    r.push(14);
    r.push(15);
    r.push(16);
    r.push(17);
    r.push(18);
    proof {
        assert(r@ =~= spec_antenna_indices());
    }
    r
}

/// Law: the antenna phase makes exactly sixteen exchanges, in strictly
/// ascending position order, visiting every position from one to eighteen
/// except four and twelve, and those two never.
pub proof fn lemma_antenna_schedule()
    ensures
        spec_antenna_indices().len() == 16,
        forall|i: int, j: int|
            0 <= i < j < 16 ==> spec_antenna_indices()[i] < spec_antenna_indices()[j],
        forall|i: int|
            0 <= i < 16 ==> 1 <= spec_antenna_indices()[i] <= 18 && spec_antenna_indices()[i]
                != 4 && spec_antenna_indices()[i] != 12,
        forall|v: u8|
            1 <= v <= 18 && v != 4 && v != 12 ==> spec_antenna_indices().contains(v),
{
    assert forall|v: u8| 1 <= v <= 18 && v != 4 && v != 12 implies spec_antenna_indices().contains(
        v,
    ) by {
        let s = spec_antenna_indices();
        if v == 1 {
            assert(s[0] == v);
        } else if v == 2 {
            assert(s[1] == v);
        } else if v == 3 {
            assert(s[2] == v);
        } else if v == 5 {
            assert(s[3] == v);
        } else if v == 6 {
            assert(s[4] == v);
        } else if v == 7 {
            assert(s[5] == v);
        } else if v == 8 {
            assert(s[6] == v);
        } else if v == 9 {
            assert(s[7] == v);
        } else if v == 10 {
            assert(s[8] == v);
        } else if v == 11 {
            assert(s[9] == v);
        } else if v == 13 {
            assert(s[10] == v);
        } else if v == 14 {
            assert(s[11] == v);
        } else if v == 15 {
            assert(s[12] == v);
        } else if v == 16 {
            assert(s[13] == v);
        } else if v == 17 {
            assert(s[14] == v);
        } else {
            assert(s[15] == v);
        }
    }
}

/// The priming line sent to the antenna fixture before one exchange.
pub open spec fn spec_ant_cmd(ant: u8, chn: u8) -> Seq<char> {
    "4001,"@ + spec_dec(ant as int) + ","@ + spec_dec(chn as int) + ",10000\n"@
}

/// Build the priming line for one antenna position and channel.
pub fn ant_fixture_cmd(ant: u8, chn: u8) -> (r: String)
    ensures
        r@ == spec_ant_cmd(ant, chn),
{
    let mut r = String::new();
    r.append("4001,");
    push_dec_u64(&mut r, ant as u64);
    r.append(",");
    push_dec_u64(&mut r, chn as u64);
    r.append(",10000\n");
    proof {
        assert(r@ =~= spec_ant_cmd(ant, chn));
        assert(Seq::<char>::empty() + "4001,"@ =~= "4001,"@);
    }
    r
}

/// The whole antenna phase as one plan: for each scheduled position, the
/// fixture priming line and the encoded request frame, in ascending
/// position order.
pub fn antenna_plan(chn: u8) -> (r: Vec<(u8, String, Vec<u8>)>)
    ensures
        r@.len() == 16,
        forall|k: int|
            0 <= k < 16 ==> {
                &&& (#[trigger] r@[k]).0 == spec_antenna_indices()[k]
                &&& r@[k].1@ == spec_ant_cmd(spec_antenna_indices()[k], chn)
                &&& r@[k].2@ == spec_ant_request(chn, spec_antenna_indices()[k])
            },
{
    let idx = antenna_indices();
    let mut r: Vec<(u8, String, Vec<u8>)> = Vec::new();
    let mut k: usize = 0;
    while k < idx.len()
        invariant
            0 <= k <= idx@.len(),
            idx@ == spec_antenna_indices(),
            r@.len() == k,
            forall|m: int|
                0 <= m < k ==> {
                    &&& (#[trigger] r@[m]).0 == spec_antenna_indices()[m]
                    &&& r@[m].1@ == spec_ant_cmd(spec_antenna_indices()[m], chn)
                    &&& r@[m].2@ == spec_ant_request(chn, spec_antenna_indices()[m])
                },
        decreases idx@.len() - k,
    {
        let ant = idx[k];
        let cmd = ant_fixture_cmd(ant, chn);
        let frame = encode_ant_request(chn, ant);
        r.push((ant, cmd, frame));
        k = k + 1;
    }
    r
}

/// The line sent to the sensor fixture for one axis.
pub open spec fn spec_sensor_cmd(pos: u8) -> Seq<char> {
    if pos == 0 {
        "3001,senx\n"@
    } else if pos == 1 {
        "3001,seny\n"@
    } else {
        "3001,senz\n"@
    }
}

/// The axis name used in the sensor report line.
pub open spec fn spec_axis_name(pos: u8) -> Seq<char> {
    if pos == 0 {
        "senx"@
    } else if pos == 1 {
        "seny"@
    } else {
        "senz"@
    }
}

/// Build the fixture line for one sensor axis.
pub fn sensor_fixture_cmd(pos: u8) -> (r: String)
    ensures
        r@ == spec_sensor_cmd(pos),
{
    if pos == 0 {
        ("3001,senx\n").to_owned()
    } else if pos == 1 {
        ("3001,seny\n").to_owned()
    } else {
        ("3001,senz\n").to_owned()
    }
}

/// The line that clamps the unit before the sensor phase.
pub fn sensor_grab_cmd() -> (r: String)
    ensures
        r@ == "3001,grab\n"@,
{
    ("3001,grab\n").to_owned()
}

/// The line that releases the unit after the sensor phase.
pub fn sensor_release_cmd() -> (r: String)
    ensures
        r@ == "3001,release\n"@,
{
    ("3001,release\n").to_owned()
}

/// A nonnegative millidegree value as a degree string: the integer part,
/// then up to three fraction digits with trailing zeroes left off.
pub open spec fn spec_mdeg_str(v: int) -> Seq<char> {
    if v % 1000 == 0 {
        spec_dec(v / 1000)
    } else if v % 100 == 0 {
        spec_dec(v / 1000) + "."@ + seq![dec_digit_char(v / 100 % 10)]
    } else if v % 10 == 0 {
        spec_dec(v / 1000) + "."@ + seq![dec_digit_char(v / 100 % 10), dec_digit_char(v / 10 % 10)]
    } else {
        spec_dec(v / 1000) + "."@ + seq![
            dec_digit_char(v / 100 % 10),
            dec_digit_char(v / 10 % 10),
            dec_digit_char(v % 10),
        ]
    }
}

/// Append a nonnegative millidegree value as a degree string.
#[verifier::rlimit(50)]
pub fn push_mdeg(out: &mut String, v: i64)
    requires
        0 <= v,
    ensures
        final (out)@ == old(out)@ + spec_mdeg_str(v as int),
{
    let ghost base = out@;
    let ghost vi = v as int;
    proof {
        assert(vi % 1000 == (vi % 1000) as i64 as int);
        assert((vi / 100) % 10 == (vi % 1000) / 100) by (nonlinear_arith);
        assert((vi / 10) % 10 == (vi % 1000) / 10 % 10) by (nonlinear_arith);
        assert(vi % 10 == (vi % 1000) % 10) by (nonlinear_arith);
    }
    push_dec_u64(out, (v / 1000) as u64);
    let fr = (v % 1000) as u64;
    if fr == 0 {
        proof {
            assert(final (out)@ =~= base + spec_mdeg_str(vi));
        }
    } else {
        out.append(".");
        out.append(crate::strutil::dec_digit_str(fr / 100));
        if fr % 100 == 0 {
            proof {
                assert(final (out)@ =~= base + spec_mdeg_str(vi));
            }
        } else {
            out.append(crate::strutil::dec_digit_str(fr / 10 % 10));
            if fr % 10 == 0 {
                proof {
                    assert(final (out)@ =~= base + spec_mdeg_str(vi));
                }
            } else {
                out.append(crate::strutil::dec_digit_str(fr % 10));
                proof {
                    assert(final (out)@ =~= base + spec_mdeg_str(vi));
                }
            }
        }
    }
}

/// A nonnegative centi-unit value as a decimal string: the integer part,
/// then up to two fraction digits with trailing zeroes left off.
pub open spec fn spec_centi_str(v: int) -> Seq<char> {
    if v % 100 == 0 {
        spec_dec(v / 100)
    } else if v % 10 == 0 {
        spec_dec(v / 100) + "."@ + seq![dec_digit_char(v / 10 % 10)]
    } else {
        spec_dec(v / 100) + "."@ + seq![dec_digit_char(v / 10 % 10), dec_digit_char(v % 10)]
    }
}

/// A signed centidegree value as a degree string.
pub open spec fn spec_cdeg_str(v: int) -> Seq<char> {
    if v >= 0 {
        spec_centi_str(v)
    } else {
        "-"@ + spec_centi_str(-v)
    }
}

/// Append a nonnegative wide centi-unit value as a decimal string.
pub fn push_centi_u128(out: &mut String, v: u128)
    ensures
        final (out)@ == old(out)@ + spec_centi_str(v as int),
{
    push_dec_u128(out, v / 100);
    let fr = (v % 100) as u64;
    if fr != 0 {
        out.append(".");
        out.append(crate::strutil::dec_digit_str(fr / 10));
        if fr % 10 != 0 {
            out.append(crate::strutil::dec_digit_str(fr % 10));
        }
    }
    proof {
        assert(final (out)@ =~= old(out)@ + spec_centi_str(v as int));
    }
}

/// Append a signed centidegree value as a degree string.
pub fn push_cdeg(out: &mut String, v: i64)
    ensures
        final (out)@ == old(out)@ + spec_cdeg_str(v as int),
{
    if v >= 0 {
        push_centi_u128(out, v as u128);
    } else {
        out.append("-");
        let mag: u128 = ((-(v as i128)) as u128);
        push_centi_u128(out, mag);
        proof {
            assert(old(out)@ + spec_cdeg_str(v as int) =~= (old(out)@ + "-"@) + spec_centi_str(
                mag as int,
            ));
        }
    }
}

/// A list of unsigned bytes in the shape the report uses: bracketed,
/// comma-and-space separated decimal values.
pub open spec fn spec_u8_list_str(s: Seq<u8>) -> Seq<char> {
    "["@ + spec_join(s.map_values(|b: u8| spec_dec(b as int)), ", "@) + "]"@
}

/// Format a list of unsigned bytes.
pub fn u8_list_str(s: &Vec<u8>) -> (r: String)
    ensures
        r@ == spec_u8_list_str(s@),
{
    let ghost parts = s@.map_values(|b: u8| spec_dec(b as int));
    let mut r = String::new();
    r.append("[");
    let mut k: usize = 0;
    proof {
        assert(Seq::<char>::empty() + "["@ =~= "["@);
        assert(parts.take(0) =~= Seq::<Seq<char>>::empty());
    }
    while k < s.len()
        invariant
            0 <= k <= s@.len(),
            parts == s@.map_values(|b: u8| spec_dec(b as int)),
            r@ == "["@ + spec_join(parts.take(k as int), ", "@),
        decreases s@.len() - k,
    {
        let ghost pre = parts.take(k as int);
        if k > 0 {
            r.append(", ");
        }
        push_dec_u64(&mut r, s[k] as u64);
        proof {
            assert(parts.take(k + 1) =~= pre.push(parts[k as int]));
            lemma_join_push(pre, parts[k as int], ", "@);
            assert(r@ =~= "["@ + spec_join(parts.take(k + 1), ", "@));
        }
        k = k + 1;
    }
    r.append("]");
    proof {
        assert(parts.take(s@.len() as int) =~= parts);
        assert(r@ =~= spec_u8_list_str(s@));
    }
    r
}

/// A list of signed readings in the shape the report uses.
pub open spec fn spec_i32_list_str(s: Seq<i32>) -> Seq<char> {
    "["@ + spec_join(s.map_values(|b: i32| spec_dec_signed(b as int)), ", "@) + "]"@
}

/// Format a list of signed readings.
pub fn i32_list_str(s: &Vec<i32>) -> (r: String)
    ensures
        r@ == spec_i32_list_str(s@),
{
    let ghost parts = s@.map_values(|b: i32| spec_dec_signed(b as int));
    let mut r = String::new();
    r.append("[");
    let mut k: usize = 0;
    proof {
        assert(Seq::<char>::empty() + "["@ =~= "["@);
        assert(parts.take(0) =~= Seq::<Seq<char>>::empty());
    }
    while k < s.len()
        invariant
            0 <= k <= s@.len(),
            parts == s@.map_values(|b: i32| spec_dec_signed(b as int)),
            r@ == "["@ + spec_join(parts.take(k as int), ", "@),
        decreases s@.len() - k,
    {
        let ghost pre = parts.take(k as int);
        if k > 0 {
            r.append(", ");
        }
        push_dec_i64(&mut r, s[k] as i64);
        proof {
            assert(parts.take(k + 1) =~= pre.push(parts[k as int]));
            lemma_join_push(pre, parts[k as int], ", "@);
            assert(r@ =~= "["@ + spec_join(parts.take(k + 1), ", "@));
        }
        k = k + 1;
    }
    r.append("]");
    proof {
        assert(parts.take(s@.len() as int) =~= parts);
        assert(r@ =~= spec_i32_list_str(s@));
    }
    r
}

/// One antenna report entry: the position, an equals sign, the ten signal
/// readings.
pub open spec fn spec_ant_entry(ant: u8, rssi: Seq<u8>) -> Seq<char> {
    spec_dec(ant as int) + "="@ + spec_u8_list_str(rssi)
}

/// Format one antenna report entry.
pub fn ant_result_entry(ant: u8, rssi: &Vec<u8>) -> (r: String)
    ensures
        r@ == spec_ant_entry(ant, rssi@),
{
    let mut r = String::new();
    push_dec_u64(&mut r, ant as u64);
    r.append("=");
    let lst = u8_list_str(rssi);
    r.append(lst.as_str());
    proof {
        assert(r@ =~= spec_ant_entry(ant, rssi@));
        assert(Seq::<char>::empty() + spec_dec(ant as int) =~= spec_dec(ant as int));
    }
    r
}

/// One sensor report entry: the axis name, an equals sign, the three
/// signed readings.
pub open spec fn spec_sensor_entry(pos: u8, vals: Seq<i32>) -> Seq<char> {
    spec_axis_name(pos) + "="@ + spec_i32_list_str(vals)
}

/// Format one sensor report entry.
pub fn sensor_result_entry(pos: u8, vals: &Vec<i32>) -> (r: String)
    ensures
        r@ == spec_sensor_entry(pos, vals@),
{
    let mut r = String::new();
    if pos == 0 {
        r.append("senx");
    } else if pos == 1 {
        r.append("seny");
    } else {
        r.append("senz");
    }
    r.append("=");
    let lst = i32_list_str(vals);
    r.append(lst.as_str());
    proof {
        assert(Seq::<char>::empty() + spec_axis_name(pos) =~= spec_axis_name(pos));
        assert(r@ =~= spec_sensor_entry(pos, vals@));
    }
    r
}

/// A hardware address as colon-joined two-digit hexadecimal bytes.
pub open spec fn spec_mac_hex(s: Seq<u8>) -> Seq<char> {
    spec_join(s.map_values(|b: u8| spec_byte_hex(b as int)), ":"@)
}

/// Format a hardware address, two lower-case hexadecimal digits per byte,
/// joined with colons.
pub fn mac2hex(bytes: &Vec<u8>) -> (r: String)
    ensures
        r@ == spec_mac_hex(bytes@),
{
    let ghost parts = bytes@.map_values(|b: u8| spec_byte_hex(b as int));
    let mut r = String::new();
    let mut k: usize = 0;
    proof {
        assert(parts.take(0) =~= Seq::<Seq<char>>::empty());
        assert(r@ =~= spec_join(parts.take(0), ":"@));
    }
    while k < bytes.len()
        invariant
            0 <= k <= bytes@.len(),
            parts == bytes@.map_values(|b: u8| spec_byte_hex(b as int)),
            r@ == spec_join(parts.take(k as int), ":"@),
        decreases bytes@.len() - k,
    {
        let ghost pre = parts.take(k as int);
        if k > 0 {
            r.append(":");
        }
        push_byte_hex(&mut r, bytes[k]);
        proof {
            assert(parts.take(k + 1) =~= pre.push(parts[k as int]));
            lemma_join_push(pre, parts[k as int], ":"@);
            assert(r@ =~= spec_join(parts.take(k + 1), ":"@));
        }
        k = k + 1;
    }
    proof {
        assert(parts.take(bytes@.len() as int) =~= parts);
    }
    r
}

/// A tag key as hyphen-joined two-digit hexadecimal bytes.
pub open spec fn spec_hex_key(s: Seq<u8>) -> Seq<char> {
    spec_join(s.map_values(|b: u8| spec_byte_hex(b as int)), "-"@)
}

/// Format a tag key, two lower-case hexadecimal digits per byte, joined
/// with hyphens.
pub fn hex_key(bytes: &Vec<u8>) -> (r: String)
    ensures
        r@ == spec_hex_key(bytes@),
{
    let ghost parts = bytes@.map_values(|b: u8| spec_byte_hex(b as int));
    let mut r = String::new();
    let mut k: usize = 0;
    proof {
        assert(parts.take(0) =~= Seq::<Seq<char>>::empty());
        assert(r@ =~= spec_join(parts.take(0), "-"@));
    }
    while k < bytes.len()
        invariant
            0 <= k <= bytes@.len(),
            parts == bytes@.map_values(|b: u8| spec_byte_hex(b as int)),
            r@ == spec_join(parts.take(k as int), "-"@),
        decreases bytes@.len() - k,
    {
        let ghost pre = parts.take(k as int);
        if k > 0 {
            r.append("-");
        }
        push_byte_hex(&mut r, bytes[k]);
        proof {
            assert(parts.take(k + 1) =~= pre.push(parts[k as int]));
            lemma_join_push(pre, parts[k as int], "-"@);
            assert(r@ =~= spec_join(parts.take(k + 1), "-"@));
        }
        k = k + 1;
    }
    proof {
        assert(parts.take(bytes@.len() as int) =~= parts);
    }
    r
}

/// A character that the tag-key cleanup strips at both ends: the brackets
/// and the space.
pub open spec fn is_bkt_char(c: char) -> bool {
    c == '[' || c == ']' || c == ' '
}

/// The tag key with brackets and spaces removed at both ends.
pub open spec fn spec_bkt_trim(k: Seq<char>) -> Seq<char> {
    spec_trim_by(k, |c: char| is_bkt_char(c))
}

/// Executable test for [`is_bkt_char`].
fn bkt_char(c: char) -> (r: bool)
    ensures
        r == is_bkt_char(c),
{
    c == '[' || c == ']' || c == ' '
}

/// Strip brackets and spaces at both ends of a tag key.
pub fn bkt_trim<'a>(s: &'a str) -> (r: &'a str)
    ensures
        r@ == spec_bkt_trim(s@),
{
    let ghost p = |c: char| is_bkt_char(c);
    let len = s.unicode_len();
    let mut a: usize = 0;
    while a < len && bkt_char(s.get_char(a))
        invariant
            0 <= a <= len,
            len == s@.len(),
            forall|k: int| 0 <= k < a ==> is_bkt_char(s@[k]),
        decreases len - a,
    {
        a = a + 1;
    }
    proof {
        lemma_trim_start_by_at(s@, p, a as int);
    }
    let mut b: usize = len;
    while b > a && bkt_char(s.get_char(b - 1))
        invariant
            a <= b <= len,
            len == s@.len(),
            forall|k: int| b <= k < len ==> is_bkt_char(s@[k]),
        decreases b,
    {
        b = b - 1;
    }
    proof {
        let t = s@.subrange(a as int, len as int);
        assert(forall|k: int| b - a <= k < t.len() ==> is_bkt_char(#[trigger] t[k]));
        if b > a {
            assert(!is_bkt_char(t[b - a - 1]));
        }
        lemma_trim_end_by_at(t, p, b - a as int);
        assert(t.subrange(0, b - a as int) =~= s@.subrange(a as int, b as int));
    }
    s.substring_char(a, b)
}

/// One comma piece of a tag key reads as a byte: after trimming, an
/// optional plus sign and base-ten digits whose value fits.
pub open spec fn piece_ok(p: Seq<char>) -> bool {
    let b = spec_num_body(spec_trim(p));
    b.len() > 0 && all_dec_digits(b) && spec_dec_value(b) <= 255
}

/// The byte one comma piece holds.
pub open spec fn piece_val(p: Seq<char>) -> int {
    spec_dec_value(spec_num_body(spec_trim(p)))
}

/// Every comma piece of the bracket-trimmed key reads as a byte.
pub open spec fn key_ok(k: Seq<char>) -> bool {
    forall|i: int|
        0 <= i < spec_split(spec_bkt_trim(k), ',').len() ==> piece_ok(
            #[trigger] spec_split(spec_bkt_trim(k), ',')[i],
        )
}

/// The bytes of a tag key.
pub open spec fn key_bytes(k: Seq<char>) -> Seq<u8> {
    spec_split(spec_bkt_trim(k), ',').map_values(|p: Seq<char>| piece_val(p) as u8)
}

/// The normalized form of a tag key: its bytes as hyphen-joined
/// hexadecimal.
pub open spec fn hexkey_of(k: Seq<char>) -> Seq<char> {
    spec_hex_key(key_bytes(k))
}

/// Read the bytes out of one tag key: strip the brackets, split at commas,
/// read each trimmed piece as a base-ten byte. A piece that is not a byte
/// makes the whole key a decode error.
pub fn parse_key(k: &str) -> (r: Result<Vec<u8>, StationError>)
    ensures
        r is Ok <==> key_ok(k@),
        r matches Err(e) ==> e == StationError::Decode,
        r matches Ok(v) ==> v@ == key_bytes(k@),
{
    let clean = bkt_trim(k);
    let pieces = split_char(clean, ',');
    let ghost ps = spec_split(spec_bkt_trim(k@), ',');
    proof {
        assert(views(pieces@) == ps);
    }
    let mut out: Vec<u8> = Vec::new();
    let mut i: usize = 0;
    while i < pieces.len()
        invariant
            0 <= i <= pieces@.len(),
            ps == spec_split(spec_bkt_trim(k@), ','),
            views(pieces@) == ps,
            out@.len() == i,
            forall|m: int| 0 <= m < i ==> piece_ok(#[trigger] ps[m]),
            forall|m: int| 0 <= m < i ==> (#[trigger] out@[m]) as int == piece_val(ps[m]),
        decreases pieces@.len() - i,
    {
        proof {
            assert(pieces@[i as int]@ == ps[i as int]);
        }
        let t = trim(pieces[i].as_str());
        match parse_dec_u8(t) {
            Some(b) => {
                out.push(b);
            },
            None => {
                proof {
                    assert(!piece_ok(ps[i as int]));
                }
                return Err(StationError::Decode);
            },
        }
        i = i + 1;
    }
    proof {
        assert(out@ =~= key_bytes(k@));
    }
    Ok(out)
}

/// A configured tag-id text reads as an identifier: trimmed, hyphens
/// removed, an optional plus sign, then base-sixteen digits in either case
/// whose value fits.
pub open spec fn eslid_ok(k: Seq<char>) -> bool {
    let b = spec_num_body(spec_remove_all(spec_trim(k), "-"@));
    b.len() > 0 && all_hex_digits(b) && spec_hex_value(b) <= u32::MAX
}

/// The identifier a configured tag-id text holds.
pub open spec fn eslid_val(k: Seq<char>) -> int {
    spec_hex_value(spec_num_body(spec_remove_all(spec_trim(k), "-"@)))
}

/// The identifiers a list of tag-id texts holds: the values of the texts
/// that read as identifiers, in order.
pub open spec fn eslid_extract(ks: Seq<Seq<char>>) -> Seq<u32> {
    ks.filter(|k: Seq<char>| eslid_ok(k)).map_values(|k: Seq<char>| eslid_val(k) as u32)
}

/// The identifiers held by a list of configured tag-id texts, in order,
/// texts that read as no identifier left out. Upper and lower case digits
/// read the same, so no case fold is needed before the base-sixteen read.
pub fn eslid_from_keys(keys: &Vec<String>) -> (r: Vec<u32>)
    ensures
        r@ == eslid_extract(views(keys@)),
{
    let ghost pred = |k: Seq<char>| eslid_ok(k);
    let ghost vmap = |k: Seq<char>| eslid_val(k) as u32;
    let mut r: Vec<u32> = Vec::new();
    let mut i: usize = 0;
    proof {
        reveal(Seq::filter);
        assert(views(keys@).take(0) =~= Seq::<Seq<char>>::empty());
        assert(r@ =~= views(keys@).take(0).filter(pred).map_values(vmap));
    }
    while i < keys.len()
        invariant
            0 <= i <= keys@.len(),
            pred == (|k: Seq<char>| eslid_ok(k)),
            vmap == (|k: Seq<char>| eslid_val(k) as u32),
            r@ == views(keys@).take(i as int).filter(pred).map_values(vmap),
        decreases keys@.len() - i,
    {
        let ghost all = views(keys@);
        let ghost kv = all[i as int];
        proof {
            assert(keys@[i as int]@ == kv);
            assert(all.take(i + 1).drop_last() =~= all.take(i as int));
            assert(all.take(i + 1).last() == kv);
        }
        let cleaned = remove_all(trim(keys[i].as_str()), "-");
        let parsed = parse_hex_u32(cleaned.as_str());
        proof {
            assert(cleaned@ == spec_remove_all(spec_trim(kv), "-"@));
        }
        match parsed {
            Some(v) => {
                proof {
                    reveal(Seq::filter);
                    let prev = all.take(i as int);
                    assert(pred(kv));
                    assert(all.take(i + 1).filter(pred) =~= prev.filter(pred).push(kv));
                    assert(r@.push(v) =~= all.take(i + 1).filter(pred).map_values(vmap));
                }
                r.push(v);
            },
            None => {
                proof {
                    reveal(Seq::filter);
                    let prev = all.take(i as int);
                    assert(!pred(kv));
                    assert(all.take(i + 1).filter(pred) =~= prev.filter(pred));
                }
            },
        }
        i = i + 1;
    }
    proof {
        assert(views(keys@).take(keys@.len() as int) =~= views(keys@));
    }
    r
}

/// The configured tag allowlist read out of a reference text: the JSON
/// object's keys, each read as a tag identifier, in the order the parser
/// handed the keys out. A text the parser refuses is a decode error.
/// `x` is the identifier of some readable key of the map the text
/// denotes.
pub open spec fn id_from_text(x: u32, s: Seq<char>) -> bool {
    exists|k: Seq<char>|
        #[trigger] angle_map_of(s).contains_key(k) && eslid_ok(k) && x as int == eslid_val(k)
}

/// The identifiers are exactly those read from the keys of the map the
/// text denotes: each is the identifier of some readable key, and every
/// readable key's identifier appears. The order is left open, as the map
/// walk's order is.
pub open spec fn ids_match_text(v: Seq<u32>, s: Seq<char>) -> bool {
    &&& forall|j: int| 0 <= j < v.len() ==> id_from_text(#[trigger] v[j], s)
    &&& forall|k: Seq<char>|
        #[trigger] angle_map_of(s).contains_key(k) && eslid_ok(k) ==> exists|j: int|
            0 <= j < v.len() && (#[trigger] v[j]) as int == eslid_val(k)
}

pub fn get_eslid_only(contents: &str) -> (r: Result<Vec<u32>, StationError>)
    ensures
        r is Ok <==> json_angle_ok(contents@),
        r matches Err(e) ==> e == StationError::Decode,
        r matches Ok(v) ==> ids_match_text(v@, contents@),
{
    let entries = match parse_angle_text(contents) {
        Ok(v) => v,
        Err(e) => {
            return Err(e);
        },
    };
    let mut keys: Vec<String> = Vec::new();
    let mut i: usize = 0;
    while i < entries.len()
        invariant
            0 <= i <= entries@.len(),
            keys@.len() == i,
            forall|m: int| 0 <= m < i ==> (#[trigger] keys@[m])@ == entries@[m].0@,
        decreases entries@.len() - i,
    {
        keys.push(entries[i].0.clone());
        i = i + 1;
    }
    let v = eslid_from_keys(&keys);
    proof {
        let kvs = views(keys@);
        let pred = |k: Seq<char>| eslid_ok(k);
        let vmap = |k: Seq<char>| eslid_val(k) as u32;
        let filtered = kvs.filter(pred);
        assert(v@ == filtered.map_values(vmap));
        assert(kvs.len() == entries@.len());
        assert(forall|m: int| 0 <= m < kvs.len() ==> #[trigger] kvs[m] == entries@[m].0@);
        assert forall|j: int| 0 <= j < v@.len() implies id_from_text(#[trigger] v@[j], contents@) by {
            kvs.lemma_filter_pred(pred, j);
            crate::strutil::lemma_filter_members(kvs, pred, j);
            let i0 = choose|i0: int| 0 <= i0 < kvs.len() && #[trigger] kvs[i0] == filtered[j];
            let k = filtered[j];
            assert((entries@[i0]).0@ == k);
            assert(angle_map_of(contents@).contains_key(k));
            assert(eslid_ok(k));
            assert(v@[j] == vmap(k));
            crate::strutil::lemma_hex_value_nonneg(
                crate::strutil::spec_num_body(
                    crate::strutil::spec_remove_all(crate::strutil::spec_trim(k), "-"@),
                ),
            );
            assert(v@[j] as int == eslid_val(k));
            assert(id_from_text(v@[j], contents@));
        }
        assert forall|k: Seq<char>|
            #[trigger] angle_map_of(contents@).contains_key(k) && eslid_ok(k) implies exists|j: int|
            0 <= j < v@.len() && (#[trigger] v@[j]) as int == eslid_val(k) by {
            let i0 = choose|i0: int|
                0 <= i0 < entries@.len() && (#[trigger] entries@[i0]).0@ == k;
            assert(kvs[i0] == k);
            kvs.lemma_filter_contains(pred, i0);
            assert(filtered.contains(k));
            let j = choose|j: int| 0 <= j < filtered.len() && #[trigger] filtered[j] == k;
            assert(v@[j] == vmap(k));
            crate::strutil::lemma_hex_value_nonneg(
                crate::strutil::spec_num_body(
                    crate::strutil::spec_remove_all(crate::strutil::spec_trim(k), "-"@),
                ),
            );
            assert(v@[j] as int == eslid_val(k));
        }
        assert(ids_match_text(v@, contents@));
    }
    Ok(v)
}

/// The entries of an angle map as view pairs.
pub open spec fn entry_views(s: Seq<(String, Vec<(u32, u32)>)>) -> Seq<
    (Seq<char>, Seq<(u32, u32)>),
> {
    s.map_values(|e: (String, Vec<(u32, u32)>)| (e.0@, e.1@))
}

/// The first index whose key is `k`, or the length when no entry has it.
pub open spec fn spec_find(m: Seq<(Seq<char>, Seq<(u32, u32)>)>, k: Seq<char>) -> int
    decreases m.len(),
{
    if m.len() == 0 {
        0
    } else if m.first().0 == k {
        0
    } else {
        1 + spec_find(m.drop_first(), k)
    }
}

proof fn lemma_spec_find(m: Seq<(Seq<char>, Seq<(u32, u32)>)>, k: Seq<char>)
    ensures
        0 <= spec_find(m, k) <= m.len(),
        forall|j: int| 0 <= j < spec_find(m, k) ==> (#[trigger] m[j]).0 != k,
        spec_find(m, k) < m.len() ==> m[spec_find(m, k)].0 == k,
    decreases m.len(),
{
    if m.len() > 0 && m.first().0 != k {
        lemma_spec_find(m.drop_first(), k);
        assert forall|j: int| 0 <= j < spec_find(m, k) implies (#[trigger] m[j]).0 != k by {
            if j > 0 {
                assert(m.drop_first()[j - 1] == m[j]);
            }
        }
    }
}

/// The map with `k` bound to `v`: the first entry with that key replaced,
/// or a new entry at the end.
pub open spec fn spec_upsert(
    m: Seq<(Seq<char>, Seq<(u32, u32)>)>,
    k: Seq<char>,
    v: Seq<(u32, u32)>,
) -> Seq<(Seq<char>, Seq<(u32, u32)>)> {
    let i = spec_find(m, k);
    if i < m.len() {
        m.update(i, (k, v))
    } else {
        m.push((k, v))
    }
}

/// The angle map after normalizing every key in order: each source key's
/// bytes as hyphen-joined hexadecimal, a later duplicate overwriting an
/// earlier one.
pub open spec fn spec_normalize(src: Seq<(Seq<char>, Seq<(u32, u32)>)>) -> Seq<
    (Seq<char>, Seq<(u32, u32)>),
>
    decreases src.len(),
{
    if src.len() == 0 {
        Seq::<(Seq<char>, Seq<(u32, u32)>)>::empty()
    } else {
        spec_upsert(
            spec_normalize(src.drop_last()),
            hexkey_of(src.last().0),
            src.last().1,
        )
    }
}

/// An owned copy of a vector of angle pairs.
fn copy_pairs(v: &Vec<(u32, u32)>) -> (r: Vec<(u32, u32)>)
    ensures
        r@ == v@,
{
    let mut r: Vec<(u32, u32)> = Vec::new();
    let mut i: usize = 0;
    while i < v.len()
        invariant
            0 <= i <= v@.len(),
            r@ == v@.subrange(0, i as int),
        decreases v@.len() - i,
    {
        r.push(v[i]);
        proof {
            assert(v@.subrange(0, i + 1) =~= v@.subrange(0, i as int).push(v@[i as int]));
        }
        i = i + 1;
    }
    proof {
        assert(v@.subrange(0, v@.len() as int) =~= v@);
    }
    r
}

/// Bind `key` to `val` in the assoc map, replacing the first entry with
/// that key if one exists.
fn upsert(m: &mut Vec<(String, Vec<(u32, u32)>)>, key: String, val: Vec<(u32, u32)>)
    ensures
        entry_views(final (m)@) == spec_upsert(entry_views(old(m)@), key@, val@),
{
    let ghost mv = entry_views(old(m)@);
    let mut i: usize = 0;
    while i < m.len()
        invariant
            0 <= i <= m@.len(),
            m@ == old(m)@,
            mv == entry_views(old(m)@),
            forall|j: int| 0 <= j < i ==> (#[trigger] mv[j]).0 != key@,
        decreases m@.len() - i,
    {
        proof {
            assert(mv[i as int].0 == m@[i as int].0@);
        }
        if m[i].0 == key {
            proof {
                lemma_spec_find(mv, key@);
                assert(spec_find(mv, key@) == i);
            }
            m.remove(i);
            m.insert(i, (key, val));
            proof {
                assert(entry_views(final (m)@) =~= mv.update(i as int, (key@, val@)));
            }
            return ;
        }
        i = i + 1;
    }
    proof {
        lemma_spec_find(mv, key@);
        assert(spec_find(mv, key@) == mv.len());
    }
    m.push((key, val));
    proof {
        assert(entry_views(final (m)@) =~= mv.push((key@, val@)));
    }
}

/// Normalize every key of a parsed angle map: read each key's bytes and
/// rewrite it as hyphen-joined hexadecimal, a later duplicate overwriting
/// an earlier one. A key that does not read as bytes is a decode error.
pub fn eight_normalize(src: &Vec<(String, Vec<(u32, u32)>)>) -> (r: Result<
    Vec<(String, Vec<(u32, u32)>)>,
    StationError,
>)
    ensures
        r is Ok <==> (forall|i: int| 0 <= i < src@.len() ==> key_ok((#[trigger] src@[i]).0@)),
        r matches Err(e) ==> e == StationError::Decode,
        r matches Ok(m) ==> entry_views(m@) == spec_normalize(entry_views(src@)),
{
    let ghost sv = entry_views(src@);
    let mut m: Vec<(String, Vec<(u32, u32)>)> = Vec::new();
    let mut i: usize = 0;
    proof {
        assert(sv.take(0) =~= Seq::<(Seq<char>, Seq<(u32, u32)>)>::empty());
        assert(entry_views(m@) =~= spec_normalize(sv.take(0)));
    }
    while i < src.len()
        invariant
            0 <= i <= src@.len(),
            sv == entry_views(src@),
            forall|j: int| 0 <= j < i ==> key_ok((#[trigger] src@[j]).0@),
            entry_views(m@) == spec_normalize(sv.take(i as int)),
        decreases src@.len() - i,
    {
        proof {
            assert(sv[i as int] == (src@[i as int].0@, src@[i as int].1@));
        }
        let bytes = match parse_key(src[i].0.as_str()) {
            Ok(b) => b,
            Err(_) => {
                return Err(StationError::Decode);
            },
        };
        let hk = hex_key(&bytes);
        let vals = copy_pairs(&src[i].1);
        proof {
            assert(hk@ == hexkey_of(sv[i as int].0));
            assert(sv.take(i + 1).drop_last() =~= sv.take(i as int));
            assert(sv.take(i + 1).last() == sv[i as int]);
        }
        upsert(&mut m, hk, vals);
        i = i + 1;
    }
    proof {
        assert(sv.take(src@.len() as int) =~= sv);
    }
    Ok(m)
}

/// A key occurs in a list of keys.
pub open spec fn key_in(keys: Seq<Seq<char>>, k: Seq<char>) -> bool {
    exists|j: int| 0 <= j < keys.len() && #[trigger] keys[j] == k
}

/// Keep only the entries whose key the reference names, in order.
pub fn eight_get_txt_src_data(
    src: &Vec<(String, Vec<(u32, u32)>)>,
    allowed: &Vec<String>,
) -> (r: Vec<(String, Vec<(u32, u32)>)>)
    ensures
        entry_views(r@) == entry_views(src@).filter(
            |e: (Seq<char>, Seq<(u32, u32)>)| key_in(views(allowed@), e.0),
        ),
{
    let ghost sv = entry_views(src@);
    let ghost pred = |e: (Seq<char>, Seq<(u32, u32)>)| key_in(views(allowed@), e.0);
    let mut r: Vec<(String, Vec<(u32, u32)>)> = Vec::new();
    let mut i: usize = 0;
    proof {
        reveal(Seq::filter);
        assert(sv.take(0) =~= Seq::<(Seq<char>, Seq<(u32, u32)>)>::empty());
        assert(entry_views(r@) =~= sv.take(0).filter(pred));
    }
    while i < src.len()
        invariant
            0 <= i <= src@.len(),
            sv == entry_views(src@),
            pred == (|e: (Seq<char>, Seq<(u32, u32)>)| key_in(views(allowed@), e.0)),
            entry_views(r@) == sv.take(i as int).filter(pred),
        decreases src@.len() - i,
    {
        let ghost e = sv[i as int];
        proof {
            assert(e == (src@[i as int].0@, src@[i as int].1@));
            assert(sv.take(i + 1).drop_last() =~= sv.take(i as int));
            assert(sv.take(i + 1).last() == e);
        }
        let mut found = false;
        let mut j: usize = 0;
        while j < allowed.len() && !found
            invariant
                0 <= j <= allowed@.len(),
                0 <= i < src@.len(),
                e == entry_views(src@)[i as int],
                found ==> key_in(views(allowed@), e.0),
                !found ==> forall|t: int| 0 <= t < j ==> #[trigger] views(allowed@)[t] != e.0,
            decreases allowed@.len() - j + (if found { 0int } else { 1int }),
        {
            proof {
                assert(views(allowed@)[j as int] == allowed@[j as int]@);
            }
            if allowed[j] == src[i].0 {
                found = true;
            } else {
                j = j + 1;
            }
        }
        if found {
            let key = src[i].0.clone();
            let vals = copy_pairs(&src[i].1);
            proof {
                reveal(Seq::filter);
                assert(pred(e));
                assert(sv.take(i + 1).filter(pred) =~= sv.take(i as int).filter(pred).push(e));
                assert(entry_views(r@.push((key, vals))) =~= entry_views(r@).push(
                    (key@, vals@),
                ));
                assert(entry_views(r@).push((key@, vals@)) =~= sv.take(i + 1).filter(pred));
            }
            r.push((key, vals));
        } else {
            proof {
                reveal(Seq::filter);
                assert(!pred(e));
                assert(sv.take(i + 1).filter(pred) =~= sv.take(i as int).filter(pred));
            }
        }
        i = i + 1;
    }
    proof {
        assert(sv.take(src@.len() as int) =~= sv);
    }
    r
}

/// The azimuth samples of one tag, in millidegrees.
pub open spec fn xs_of(src: Seq<(u32, u32)>) -> Seq<int> {
    src.map_values(|p: (u32, u32)| p.0 as int)
}

/// The elevation samples of one tag, in millidegrees.
pub open spec fn ys_of(src: Seq<(u32, u32)>) -> Seq<int> {
    src.map_values(|p: (u32, u32)| p.1 as int)
}

/// The rounded centidegree mean of one axis: the first tag's azimuth fold
/// is applied for index zero.
pub open spec fn spec_avg_cdeg(vals: Seq<int>, idx: int) -> int {
    round_div(
        spec_sum(
            if idx == 0 {
                fold_all(vals)
            } else {
                vals
            },
        ),
        10 * vals.len() as int,
    )
}

/// The variance text of one axis: zero when fewer than two samples exist,
/// else the exact variance ratio rounded to two decimal places.
pub open spec fn spec_var_str(vals: Seq<int>) -> Seq<char> {
    let n = vals.len() as int;
    if n <= 1 {
        "0"@
    } else {
        spec_centi_str(round_div(spec_var_num(vals), n * n * (n - 1) * 10000))
    }
}

/// The per-tag statistics text: greatest, least, mean and variance of the
/// azimuth, then the same of the elevation. A tag without samples reports
/// the empty-fold values.
pub open spec fn spec_calc_maxi(idx: int, src: Seq<(u32, u32)>) -> Seq<char> {
    if src.len() == 0 {
        "azi_max=-inf,aze_min=inf,aze_avg=NaN,aze_variance=0,ele_max=-inf,ele_min=inf,ele_avg=NaN,ele_variance=0"@
    } else {
        let xs = xs_of(src);
        let ys = ys_of(src);
        "azi_max="@ + spec_mdeg_str(spec_max(xs)) + ",aze_min="@ + spec_mdeg_str(spec_min(xs))
            + ",aze_avg="@ + spec_cdeg_str(spec_avg_cdeg(xs, idx)) + ",aze_variance="@
            + spec_var_str(xs) + ",ele_max="@ + spec_mdeg_str(spec_max(ys)) + ",ele_min="@
            + spec_mdeg_str(spec_min(ys)) + ",ele_avg="@ + spec_cdeg_str(spec_avg_cdeg(ys, idx))
            + ",ele_variance="@ + spec_var_str(ys)
    }
}

fn axis_vals(src: &Vec<(u32, u32)>, azimuth: bool) -> (r: Vec<i64>)
    ensures
        azimuth ==> ints(r@) == xs_of(src@),
        !azimuth ==> ints(r@) == ys_of(src@),
        r@.len() == src@.len(),
        samples_bounded(r@),
        forall|k: int| 0 <= k < r@.len() ==> 0 <= (#[trigger] r@[k]) as int,
{
    let mut r: Vec<i64> = Vec::new();
    let mut i: usize = 0;
    while i < src.len()
        invariant
            0 <= i <= src@.len(),
            r@.len() == i,
            forall|k: int|
                0 <= k < i ==> (#[trigger] r@[k]) as int == (if azimuth {
                    src@[k].0 as int
                } else {
                    src@[k].1 as int
                }),
            forall|k: int| 0 <= k < i ==> 0 <= (#[trigger] r@[k]) as int <= 0xFFFF_FFFF,
        decreases src@.len() - i,
    {
        let p = src[i];
        if azimuth {
            r.push(p.0 as i64);
        } else {
            r.push(p.1 as i64);
        }
        i = i + 1;
    }
    proof {
        if azimuth {
            assert(ints(r@) =~= xs_of(src@));
        } else {
            assert(ints(r@) =~= ys_of(src@));
        }
    }
    r
}

/// Append the variance text of one axis.
fn push_axis_var(out: &mut String, vals: &Vec<i64>)
    requires
        len_ok(vals@),
        samples_bounded(vals@),
    ensures
        final (out)@ == old(out)@ + spec_var_str(ints(vals@)),
{
    match eight_calculate_variance(vals) {
        None => {
            out.append("0");
        },
        Some((num, den)) => {
            let nu = num as u128;
            let d: u128 = (den as u128) * 10000;
            let centi: u128 = (2 * nu + d) / (2 * d);
            proof {
                let n = vals@.len() as int;
                assert(ints(vals@).len() == n);
                assert(d as int == n * n * (n - 1) * 10000);
                assert(centi as int == round_div(spec_var_num(ints(vals@)), d as int));
            }
            push_centi_u128(out, centi);
        },
    }
}

/// The per-tag statistics text.
pub fn eight_calc_maxi(idx: usize, src: &Vec<(u32, u32)>) -> (r: String)
    requires
        src@.len() <= 1_000_000,
    ensures
        r@ == spec_calc_maxi(idx as int, src@),
{
    if src.len() == 0 {
        return (
        "azi_max=-inf,aze_min=inf,aze_avg=NaN,aze_variance=0,ele_max=-inf,ele_min=inf,ele_avg=NaN,ele_variance=0").to_owned();
    }
    let xs = axis_vals(src, true);
    let ys = axis_vals(src, false);
    proof {
        assert(forall|k: int|
            0 <= k < ints(xs@).len() ==> 0 <= #[trigger] ints(xs@)[k] <= 5_000_000_000);
        assert(forall|k: int|
            0 <= k < ints(ys@).len() ==> 0 <= #[trigger] ints(ys@)[k] <= 5_000_000_000);
        crate::stats::lemma_max_min_range(ints(xs@), 0, 5_000_000_000);
        crate::stats::lemma_max_min_range(ints(ys@), 0, 5_000_000_000);
    }
    let azi_max = max_of(&xs);
    let azi_min = min_of(&xs);
    let azi_avg = if idx == 0 {
        calc_avg_index0(&xs)
    } else {
        calculate_mean(&xs)
    };
    let ele_max = max_of(&ys);
    let ele_min = min_of(&ys);
    let ele_avg = if idx == 0 {
        calc_avg_index0(&ys)
    } else {
        calculate_mean(&ys)
    };
    let mut r = String::new();
    r.append("azi_max=");
    push_mdeg(&mut r, azi_max);
    r.append(",aze_min=");
    push_mdeg(&mut r, azi_min);
    r.append(",aze_avg=");
    push_cdeg(&mut r, azi_avg);
    r.append(",aze_variance=");
    push_axis_var(&mut r, &xs);
    r.append(",ele_max=");
    push_mdeg(&mut r, ele_max);
    r.append(",ele_min=");
    push_mdeg(&mut r, ele_min);
    r.append(",ele_avg=");
    push_cdeg(&mut r, ele_avg);
    r.append(",ele_variance=");
    push_axis_var(&mut r, &ys);
    proof {
        assert(r@ =~= spec_calc_maxi(idx as int, src@));
    }
    r
}

/// The reference entries as view pairs.
pub open spec fn ref_views(r: Seq<(String, String)>) -> Seq<(Seq<char>, Seq<char>)> {
    r.map_values(|e: (String, String)| (e.0@, e.1@))
}

/// A key the reference names.
pub open spec fn in_ref(refv: Seq<(Seq<char>, Seq<char>)>, k: Seq<char>) -> bool {
    exists|j: int| 0 <= j < refv.len() && (#[trigger] refv[j]).0 == k
}

/// The first reference index whose key is `k`, or the length when none is.
pub open spec fn spec_find_ref(refv: Seq<(Seq<char>, Seq<char>)>, k: Seq<char>) -> int
    decreases refv.len(),
{
    if refv.len() == 0 {
        0
    } else if refv.first().0 == k {
        0
    } else {
        1 + spec_find_ref(refv.drop_first(), k)
    }
}

proof fn lemma_spec_find_ref(refv: Seq<(Seq<char>, Seq<char>)>, k: Seq<char>)
    ensures
        0 <= spec_find_ref(refv, k) <= refv.len(),
        forall|j: int| 0 <= j < spec_find_ref(refv, k) ==> (#[trigger] refv[j]).0 != k,
        spec_find_ref(refv, k) < refv.len() ==> refv[spec_find_ref(refv, k)].0 == k,
    decreases refv.len(),
{
    if refv.len() > 0 && refv.first().0 != k {
        lemma_spec_find_ref(refv.drop_first(), k);
        assert forall|j: int| 0 <= j < spec_find_ref(refv, k) implies (#[trigger] refv[j]).0
            != k by {
            if j > 0 {
                assert(refv.drop_first()[j - 1] == refv[j]);
            }
        }
    }
}

/// The expected azimuth text the reference holds for a key it names.
pub open spec fn exp_of(refv: Seq<(Seq<char>, Seq<char>)>, k: Seq<char>) -> Seq<char> {
    refv[spec_find_ref(refv, k)].1
}

/// One line of the per-unit report: the tag key, its expected azimuth, the
/// quoted statistics text and the packet count.
pub open spec fn spec_report_line(
    idx: int,
    key: Seq<char>,
    exp: Seq<char>,
    samples: Seq<(u32, u32)>,
) -> Seq<char> {
    "esl="@ + key + ",exp_azi="@ + exp + ",data=\""@ + spec_calc_maxi(idx, samples)
        + "\",packnum="@ + spec_dec(samples.len() as int)
}

/// Look a key up in the reference: the expected-azimuth text of the first
/// entry with that key.
fn ref_lookup(reference: &Vec<(String, String)>, key: &String) -> (r: Option<String>)
    ensures
        r is Some <==> in_ref(ref_views(reference@), key@),
        r matches Some(e) ==> e@ == exp_of(ref_views(reference@), key@),
{
    let ghost rv = ref_views(reference@);
    let mut j: usize = 0;
    while j < reference.len()
        invariant
            0 <= j <= reference@.len(),
            rv == ref_views(reference@),
            forall|t: int| 0 <= t < j ==> (#[trigger] rv[t]).0 != key@,
        decreases reference@.len() - j,
    {
        proof {
            assert(rv[j as int] == (reference@[j as int].0@, reference@[j as int].1@));
        }
        if reference[j].0 == *key {
            proof {
                lemma_spec_find_ref(rv, key@);
                assert(spec_find_ref(rv, key@) == j);
            }
            return Some(reference[j].1.clone());
        }
        j = j + 1;
    }
    proof {
        lemma_spec_find_ref(rv, key@);
    }
    None
}

/// The normalized angle map restricted to the tags the reference names.
pub open spec fn spec_kept(
    sv: Seq<(Seq<char>, Seq<(u32, u32)>)>,
    rv: Seq<(Seq<char>, Seq<char>)>,
) -> Seq<(Seq<char>, Seq<(u32, u32)>)> {
    spec_normalize(sv).filter(|e: (Seq<char>, Seq<(u32, u32)>)| in_ref(rv, e.0))
}

/// The per-unit eight-direction report: normalize the tag keys, keep the
/// tags the reference names, and emit one line per kept tag, joined with
/// semicolons. A key that does not read as bytes, or a kept tag with more
/// samples than the statistics accept, is a decode error.
pub fn eight_get_data_rst(
    s: &Vec<(String, Vec<(u32, u32)>)>,
    reference: &Vec<(String, String)>,
) -> (r: Result<String, StationError>)
    ensures
        ({
            let sv = entry_views(s@);
            let rv = ref_views(reference@);
            let kept = spec_kept(sv, rv);
            let ok = (forall|i: int| 0 <= i < sv.len() ==> key_ok((#[trigger] sv[i]).0))
                && (forall|k: int| 0 <= k < kept.len() ==> (#[trigger] kept[k]).1.len()
                <= 1_000_000);
            &&& (r is Ok <==> ok)
            &&& (r matches Err(e) ==> e == StationError::Decode)
            &&& (r matches Ok(out) ==> out@ == spec_join(
                Seq::new(
                    kept.len(),
                    |k: int| spec_report_line(k, kept[k].0, exp_of(rv, kept[k].0), kept[k].1),
                ),
                ";"@,
            ))
        }),
{
    let ghost sv = entry_views(s@);
    let ghost rv = ref_views(reference@);
    let ghost pred = |e: (Seq<char>, Seq<(u32, u32)>)| in_ref(rv, e.0);
    let m = match eight_normalize(s) {
        Ok(m) => m,
        Err(_) => {
            proof {
                let i = choose|i: int| 0 <= i < s@.len() && !key_ok((#[trigger] s@[i]).0@);
                assert(sv[i].0 == s@[i].0@);
                assert(!key_ok(sv[i].0));
            }
            return Err(StationError::Decode);
        },
    };
    let ghost mv = entry_views(m@);
    let mut lines: Vec<String> = Vec::new();
    let mut i: usize = 0;
    proof {
        reveal(Seq::filter);
        assert(mv.take(0) =~= Seq::<(Seq<char>, Seq<(u32, u32)>)>::empty());
    }
    while i < m.len()
        invariant
            0 <= i <= m@.len(),
            sv == entry_views(s@),
            rv == ref_views(reference@),
            pred == (|e: (Seq<char>, Seq<(u32, u32)>)| in_ref(rv, e.0)),
            mv == entry_views(m@),
            mv == spec_normalize(sv),
            lines@.len() == mv.take(i as int).filter(pred).len(),
            forall|k: int|
                0 <= k < lines@.len() ==> (#[trigger] lines@[k])@ == spec_report_line(
                    k,
                    mv.take(i as int).filter(pred)[k].0,
                    exp_of(rv, mv.take(i as int).filter(pred)[k].0),
                    mv.take(i as int).filter(pred)[k].1,
                ),
            forall|k: int|
                0 <= k < mv.take(i as int).filter(pred).len() ==> (#[trigger] mv.take(
                    i as int,
                ).filter(pred)[k]).1.len() <= 1_000_000,
        decreases m@.len() - i,
    {
        let ghost e = mv[i as int];
        let ghost prevkept = mv.take(i as int).filter(pred);
        proof {
            assert(e == (m@[i as int].0@, m@[i as int].1@));
            assert(mv.take(i + 1).drop_last() =~= mv.take(i as int));
            assert(mv.take(i + 1).last() == e);
        }
        match ref_lookup(reference, &m[i].0) {
            Some(exp) => {
                proof {
                    reveal(Seq::filter);
                    assert(pred(e));
                    assert(mv.take(i + 1).filter(pred) =~= prevkept.push(e));
                }
                if m[i].1.len() > 1_000_000 {
                    proof {
                        let kept = spec_kept(sv, rv);
                        assert(mv.filter(pred) =~= mv.take(i + 1).filter(pred) + mv.skip(
                            i + 1,
                        ).filter(pred)) by {
                            assert(mv =~= mv.take(i + 1) + mv.skip(i + 1));
                            Seq::filter_distributes_over_add(
                                mv.take(i + 1),
                                mv.skip(i + 1),
                                pred,
                            );
                        }
                        assert(kept[prevkept.len() as int] == e);
                        assert(e.1.len() > 1_000_000);
                    }
                    return Err(StationError::Decode);
                }
                let mut line = String::new();
                line.append("esl=");
                line.append(m[i].0.as_str());
                line.append(",exp_azi=");
                line.append(exp.as_str());
                line.append(",data=\"");
                let stats = eight_calc_maxi(lines.len(), &m[i].1);
                line.append(stats.as_str());
                line.append("\",packnum=");
                push_dec_u64(&mut line, m[i].1.len() as u64);
                proof {
                    assert(line@ =~= spec_report_line(
                        lines@.len() as int,
                        e.0,
                        exp_of(rv, e.0),
                        e.1,
                    ));
                }
                lines.push(line);
            },
            None => {
                proof {
                    reveal(Seq::filter);
                    assert(!pred(e));
                    assert(mv.take(i + 1).filter(pred) =~= prevkept);
                }
            },
        }
        i = i + 1;
    }
    proof {
        assert(mv.take(mv.len() as int) =~= mv);
    }
    let out = crate::strutil::join_lines(&lines, ";");
    proof {
        reveal_strlit(";");
        assert(";"@ =~= seq![';']);
        let kept = spec_kept(sv, rv);
        assert(views(lines@) =~= Seq::new(
            kept.len(),
            |k: int| spec_report_line(k, kept[k].0, exp_of(rv, kept[k].0), kept[k].1),
        ));
    }
    Ok(out)
}

/// Where one unit's test run stands. The antenna phase walks the schedule
/// position by position; the sensor phase clamps, settles, probes the three
/// axes, waits and releases; then one eight-direction exchange, then the
/// report.
#[derive(PartialEq, Eq, Structural, Debug, Clone, Copy)]
pub enum FlowState {
    /// One antenna exchange per scheduled position, by schedule index.
    AntPhase { pos: usize },
    /// Clamp the unit.
    SensorGrab,
    /// Let the clamped unit settle.
    SensorSettle,
    /// Probe one sensor axis.
    SensorAxis { axis: u8 },
    /// Wait before releasing the unit.
    SensorWaitRelease,
    /// Release the unit.
    SensorRelease,
    /// The one eight-direction exchange.
    EightPhase,
    /// Emit the per-unit report.
    Reporting,
    /// The run is over: the report was emitted.
    Done,
    /// The run was abandoned: a phase failed.
    Failed,
}

/// What the orchestrator does in one state.
#[derive(PartialEq, Eq, Structural, Debug, Clone, Copy)]
pub enum FlowWork {
    /// Prime the fixture and exchange one antenna request, for this
    /// schedule index.
    RunAnt { pos: usize },
    /// Send the clamp line to the sensor fixture.
    Grab,
    /// Sleep this many seconds.
    Sleep { secs: u64 },
    /// Prime the fixture and exchange one sensor request for this axis.
    RunSensor { axis: u8 },
    /// Send the release line to the sensor fixture.
    Release,
    /// Exchange the eight-direction request and reduce its reply.
    RunEight,
    /// Join the collected results into the per-unit report.
    EmitReport,
    /// Nothing: the run is over.
    Idle,
}

/// The work one state asks for.
pub open spec fn spec_flow_work(s: FlowState) -> FlowWork {
    match s {
        FlowState::AntPhase { pos } => FlowWork::RunAnt { pos },
        FlowState::SensorGrab => FlowWork::Grab,
        FlowState::SensorSettle => FlowWork::Sleep { secs: 3 },
        FlowState::SensorAxis { axis } => FlowWork::RunSensor { axis },
        FlowState::SensorWaitRelease => FlowWork::Sleep { secs: 5 },
        FlowState::SensorRelease => FlowWork::Release,
        FlowState::EightPhase => FlowWork::RunEight,
        FlowState::Reporting => FlowWork::EmitReport,
        FlowState::Done => FlowWork::Idle,
        FlowState::Failed => FlowWork::Idle,
    }
}

/// The next state once the asked work succeeded or failed. An antenna
/// failure, a fixture failure around the sensor phase, and an
/// eight-direction failure abandon the run; a single sensor axis failure is
/// tolerated and the next axis is probed.
pub open spec fn spec_flow_step(s: FlowState, ok: bool) -> FlowState {
    match s {
        FlowState::AntPhase { pos } => {
            if !ok {
                FlowState::Failed
            } else if pos + 1 < 16 {
                FlowState::AntPhase { pos: (pos + 1) as usize }
            } else {
                FlowState::SensorGrab
            }
        },
        FlowState::SensorGrab => {
            if ok {
                FlowState::SensorSettle
            } else {
                FlowState::Failed
            }
        },
        FlowState::SensorSettle => FlowState::SensorAxis { axis: 0 },
        FlowState::SensorAxis { axis } => {
            if axis < 2 {
                FlowState::SensorAxis { axis: (axis + 1) as u8 }
            } else {
                FlowState::SensorWaitRelease
            }
        },
        FlowState::SensorWaitRelease => FlowState::SensorRelease,
        FlowState::SensorRelease => {
            if ok {
                FlowState::EightPhase
            } else {
                FlowState::Failed
            }
        },
        FlowState::EightPhase => {
            if ok {
                FlowState::Reporting
            } else {
                FlowState::Failed
            }
        },
        FlowState::Reporting => FlowState::Done,
        FlowState::Done => FlowState::Done,
        FlowState::Failed => FlowState::Failed,
    }
}

/// The state a fresh session starts in.
pub fn flow_start() -> (r: FlowState)
    ensures
        r == (FlowState::AntPhase { pos: 0usize }),
{
    FlowState::AntPhase { pos: 0 }
}

/// The work the current state asks for.
pub fn flow_work(s: FlowState) -> (r: FlowWork)
    ensures
        r == spec_flow_work(s),
{
    match s {
        FlowState::AntPhase { pos } => FlowWork::RunAnt { pos },
        FlowState::SensorGrab => FlowWork::Grab,
        FlowState::SensorSettle => FlowWork::Sleep { secs: 3 },
        FlowState::SensorAxis { axis } => FlowWork::RunSensor { axis },
        FlowState::SensorWaitRelease => FlowWork::Sleep { secs: 5 },
        FlowState::SensorRelease => FlowWork::Release,
        FlowState::EightPhase => FlowWork::RunEight,
        FlowState::Reporting => FlowWork::EmitReport,
        FlowState::Done => FlowWork::Idle,
        FlowState::Failed => FlowWork::Idle,
    }
}

/// Advance the session after the asked work succeeded or failed.
pub fn flow_step(s: FlowState, ok: bool) -> (r: FlowState)
    ensures
        r == spec_flow_step(s, ok),
{
    match s {
        FlowState::AntPhase { pos } => {
            if !ok {
                FlowState::Failed
            } else if pos < 15 {
                FlowState::AntPhase { pos: pos + 1 }
            } else {
                FlowState::SensorGrab
            }
        },
        FlowState::SensorGrab => {
            if ok {
                FlowState::SensorSettle
            } else {
                FlowState::Failed
            }
        },
        FlowState::SensorSettle => FlowState::SensorAxis { axis: 0 },
        FlowState::SensorAxis { axis } => {
            if axis < 2 {
                FlowState::SensorAxis { axis: axis + 1 }
            } else {
                FlowState::SensorWaitRelease
            }
        },
        FlowState::SensorWaitRelease => FlowState::SensorRelease,
        FlowState::SensorRelease => {
            if ok {
                FlowState::EightPhase
            } else {
                FlowState::Failed
            }
        },
        FlowState::EightPhase => {
            if ok {
                FlowState::Reporting
            } else {
                FlowState::Failed
            }
        },
        FlowState::Reporting => FlowState::Done,
        FlowState::Done => FlowState::Done,
        FlowState::Failed => FlowState::Failed,
    }
}

/// Law: as long as every exchange succeeds, the antenna phase visits the
/// whole schedule in order and only then hands over to the sensor phase;
/// the first failure abandons the run at once.
pub proof fn lemma_flow_antenna_order(pos: usize)
    requires
        pos < 16,
    ensures
        spec_flow_work(FlowState::AntPhase { pos }) == (FlowWork::RunAnt { pos }),
        pos + 1 < 16 ==> spec_flow_step(FlowState::AntPhase { pos }, true) == (FlowState::AntPhase {
            pos: (pos + 1) as usize,
        }),
        pos + 1 == 16 ==> spec_flow_step(FlowState::AntPhase { pos }, true)
            == FlowState::SensorGrab,
        spec_flow_step(FlowState::AntPhase { pos }, false) == FlowState::Failed,
{
}

/// Law: a sensor axis failure is tolerated: whatever one axis probe
/// returned, the next axis (or the release path) follows, and the release
/// line is reached without skipping.
pub proof fn lemma_flow_sensor_tolerance(axis: u8, ok: bool)
    requires
        axis <= 2,
    ensures
        axis < 2 ==> spec_flow_step(FlowState::SensorAxis { axis }, ok) == (FlowState::SensorAxis {
            axis: (axis + 1) as u8,
        }),
        axis == 2 ==> spec_flow_step(FlowState::SensorAxis { axis }, ok)
            == FlowState::SensorWaitRelease,
        spec_flow_step(FlowState::SensorWaitRelease, ok) == FlowState::SensorRelease,
{
}

} // verus!
