//! The binary frames of the control protocol.
//!
//! Every multi-byte integer is little-endian except the tag identifiers of
//! the eight-direction request, which are big-endian. A frame's `length`
//! field covers the command word, the payload and the trailing checksum;
//! a decoder rejects a frame whose length or checksum does not match.

use vstd::prelude::*;
use crate::crc::{crc32_range, spec_crc32};
use crate::StationError;

verus! {

/// The value held by two little-endian bytes.
pub open spec fn le16(b0: u8, b1: u8) -> int {
    b0 + 256 * b1
}

/// The value held by four little-endian bytes.
pub open spec fn le32(b0: u8, b1: u8, b2: u8, b3: u8) -> int {
    b0 + 256 * (b1 + 256 * (b2 + 256 * b3))
}

/// A thirty-two-bit unsigned value read back as two's-complement signed.
pub open spec fn as_signed32(v: int) -> int {
    if v < 0x8000_0000 {
        v
    } else {
        v - 0x1_0000_0000
    }
}

/// The value held by four big-endian bytes.
pub open spec fn be32(b0: u8, b1: u8, b2: u8, b3: u8) -> int {
    b3 + 256 * (b2 + 256 * (b1 + 256 * b0))
}

/// The two little-endian bytes of a sixteen-bit value.
pub open spec fn le16_bytes(v: int) -> Seq<u8> {
    seq![(v % 256) as u8, ((v / 256) % 256) as u8]
}

/// The four little-endian bytes of a thirty-two-bit value.
pub open spec fn le32_bytes(v: int) -> Seq<u8> {
    seq![
        (v % 256) as u8,
        ((v / 256) % 256) as u8,
        ((v / 0x10000) % 256) as u8,
        ((v / 0x1000000) % 256) as u8,
    ]
}

/// The four big-endian bytes of a thirty-two-bit value.
pub open spec fn be32_bytes(v: int) -> Seq<u8> {
    seq![
        ((v / 0x1000000) % 256) as u8,
        ((v / 0x10000) % 256) as u8,
        ((v / 256) % 256) as u8,
        (v % 256) as u8,
    ]
}

/// Append the two little-endian bytes of `v` to `out`.
pub fn push_le16(out: &mut Vec<u8>, v: u16)
    ensures
        final (out)@ == old(out)@ + le16_bytes(v as int),
{
    out.push((v % 256) as u8);
    out.push((v / 256) as u8);
    proof {
        assert(old(out)@ + le16_bytes(v as int) =~= old(out)@.push((v as int % 256) as u8).push(
            ((v as int / 256) % 256) as u8,
        ));
        assert(v as int / 256 % 256 == v as int / 256);
    }
}

/// Append the four little-endian bytes of `v` to `out`.
pub fn push_le32(out: &mut Vec<u8>, v: u32)
    ensures
        final (out)@ == old(out)@ + le32_bytes(v as int),
{
    out.push((v % 256) as u8);
    out.push(((v / 256) % 256) as u8);
    out.push(((v / 0x10000) % 256) as u8);
    out.push((v / 0x100_0000) as u8);
    proof {
        assert(v as int / 0x1000000 % 256 == v as int / 0x1000000);
        assert(old(out)@ + le32_bytes(v as int) =~= old(out)@.push((v as int % 256) as u8).push(
            ((v as int / 256) % 256) as u8,
        ).push(((v as int / 0x10000) % 256) as u8).push(((v as int / 0x1000000) % 256) as u8));
    }
}

/// Append the four big-endian bytes of `v` to `out`.
pub fn push_be32(out: &mut Vec<u8>, v: u32)
    ensures
        final (out)@ == old(out)@ + be32_bytes(v as int),
{
    out.push((v / 0x100_0000) as u8);
    out.push(((v / 0x10000) % 256) as u8);
    out.push(((v / 256) % 256) as u8);
    out.push((v % 256) as u8);
    proof {
        assert(v as int / 0x1000000 % 256 == v as int / 0x1000000);
        assert(old(out)@ + be32_bytes(v as int) =~= old(out)@.push(
            ((v as int / 0x1000000) % 256) as u8,
        ).push(((v as int / 0x10000) % 256) as u8).push(((v as int / 256) % 256) as u8).push(
            (v as int % 256) as u8,
        ));
    }
}

/// Read two little-endian bytes at `i`.
pub fn read_le16(b: &Vec<u8>, i: usize) -> (r: u16)
    requires
        i + 2 <= b@.len(),
    ensures
        r as int == le16(b@[i as int], b@[i + 1]),
{
    let n = b.len();
    b[i] as u16 + 256 * (b[i + 1] as u16)
}

/// Read four little-endian bytes at `i`.
pub fn read_le32(b: &Vec<u8>, i: usize) -> (r: u32)
    requires
        i + 4 <= b@.len(),
    ensures
        r as int == le32(b@[i as int], b@[i + 1], b@[i + 2], b@[i + 3]),
{
    let n = b.len();
    b[i] as u32 + 256 * (b[i + 1] as u32 + 256 * (b[i + 2] as u32 + 256 * (b[i + 3] as u32)))
}

/// The bytes `b[i..j]` as an owned vector.
pub fn sub_bytes(b: &Vec<u8>, i: usize, j: usize) -> (r: Vec<u8>)
    requires
        i <= j <= b@.len(),
    ensures
        r@ == b@.subrange(i as int, j as int),
{
    let mut r: Vec<u8> = Vec::new();
    let mut k: usize = i;
    while k < j
        invariant
            i <= k <= j <= b@.len(),
            r@ == b@.subrange(i as int, k as int),
        decreases j - k,
    {
        r.push(b[k]);
        proof {
            assert(b@.subrange(i as int, k + 1) =~= b@.subrange(i as int, k as int).push(
                b@[k as int],
            ));
        }
        k = k + 1;
    }
    proof {
        assert(r@ =~= b@.subrange(i as int, j as int));
    }
    r
}

/// The fixed nine-byte handshake acknowledgement sent after every request
/// and after every reply.
pub fn handshake_frame() -> (r: Vec<u8>)
    ensures
        r@ == seq![0xFEu8, 0x01u8, 0x05u8, 0x00u8, 0x06u8, 0x65u8, 0xE6u8, 0xCDu8, 0x99u8],
{
    let mut r: Vec<u8> = Vec::new();
    r.push(0xFE);
    r.push(0x01);
    r.push(0x05);
    r.push(0x00);
    r.push(0x06);
    r.push(0x65);
    r.push(0xE6);
    r.push(0xCD);
    r.push(0x99);
    proof {
        assert(r@ =~= seq![0xFEu8, 0x01u8, 0x05u8, 0x00u8, 0x06u8, 0x65u8, 0xE6u8, 0xCDu8, 0x99u8]);
    }
    r
}

/// The login frame that a unit sends when it connects.
pub struct LoginPkg {
    pub preamble: u8,
    pub sid: u8,
    pub length: u16,
    pub cmd: u16,
    pub mac: Vec<u8>,
    pub sn: Vec<u8>,
    pub crc: u32,
}

impl LoginPkg {
    /// The address and serial fields have their fixed widths.
    pub open spec fn wf(&self) -> bool {
        self.mac@.len() == 6 && self.sn@.len() == 32
    }

    /// The first forty-four bytes of the encoding: everything the trailing
    /// checksum covers.
    pub open spec fn spec_body(&self) -> Seq<u8> {
        seq![self.preamble, self.sid] + le16_bytes(self.length as int) + le16_bytes(
            self.cmd as int,
        ) + self.mac@ + self.sn@
    }

    /// The full forty-eight-byte encoding.
    pub open spec fn spec_bytes(&self) -> Seq<u8> {
        self.spec_body() + le32_bytes(self.crc as int)
    }

    /// A forty-eight-byte sequence is a valid login frame: the length field
    /// covers command, payload and checksum, and the checksum validates.
    pub open spec fn valid_login(b: Seq<u8>) -> bool {
        &&& b.len() == 48
        &&& le16(b[2], b[3]) == 44
        &&& le32(b[44], b[45], b[46], b[47]) == spec_crc32(b.subrange(0, 44))
    }

    /// Decode a login frame; reject any byte sequence whose length field or
    /// checksum does not match. Re-encoding an accepted frame reproduces the
    /// input bytes.
    pub fn unpack(buf: &Vec<u8>) -> (r: Result<LoginPkg, StationError>)
        ensures
            r is Ok <==> Self::valid_login(buf@),
            r matches Err(e) ==> e == StationError::Decode,
            r matches Ok(p) ==> p.wf() && p.spec_bytes() == buf@ && p.preamble == buf@[0]
                && p.sid == buf@[1] && p.length == 44 && p.cmd as int == le16(buf@[4], buf@[5])
                && p.mac@ == buf@.subrange(6, 12) && p.sn@ == buf@.subrange(12, 44),
    {
        if buf.len() != 48 {
            return Err(StationError::Decode);
        }
        let length = read_le16(buf, 2);
        if length != 44 {
            return Err(StationError::Decode);
        }
        let crc = read_le32(buf, 44);
        let body_crc = crc32_range(buf, 0, 44);
        if crc != body_crc {
            return Err(StationError::Decode);
        }
        let p = LoginPkg {
            preamble: buf[0],
            sid: buf[1],
            length,
            cmd: read_le16(buf, 4),
            mac: sub_bytes(buf, 6, 12),
            sn: sub_bytes(buf, 12, 44),
            crc,
        };
        proof {
            assert(p.spec_bytes() =~= buf@);
        }
        Ok(p)
    }

    /// Encode the frame; the checksum field is written as it stands.
    pub fn pack(&self) -> (r: Vec<u8>)
        requires
            self.wf(),
        ensures
            r@ == self.spec_bytes(),
            r@.len() == 48,
    {
        let mut out: Vec<u8> = Vec::new();
        out.push(self.preamble);
        out.push(self.sid);
        push_le16(&mut out, self.length);
        push_le16(&mut out, self.cmd);
        let mut k: usize = 0;
        while k < self.mac.len()
            invariant
                0 <= k <= self.mac@.len(),
                out@ == seq![self.preamble, self.sid] + le16_bytes(self.length as int)
                    + le16_bytes(self.cmd as int) + self.mac@.subrange(0, k as int),
            decreases self.mac@.len() - k,
        {
            out.push(self.mac[k]);
            proof {
                assert(self.mac@.subrange(0, k + 1) =~= self.mac@.subrange(0, k as int).push(
                    self.mac@[k as int],
                ));
                assert(out@ =~= seq![self.preamble, self.sid] + le16_bytes(self.length as int)
                    + le16_bytes(self.cmd as int) + self.mac@.subrange(0, k + 1));
            }
            k = k + 1;
        }
        proof {
            assert(self.mac@.subrange(0, self.mac@.len() as int) =~= self.mac@);
        }
        let mut k: usize = 0;
        while k < self.sn.len()
            invariant
                0 <= k <= self.sn@.len(),
                out@ == seq![self.preamble, self.sid] + le16_bytes(self.length as int)
                    + le16_bytes(self.cmd as int) + self.mac@ + self.sn@.subrange(0, k as int),
            decreases self.sn@.len() - k,
        {
            out.push(self.sn[k]);
            proof {
                assert(self.sn@.subrange(0, k + 1) =~= self.sn@.subrange(0, k as int).push(
                    self.sn@[k as int],
                ));
                assert(out@ =~= seq![self.preamble, self.sid] + le16_bytes(self.length as int)
                    + le16_bytes(self.cmd as int) + self.mac@ + self.sn@.subrange(0, k + 1));
            }
            k = k + 1;
        }
        proof {
            assert(self.sn@.subrange(0, self.sn@.len() as int) =~= self.sn@);
            assert(out@ =~= self.spec_body());
        }
        push_le32(&mut out, self.crc);
        proof {
            assert(out@ =~= self.spec_bytes());
        }
        out
    }
}

/// The six header bytes common to every request: preamble, session id,
/// little-endian length, little-endian command word.
pub open spec fn spec_request_head(preamble: u8, sid: u8, length: u16, cmd: u16) -> Seq<u8> {
    seq![preamble, sid] + le16_bytes(length as int) + le16_bytes(cmd as int)
}

/// The antenna-test request before its checksum.
pub open spec fn ant_request_body(chn: u8, ant: u8) -> Seq<u8> {
    spec_request_head(0, 0, 8, 0x2070) + seq![chn, ant]
}

/// The full antenna-test request.
pub open spec fn spec_ant_request(chn: u8, ant: u8) -> Seq<u8> {
    ant_request_body(chn, ant) + le32_bytes(spec_crc32(ant_request_body(chn, ant)) as int)
}

/// Encode the antenna-test request for one channel and antenna position.
pub fn encode_ant_request(chn: u8, ant: u8) -> (r: Vec<u8>)
    ensures
        r@ == spec_ant_request(chn, ant),
        r@.len() == 12,
{
    let mut out: Vec<u8> = Vec::new();
    out.push(0);
    out.push(0);
    push_le16(&mut out, 8);
    push_le16(&mut out, 0x2070);
    out.push(chn);
    out.push(ant);
    proof {
        assert(out@ =~= ant_request_body(chn, ant));
        assert(out@.subrange(0, 8) =~= out@);
    }
    let crc = crc32_range(&out, 0, 8);
    push_le32(&mut out, crc);
    proof {
        assert(out@ =~= spec_ant_request(chn, ant));
    }
    out
}

/// The antenna acknowledgement is twenty-two well-formed bytes: the length
/// field covers command, status, signal vector and checksum, and the
/// checksum validates.
pub open spec fn valid_ant_ack(b: Seq<u8>) -> bool {
    &&& b.len() == 22
    &&& le16(b[2], b[3]) == 18
    &&& le32(b[18], b[19], b[20], b[21]) == spec_crc32(b.subrange(0, 18))
}

/// Decode the antenna acknowledgement: the ten-byte signal vector when the
/// frame is well formed and its status is the success code; the reported
/// status otherwise; a decode failure for a malformed frame.
pub fn decode_ant_ack(buf: &Vec<u8>) -> (r: Result<Vec<u8>, StationError>)
    ensures
        r is Ok <==> valid_ant_ack(buf@) && le16(buf@[6], buf@[7]) == 0x40,
        !valid_ant_ack(buf@) ==> r == Err::<Vec<u8>, StationError>(StationError::Decode),
        valid_ant_ack(buf@) && le16(buf@[6], buf@[7]) != 0x40 ==> r == Err::<
            Vec<u8>,
            StationError,
        >(StationError::Application(le16(buf@[6], buf@[7]) as u16)),
        r matches Ok(v) ==> v@ == buf@.subrange(8, 18),
{
    if buf.len() != 22 {
        return Err(StationError::Decode);
    }
    if read_le16(buf, 2) != 18 {
        return Err(StationError::Decode);
    }
    if read_le32(buf, 18) != crc32_range(buf, 0, 18) {
        return Err(StationError::Decode);
    }
    let status = read_le16(buf, 6);
    if status != 0x40 {
        return Err(StationError::Application(status));
    }
    Ok(sub_bytes(buf, 8, 18))
}

/// The sensor-test request before its checksum.
pub open spec fn sensor_request_body(pos: u8) -> Seq<u8> {
    spec_request_head(0, 0, 7, 0x2072) + seq![pos]
}

/// The full sensor-test request.
pub open spec fn spec_sensor_request(pos: u8) -> Seq<u8> {
    sensor_request_body(pos) + le32_bytes(spec_crc32(sensor_request_body(pos)) as int)
}

/// Encode the sensor-test request for one axis code.
pub fn encode_sensor_request(pos: u8) -> (r: Vec<u8>)
    ensures
        r@ == spec_sensor_request(pos),
        r@.len() == 11,
{
    let mut out: Vec<u8> = Vec::new();
    out.push(0);
    out.push(0);
    push_le16(&mut out, 7);
    push_le16(&mut out, 0x2072);
    out.push(pos);
    proof {
        assert(out@ =~= sensor_request_body(pos));
        assert(out@.subrange(0, 7) =~= out@);
    }
    let crc = crc32_range(&out, 0, 7);
    push_le32(&mut out, crc);
    proof {
        assert(out@ =~= spec_sensor_request(pos));
    }
    out
}

/// The sensor acknowledgement is twenty-four well-formed bytes: the length
/// field covers command, status, the three signed readings and the checksum,
/// and the checksum validates.
pub open spec fn valid_sensor_ack(b: Seq<u8>) -> bool {
    &&& b.len() == 24
    &&& le16(b[2], b[3]) == 20
    &&& le32(b[20], b[21], b[22], b[23]) == spec_crc32(b.subrange(0, 20))
}

/// Decode the sensor acknowledgement: the three signed axis readings when
/// the frame is well formed and its status is the success code.
pub fn decode_sensor_ack(buf: &Vec<u8>) -> (r: Result<Vec<i32>, StationError>)
    ensures
        r is Ok <==> valid_sensor_ack(buf@) && le16(buf@[6], buf@[7]) == 0x40,
        !valid_sensor_ack(buf@) ==> r == Err::<Vec<i32>, StationError>(StationError::Decode),
        valid_sensor_ack(buf@) && le16(buf@[6], buf@[7]) != 0x40 ==> r == Err::<
            Vec<i32>,
            StationError,
        >(StationError::Application(le16(buf@[6], buf@[7]) as u16)),
        r matches Ok(v) ==> v@.len() == 3 && (forall|k: int|
            0 <= k < 3 ==> (#[trigger] v@[k]) as int == as_signed32(le32(
                buf@[8 + 4 * k],
                buf@[9 + 4 * k],
                buf@[10 + 4 * k],
                buf@[11 + 4 * k],
            ))),
{
    if buf.len() != 24 {
        return Err(StationError::Decode);
    }
    if read_le16(buf, 2) != 20 {
        return Err(StationError::Decode);
    }
    if read_le32(buf, 20) != crc32_range(buf, 0, 20) {
        return Err(StationError::Decode);
    }
    let status = read_le16(buf, 6);
    if status != 0x40 {
        return Err(StationError::Application(status));
    }
    let mut vals: Vec<i32> = Vec::new();
    let mut k: usize = 0;
    while k < 3
        invariant
            0 <= k <= 3,
            buf@.len() == 24,
            vals@.len() == k,
            forall|m: int|
                0 <= m < k ==> (#[trigger] vals@[m]) as int == as_signed32(le32(
                    buf@[8 + 4 * m],
                    buf@[9 + 4 * m],
                    buf@[10 + 4 * m],
                    buf@[11 + 4 * m],
                )),
        decreases 3 - k,
    {
        let u = read_le32(buf, 8 + 4 * k);
        let v: i32 = if u < 0x8000_0000 {
            u as i32
        } else {
            (-(0x1_0000_0000i64 - u as i64)) as i32
        };
        vals.push(v);
        proof {
            assert(vals@[k as int] == v);
            assert(v as int == as_signed32(u as int));
        }
        k = k + 1;
    }
    Ok(vals)
}

/// The big-endian encodings of a run of tag identifiers, one after another.
pub open spec fn spec_ids_bytes(ids: Seq<u32>) -> Seq<u8>
    decreases ids.len(),
{
    if ids.len() == 0 {
        Seq::<u8>::empty()
    } else {
        be32_bytes(ids.first() as int) + spec_ids_bytes(ids.drop_first())
    }
}

proof fn lemma_ids_bytes_push(ids: Seq<u32>, x: u32)
    ensures
        spec_ids_bytes(ids.push(x)) =~= spec_ids_bytes(ids) + be32_bytes(x as int),
        spec_ids_bytes(ids).len() == 4 * ids.len(),
    decreases ids.len(),
{
    if ids.len() == 0 {
        assert(ids.push(x).first() == x);
        assert(ids.push(x).drop_first() =~= Seq::<u32>::empty());
        assert(spec_ids_bytes(ids.push(x)) =~= be32_bytes(x as int) + spec_ids_bytes(
            Seq::<u32>::empty(),
        ));
    } else {
        assert(ids.push(x).drop_first() =~= ids.drop_first().push(x));
        assert(ids.push(x).first() == ids.first());
        lemma_ids_bytes_push(ids.drop_first(), x);
    }
}

/// The thirty-six-byte tag block: the identifiers back to back, zero-padded.
pub open spec fn spec_ids_block(ids: Seq<u32>) -> Seq<u8> {
    spec_ids_bytes(ids) + Seq::<u8>::new((36 - 4 * ids.len()) as nat, |i: int| 0u8)
}

/// The eight-direction request before its checksum.
pub open spec fn eight_request_body(ids: Seq<u32>, time: u8, chn: u8) -> Seq<u8> {
    spec_request_head(0xFE, 0, 44, 0x2074) + spec_ids_block(ids) + seq![time, chn]
}

/// The full eight-direction request.
pub open spec fn spec_eight_request(ids: Seq<u32>, time: u8, chn: u8) -> Seq<u8> {
    eight_request_body(ids, time, chn) + le32_bytes(
        spec_crc32(eight_request_body(ids, time, chn)) as int,
    )
}

/// Encode the eight-direction request: at most nine tag identifiers, the
/// capture time in seconds and the channel.
pub fn encode_eight_request(ids: &Vec<u32>, time: u8, chn: u8) -> (r: Vec<u8>)
    requires
        ids@.len() <= 9,
    ensures
        r@ == spec_eight_request(ids@, time, chn),
        r@.len() == 48,
{
    let mut out: Vec<u8> = Vec::new();
    out.push(0xFE);
    out.push(0);
    push_le16(&mut out, 44);
    push_le16(&mut out, 0x2074);
    let ghost head = spec_request_head(0xFE, 0, 44, 0x2074);
    proof {
        assert(out@ =~= head);
        assert(spec_ids_bytes(ids@.take(0)) =~= Seq::<u8>::empty());
        assert(out@ =~= head + spec_ids_bytes(ids@.take(0)));
    }
    let mut k: usize = 0;
    while k < ids.len()
        invariant
            0 <= k <= ids@.len() <= 9,
            head == spec_request_head(0xFE, 0, 44, 0x2074),
            out@ == head + spec_ids_bytes(ids@.take(k as int)),
            out@.len() == 6 + 4 * k,
        decreases ids@.len() - k,
    {
        push_be32(&mut out, ids[k]);
        proof {
            assert(ids@.take(k + 1) =~= ids@.take(k as int).push(ids@[k as int]));
            lemma_ids_bytes_push(ids@.take(k as int), ids@[k as int]);
            assert(out@ =~= head + spec_ids_bytes(ids@.take(k + 1)));
        }
        k = k + 1;
    }
    proof {
        assert(ids@.take(ids@.len() as int) =~= ids@);
        lemma_ids_bytes_push(ids@, 0);
    }
    let mut pad: usize = 0;
    let padlen = 36 - 4 * ids.len();
    while pad < padlen
        invariant
            0 <= pad <= padlen,
            padlen == 36 - 4 * ids@.len(),
            head == spec_request_head(0xFE, 0, 44, 0x2074),
            out@ == head + spec_ids_bytes(ids@) + Seq::<u8>::new(pad as nat, |i: int| 0u8),
        decreases padlen - pad,
    {
        out.push(0);
        proof {
            assert(Seq::<u8>::new((pad + 1) as nat, |i: int| 0u8) =~= Seq::<u8>::new(
                pad as nat,
                |i: int| 0u8,
            ).push(0u8));
            assert(out@ =~= head + spec_ids_bytes(ids@) + Seq::<u8>::new(
                (pad + 1) as nat,
                |i: int| 0u8,
            ));
        }
        pad = pad + 1;
    }
    out.push(time);
    out.push(chn);
    proof {
        assert(out@ =~= eight_request_body(ids@, time, chn));
        assert(out@.subrange(0, 44) =~= out@);
    }
    let crc = crc32_range(&out, 0, 44);
    push_le32(&mut out, crc);
    proof {
        assert(out@ =~= spec_eight_request(ids@, time, chn));
    }
    out
}

/// The whole eight-direction reply is well formed: its length field is at
/// least the command, status and checksum overhead, the byte count agrees
/// with it, and the trailing checksum validates.
pub open spec fn valid_eight_reply(b: Seq<u8>) -> bool {
    &&& b.len() >= 12
    &&& le16(b[2], b[3]) >= 8
    &&& b.len() == le16(b[2], b[3]) + 4
    &&& le32(b[le16(b[2], b[3])], b[le16(b[2], b[3]) + 1], b[le16(b[2], b[3]) + 2], b[le16(
        b[2],
        b[3],
    ) + 3]) == spec_crc32(b.subrange(0, le16(b[2], b[3])))
}

/// Decode the reassembled eight-direction reply: the six-byte header, the
/// two bytes after it, the angle text, then the checksum. The result is the
/// raw angle text bytes.
pub fn decode_eight_reply(buf: &Vec<u8>) -> (r: Result<Vec<u8>, StationError>)
    ensures
        r is Ok <==> valid_eight_reply(buf@),
        r matches Err(e) ==> e == StationError::Decode,
        r matches Ok(v) ==> v@ == buf@.subrange(8, le16(buf@[2], buf@[3])),
{
    let n = buf.len();
    if n < 12 {
        return Err(StationError::Decode);
    }
    let length = read_le16(buf, 2) as usize;
    if length < 8 {
        return Err(StationError::Decode);
    }
    if n != length + 4 {
        return Err(StationError::Decode);
    }
    if read_le32(buf, length) != crc32_range(buf, 0, length) {
        return Err(StationError::Decode);
    }
    Ok(sub_bytes(buf, 8, length))
}

/// The discovery probe that a unit broadcasts.
pub struct BcastPkg {
    pub head: u16,
    pub mac: Vec<u8>,
    pub ver: Vec<u8>,
    pub ip: Vec<u8>,
}

impl BcastPkg {
    /// Decode a discovery probe from the first forty-four bytes of a
    /// datagram; a shorter datagram is rejected.
    pub fn unpack_from_slice(buf: &Vec<u8>) -> (r: Result<BcastPkg, StationError>)
        ensures
            r is Ok <==> buf@.len() >= 44,
            r matches Err(e) ==> e == StationError::Decode,
            r matches Ok(p) ==> p.head as int == le16(buf@[0], buf@[1]) && p.mac@ == buf@.subrange(
                2,
                8,
            ) && p.ver@ == buf@.subrange(8, 40) && p.ip@ == buf@.subrange(40, 44),
    {
        if buf.len() < 44 {
            return Err(StationError::Decode);
        }
        Ok(
            BcastPkg {
                head: read_le16(buf, 0),
                mac: sub_bytes(buf, 2, 8),
                ver: sub_bytes(buf, 8, 40),
                ip: sub_bytes(buf, 40, 44),
            },
        )
    }
}

/// The discovery acknowledgement: the fixed head word, this station's
/// address and port, and the fixed flag word.
pub open spec fn spec_bcast_ack(ip: Seq<u8>, port: u16) -> Seq<u8> {
    le16_bytes(0xFFFE) + ip + le16_bytes(port as int) + le32_bytes(0x44332211)
}

/// Encode the discovery acknowledgement.
pub fn pack_bcast_ack(ip: &Vec<u8>, port: u16) -> (r: Vec<u8>)
    requires
        ip@.len() == 4,
    ensures
        r@ == spec_bcast_ack(ip@, port),
        r@.len() == 12,
{
    let mut out: Vec<u8> = Vec::new();
    push_le16(&mut out, 0xFFFE);
    out.push(ip[0]);
    out.push(ip[1]);
    out.push(ip[2]);
    out.push(ip[3]);
    push_le16(&mut out, port);
    push_le32(&mut out, 0x44332211);
    proof {
        assert(ip@ =~= seq![ip@[0], ip@[1], ip@[2], ip@[3]]);
        assert(out@ =~= spec_bcast_ack(ip@, port));
    }
    out
}

} // verus!
