//! The transaction engine: frames and sends write transactions, frames and
//! receives read transactions, both over a byte stream and under a bounded
//! retry policy, with a CRC-16 trailer on every exchange.

use vstd::prelude::*;

use crate::crc16::{crc_feed, crc_of, lemma_crc_feed_append, lemma_crc_feed_push, Crc16};
use crate::stream::{ByteStream, StreamError};

verus! {

/// The encoding width, in bytes, selected for a payload value purely from
/// its magnitude.
pub open spec fn width_of(v: u32) -> int {
    if v <= 0xFF {
        1
    } else if v <= 0xFFFF {
        2
    } else {
        4
    }
}

/// The big-endian wire bytes of one payload value, at its magnitude-selected
/// width.
pub open spec fn value_bytes(v: u32) -> Seq<u8> {
    if v <= 0xFF {
        seq![v as u8]
    } else if v <= 0xFFFF {
        seq![(v >> 8) as u8, v as u8]
    } else {
        seq![(v >> 24) as u8, (v >> 16) as u8, (v >> 8) as u8, v as u8]
    }
}

/// The wire bytes of a whole payload, each value at its own width, in order.
pub open spec fn payload_bytes(vs: Seq<u32>) -> Seq<u8>
    decreases vs.len(),
{
    if vs.len() == 0 {
        Seq::empty()
    } else {
        payload_bytes(vs.drop_last()) + value_bytes(vs.last())
    }
}

/// A 16-bit value as two big-endian bytes.
pub open spec fn be16(c: u16) -> Seq<u8> {
    seq![(c >> 8) as u8, c as u8]
}

/// A 32-bit value as four big-endian bytes.
pub open spec fn be32(v: u32) -> Seq<u8> {
    seq![(v >> 24) as u8, (v >> 16) as u8, (v >> 8) as u8, v as u8]
}

/// The unsigned value of 1, 2 or 4 big-endian bytes, zero-extended to 32
/// bits.
pub open spec fn be_val(b: Seq<u8>) -> u32 {
    if b.len() == 1 {
        b[0] as u32
    } else if b.len() == 2 {
        ((b[0] as u32) << 8) | (b[1] as u32)
    } else {
        ((b[0] as u32) << 24) | ((b[1] as u32) << 16) | ((b[2] as u32) << 8) | (b[3] as u32)
    }
}

/// The unsigned value of 2 big-endian bytes.
pub open spec fn be16_val(b: Seq<u8>) -> u16 {
    ((b[0] as u16) << 8) | (b[1] as u16)
}

/// Address byte, command byte and payload, before the checksum trailer.
pub open spec fn frame_body(address: u8, command: u8, vs: Seq<u32>) -> Seq<u8> {
    seq![address, command] + payload_bytes(vs)
}

/// One complete write transaction on the wire: body followed by its CRC-16
/// as a 2-byte big-endian trailer.
pub open spec fn write_frame(address: u8, command: u8, vs: Seq<u32>) -> Seq<u8> {
    frame_body(address, command, vs) + be16(crc_of(frame_body(address, command, vs)))
}

/// What a read transaction sends: address byte then command byte.
pub open spec fn read_header(address: u8, command: u8) -> Seq<u8> {
    seq![address, command]
}

/// `k` repetitions of the byte sequence `f`, back to back.
pub open spec fn frames(f: Seq<u8>, k: int) -> Seq<u8>
    decreases k,
{
    if k <= 0 {
        Seq::empty()
    } else {
        frames(f, k - 1) + f
    }
}

/// Law: the width-selection rule follows the magnitude bounds, and decoding
/// the big-endian encoding at the matching width is the identity.
pub proof fn lemma_width_round_trip(v: u32)
    ensures
        v <= 0xFF ==> width_of(v) == 1,
        0x100 <= v <= 0xFFFF ==> width_of(v) == 2,
        0x10000 <= v ==> width_of(v) == 4,
        value_bytes(v).len() == width_of(v),
        be_val(value_bytes(v)) == v,
{
    if v <= 0xFF {
        assert(v as u8 as u32 == v) by (bit_vector)
            requires
                v <= 0xFF,
        ;
    } else if v <= 0xFFFF {
        assert((((v >> 8) as u8 as u32) << 8) | (v as u8 as u32) == v) by (bit_vector)
            requires
                v <= 0xFFFF,
        ;
    } else {
        assert((((v >> 24) as u8 as u32) << 24) | (((v >> 16) as u8 as u32) << 16) | (((v
            >> 8) as u8 as u32) << 8) | (v as u8 as u32) == v) by (bit_vector);
    }
}

proof fn lemma_payload_snoc(vs: Seq<u32>, i: int)
    requires
        0 <= i < vs.len(),
    ensures
        payload_bytes(vs.take(i + 1)) == payload_bytes(vs.take(i)) + value_bytes(vs[i]),
{
    assert(vs.take(i + 1).drop_last() =~= vs.take(i));
    assert(vs.take(i + 1).last() == vs[i]);
}

proof fn lemma_take_concat(a: Seq<u8>, b: Seq<u8>, k: int)
    requires
        0 <= k <= b.len(),
    ensures
        (a + b).take(a.len() + k) == a + b.take(k),
{
    assert((a + b).take(a.len() + k) =~= a + b.take(k));
}

proof fn lemma_take_prefix(x: Seq<u8>, y: Seq<u8>, k: int)
    requires
        0 <= k <= x.len(),
    ensures
        (x + y).take(k) == x.take(k),
{
    assert((x + y).take(k) =~= x.take(k));
}

/// A payload's wire bytes split at any value boundary.
proof fn lemma_payload_split(vs: Seq<u32>, i: int)
    requires
        0 <= i <= vs.len(),
    ensures
        payload_bytes(vs) == payload_bytes(vs.take(i)) + payload_bytes(vs.skip(i)),
    decreases vs.len(),
{
    if i == vs.len() {
        assert(vs.take(i) =~= vs);
        assert(vs.skip(i) =~= Seq::<u32>::empty());
        assert(payload_bytes(vs) + payload_bytes(Seq::<u32>::empty()) =~= payload_bytes(vs));
    } else {
        let dl = vs.drop_last();
        let lb = vs.last();
        lemma_payload_split(dl, i);
        assert(vs.take(i) =~= dl.take(i));
        assert(vs.skip(i).drop_last() =~= dl.skip(i));
        assert(vs.skip(i).last() == lb);
        assert(payload_bytes(vs.skip(i)) == payload_bytes(dl.skip(i)) + value_bytes(lb));
        assert((payload_bytes(dl.take(i)) + payload_bytes(dl.skip(i))) + value_bytes(lb)
            =~= payload_bytes(dl.take(i)) + (payload_bytes(dl.skip(i)) + value_bytes(lb)));
    }
}

/// Skipping is transitive: input consumed in two goes is input consumed in
/// one.
proof fn lemma_skip_trans(s: Seq<u8>, s1: Seq<u8>, s2: Seq<u8>)
    requires
        exists|j: int| 0 <= j <= s.len() && s1 == s.skip(j),
        exists|j: int| 0 <= j <= s1.len() && s2 == s1.skip(j),
    ensures
        exists|j: int| 0 <= j <= s.len() && s2 == s.skip(j),
{
    let j1 = choose|j: int| 0 <= j <= s.len() && s1 == s.skip(j);
    let j2 = choose|j: int| 0 <= j <= s1.len() && s2 == s1.skip(j);
    assert(s.skip(j1).skip(j2) =~= s.skip(j1 + j2));
    assert(0 <= j1 + j2 <= s.len());
    assert(s2 == s.skip(j1 + j2));
}

proof fn lemma_skip_subrange(s: Seq<u8>, j: int, a: int, b: int)
    requires
        0 <= j,
        0 <= a <= b,
        j + b <= s.len(),
    ensures
        s.skip(j).subrange(a, b) == s.subrange(j + a, j + b),
{
    assert(s.skip(j).subrange(a, b) =~= s.subrange(j + a, j + b));
}

/// What a hard I/O fault leaves behind, for a transaction whose complete
/// attempt would put `f` on the wire: some number of whole attempts within
/// the budget went out, then a prefix of one more, and input was only ever
/// consumed forward. An I/O fault aborts at once, so fewer than the full
/// budget of attempts precede it.
pub open spec fn io_aborted<S: ByteStream>(pre: Connection<S>, post: Connection<S>, f: Seq<u8>) -> bool {
    &&& exists|m: int, j: int|
        0 <= m < pre.spec_retries() && 0 <= j <= f.len() && post.spec_stream().out()
            == pre.spec_stream().out() + frames(f, m) + f.take(j)
    &&& exists|j: int|
        0 <= j <= pre.spec_stream().inp().len() && post.spec_stream().inp()
            == pre.spec_stream().inp().skip(j)
}

/// A partially sent payload value stands at a prefix of the whole frame.
proof fn lemma_frame_mid_prefix(address: u8, command: u8, vs: Seq<u32>, i: int, jc: int)
    requires
        0 <= i < vs.len(),
        0 <= jc <= value_bytes(vs[i]).len(),
    ensures
        2 + payload_bytes(vs.take(i)).len() + jc <= write_frame(address, command, vs).len(),
        (seq![address, command] + payload_bytes(vs.take(i))) + value_bytes(vs[i]).take(jc)
            == write_frame(address, command, vs).take(2 + payload_bytes(vs.take(i)).len() + jc),
{
    let f = write_frame(address, command, vs);
    let chunk = value_bytes(vs[i]);
    let rest = payload_bytes(vs.skip(i).skip(1));
    let trailer = be16(crc_of(frame_body(address, command, vs)));
    lemma_payload_split(vs, i);
    lemma_payload_split(vs.skip(i), 1);
    assert(vs.skip(i).take(1).drop_last() =~= Seq::<u32>::empty());
    assert(vs.skip(i).take(1).last() == vs[i]);
    assert(payload_bytes(vs.skip(i).take(1)) == payload_bytes(Seq::<u32>::empty()) + chunk);
    assert(Seq::<u8>::empty() + chunk =~= chunk);
    assert(payload_bytes(vs.skip(i)) == chunk + rest);
    let a = seq![address, command] + payload_bytes(vs.take(i));
    let b = chunk + (rest + trailer);
    assert(f =~= a + b);
    assert(a.len() == 2 + payload_bytes(vs.take(i)).len());
    lemma_take_concat(a, b, jc);
    lemma_take_prefix(chunk, rest + trailer, jc);
    assert(b.take(jc) == chunk.take(jc));
    assert(f.take(a.len() + jc) == a + chunk.take(jc));
}

/// The output of an attempt aborted mid-payload is the frames already sent
/// plus a prefix of the current one.
proof fn lemma_mid_abort_out(
    out0: Seq<u8>,
    f: Seq<u8>,
    attempt: int,
    address: u8,
    command: u8,
    vs: Seq<u32>,
    i: int,
    jc: int,
    cur: Seq<u8>,
)
    requires
        0 <= i < vs.len(),
        0 <= jc <= value_bytes(vs[i]).len(),
        f == write_frame(address, command, vs),
        cur == ((out0 + frames(f, attempt)) + (seq![address, command] + payload_bytes(vs.take(i))))
            + value_bytes(vs[i]).take(jc),
    ensures
        exists|j: int| 0 <= j <= f.len() && cur == out0 + frames(f, attempt) + f.take(j),
{
    lemma_frame_mid_prefix(address, command, vs, i, jc);
    let jj = 2 + payload_bytes(vs.take(i)).len() + jc;
    assert(cur =~= (out0 + frames(f, attempt)) + ((seq![address, command] + payload_bytes(
        vs.take(i),
    )) + value_bytes(vs[i]).take(jc)));
    assert(cur == out0 + frames(f, attempt) + f.take(jj));
}

/// A partially sent checksum trailer stands at a prefix of the whole frame.
proof fn lemma_frame_trailer_prefix(address: u8, command: u8, vs: Seq<u32>, jt: int)
    requires
        0 <= jt <= 2,
    ensures
        frame_body(address, command, vs).len() + jt <= write_frame(address, command, vs).len(),
        frame_body(address, command, vs) + be16(crc_of(frame_body(address, command, vs))).take(jt)
            == write_frame(address, command, vs).take(frame_body(address, command, vs).len() + jt),
{
    lemma_take_concat(
        frame_body(address, command, vs),
        be16(crc_of(frame_body(address, command, vs))),
        jt,
    );
}

/// The fields and trailer of a completed read attempt, as consumed from the
/// stream's input starting at offset `j`: every returned value is the
/// big-endian decoding of its field's bytes, the checksum of header, fields
/// and trailer together equals the transmitted trailer, and the input after
/// the call resumes right behind the trailer.
pub open spec fn read_receives_at(
    inp: Seq<u8>,
    address: u8,
    command: u8,
    num_reads: int,
    byte_size: int,
    data: Seq<u32>,
    final_inp: Seq<u8>,
    j: int,
) -> bool {
    &&& 0 <= j
    &&& j + num_reads * byte_size + 2 <= inp.len()
    &&& forall|i: int|
        0 <= i < num_reads ==> data[i] == be_val(
            inp.subrange(j + i * byte_size, j + (i + 1) * byte_size),
        )
    &&& crc_of(read_header(address, command) + inp.subrange(j, j + num_reads * byte_size + 2))
        == be16_val(inp.subrange(j + num_reads * byte_size, j + num_reads * byte_size + 2))
    &&& final_inp == inp.skip(j + num_reads * byte_size + 2)
}

/// Everything a successful read transaction guarantees, relating the engine
/// before the call to the engine after it: some attempt `k` within the
/// budget sent the header `k` times, and the returned data was decoded, and
/// checksum-validated, from a run of input bytes.
pub open spec fn read_ok<S: ByteStream>(
    pre: Connection<S>,
    post: Connection<S>,
    address: u8,
    command: u8,
    num_reads: int,
    byte_size: int,
    data: Seq<u32>,
) -> bool {
    &&& data.len() == num_reads
    &&& exists|k: int|
        1 <= k <= pre.spec_retries() && post.spec_stream().out() == pre.spec_stream().out()
            + frames(read_header(address, command), k)
    &&& exists|j: int|
        read_receives_at(
            pre.spec_stream().inp(),
            address,
            command,
            num_reads,
            byte_size,
            data,
            post.spec_stream().inp(),
            j,
        )
}

/// How a transaction can fail, surfaced to the caller as a typed result.
#[derive(Debug, PartialEq, Eq, Structural, Clone, Copy)]
pub enum ConnectionError {
    /// A hard I/O fault other than a timeout; never retried.
    Io,
    /// The retry budget was exhausted without a completed exchange; carries
    /// the configured retry count.
    Timeout(u8),
    /// The received checksum trailer disagrees with the locally computed one.
    CrcMismatch,
    /// An acknowledgement byte other than 0xFF, for transports that tell a
    /// wrong byte apart from no byte at all.
    InvalidAck(u8),
    /// A read was requested with a field width other than 1, 2 or 4 bytes;
    /// carries the requested width.
    InvalidValue(u32),
}

/// The transaction engine. It owns the byte stream, the retry budget, the
/// checksum-mismatch retry policy, and the checksum register that every
/// transaction attempt clears and drives.
pub struct Connection<S: ByteStream> {
    stream: S,
    retries: u8,
    retry_on_crc_mismatch: bool,
    crc: Crc16,
}

impl<S: ByteStream> Connection<S> {
    /// The byte stream as the contracts see it.
    pub closed spec fn spec_stream(&self) -> S {
        self.stream
    }

    /// The configured retry budget.
    pub closed spec fn spec_retries(&self) -> u8 {
        self.retries
    }

    /// Whether a checksum mismatch on a read is retried like a timeout
    /// rather than surfaced at once.
    pub closed spec fn spec_retry_on_crc(&self) -> bool {
        self.retry_on_crc_mismatch
    }

    pub fn new(stream: S, retries: u8, retry_on_crc_mismatch: bool) -> (r: Self)
        ensures
            r.spec_stream() == stream,
            r.spec_retries() == retries,
            r.spec_retry_on_crc() == retry_on_crc_mismatch,
    {
        Connection { stream, retries, retry_on_crc_mismatch, crc: Crc16::new() }
    }

    /// Read access to the underlying stream.
    pub fn stream(&self) -> (r: &S)
        ensures
            *r == self.spec_stream(),
    {
        &self.stream
    }

    pub fn retries(&self) -> (r: u8)
        ensures
            r == self.spec_retries(),
    {
        self.retries
    }

    /// Start of every attempt: discard buffered input, clear the checksum.
    fn reset_connection(&mut self) -> (r: Result<(), ConnectionError>)
        ensures
            final(self).retries == old(self).retries,
            final(self).retry_on_crc_mismatch == old(self).retry_on_crc_mismatch,
            final(self).stream.out() == old(self).stream.out(),
            exists|j: int|
                0 <= j <= old(self).stream.inp().len() && final(self).stream.inp() == old(self).stream.inp().skip(j),
            match r {
                Ok(()) => final(self).crc@ == 0,
                Err(e) => e == ConnectionError::Io && final(self).crc@ == old(self).crc@,
            },
    {
        match self.stream.clear_input() {
            Ok(()) => {
                self.crc.clear();
                Ok(())
            },
            Err(_) => Err(ConnectionError::Io),
        }
    }

    /// Feed and send the address and command bytes.
    fn send_command(&mut self, address: u8, command: u8) -> (r: Result<(), ConnectionError>)
        ensures
            final(self).retries == old(self).retries,
            final(self).retry_on_crc_mismatch == old(self).retry_on_crc_mismatch,
            final(self).stream.inp() == old(self).stream.inp(),
            match r {
                Ok(()) => final(self).stream.out() == old(self).stream.out() + seq![
                    address,
                    command,
                ] && final(self).crc@ == crc_feed(old(self).crc@, seq![address, command]),
                Err(e) => e == ConnectionError::Io && exists|j: int|
                    0 <= j <= 2 && final(self).stream.out() == old(self).stream.out() + seq![
                        address,
                        command,
                    ].take(j),
            },
    {
        self.crc.update(address);
        let mut buf: Vec<u8> = Vec::new();
        buf.push(address);
        match self.stream.write_all(buf.as_slice()) {
            Ok(()) => {},
            Err(_) => {
                proof {
                    let j1 = choose|j: int|
                        0 <= j <= buf@.len() && self.stream.out() == old(self).stream.out()
                            + buf@.take(j);
                    assert(buf@.take(j1) =~= seq![address, command].take(j1));
                }
                return Err(ConnectionError::Io);
            },
        }
        self.crc.update(command);
        let mut buf2: Vec<u8> = Vec::new();
        buf2.push(command);
        match self.stream.write_all(buf2.as_slice()) {
            Ok(()) => {},
            Err(_) => {
                proof {
                    let j2 = choose|j: int|
                        0 <= j <= buf2@.len() && self.stream.out() == old(self).stream.out()
                            + seq![address] + buf2@.take(j);
                    assert(old(self).stream.out() + seq![address] + buf2@.take(j2) =~= old(self).stream.out() + seq![address, command].take(1 + j2));
                }
                return Err(ConnectionError::Io);
            },
        }
        proof {
            assert(old(self).stream.out() + seq![address] + seq![command] =~= old(self).stream.out() + seq![address, command]);
            lemma_crc_feed_push(old(self).crc@, seq![address], command);
            assert(seq![address].push(command) =~= seq![address, command]);
            assert(crc_feed(old(self).crc@, seq![address]) == crc_feed(
                crc_feed(old(self).crc@, Seq::empty()),
                seq![address],
            ));
            assert(Seq::<u8>::empty().push(address) =~= seq![address]);
            lemma_crc_feed_push(old(self).crc@, Seq::empty(), address);
        }
        Ok(())
    }

    /// Feed and send one payload byte.
    fn write_u8(&mut self, byte: u8) -> (r: Result<(), ConnectionError>)
        ensures
            final(self).retries == old(self).retries,
            final(self).retry_on_crc_mismatch == old(self).retry_on_crc_mismatch,
            final(self).stream.inp() == old(self).stream.inp(),
            match r {
                Ok(()) => final(self).stream.out() == old(self).stream.out() + seq![byte] && final(self).crc@ == crc_feed(old(self).crc@, seq![byte]),
                Err(e) => e == ConnectionError::Io && (final(self).stream.out() == old(self).stream.out() || final(self).stream.out() == old(self).stream.out() + seq![byte]),
            },
    {
        self.crc.update(byte);
        let mut buf: Vec<u8> = Vec::new();
        buf.push(byte);
        proof {
            assert(buf@ =~= seq![byte]);
        }
        match self.stream.write_all(buf.as_slice()) {
            Ok(()) => {},
            Err(_) => {
                return Err(ConnectionError::Io);
            },
        }
        proof {
            assert(Seq::<u8>::empty().push(byte) =~= seq![byte]);
            lemma_crc_feed_push(old(self).crc@, Seq::empty(), byte);
        }
        Ok(())
    }

    /// Feed and send one payload value as two big-endian bytes.
    fn write_u16(&mut self, value: u16) -> (r: Result<(), ConnectionError>)
        ensures
            final(self).retries == old(self).retries,
            final(self).retry_on_crc_mismatch == old(self).retry_on_crc_mismatch,
            final(self).stream.inp() == old(self).stream.inp(),
            match r {
                Ok(()) => final(self).stream.out() == old(self).stream.out() + be16(value) && final(self).crc@ == crc_feed(old(self).crc@, be16(value)),
                Err(e) => e == ConnectionError::Io && exists|j: int|
                    0 <= j <= 2 && final(self).stream.out() == old(self).stream.out() + be16(
                        value,
                    ).take(j),
            },
    {
        let mut bytes: Vec<u8> = Vec::new();
        bytes.push((value >> 8) as u8);
        bytes.push(value as u8);
        self.crc.update_bytes(bytes.as_slice());
        proof {
            assert(bytes@ =~= be16(value));
        }
        match self.stream.write_all(bytes.as_slice()) {
            Ok(()) => Ok(()),
            Err(_) => Err(ConnectionError::Io),
        }
    }

    /// Feed and send one payload value as four big-endian bytes.
    fn write_u32(&mut self, value: u32) -> (r: Result<(), ConnectionError>)
        ensures
            final(self).retries == old(self).retries,
            final(self).retry_on_crc_mismatch == old(self).retry_on_crc_mismatch,
            final(self).stream.inp() == old(self).stream.inp(),
            match r {
                Ok(()) => final(self).stream.out() == old(self).stream.out() + be32(value)
                    && final(self).crc@ == crc_feed(old(self).crc@, be32(value)),
                Err(e) => e == ConnectionError::Io && exists|j: int|
                    0 <= j <= 4 && final(self).stream.out() == old(self).stream.out() + be32(
                        value,
                    ).take(j),
            },
    {
        let mut bytes: Vec<u8> = Vec::new();
        bytes.push((value >> 24) as u8);
        bytes.push((value >> 16) as u8);
        bytes.push((value >> 8) as u8);
        bytes.push(value as u8);
        self.crc.update_bytes(bytes.as_slice());
        proof {
            assert(bytes@ =~= be32(value));
        }
        match self.stream.write_all(bytes.as_slice()) {
            Ok(()) => Ok(()),
            Err(_) => Err(ConnectionError::Io),
        }
    }

    /// Send the checksum trailer, then wait for the one-byte
    /// acknowledgement. `Ok(true)` means the device acknowledged with 0xFF;
    /// `Ok(false)` is a failed attempt (timeout, or a different byte).
    fn verify_write_checksum(&mut self) -> (r: Result<bool, ConnectionError>)
        ensures
            final(self).retries == old(self).retries,
            final(self).retry_on_crc_mismatch == old(self).retry_on_crc_mismatch,
            match r {
                Ok(b) => final(self).stream.out() == old(self).stream.out() + be16(old(self).crc@)
                    && (exists|j: int|
                    0 <= j <= old(self).stream.inp().len() && final(self).stream.inp() == old(self).stream.inp().skip(j)) && (b ==> old(self).stream.inp().len() >= 1 && old(self).stream.inp()[0] == 0xFF && final(self).stream.inp() == old(self).stream.inp().skip(
                    1,
                )),
                Err(e) => e == ConnectionError::Io && (exists|j: int|
                    0 <= j <= 2 && final(self).stream.out() == old(self).stream.out() + be16(
                        old(self).crc@,
                    ).take(j)) && (exists|j: int|
                    0 <= j <= old(self).stream.inp().len() && final(self).stream.inp() == old(self).stream.inp().skip(j)),
            },
    {
        let c: u16 = self.crc.get();
        let mut crc_bytes: Vec<u8> = Vec::new();
        crc_bytes.push((c >> 8) as u8);
        crc_bytes.push(c as u8);
        proof {
            assert(crc_bytes@ =~= be16(old(self).crc@));
        }
        match self.stream.write_all(crc_bytes.as_slice()) {
            Ok(()) => {},
            Err(_) => {
                proof {
                    assert(self.stream.inp() =~= old(self).stream.inp().skip(0));
                }
                return Err(ConnectionError::Io);
            },
        }
        match self.stream.read_exact(1) {
            Ok(ack) => Ok(ack[0] == 0xFF),
            Err(StreamError::Timeout) => Ok(false),
            Err(StreamError::Io) => {
                proof {
                    assert(be16(old(self).crc@).take(2) =~= be16(old(self).crc@));
                }
                Err(ConnectionError::Io)
            },
        }
    }

    /// One write transaction: address, command and payload framed with a
    /// CRC-16 trailer, repeated until the device acknowledges with 0xFF or
    /// the retry budget runs out. Each payload value is encoded at the width
    /// its magnitude selects. Every attempt writes exactly one full frame; a
    /// timeout failure means exactly `retries` frames went out, and a hard
    /// I/O fault aborts at once, leaving the frames already sent plus a
    /// prefix of the current one.
    pub fn write(&mut self, address: u8, command: u8, values: &[u32]) -> (r: Result<
        (),
        ConnectionError,
    >)
        ensures
            final(self).spec_retries() == old(self).spec_retries(),
            final(self).spec_retry_on_crc() == old(self).spec_retry_on_crc(),
            match r {
                Ok(()) => (exists|k: int|
                    1 <= k <= old(self).spec_retries() && final(self).spec_stream().out() == old(self).spec_stream().out() + frames(write_frame(address, command, values@), k)) && (
                exists|j: int|
                    0 <= j < old(self).spec_stream().inp().len() && old(self).spec_stream().inp()[j]
                        == 0xFF && final(self).spec_stream().inp() == old(self).spec_stream().inp().skip(j + 1)),
                Err(e) => match e {
                    ConnectionError::Timeout(n) => n == old(self).spec_retries() && final(self).spec_stream().out() == old(self).spec_stream().out() + frames(
                        write_frame(address, command, values@),
                        old(self).spec_retries() as int,
                    ) && (exists|j: int|
                        0 <= j <= old(self).spec_stream().inp().len() && final(self).spec_stream().inp() == old(self).spec_stream().inp().skip(j)),
                    ConnectionError::Io => io_aborted(
                        *old(self),
                        *final(self),
                        write_frame(address, command, values@),
                    ),
                    _ => false,
                },
            },
    {
        let ghost f = write_frame(address, command, values@);
        let ghost out0 = self.stream.out();
        let ghost inp0 = self.stream.inp();
        proof {
            assert(inp0.skip(0) =~= inp0);
            assert(out0 + frames(f, 0) =~= out0);
        }
        let mut attempt: u8 = 0;
        while attempt < self.retries
            invariant
                self.retries == old(self).spec_retries(),
                self.retry_on_crc_mismatch == old(self).spec_retry_on_crc(),
                attempt <= self.retries,
                out0 == old(self).spec_stream().out(),
                inp0 == old(self).spec_stream().inp(),
                f == write_frame(address, command, values@),
                self.stream.out() == out0 + frames(f, attempt as int),
                exists|j: int| 0 <= j <= inp0.len() && self.stream.inp() == inp0.skip(j),
            decreases self.retries - attempt,
        {
            let ghost inp_pre = self.stream.inp();
            match self.reset_connection() {
                Ok(()) => {},
                Err(e) => {
                    proof {
                        assert(f.take(0) =~= Seq::<u8>::empty());
                        assert(out0 + frames(f, attempt as int) + f.take(0) =~= out0 + frames(
                            f,
                            attempt as int,
                        ));
                        lemma_skip_trans(inp0, inp_pre, self.stream.inp());
                        assert((*self).spec_stream().out() == (*old(self)).spec_stream().out()
                            + frames(f, attempt as int) + f.take(0));
                        assert(io_aborted(*old(self), *self, f));
                    }
                    return Err(e);
                },
            }
            match self.send_command(address, command) {
                Ok(()) => {},
                Err(e) => {
                    proof {
                        let js = choose|j: int|
                            0 <= j <= 2 && self.stream.out() == (out0 + frames(f, attempt as int))
                                + seq![address, command].take(j);
                        assert(f =~= seq![address, command] + (payload_bytes(values@) + be16(
                            crc_of(frame_body(address, command, values@)),
                        )));
                        lemma_take_prefix(
                            seq![address, command],
                            payload_bytes(values@) + be16(
                                crc_of(frame_body(address, command, values@)),
                            ),
                            js,
                        );
                        assert(f.take(js) == seq![address, command].take(js));
                        assert(js <= f.len());
                        assert((*self).spec_stream().out() == (*old(self)).spec_stream().out()
                            + frames(f, attempt as int) + f.take(js));
                        lemma_skip_trans(inp0, inp_pre, self.stream.inp());
                        assert(io_aborted(*old(self), *self, f));
                    }
                    return Err(e);
                },
            }
            proof {
                lemma_skip_trans(inp0, inp_pre, self.stream.inp());
            }
            let ghost out_attempt = self.stream.out();
            let ghost inp_attempt = self.stream.inp();
            let mut vi: usize = 0;
            while vi < values.len()
                invariant
                    self.retries == old(self).spec_retries(),
                    self.retry_on_crc_mismatch == old(self).spec_retry_on_crc(),
                    vi <= values@.len(),
                    attempt < self.retries,
                    f == write_frame(address, command, values@),
                    out0 == old(self).spec_stream().out(),
                    inp0 == old(self).spec_stream().inp(),
                    exists|j: int| 0 <= j <= inp0.len() && inp_attempt == inp0.skip(j),
                    out_attempt == out0 + frames(f, attempt as int) + seq![address, command],
                    self.stream.out() == out_attempt + payload_bytes(values@.take(vi as int)),
                    self.crc@ == crc_feed(0, seq![address, command] + payload_bytes(
                        values@.take(vi as int),
                    )),
                    self.stream.inp() == inp_attempt,
                decreases values@.len() - vi,
            {
                let val: u32 = values[vi];
                let ghost out_before = self.stream.out();
                if val <= 0xFF {
                    proof {
                        assert(seq![val as u8] =~= value_bytes(val));
                    }
                    match self.write_u8(val as u8) {
                        Ok(()) => {},
                        Err(e) => {
                            proof {
                                let jc: int = if self.stream.out() == out_before {
                                    0
                                } else {
                                    1
                                };
                                assert(value_bytes(val).take(0) =~= Seq::<u8>::empty());
                                assert(value_bytes(val).take(1) =~= value_bytes(val));
                                assert(self.stream.out() =~= ((out0 + frames(f, attempt as int)) + (
                                seq![address, command] + payload_bytes(values@.take(vi as int))))
                                    + value_bytes(values@[vi as int]).take(jc));
                                lemma_mid_abort_out(
                                    out0,
                                    f,
                                    attempt as int,
                                    address,
                                    command,
                                    values@,
                                    vi as int,
                                    jc,
                                    self.stream.out(),
                                );
                                assert(self.stream.inp() =~= inp_attempt.skip(0));
                                lemma_skip_trans(inp0, inp_attempt, self.stream.inp());
                                assert(io_aborted(*old(self), *self, f));
                            }
                            return Err(e);
                        },
                    }
                } else if val <= 0xFFFF {
                    proof {
                        assert(((val as u16) >> 8) as u8 == (val >> 8) as u8) by (bit_vector);
                        assert((val as u16) as u8 == val as u8) by (bit_vector);
                        assert(be16(val as u16) =~= value_bytes(val));
                    }
                    match self.write_u16(val as u16) {
                        Ok(()) => {},
                        Err(e) => {
                            proof {
                                let jc = choose|j: int|
                                    0 <= j <= 2 && self.stream.out() == out_before + (
                                    #[trigger] be16(val as u16).take(j));
                                assert(self.stream.out() =~= ((out0 + frames(f, attempt as int)) + (
                                seq![address, command] + payload_bytes(values@.take(vi as int))))
                                    + value_bytes(values@[vi as int]).take(jc));
                                lemma_mid_abort_out(
                                    out0,
                                    f,
                                    attempt as int,
                                    address,
                                    command,
                                    values@,
                                    vi as int,
                                    jc,
                                    self.stream.out(),
                                );
                                assert(self.stream.inp() =~= inp_attempt.skip(0));
                                lemma_skip_trans(inp0, inp_attempt, self.stream.inp());
                                assert(io_aborted(*old(self), *self, f));
                            }
                            return Err(e);
                        },
                    }
                } else {
                    proof {
                        assert(be32(val) =~= value_bytes(val));
                    }
                    match self.write_u32(val) {
                        Ok(()) => {},
                        Err(e) => {
                            proof {
                                let jc = choose|j: int|
                                    0 <= j <= 4 && self.stream.out() == out_before + (
                                    #[trigger] be32(val).take(j));
                                assert(self.stream.out() =~= ((out0 + frames(f, attempt as int)) + (
                                seq![address, command] + payload_bytes(values@.take(vi as int))))
                                    + value_bytes(values@[vi as int]).take(jc));
                                lemma_mid_abort_out(
                                    out0,
                                    f,
                                    attempt as int,
                                    address,
                                    command,
                                    values@,
                                    vi as int,
                                    jc,
                                    self.stream.out(),
                                );
                                assert(self.stream.inp() =~= inp_attempt.skip(0));
                                lemma_skip_trans(inp0, inp_attempt, self.stream.inp());
                                assert(io_aborted(*old(self), *self, f));
                            }
                            return Err(e);
                        },
                    }
                }
                vi = vi + 1;
                proof {
                    lemma_payload_snoc(values@, vi - 1);
                    assert(self.stream.out() == out_before + value_bytes(values@[vi - 1]));
                    assert(out_attempt + payload_bytes(values@.take(vi - 1)) + value_bytes(
                        values@[vi - 1],
                    ) =~= out_attempt + (payload_bytes(values@.take(vi - 1)) + value_bytes(
                        values@[vi - 1],
                    )));
                    lemma_crc_feed_append(
                        0,
                        seq![address, command] + payload_bytes(values@.take(vi - 1)),
                        value_bytes(values@[vi - 1]),
                    );
                    assert(seq![address, command] + payload_bytes(values@.take(vi - 1))
                        + value_bytes(values@[vi - 1]) =~= seq![address, command] + (payload_bytes(
                        values@.take(vi - 1),
                    ) + value_bytes(values@[vi - 1])));
                    lemma_crc_feed_append(
                        0,
                        seq![address, command],
                        payload_bytes(values@.take(vi - 1)),
                    );
                    lemma_crc_feed_append(
                        0,
                        seq![address, command],
                        payload_bytes(values@.take(vi as int)),
                    );
                    lemma_crc_feed_append(
                        crc_feed(0, seq![address, command]),
                        payload_bytes(values@.take(vi - 1)),
                        value_bytes(values@[vi - 1]),
                    );
                }
            }
            proof {
                assert(values@.take(values@.len() as int) =~= values@);
            }
            let ghost body = frame_body(address, command, values@);
            proof {
                assert(seq![address, command] + payload_bytes(values@) == body);
                assert(self.crc@ == crc_of(body));
            }
            match self.verify_write_checksum() {
                Err(e) => {
                    proof {
                        let jt = choose|j: int|
                            0 <= j <= 2 && self.stream.out() == (out_attempt + payload_bytes(
                                values@,
                            )) + (#[trigger] be16(crc_of(body)).take(j));
                        lemma_frame_trailer_prefix(address, command, values@, jt);
                        assert(self.stream.out() =~= (out0 + frames(f, attempt as int)) + (body
                            + be16(crc_of(body)).take(jt)));
                        assert(self.stream.out() == out0 + frames(f, attempt as int) + f.take(
                            body.len() + jt,
                        ));
                        lemma_skip_trans(inp0, inp_attempt, self.stream.inp());
                        assert(io_aborted(*old(self), *self, f));
                    }
                    return Err(e);
                },
                Ok(acked) => {
                    proof {
                        assert(self.stream.out() == out_attempt + payload_bytes(values@) + be16(
                            crc_of(body),
                        ));
                        assert(out_attempt + payload_bytes(values@) + be16(crc_of(body)) =~= out0
                            + frames(f, attempt as int) + (body + be16(crc_of(body))));
                        assert(body + be16(crc_of(body)) == f);
                        assert(frames(f, attempt + 1) == frames(f, attempt as int) + f);
                        assert(out0 + frames(f, attempt as int) + f =~= out0 + frames(
                            f,
                            attempt + 1,
                        ));
                        assert(self.stream.out() == out0 + frames(f, attempt + 1));
                    }
                    if acked {
                        proof {
                            let j1 = choose|j: int|
                                0 <= j <= inp0.len() && inp_attempt == inp0.skip(j);
                            assert(inp_attempt[0] == inp0[j1]);
                            assert(inp0.skip(j1).len() >= 1);
                            assert(j1 < inp0.len());
                            assert(inp0[j1] == 0xFF);
                            assert(inp0.skip(j1).skip(1) =~= inp0.skip(j1 + 1));
                            assert(self.stream.inp() == inp0.skip(j1 + 1));
                        }
                        return Ok(());
                    }
                },
            }
            attempt = attempt + 1;
            proof {
                lemma_skip_trans(inp0, inp_attempt, self.stream.inp());
            }
        }
        Err(ConnectionError::Timeout(self.retries))
    }

    /// Read exactly `byte_size` bytes and feed each into the checksum.
    fn read_bytes(&mut self, byte_size: usize) -> (r: Result<Vec<u8>, StreamError>)
        ensures
            final(self).retries == old(self).retries,
            final(self).retry_on_crc_mismatch == old(self).retry_on_crc_mismatch,
            final(self).stream.out() == old(self).stream.out(),
            match r {
                Ok(v) => v@.len() == byte_size && old(self).stream.inp().len() >= byte_size && v@
                    == old(self).stream.inp().take(byte_size as int) && final(self).stream.inp()
                    == old(self).stream.inp().skip(byte_size as int) && final(self).crc@
                    == crc_feed(old(self).crc@, v@),
                Err(_) => (exists|j: int|
                    0 <= j <= old(self).stream.inp().len() && final(self).stream.inp() == old(self).stream.inp().skip(j)) && final(self).crc@ == old(self).crc@,
            },
    {
        match self.stream.read_exact(byte_size) {
            Ok(buf) => {
                self.crc.update_bytes(buf.as_slice());
                Ok(buf)
            },
            Err(e) => Err(e),
        }
    }

    /// One read transaction: send address and command, then take `num_reads`
    /// big-endian fields of `byte_size` bytes each and a 2-byte checksum
    /// trailer, under the retry budget. The trailer bytes are fed into the
    /// running checksum before the comparison, as the device protocol has
    /// it. A width other than 1, 2 or 4 fails at once with `InvalidValue`
    /// and touches nothing. Decoded fields are returned only when the
    /// checksum comparison succeeds; a mismatch surfaces `CrcMismatch`, or
    /// counts as a failed attempt when the engine was configured to retry
    /// it. A hard I/O fault aborts at once, with at most the headers of the
    /// attempts so far on the wire.
    #[verifier::rlimit(60)]
    pub fn read(&mut self, address: u8, command: u8, num_reads: usize, byte_size: usize) -> (r:
        Result<Vec<u32>, ConnectionError>)
        ensures
            final(self).spec_retries() == old(self).spec_retries(),
            final(self).spec_retry_on_crc() == old(self).spec_retry_on_crc(),
            match r {
                Ok(data) => (byte_size == 1 || byte_size == 2 || byte_size == 4) && read_ok(
                    *old(self),
                    *final(self),
                    address,
                    command,
                    num_reads as int,
                    byte_size as int,
                    data@,
                ),
                Err(e) => match e {
                    ConnectionError::Timeout(n) => n == old(self).spec_retries() && (byte_size == 1
                        || byte_size == 2 || byte_size == 4) && final(self).spec_stream().out()
                        == old(self).spec_stream().out() + frames(
                        read_header(address, command),
                        old(self).spec_retries() as int,
                    ) && (exists|j: int|
                        0 <= j <= old(self).spec_stream().inp().len() && final(self).spec_stream().inp() == old(self).spec_stream().inp().skip(j)),
                    ConnectionError::CrcMismatch => (byte_size == 1 || byte_size == 2 || byte_size
                        == 4) && !old(self).spec_retry_on_crc() && (exists|k: int|
                        1 <= k <= old(self).spec_retries() && final(self).spec_stream().out()
                            == old(self).spec_stream().out() + frames(
                            read_header(address, command),
                            k,
                        )) && (exists|j: int|
                        0 <= j <= old(self).spec_stream().inp().len() && final(self).spec_stream().inp() == old(self).spec_stream().inp().skip(j)),
                    ConnectionError::Io => io_aborted(
                        *old(self),
                        *final(self),
                        read_header(address, command),
                    ),
                    ConnectionError::InvalidValue(w) => w == byte_size as u32 && !(byte_size == 1
                        || byte_size == 2 || byte_size == 4) && final(self).spec_stream() == old(self).spec_stream(),
                    _ => false,
                },
            },
            !(byte_size == 1 || byte_size == 2 || byte_size == 4) ==> r == Err::<
                Vec<u32>,
                ConnectionError,
            >(ConnectionError::InvalidValue(byte_size as u32)),
    {
        if !(byte_size == 1 || byte_size == 2 || byte_size == 4) {
            return Err(ConnectionError::InvalidValue(byte_size as u32));
        }
        let ghost hdr = read_header(address, command);
        let ghost out0 = self.stream.out();
        let ghost inp0 = self.stream.inp();
        proof {
            assert(inp0.skip(0) =~= inp0);
            assert(out0 + frames(hdr, 0) =~= out0);
        }
        let mut attempt: u8 = 0;
        while attempt < self.retries
            invariant
                byte_size == 1 || byte_size == 2 || byte_size == 4,
                self.retries == old(self).spec_retries(),
                self.retry_on_crc_mismatch == old(self).spec_retry_on_crc(),
                attempt <= self.retries,
                out0 == old(self).spec_stream().out(),
                inp0 == old(self).spec_stream().inp(),
                hdr == read_header(address, command),
                self.stream.out() == out0 + frames(hdr, attempt as int),
                exists|j: int| 0 <= j <= inp0.len() && self.stream.inp() == inp0.skip(j),
            decreases self.retries - attempt,
        {
            let ghost inp_pre = self.stream.inp();
            match self.reset_connection() {
                Ok(()) => {},
                Err(e) => {
                    proof {
                        assert(hdr.take(0) =~= Seq::<u8>::empty());
                        assert(out0 + frames(hdr, attempt as int) + hdr.take(0) =~= out0 + frames(
                            hdr,
                            attempt as int,
                        ));
                        lemma_skip_trans(inp0, inp_pre, self.stream.inp());
                        assert((*self).spec_stream().out() == (*old(self)).spec_stream().out()
                            + frames(hdr, attempt as int) + hdr.take(0));
                        assert(io_aborted(*old(self), *self, hdr));
                    }
                    return Err(e);
                },
            }
            match self.send_command(address, command) {
                Ok(()) => {},
                Err(e) => {
                    proof {
                        let js = choose|j: int|
                            0 <= j <= 2 && self.stream.out() == (out0 + frames(hdr, attempt as int))
                                + seq![address, command].take(j);
                        assert(hdr.take(js) == seq![address, command].take(js));
                        assert((*self).spec_stream().out() == (*old(self)).spec_stream().out()
                            + frames(hdr, attempt as int) + hdr.take(js));
                        lemma_skip_trans(inp0, inp_pre, self.stream.inp());
                        assert(io_aborted(*old(self), *self, hdr));
                    }
                    return Err(e);
                },
            }
            proof {
                lemma_skip_trans(inp0, inp_pre, self.stream.inp());
            }
            let ghost inp_a = self.stream.inp();
            let ghost out_a = self.stream.out();
            proof {
                assert(inp_a.skip(0) =~= inp_a);
                assert(hdr + inp_a.take(0) =~= hdr);
            }
            let mut data: Vec<u32> = Vec::new();
            let mut failed: bool = false;
            let mut fi: usize = 0;
            while fi < num_reads && !failed
                invariant
                    byte_size == 1 || byte_size == 2 || byte_size == 4,
                    self.retries == old(self).spec_retries(),
                    self.retry_on_crc_mismatch == old(self).spec_retry_on_crc(),
                    fi <= num_reads,
                    attempt < self.retries,
                    hdr == read_header(address, command),
                    out0 == old(self).spec_stream().out(),
                    inp0 == old(self).spec_stream().inp(),
                    self.stream.out() == out_a,
                    out_a == out0 + frames(hdr, attempt as int) + hdr,
                    exists|j: int| 0 <= j <= inp0.len() && inp_a == inp0.skip(j),
                    !failed ==> fi * byte_size <= inp_a.len() && self.stream.inp() == inp_a.skip(
                        fi * byte_size,
                    ) && data@.len() == fi && (forall|i: int|
                        0 <= i < fi ==> data@[i] == be_val(
                            inp_a.subrange(i * byte_size, (i + 1) * byte_size),
                        )) && self.crc@ == crc_feed(0, hdr + inp_a.take(fi * byte_size)),
                    failed ==> exists|j: int|
                        0 <= j <= inp_a.len() && self.stream.inp() == inp_a.skip(j),
                decreases num_reads - fi, (if failed { 0int } else { 1int }),
            {
                let ghost consumed = fi * byte_size;
                match self.read_bytes(byte_size) {
                    Err(StreamError::Io) => {
                        proof {
                            assert(hdr.take(2) =~= hdr);
                            assert(out_a =~= out0 + frames(hdr, attempt as int) + hdr.take(2));
                            assert((*self).spec_stream().out() == (*old(self)).spec_stream().out() + frames(hdr, attempt as int) + hdr.take(2));
                            lemma_skip_trans(inp_a, inp_a.skip(consumed), self.stream.inp());
                            lemma_skip_trans(inp0, inp_a, self.stream.inp());
                            assert(io_aborted(*old(self), *self, hdr));
                        }
                        return Err(ConnectionError::Io);
                    },
                    Err(StreamError::Timeout) => {
                        failed = true;
                        proof {
                            lemma_skip_trans(inp_a, inp_a.skip(consumed), self.stream.inp());
                        }
                    },
                    Ok(bytes) => {
                        let value: u32 = if byte_size == 1 {
                            bytes[0] as u32
                        } else if byte_size == 2 {
                            ((bytes[0] as u32) << 8) | (bytes[1] as u32)
                        } else {
                            ((bytes[0] as u32) << 24) | ((bytes[1] as u32) << 16) | ((bytes[2]
                                as u32) << 8) | (bytes[3] as u32)
                        };
                        data.push(value);
                        fi = fi + 1;
                        proof {
                            assert((fi - 1) * byte_size + byte_size == fi * byte_size)
                                by (nonlinear_arith);
                            assert(inp_a.skip(consumed).len() >= byte_size);
                            assert(fi * byte_size <= inp_a.len());
                            assert(inp_a.skip(consumed).skip(byte_size as int) =~= inp_a.skip(
                                fi * byte_size,
                            ));
                            assert(bytes@ =~= inp_a.subrange(consumed, consumed + byte_size));
                            assert(value == be_val(bytes@));
                            lemma_crc_feed_append(0, hdr + inp_a.take(consumed), bytes@);
                            assert((hdr + inp_a.take(consumed)) + bytes@ =~= hdr + inp_a.take(
                                fi * byte_size,
                            ));
                            assert(forall|i: int|
                                0 <= i < fi - 1 ==> data@[i] == be_val(
                                    inp_a.subrange(i * byte_size, (i + 1) * byte_size),
                                ));
                            assert(data@[fi - 1] == be_val(
                                inp_a.subrange((fi - 1) * byte_size, fi * byte_size),
                            ));
                        }
                    },
                }
            }
            if !failed {
                proof {
                    assert(fi == num_reads);
                }
                let ghost total = num_reads * byte_size;
                let ghost inp_t = self.stream.inp();
                match self.read_bytes(2) {
                    Err(StreamError::Io) => {
                        proof {
                            assert(hdr.take(2) =~= hdr);
                            assert(out_a =~= out0 + frames(hdr, attempt as int) + hdr.take(2));
                            assert((*self).spec_stream().out() == (*old(self)).spec_stream().out() + frames(hdr, attempt as int) + hdr.take(2));
                            assert(inp_t == inp_a.skip(total));
                            lemma_skip_trans(inp_a, inp_t, self.stream.inp());
                            lemma_skip_trans(inp0, inp_a, self.stream.inp());
                            assert(io_aborted(*old(self), *self, hdr));
                        }
                        return Err(ConnectionError::Io);
                    },
                    Err(StreamError::Timeout) => {
                        proof {
                            assert(inp_t == inp_a.skip(total));
                            lemma_skip_trans(inp_a, inp_t, self.stream.inp());
                        }
                        failed = true;
                    },
                    Ok(tb) => {
                        let expected: u16 = self.crc.get();
                        let received: u16 = ((tb[0] as u16) << 8) | (tb[1] as u16);
                        proof {
                            assert(inp_t == inp_a.skip(total));
                            assert(inp_a.skip(total).skip(2) =~= inp_a.skip(total + 2));
                            assert(tb@ =~= inp_a.subrange(total, total + 2));
                            lemma_crc_feed_append(0, hdr + inp_a.take(total), tb@);
                            assert((hdr + inp_a.take(total)) + tb@ =~= hdr + inp_a.take(total + 2));
                            assert(received == be16_val(tb@));
                        }
                        if expected == received {
                            proof {
                                let j0 = choose|j: int|
                                    0 <= j <= inp0.len() && inp_a == inp0.skip(j);
                                assert(total + 2 <= inp_a.len());
                                assert(inp_a.len() == inp0.len() - j0);
                                assert(j0 + total + 2 <= inp0.len());
                                lemma_skip_subrange(inp0, j0, 0, total + 2);
                                assert(inp_a.take(total + 2) =~= inp_a.subrange(0, total + 2));
                                assert(hdr + inp_a.take(total + 2) =~= hdr + inp0.subrange(
                                    j0,
                                    j0 + total + 2,
                                ));
                                lemma_skip_subrange(inp0, j0, total, total + 2);
                                assert(self.stream.inp() == inp_a.skip(total + 2));
                                assert(inp0.skip(j0).skip(total + 2) =~= inp0.skip(j0 + total + 2));
                                assert forall|i: int| 0 <= i < num_reads implies data@[i] == be_val(
                                    inp0.subrange(j0 + i * byte_size, j0 + (i + 1) * byte_size),
                                ) by {
                                    assert(0 <= i * byte_size && (i + 1) * byte_size <= total)
                                        by (nonlinear_arith)
                                        requires
                                            0 <= i < num_reads,
                                            byte_size >= 1,
                                            total == num_reads * byte_size,
                                    ;
                                    lemma_skip_subrange(inp0, j0, i * byte_size, (i + 1)
                                        * byte_size);
                                }
                                assert(frames(hdr, attempt + 1) == frames(hdr, attempt as int)
                                    + hdr);
                                assert(out_a =~= out0 + frames(hdr, attempt + 1));
                                assert(read_receives_at(
                                    inp0,
                                    address,
                                    command,
                                    num_reads as int,
                                    byte_size as int,
                                    data@,
                                    self.stream.inp(),
                                    j0,
                                ));
                                assert(1 <= attempt + 1 <= old(self).spec_retries());
                                assert(self.stream.out() == old(self).spec_stream().out() + frames(
                                    read_header(address, command),
                                    attempt + 1,
                                ));
                                assert(data@.len() == num_reads);
                                assert((*self).spec_stream().inp() == self.stream.inp());
                                assert((*self).spec_stream().out() == self.stream.out());
                                assert((*old(self)).spec_stream() == old(self).spec_stream());
                                assert(exists|k: int|
                                    1 <= k <= (*old(self)).spec_retries() && (
                                    *self).spec_stream().out() == (*old(self)).spec_stream().out() + frames(
                                        read_header(address, command),
                                        k,
                                    ));
                                assert(exists|j: int|
                                    read_receives_at(
                                        (*old(self)).spec_stream().inp(),
                                        address,
                                        command,
                                        num_reads as int,
                                        byte_size as int,
                                        data@,
                                        (*self).spec_stream().inp(),
                                        j,
                                    ));
                                assert(read_ok(
                                    *old(self),
                                    *self,
                                    address,
                                    command,
                                    num_reads as int,
                                    byte_size as int,
                                    data@,
                                ));
                            }
                            return Ok(data);
                        } else {
                            if !self.retry_on_crc_mismatch {
                                proof {
                                    assert(frames(hdr, attempt + 1) == frames(hdr, attempt as int)
                                        + hdr);
                                    assert(out_a =~= out0 + frames(hdr, attempt + 1));
                                    assert(self.stream.inp() == inp_a.skip(total + 2));
                                    lemma_skip_trans(inp0, inp_a, self.stream.inp());
                                }
                                return Err(ConnectionError::CrcMismatch);
                            }
                            proof {
                                assert(inp_t == inp_a.skip(total));
                                lemma_skip_trans(inp_a, inp_t, self.stream.inp());
                            }
                            failed = true;
                        }
                    },
                }
            }
            attempt = attempt + 1;
            proof {
                assert(frames(hdr, attempt as int) == frames(hdr, attempt - 1) + hdr);
                assert(out_a =~= out0 + frames(hdr, attempt as int));
                lemma_skip_trans(inp0, inp_a, self.stream.inp());
            }
        }
        Err(ConnectionError::Timeout(self.retries))
    }
}

} // verus!
