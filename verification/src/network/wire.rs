//! Messages between coordinator and workers. Each starts with a tag; numbers are
//! written with their least significant byte first.
//!
//! A request holds the tile's id (8 bytes), its number of elements, their width
//! in bits and the number of inputs (4 bytes each), and for each input its length
//! (4 bytes) and its bytes. A response holds the tile's id (8 bytes), the number
//! of elements, their width and the length of the output (4 bytes each), and the
//! output.

use crate::bytes::{
    bytes_between, law_le_round_trip, le_bytes, le_value, lemma_le_of_value, read_u32, read_u64,
    write_bytes, write_u32_le, write_u64_le,
};
use crate::network::tiles::{buffers, wire_unit, Tile, TileResult};
use vstd::arithmetic::mul::*;
use vstd::arithmetic::power2::*;
use vstd::prelude::*;

verus! {

pub const TAG_TILE_REQ: u8 = 0x01;

pub const TAG_TILE_RESP: u8 = 0x02;

pub const TAG_SHUTDOWN: u8 = 0xFF;

// ─── Requests ────────────────────────────────────────────────────────────────

/// A request as it is received.
#[derive(Debug)]
pub struct TileRequest {
    pub id: u64,
    pub elem_count: usize,
    pub bits: u32,
    pub input_bufs: Vec<Vec<u8>>,
}

/// What a request says.
pub struct RequestView {
    pub id: u64,
    pub elem_count: usize,
    pub bits: u32,
    pub inputs: Seq<Seq<u8>>,
}

impl View for TileRequest {
    type V = RequestView;

    open spec fn view(&self) -> RequestView {
        RequestView {
            id: self.id,
            elem_count: self.elem_count,
            bits: self.bits,
            inputs: buffers(self.input_bufs@),
        }
    }
}

/// A number in four bytes.
pub open spec fn u32_bytes(n: nat) -> Seq<u8> {
    le_bytes((n as u32) as nat, 4)
}

/// Inputs with their lengths.
pub open spec fn inputs_bytes(bufs: Seq<Seq<u8>>) -> Seq<u8>
    decreases bufs.len(),
{
    if bufs.len() == 0 {
        Seq::empty()
    } else {
        inputs_bytes(bufs.drop_last()) + u32_bytes(bufs.last().len()) + bufs.last()
    }
}

/// A request behind its tag.
pub open spec fn request_payload(id: u64, count: nat, bits: u32, bufs: Seq<Seq<u8>>) -> Seq<u8> {
    le_bytes(id as nat, 8) + u32_bytes(count) + le_bytes(bits as nat, 4) + u32_bytes(bufs.len())
        + inputs_bytes(bufs)
}

/// The request for a tile.
pub open spec fn request_bytes(t: Tile) -> Seq<u8> {
    seq![TAG_TILE_REQ] + request_payload(
        t.id,
        t.elem_count as nat,
        t.bits,
        buffers(t.input_bufs@),
    )
}

/// The request for a tile.
pub fn encode_tile_req(tile: &Tile) -> (msg: Vec<u8>)
    ensures
        msg@ == request_bytes(*tile),
{
    let mut msg: Vec<u8> = Vec::new();
    msg.push(TAG_TILE_REQ);
    write_u64_le(&mut msg, tile.id);
    write_u32_le(&mut msg, tile.elem_count as u32);
    write_u32_le(&mut msg, tile.bits);
    write_u32_le(&mut msg, tile.input_bufs.len() as u32);
    let ghost head = msg@;
    let ghost bufs = buffers(tile.input_bufs@);
    let n: usize = tile.input_bufs.len();
    let mut i: usize = 0;
    assert(head =~= head + inputs_bytes(bufs.take(0)));
    while i < n
        invariant
            i <= n,
            n == tile.input_bufs@.len(),
            bufs == buffers(tile.input_bufs@),
            msg@ == head + inputs_bytes(bufs.take(i as int)),
        decreases n - i,
    {
        let buf: &Vec<u8> = &tile.input_bufs[i];
        write_u32_le(&mut msg, buf.len() as u32);
        write_bytes(&mut msg, buf.as_slice());
        proof {
            let t = bufs.take(i as int + 1);
            assert(t.drop_last() =~= bufs.take(i as int));
            assert(t.last() == buf@);
            assert(msg@ =~= head + inputs_bytes(t));
        }
        i = i + 1;
    }
    assert(bufs.take(n as int) =~= bufs);
    assert(msg@ =~= request_bytes(*tile));
    msg
}

/// The number in the four bytes at `at`.
pub open spec fn u32_at(s: Seq<u8>, at: nat) -> nat {
    le_value(s.subrange(at as int, (at + 4) as int))
}

/// The number in the eight bytes at `at`.
pub open spec fn u64_at(s: Seq<u8>, at: nat) -> nat {
    le_value(s.subrange(at as int, (at + 8) as int))
}

/// `n` inputs from `at` on, and where they end. There are none where bytes are
/// missing.
pub open spec fn parsed_inputs(s: Seq<u8>, at: nat, n: nat) -> Option<(Seq<Seq<u8>>, nat)>
    decreases n,
{
    if n == 0 {
        Some((Seq::empty(), at))
    } else {
        match parsed_inputs(s, at, (n - 1) as nat) {
            Some((bufs, pos)) => if pos + 4 > s.len() || pos + 4 + u32_at(s, pos) > s.len() {
                None
            } else {
                let end = pos + 4 + u32_at(s, pos);
                Some((bufs.push(s.subrange((pos + 4) as int, end as int)), end))
            },
            None => None,
        }
    }
}

/// The request behind a tag, and how many bytes it takes. There is none where
/// bytes are missing.
pub open spec fn parsed_request(s: Seq<u8>) -> Option<(RequestView, nat)> {
    if s.len() < 20 {
        None
    } else {
        match parsed_inputs(s, 20, u32_at(s, 16)) {
            Some((inputs, end)) => Some(
                (
                    RequestView {
                        id: u64_at(s, 0) as u64,
                        elem_count: u32_at(s, 8) as usize,
                        bits: u32_at(s, 12) as u32,
                        inputs,
                    },
                    end,
                ),
            ),
            None => None,
        }
    }
}

proof fn lemma_parsed_inputs_none(s: Seq<u8>, at: nat, m: nat, n: nat)
    requires
        m <= n,
        parsed_inputs(s, at, m) is None,
    ensures
        parsed_inputs(s, at, n) is None,
    decreases n,
{
    if m < n {
        lemma_parsed_inputs_none(s, at, m, (n - 1) as nat);
    }
}

/// Reads the request behind a tag. There is none where bytes are missing.
pub fn parse_request(s: &[u8]) -> (r: Option<(TileRequest, usize)>)
    ensures
        match r {
            Some((req, end)) => parsed_request(s@) == Some((req@, end as nat)) && end <= s@.len(),
            None => parsed_request(s@) is None,
        },
{
    let len: usize = s.len();
    if len < 20 {
        return None;
    }
    let id: u64 = read_u64(s, 0);
    let elem_count: usize = read_u32(s, 8) as usize;
    let bits: u32 = read_u32(s, 12);
    let n: usize = read_u32(s, 16) as usize;
    let mut input_bufs: Vec<Vec<u8>> = Vec::new();
    let mut pos: usize = 20;
    let mut i: usize = 0;
    assert(buffers(input_bufs@) =~= Seq::<Seq<u8>>::empty());
    while i < n
        invariant
            i <= n,
            len == s@.len(),
            20 <= pos <= len,
            n as nat == u32_at(s@, 16),
            parsed_inputs(s@, 20, i as nat) == Some((buffers(input_bufs@), pos as nat)),
        decreases n - i,
    {
        if len - pos < 4 {
            proof {
                lemma_parsed_inputs_none(s@, 20, i as nat + 1, n as nat);
            }
            return None;
        }
        let size: usize = read_u32(s, pos) as usize;
        if len - pos - 4 < size {
            proof {
                lemma_parsed_inputs_none(s@, 20, i as nat + 1, n as nat);
            }
            return None;
        }
        let buf: Vec<u8> = bytes_between(s, pos + 4, pos + 4 + size);
        let ghost had = buffers(input_bufs@);
        input_bufs.push(buf);
        proof {
            assert(buffers(input_bufs@) =~= had.push(buf@));
        }
        pos = pos + 4 + size;
        i = i + 1;
    }
    Some((TileRequest { id, elem_count, bits, input_bufs }, pos))
}

proof fn lemma_u32(n: nat)
    requires
        n < 0x1_0000_0000,
    ensures
        u32_bytes(n).len() == 4,
        le_value(u32_bytes(n)) == n,
{
    lemma2_to64();
    law_le_round_trip(n, 4);
}

proof fn lemma_inputs_round_trip(head: Seq<u8>, bufs: Seq<Seq<u8>>, rest: Seq<u8>, n: nat)
    requires
        n <= bufs.len(),
        forall|k: int| 0 <= k < bufs.len() ==> (#[trigger] bufs[k]).len() < 0x1_0000_0000,
    ensures
        parsed_inputs(head + inputs_bytes(bufs) + rest, head.len(), n) == Some(
            (bufs.take(n as int), head.len() + inputs_bytes(bufs.take(n as int)).len()),
        ),
    decreases n,
{
    let s = head + inputs_bytes(bufs) + rest;
    if n == 0 {
        assert(bufs.take(0) =~= Seq::<Seq<u8>>::empty());
    } else {
        let m = (n - 1) as nat;
        lemma_inputs_round_trip(head, bufs, rest, m);
        lemma_inputs_prefix(bufs, n);
        let done = bufs.take(m as int);
        let b = bufs[m as int];
        let pos = head.len() + inputs_bytes(done).len();
        assert(bufs.take(n as int).drop_last() =~= done);
        assert(bufs.take(n as int).last() == b);
        assert(bufs.take(n as int) =~= done.push(b));
        lemma_u32(b.len());
        let upto = inputs_bytes(bufs.take(n as int));
        assert(upto =~= inputs_bytes(done) + u32_bytes(b.len()) + b);
        let tail = choose|t: Seq<u8>| inputs_bytes(bufs) == upto + t;
        assert(s =~= head + inputs_bytes(done) + u32_bytes(b.len()) + b + tail + rest);
        assert(s.subrange(pos as int, (pos + 4) as int) =~= u32_bytes(b.len()));
        assert(s.subrange((pos + 4) as int, (pos + 4 + b.len()) as int) =~= b);
    }
}

proof fn lemma_inputs_prefix(bufs: Seq<Seq<u8>>, n: nat)
    requires
        n <= bufs.len(),
    ensures
        exists|t: Seq<u8>| inputs_bytes(bufs) == #[trigger] (inputs_bytes(bufs.take(n as int)) + t),
    decreases bufs.len(),
{
    let upto = inputs_bytes(bufs.take(n as int));
    if n == bufs.len() {
        assert(bufs.take(n as int) =~= bufs);
        assert(inputs_bytes(bufs) =~= upto + Seq::<u8>::empty());
    } else {
        let prev = bufs.drop_last();
        lemma_inputs_prefix(prev, n);
        assert(prev.take(n as int) =~= bufs.take(n as int));
        let t = choose|t: Seq<u8>| inputs_bytes(prev) == upto + t;
        let u = t + u32_bytes(bufs.last().len()) + bufs.last();
        assert(inputs_bytes(bufs) =~= upto + u);
    }
}

/// A request that is read says what was written, whatever follows it, where its
/// counts and lengths fit in four bytes.
pub proof fn law_request_round_trip(
    id: u64,
    count: usize,
    bits: u32,
    bufs: Seq<Seq<u8>>,
    rest: Seq<u8>,
)
    requires
        count < 0x1_0000_0000,
        bufs.len() < 0x1_0000_0000,
        forall|k: int| 0 <= k < bufs.len() ==> (#[trigger] bufs[k]).len() < 0x1_0000_0000,
    ensures
        parsed_request(request_payload(id, count as nat, bits, bufs) + rest) == Some(
            (
                RequestView { id, elem_count: count, bits, inputs: bufs },
                request_payload(id, count as nat, bits, bufs).len(),
            ),
        ),
{
    let head = le_bytes(id as nat, 8) + u32_bytes(count as nat) + le_bytes(bits as nat, 4)
        + u32_bytes(bufs.len());
    let s = request_payload(id, count as nat, bits, bufs) + rest;
    crate::bits::lemma_pow2_64();
    lemma2_to64();
    law_le_round_trip(id as nat, 8);
    law_le_round_trip(bits as nat, 4);
    lemma_u32(count as nat);
    lemma_u32(bufs.len());
    assert(s =~= head + inputs_bytes(bufs) + rest);
    assert(s.subrange(0, 8) =~= le_bytes(id as nat, 8));
    assert(s.subrange(8, 12) =~= u32_bytes(count as nat));
    assert(s.subrange(12, 16) =~= le_bytes(bits as nat, 4));
    assert(s.subrange(16, 20) =~= u32_bytes(bufs.len()));
    lemma_inputs_round_trip(head, bufs, rest, bufs.len());
    assert(bufs.take(bufs.len() as int) =~= bufs);
}

// ─── Responses ───────────────────────────────────────────────────────────────

/// What a result says.
pub struct ResultView {
    pub id: u64,
    pub elem_count: usize,
    pub bits: u32,
    pub output: Seq<u8>,
}

impl View for TileResult {
    type V = ResultView;

    open spec fn view(&self) -> ResultView {
        ResultView {
            id: self.id,
            elem_count: self.elem_count,
            bits: self.bits,
            output: self.output@,
        }
    }
}

/// A response behind its tag.
pub open spec fn response_payload(id: u64, count: nat, bits: u32, output: Seq<u8>) -> Seq<u8> {
    le_bytes(id as nat, 8) + u32_bytes(count) + le_bytes(bits as nat, 4) + u32_bytes(output.len())
        + output
}

/// The response behind a tag, and how many bytes it takes. There is none where
/// bytes are missing.
pub open spec fn parsed_response(s: Seq<u8>) -> Option<(ResultView, nat)> {
    if s.len() < 20 || 20 + u32_at(s, 16) > s.len() {
        None
    } else {
        let end = 20 + u32_at(s, 16);
        Some(
            (
                ResultView {
                    id: u64_at(s, 0) as u64,
                    elem_count: u32_at(s, 8) as usize,
                    bits: u32_at(s, 12) as u32,
                    output: s.subrange(20, end as int),
                },
                end,
            ),
        )
    }
}

/// Reads the response behind a tag. There is none where bytes are missing.
pub fn decode_tile_resp(s: &[u8]) -> (r: Option<(TileResult, usize)>)
    ensures
        match r {
            Some((res, end)) => parsed_response(s@) == Some((res@, end as nat)) && end <= s@.len(),
            None => parsed_response(s@) is None,
        },
{
    let len: usize = s.len();
    if len < 20 {
        return None;
    }
    let id: u64 = read_u64(s, 0);
    let elem_count: usize = read_u32(s, 8) as usize;
    let bits: u32 = read_u32(s, 12);
    let size: usize = read_u32(s, 16) as usize;
    if len - 20 < size {
        return None;
    }
    let output: Vec<u8> = bytes_between(s, 20, 20 + size);
    Some((TileResult { id, elem_count, bits, output }, 20 + size))
}

/// A response that is read says what was written, whatever follows it, where its
/// counts fit in four bytes.
pub proof fn law_response_round_trip(
    id: u64,
    count: usize,
    bits: u32,
    output: Seq<u8>,
    rest: Seq<u8>,
)
    requires
        count < 0x1_0000_0000,
        output.len() < 0x1_0000_0000,
    ensures
        parsed_response(response_payload(id, count as nat, bits, output) + rest) == Some(
            (
                ResultView { id, elem_count: count, bits, output },
                response_payload(id, count as nat, bits, output).len(),
            ),
        ),
{
    let s = response_payload(id, count as nat, bits, output) + rest;
    crate::bits::lemma_pow2_64();
    lemma2_to64();
    law_le_round_trip(id as nat, 8);
    law_le_round_trip(bits as nat, 4);
    lemma_u32(count as nat);
    lemma_u32(output.len());
    assert(s.subrange(0, 8) =~= le_bytes(id as nat, 8));
    assert(s.subrange(8, 12) =~= u32_bytes(count as nat));
    assert(s.subrange(12, 16) =~= le_bytes(bits as nat, 4));
    assert(s.subrange(16, 20) =~= u32_bytes(output.len()));
    assert(s.subrange(20, (20 + output.len()) as int) =~= output);
}

// ─── Workers ─────────────────────────────────────────────────────────────────

/// The output of a worker: the first input, cut or filled up with zeros to the
/// size of the tile.
pub open spec fn worker_output(inputs: Seq<Seq<u8>>, size: nat) -> Seq<u8> {
    Seq::new(
        size,
        |i: int|
            if inputs.len() > 0 && i < inputs[0].len() {
                inputs[0][i]
            } else {
                0u8
            },
    )
}

/// The bytes that the output of a request takes.
pub open spec fn output_size(req: RequestView) -> nat {
    req.elem_count as nat * wire_unit(req.bits)
}

/// The response to a request.
pub open spec fn reply_bytes(req: RequestView) -> Seq<u8> {
    seq![TAG_TILE_RESP] + response_payload(
        req.id,
        req.elem_count as nat,
        req.bits,
        worker_output(req.inputs, output_size(req)),
    )
}

/// A worker returns an input of the right size as it is.
pub proof fn law_worker_echoes(inputs: Seq<Seq<u8>>)
    requires
        inputs.len() > 0,
    ensures
        worker_output(inputs, inputs[0].len()) == inputs[0],
{
    assert(worker_output(inputs, inputs[0].len()) =~= inputs[0]);
}

/// Answers a request.
pub fn process_tile_request(req: &TileRequest) -> (resp: Vec<u8>)
    requires
        output_size(req@) <= usize::MAX,
    ensures
        resp@ == reply_bytes(req@),
{
    let unit: usize = req.bits as usize / 8 + (req.bits as usize % 8 + 7) / 8;
    proof {
        assert(unit == wire_unit(req.bits));
        lemma_mul_nonnegative(req.elem_count as int, unit as int);
    }
    let size: usize = req.elem_count * unit;
    let mut output: Vec<u8> = Vec::new();
    let mut i: usize = 0;
    let have: usize = if req.input_bufs.len() > 0 {
        req.input_bufs[0].len()
    } else {
        0
    };
    while i < size
        invariant
            i <= size,
            size == output_size(req@),
            have == if req@.inputs.len() > 0 {
                req@.inputs[0].len()
            } else {
                0
            },
            output@.len() == i,
            forall|j: int|
                0 <= j < i ==> #[trigger] output@[j] == worker_output(req@.inputs, size as nat)[j],
        decreases size - i,
    {
        if i < have {
            assert(req@.inputs[0] == req.input_bufs@[0]@);
            output.push(req.input_bufs[0][i]);
        } else {
            output.push(0);
        }
        i = i + 1;
    }
    assert(output@ =~= worker_output(req@.inputs, size as nat));
    let mut resp: Vec<u8> = Vec::new();
    resp.push(TAG_TILE_RESP);
    write_u64_le(&mut resp, req.id);
    write_u32_le(&mut resp, req.elem_count as u32);
    write_u32_le(&mut resp, req.bits);
    write_u32_le(&mut resp, output.len() as u32);
    write_bytes(&mut resp, output.as_slice());
    assert(resp@ =~= reply_bytes(req@));
    resp
}

/// What a worker does with the bytes that it has received.
#[derive(Debug)]
pub enum WorkerStep {
    /// Waits for more.
    Wait,
    /// Sends a response; so many bytes are done with.
    Reply { response: Vec<u8>, used: usize },
    /// Stops serving.
    Shutdown,
    /// Closes the connection.
    Close,
}

/// That a step is what a worker does: it waits while a message is not complete,
/// answers a request whose output it can hold, stops where it is told to, and
/// else closes the connection.
pub open spec fn is_worker_step(s: Seq<u8>, step: WorkerStep) -> bool {
    if s.len() == 0 {
        step is Wait
    } else if s[0] == TAG_SHUTDOWN {
        step is Shutdown
    } else if s[0] != TAG_TILE_REQ {
        step is Close
    } else {
        match parsed_request(s.skip(1)) {
            None => step is Wait,
            Some((req, end)) => if output_size(req) <= usize::MAX {
                step matches WorkerStep::Reply { response, used } && response@ == reply_bytes(req)
                    && used == end + 1
            } else {
                step is Close
            },
        }
    }
}

/// The next step of a worker.
pub fn worker_step(s: &[u8]) -> (r: WorkerStep)
    ensures
        is_worker_step(s@, r),
{
    let len: usize = s.len();
    if len == 0 {
        return WorkerStep::Wait;
    }
    if s[0] == TAG_SHUTDOWN {
        return WorkerStep::Shutdown;
    }
    if s[0] != TAG_TILE_REQ {
        return WorkerStep::Close;
    }
    let payload: Vec<u8> = bytes_between(s, 1, len);
    assert(payload@ =~= s@.skip(1));
    match parse_request(payload.as_slice()) {
        None => WorkerStep::Wait,
        Some((req, end)) => {
            let unit: u64 = (req.bits as u64 + 7) / 8;
            proof {
                lemma_le_of_value(payload@.subrange(8, 12));
                lemma2_to64();
                lemma_mul_upper_bound(
                    req.elem_count as int,
                    0xFFFF_FFFF,
                    unit as int,
                    0x2000_0001,
                );
                lemma_mul_nonnegative(req.elem_count as int, unit as int);
            }
            let size: u64 = req.elem_count as u64 * unit;
            if size > usize::MAX as u64 {
                return WorkerStep::Close;
            }
            WorkerStep::Reply { response: process_tile_request(&req), used: end + 1 }
        },
    }
}

/// What a coordinator does with the bytes that it has received from a worker.
#[derive(Debug)]
pub enum ReceiveStep {
    /// Waits for more.
    Wait,
    /// Takes a result; so many bytes are done with.
    Take { result: TileResult, used: usize },
    /// Closes the connection.
    Close,
}

/// That a step is what a coordinator does: it waits while a message is not
/// complete, takes a result, and closes the connection at anything else.
pub open spec fn is_receive_step(s: Seq<u8>, step: ReceiveStep) -> bool {
    if s.len() == 0 {
        step is Wait
    } else if s[0] != TAG_TILE_RESP {
        step is Close
    } else {
        match parsed_response(s.skip(1)) {
            None => step is Wait,
            Some((res, end)) => step matches ReceiveStep::Take { result, used } && result@ == res
                && used == end + 1,
        }
    }
}

/// The next step of a coordinator.
pub fn receive_step(s: &[u8]) -> (r: ReceiveStep)
    ensures
        is_receive_step(s@, r),
{
    let len: usize = s.len();
    if len == 0 {
        return ReceiveStep::Wait;
    }
    if s[0] != TAG_TILE_RESP {
        return ReceiveStep::Close;
    }
    let payload: Vec<u8> = bytes_between(s, 1, len);
    assert(payload@ =~= s@.skip(1));
    match decode_tile_resp(payload.as_slice()) {
        None => ReceiveStep::Wait,
        Some((result, end)) => ReceiveStep::Take { result, used: end + 1 },
    }
}

/// A tile whose first input has its size comes back as that input: the worker
/// takes the request as it was sent, and the coordinator takes the answer as it
/// was sent.
pub proof fn law_tile_comes_back(
    id: u64,
    count: usize,
    bits: u32,
    bufs: Seq<Seq<u8>>,
    rest: Seq<u8>,
)
    requires
        count < 0x1_0000_0000,
        0 < bufs.len() < 0x1_0000_0000,
        forall|k: int| 0 <= k < bufs.len() ==> (#[trigger] bufs[k]).len() < 0x1_0000_0000,
        bufs[0].len() == count as nat * wire_unit(bits),
    ensures
        match parsed_request(request_payload(id, count as nat, bits, bufs) + rest) {
            Some((req, _)) => match parsed_response(reply_bytes(req).skip(1)) {
                Some((res, _)) => res == (ResultView {
                    id,
                    elem_count: count,
                    bits,
                    output: bufs[0],
                }),
                None => false,
            },
            None => false,
        },
{
    law_request_round_trip(id, count, bits, bufs, rest);
    law_worker_echoes(bufs);
    law_response_round_trip(id, count, bits, bufs[0], Seq::empty());
    let req = RequestView { id, elem_count: count, bits, inputs: bufs };
    let payload = response_payload(id, count as nat, bits, bufs[0]);
    assert(reply_bytes(req).skip(1) =~= payload);
    assert(payload + Seq::<u8>::empty() =~= payload);
}

} // verus!
