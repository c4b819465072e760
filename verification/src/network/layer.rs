//! The coordinator: its workers, the tiles that it gives them, and the results
//! that it takes back.

use crate::bytes::{write_bytes, zero_bytes};
use crate::network::ring::{RingBuffer, RING_CAP};
use crate::network::tiles::{
    law_tiles_are_even, law_tiles_cover, lemma_starts_grow, lemma_whole_bytes, tile_bytes,
    tile_len, tile_start, wire_unit, Tile, TileResult,
};
use crate::network::wire::{encode_tile_req, request_bytes, TAG_SHUTDOWN};
use crate::text::{append_decimal, decimal};
use std::collections::HashMap;
use vstd::arithmetic::mul::*;
use vstd::prelude::*;
use vstd::string::*;

verus! {

/// The address of a worker.
#[derive(Debug)]
pub struct NodeAddr {
    pub host: String,
    pub port: u16,
}

impl NodeAddr {
    pub fn new(host: String, port: u16) -> (r: Self)
        ensures
            r.host@ == host@,
            r.port == port,
    {
        NodeAddr { host, port }
    }

    /// Host and port as one text.
    pub fn authority(&self) -> (r: String)
        ensures
            r@ == self.host@ + ":"@ + decimal(self.port as nat),
    {
        let mut r: String = String::new();
        r.append(self.host.as_str());
        r.append(":");
        append_decimal(&mut r, self.port as usize);
        assert(r@ =~= self.host@ + ":"@ + decimal(self.port as nat));
        r
    }
}

// ─── One worker ──────────────────────────────────────────────────────────────

/// A connection to a worker: what is still to be sent, whether it is alive, and
/// the results that came back.
#[derive(Debug)]
pub struct WorkerConn {
    pub ring: RingBuffer,
    pub alive: bool,
    pub results: HashMap<u64, TileResult>,
}

impl WorkerConn {
    /// That the queue is whole.
    pub open spec fn wf(&self) -> bool {
        self.ring.wf()
    }

    /// A new connection.
    pub fn new() -> (r: Self)
        ensures
            r.wf(),
            r.alive,
            r.ring@ == Seq::<u8>::empty(),
            r.results@ == Map::<u64, TileResult>::empty(),
    {
        WorkerConn { ring: RingBuffer::new(), alive: true, results: HashMap::new() }
    }

    /// Queues the request for a tile, where it fits.
    pub fn send_tile(&mut self, tile: &Tile) -> (r: bool)
        requires
            old(self).wf(),
        ensures
            final(self).wf(),
            r == (old(self).ring@.len() + request_bytes(*tile).len() <= RING_CAP),
            final(self).ring@ == if r {
                old(self).ring@ + request_bytes(*tile)
            } else {
                old(self).ring@
            },
            final(self).alive == old(self).alive,
            final(self).results@ == old(self).results@,
    {
        let msg: Vec<u8> = encode_tile_req(tile);
        self.ring.push(msg.as_slice())
    }

    /// Keeps a result.
    pub fn accept_result(&mut self, res: TileResult)
        requires
            old(self).wf(),
        ensures
            final(self).wf(),
            final(self).results@ == old(self).results@.insert(res.id, res),
            final(self).alive == old(self).alive,
            final(self).ring@ == old(self).ring@,
    {
        broadcast use vstd::std_specs::hash::group_hash_axioms;

        self.results.insert(res.id, res);
    }

    /// Takes the result of a tile, where it is there.
    pub fn poll_result(&mut self, tile_id: u64) -> (r: Option<TileResult>)
        requires
            old(self).wf(),
        ensures
            final(self).wf(),
            r == if old(self).results@.contains_key(tile_id) {
                Some(old(self).results@[tile_id])
            } else {
                None
            },
            final(self).results@ == old(self).results@.remove(tile_id),
            final(self).alive == old(self).alive,
            final(self).ring@ == old(self).ring@,
    {
        broadcast use vstd::std_specs::hash::group_hash_axioms;

        self.results.remove(&tile_id)
    }

    /// Ends the connection: it is no longer alive, and the worker is told, where
    /// the message fits.
    pub fn shutdown(&mut self)
        requires
            old(self).wf(),
        ensures
            final(self).wf(),
            !final(self).alive,
            final(self).ring@ == told(old(self).ring@),
            final(self).results@ == old(self).results@,
    {
        self.alive = false;
        let msg: [u8; 1] = [TAG_SHUTDOWN];
        self.ring.push(msg.as_slice());
        assert(msg@ =~= seq![TAG_SHUTDOWN]);
    }
}

/// A queue behind which the end of the connection is told, where it fits.
pub open spec fn told(queue: Seq<u8>) -> Seq<u8> {
    if queue.len() + 1 <= RING_CAP {
        queue + seq![TAG_SHUTDOWN]
    } else {
        queue
    }
}

// ─── All workers ─────────────────────────────────────────────────────────────

/// The connections to all workers.
#[derive(Debug)]
pub struct NetworkLayer {
    pub workers: Vec<WorkerConn>,
}

/// The number of nodes among the first `k` that were reached.
pub open spec fn reached(up: Seq<bool>, k: nat) -> nat
    decreases k,
{
    if k == 0 {
        0
    } else {
        reached(up, (k - 1) as nat) + if up[k - 1] {
            1nat
        } else {
            0
        }
    }
}

/// What a worker has to send, and whether it is alive.
pub struct ConnView {
    pub queue: Seq<u8>,
    pub alive: bool,
}

/// What the workers have to send, and which are alive.
pub open spec fn conns(workers: Seq<WorkerConn>) -> Seq<ConnView> {
    Seq::new(
        workers.len(),
        |i: int| ConnView { queue: workers[i].ring@, alive: workers[i].alive },
    )
}

/// The worker of the `k`th tile that is given away: each in turn.
pub open spec fn worker_of(k: nat, n: nat) -> int {
    (k % n) as int
}

/// That the `k`th tile that is given away goes to its worker: it is alive, and
/// the request fits.
pub open spec fn goes(w: Seq<ConnView>, tiles: Seq<Tile>, k: nat) -> bool {
    let c = w[worker_of(k, w.len())];
    c.alive && c.queue.len() + request_bytes(tiles[k + 1 as int]).len() <= RING_CAP
}

/// The workers after the first `k` tiles were given away, and the ids of those
/// that went.
pub open spec fn dispatched(w: Seq<ConnView>, tiles: Seq<Tile>, k: nat) -> (
    Seq<ConnView>,
    Seq<u64>,
)
    decreases k,
{
    if k == 0 {
        (w, Seq::empty())
    } else {
        let m = (k - 1) as nat;
        let (v, ids) = dispatched(w, tiles, m);
        if goes(v, tiles, m) {
            let j = worker_of(m, v.len());
            (
                v.update(
                    j,
                    ConnView {
                        queue: v[j].queue + request_bytes(tiles[m + 1 as int]),
                        alive: v[j].alive,
                    },
                ),
                ids.push(tiles[m + 1 as int].id),
            )
        } else {
            (v, ids)
        }
    }
}

/// The size of a tile's output, in bytes.
pub open spec fn tile_size(t: Tile) -> nat {
    t.elem_count as nat * wire_unit(t.bits)
}

/// The output of a tile: that of its result, or zeros where there is none.
pub open spec fn tile_output(results: Map<u64, TileResult>, t: Tile) -> Seq<u8> {
    if results.contains_key(t.id) {
        results[t.id].output@
    } else {
        Seq::new(tile_size(t), |i: int| 0u8)
    }
}

/// The outputs of the first `k` tiles, the first of which is the one made here.
pub open spec fn joined(
    local: Seq<u8>,
    results: Map<u64, TileResult>,
    tiles: Seq<Tile>,
    k: nat,
) -> Seq<u8>
    decreases k,
{
    if k <= 1 {
        local
    } else {
        joined(local, results, tiles, (k - 1) as nat) + tile_output(results, tiles[k - 1])
    }
}

/// Appends zeros for so many elements.
fn write_zeros(out: &mut Vec<u8>, count: usize, bits: u32)
    ensures
        final(out)@ == old(out)@ + Seq::new(count as nat * wire_unit(bits), |i: int| 0u8),
{
    let ghost before = out@;
    let unit: usize = bits as usize / 8 + (bits as usize % 8 + 7) / 8;
    let zeros: Vec<u8> = zero_bytes(unit);
    let mut i: usize = 0;
    assert(0 * unit == 0) by (nonlinear_arith);
    assert(out@ =~= before + Seq::new(0, |j: int| 0u8));
    while i < count
        invariant
            i <= count,
            unit == wire_unit(bits),
            zeros@.len() == unit,
            forall|j: int| 0 <= j < unit ==> zeros@[j] == 0,
            out@ == before + Seq::new(i as nat * unit as nat, |j: int| 0u8),
        decreases count - i,
    {
        write_bytes(out, zeros.as_slice());
        proof {
            lemma_mul_is_distributive_add_other_way(unit as int, i as int, 1);
            lemma_mul_nonnegative(i as int, unit as int);
            assert(out@ =~= before + Seq::new((i + 1) as nat * unit as nat, |j: int| 0u8));
        }
        i = i + 1;
    }
}

impl NetworkLayer {
    /// That all queues are whole.
    pub open spec fn wf(&self) -> bool {
        forall|i: int| 0 <= i < self.workers@.len() ==> (#[trigger] self.workers@[i]).wf()
    }

    /// A connection to each node that was reached.
    pub fn connect(nodes: &[NodeAddr], up: &Vec<bool>) -> (r: Self)
        requires
            up@.len() == nodes@.len(),
        ensures
            r.wf(),
            r.workers@.len() == reached(up@, nodes@.len()),
            forall|i: int|
                0 <= i < r.workers@.len() ==> (#[trigger] r.workers@[i]).alive
                    && r.workers@[i].ring@ == Seq::<u8>::empty() && r.workers@[i].results@
                    == Map::<u64, TileResult>::empty(),
    {
        let n: usize = nodes.len();
        let mut workers: Vec<WorkerConn> = Vec::new();
        let mut i: usize = 0;
        while i < n
            invariant
                i <= n,
                n == nodes@.len(),
                up@.len() == n,
                workers@.len() == reached(up@, i as nat),
                forall|k: int|
                    0 <= k < workers@.len() ==> (#[trigger] workers@[k]).wf() && workers@[k].alive
                        && workers@[k].ring@ == Seq::<u8>::empty() && workers@[k].results@
                        == Map::<u64, TileResult>::empty(),
            decreases n - i,
        {
            if up[i] {
                workers.push(WorkerConn::new());
            }
            i = i + 1;
        }
        NetworkLayer { workers }
    }

    /// Whether a worker is alive.
    pub fn is_available(&self) -> (r: bool)
        ensures
            r == exists|i: int| 0 <= i < self.workers@.len() && (#[trigger] self.workers@[i]).alive,
    {
        let n: usize = self.workers.len();
        let mut i: usize = 0;
        while i < n
            invariant
                i <= n,
                n == self.workers@.len(),
                forall|k: int| 0 <= k < i ==> !(#[trigger] self.workers@[k]).alive,
            decreases n - i,
        {
            if self.workers[i].alive {
                return true;
            }
            i = i + 1;
        }
        false
    }

    /// Gives all tiles but the first to the workers, each in turn, and gives the
    /// ids of those that went.
    pub fn dispatch(&mut self, tiles: &[Tile]) -> (r: Vec<u64>)
        requires
            old(self).wf(),
            old(self).workers@.len() > 0 ==> tiles@.len() > 0,
        ensures
            final(self).wf(),
            final(self).workers@.len() == old(self).workers@.len(),
            old(self).workers@.len() == 0 ==> r@ == Seq::<u64>::empty(),
            old(self).workers@.len() > 0 ==> (conns(final(self).workers@), r@) == dispatched(
                conns(old(self).workers@),
                tiles@,
                (tiles@.len() - 1) as nat,
            ),
            forall|i: int|
                0 <= i < old(self).workers@.len() ==> (#[trigger] final(self).workers@[i]).results@
                    == old(self).workers@[i].results@,
    {
        let w: usize = self.workers.len();
        let mut ids: Vec<u64> = Vec::new();
        if w == 0 {
            return ids;
        }
        let n: usize = tiles.len();
        let ghost start = conns(self.workers@);
        let mut k: usize = 0;
        while k < n - 1
            invariant
                k <= n - 1,
                n == tiles@.len(),
                n > 0,
                w > 0,
                w == self.workers@.len(),
                w == old(self).workers@.len(),
                self.wf(),
                start == conns(old(self).workers@),
                (conns(self.workers@), ids@) == dispatched(start, tiles@, k as nat),
                forall|i: int|
                    0 <= i < w ==> (#[trigger] self.workers@[i]).results@ == old(
                        self,
                    ).workers@[i].results@,
            decreases n - 1 - k,
        {
            let j: usize = k % w;
            let ghost before = self.workers@;
            let tile: &Tile = &tiles[k + 1];
            let alive: bool = self.workers[j].alive;
            let mut sent: bool = false;
            if alive {
                let conn: &mut WorkerConn = &mut self.workers[j];
                sent = conn.send_tile(tile);
                if sent {
                    ids.push(tile.id);
                }
            }
            proof {
                let v = conns(before);
                assert(v[j as int].queue == before[j as int].ring@);
                assert(sent == goes(v, tiles@, k as nat));
                if sent {
                    assert(conns(self.workers@) =~= v.update(
                        j as int,
                        ConnView {
                            queue: v[j as int].queue + request_bytes(*tile),
                            alive: v[j as int].alive,
                        },
                    ));
                } else {
                    assert(conns(self.workers@) =~= v);
                }
            }
            k = k + 1;
        }
        ids
    }

    /// Takes the results of tiles that are there, and gives the ids of the tiles
    /// that are not. A tile whose result was taken before is not asked for.
    pub fn collect(&mut self, tile_ids: &Vec<u64>, results: &mut HashMap<u64, TileResult>) -> (r:
        Vec<u64>)
        requires
            old(self).wf(),
        ensures
            final(self).wf(),
            final(self).workers@.len() == old(self).workers@.len(),
            conns(final(self).workers@) == conns(old(self).workers@),
            (results_of(final(self).workers@), final(results)@, r@) == collected(
                results_of(old(self).workers@),
                old(results)@,
                tile_ids@,
                tile_ids@.len(),
            ),
    {
        broadcast use vstd::std_specs::hash::group_hash_axioms;

        let n: usize = tile_ids.len();
        let ghost start = results_of(self.workers@);
        let ghost had = results@;
        let ghost first = conns(self.workers@);
        let mut missing: Vec<u64> = Vec::new();
        let mut i: usize = 0;
        while i < n
            invariant
                i <= n,
                n == tile_ids@.len(),
                self.wf(),
                self.workers@.len() == old(self).workers@.len(),
                conns(self.workers@) == first,
                (results_of(self.workers@), results@, missing@) == collected(
                    start,
                    had,
                    tile_ids@,
                    i as nat,
                ),
            decreases n - i,
        {
            let id: u64 = tile_ids[i];
            if !results.contains_key(&id) {
                match self.poll(id) {
                    Some(res) => {
                        results.insert(id, res);
                    },
                    None => {
                        missing.push(id);
                    },
                }
            }
            i = i + 1;
        }
        missing
    }

    /// Takes the result of a tile from the first worker that has it.
    fn poll(&mut self, id: u64) -> (r: Option<TileResult>)
        requires
            old(self).wf(),
        ensures
            final(self).wf(),
            final(self).workers@.len() == old(self).workers@.len(),
            conns(final(self).workers@) == conns(old(self).workers@),
            match holder(results_of(old(self).workers@), id, 0) {
                Some(j) => {
                    &&& r == Some(results_of(old(self).workers@)[j as int][id])
                    &&& results_of(final(self).workers@) == results_of(
                        old(self).workers@,
                    ).update(j as int, results_of(old(self).workers@)[j as int].remove(id))
                },
                None => r is None && results_of(final(self).workers@) == results_of(
                    old(self).workers@,
                ),
            },
    {
        let n: usize = self.workers.len();
        let ghost start = results_of(self.workers@);
        let ghost first = conns(self.workers@);
        let mut j: usize = 0;
        while j < n
            invariant
                j <= n,
                n == self.workers@.len(),
                n == old(self).workers@.len(),
                self.wf(),
                start == results_of(old(self).workers@),
                first == conns(old(self).workers@),
                results_of(self.workers@) == start,
                conns(self.workers@) == first,
                holder(start, id, 0) == holder(start, id, j as nat),
            decreases n - j,
        {
            let ghost before = self.workers@;
            assert(start[j as int] == before[j as int].results@);
            let conn: &mut WorkerConn = &mut self.workers[j];
            let got: Option<TileResult> = conn.poll_result(id);
            proof {
                assert(conns(self.workers@) =~= conns(before));
                assert(results_of(self.workers@) =~= start.update(
                    j as int,
                    start[j as int].remove(id),
                ));
            }
            if got.is_some() {
                return got;
            }
            proof {
                assert(start[j as int].remove(id) =~= start[j as int]);
                assert(results_of(self.workers@) =~= start);
            }
            j = j + 1;
        }
        None
    }

    /// Puts the outputs of tiles together: the one made here, and then those of
    /// the other tiles in order, with zeros for a tile that has no result.
    pub fn reassemble(
        local_output: &[u8],
        remote_results: &HashMap<u64, TileResult>,
        tile_order: &[Tile],
    ) -> (out: Vec<u8>)
        requires
            tile_order@.len() > 0,
        ensures
            out@ == joined(local_output@, remote_results@, tile_order@, tile_order@.len()),
    {
        broadcast use vstd::std_specs::hash::group_hash_axioms;

        let n: usize = tile_order.len();
        let mut out: Vec<u8> = Vec::new();
        write_bytes(&mut out, local_output);
        assert(out@ =~= local_output@);
        let mut k: usize = 1;
        while k < n
            invariant
                1 <= k <= n,
                n == tile_order@.len(),
                out@ == joined(local_output@, remote_results@, tile_order@, k as nat),
            decreases n - k,
        {
            let id: u64 = tile_order[k].id;
            match remote_results.get(&id) {
                Some(res) => write_bytes(&mut out, res.output.as_slice()),
                None => write_zeros(&mut out, tile_order[k].elem_count, tile_order[k].bits),
            }
            k = k + 1;
        }
        out
    }

    /// Ends all connections.
    pub fn shutdown(&mut self)
        requires
            old(self).wf(),
        ensures
            final(self).wf(),
            final(self).workers@.len() == old(self).workers@.len(),
            forall|i: int|
                0 <= i < old(self).workers@.len() ==> {
                    &&& !(#[trigger] final(self).workers@[i]).alive
                    &&& final(self).workers@[i].ring@ == told(old(self).workers@[i].ring@)
                    &&& final(self).workers@[i].results@ == old(self).workers@[i].results@
                },
    {
        let n: usize = self.workers.len();
        let mut j: usize = 0;
        while j < n
            invariant
                j <= n,
                n == self.workers@.len(),
                n == old(self).workers@.len(),
                self.wf(),
                forall|i: int|
                    0 <= i < j ==> {
                        &&& !(#[trigger] self.workers@[i]).alive
                        &&& self.workers@[i].ring@ == told(old(self).workers@[i].ring@)
                        &&& self.workers@[i].results@ == old(self).workers@[i].results@
                    },
                forall|i: int|
                    j <= i < n ==> #[trigger] self.workers@[i] == old(self).workers@[i],
            decreases n - j,
        {
            let conn: &mut WorkerConn = &mut self.workers[j];
            conn.shutdown();
            j = j + 1;
        }
    }
}

/// The results that workers hold.
pub open spec fn results_of(workers: Seq<WorkerConn>) -> Seq<Map<u64, TileResult>> {
    Seq::new(workers.len(), |i: int| workers[i].results@)
}

/// The first worker from `j` on that holds the result of a tile.
pub open spec fn holder(held: Seq<Map<u64, TileResult>>, id: u64, j: nat) -> Option<nat>
    decreases held.len() - j,
{
    if j >= held.len() {
        None
    } else if held[j as int].contains_key(id) {
        Some(j)
    } else {
        holder(held, id, j + 1)
    }
}

/// What the workers still hold, all results, and the tiles that are missing,
/// after the first `k` tiles were asked for.
pub open spec fn collected(
    held: Seq<Map<u64, TileResult>>,
    results: Map<u64, TileResult>,
    ids: Seq<u64>,
    k: nat,
) -> (Seq<Map<u64, TileResult>>, Map<u64, TileResult>, Seq<u64>)
    decreases k,
{
    if k == 0 {
        (held, results, Seq::empty())
    } else {
        let (h, r, missing) = collected(held, results, ids, (k - 1) as nat);
        let id = ids[k - 1];
        if r.contains_key(id) {
            (h, r, missing)
        } else {
            match holder(h, id, 0) {
                Some(j) => (
                    h.update(j as int, h[j as int].remove(id)),
                    r.insert(id, h[j as int][id]),
                    missing,
                ),
                None => (h, r, missing.push(id)),
            }
        }
    }
}

/// Every tile's output stands in its place, whatever tiles have no result.
pub proof fn law_tiles_keep_places(
    local: Seq<u8>,
    results: Map<u64, TileResult>,
    tiles: Seq<Tile>,
    unit: nat,
    k: nat,
    i: nat,
)
    requires
        0 < k <= tiles.len(),
        0 < i < k,
        tiles[0].elem_start == 0,
        forall|j: int|
            0 < j < tiles.len() ==> (#[trigger] tiles[j]).elem_start == tiles[j - 1].elem_start
                + tiles[j - 1].elem_count,
        forall|j: int| 0 <= j < tiles.len() ==> wire_unit((#[trigger] tiles[j]).bits) == unit,
        local.len() == tile_size(tiles[0]),
        forall|j: int|
            0 < j < tiles.len() && results.contains_key((#[trigger] tiles[j]).id)
                ==> results[tiles[j].id].output@.len() == tile_size(tiles[j]),
    ensures
        joined(local, results, tiles, k).len() == (tiles[k - 1].elem_start + tiles[k
            - 1].elem_count) * unit,
        local.len() <= joined(local, results, tiles, k).len(),
        joined(local, results, tiles, k).take(local.len() as int) == local,
        ({
            let at = tiles[i as int].elem_start as int * unit as int;
            &&& 0 <= at <= at + tile_size(tiles[i as int]) <= joined(local, results, tiles, k).len()
            &&& joined(local, results, tiles, k).subrange(at, at + tile_size(tiles[i as int]))
                == tile_output(results, tiles[i as int])
        }),
    decreases k,
{
    let t = tiles[k - 1];
    let m = (k - 1) as nat;
    let before = joined(local, results, tiles, m);
    let all = joined(local, results, tiles, k);
    assert(tiles[0].elem_start as int * unit == 0) by (nonlinear_arith)
        requires
            tiles[0].elem_start == 0,
    ;
    lemma_mul_is_distributive_add_other_way(
        unit as int,
        t.elem_start as int,
        t.elem_count as int,
    );
    lemma_mul_nonnegative(t.elem_start as int, unit as int);
    lemma_mul_nonnegative(t.elem_count as int, unit as int);
    lemma_mul_is_distributive_add_other_way(
        unit as int,
        tiles[0].elem_start as int,
        tiles[0].elem_count as int,
    );
    if m == 1 {
        assert(before == local);
    } else {
        law_tiles_keep_places(local, results, tiles, unit, m, if i < m {
            i
        } else {
            1
        });
    }
    assert(before.len() == t.elem_start as int * unit);
    assert(tile_output(results, t).len() == tile_size(t));
    assert(before.take(local.len() as int) =~= local);
    assert(all.take(local.len() as int) =~= before.take(local.len() as int));
    let at = tiles[i as int].elem_start as int * unit as int;
    if i < m {
        assert(all.subrange(at, at + tile_size(tiles[i as int])) =~= before.subrange(
            at,
            at + tile_size(tiles[i as int]),
        ));
    } else {
        assert(all.subrange(at, at + tile_size(tiles[i as int])) =~= tile_output(results, t));
    }
}

proof fn lemma_joined_tiles(
    data: Seq<u8>,
    size: nat,
    parts: nat,
    unit: nat,
    local: Seq<u8>,
    results: Map<u64, TileResult>,
    tiles: Seq<Tile>,
    k: nat,
)
    requires
        0 < k <= parts <= size,
        unit > 0,
        data.len() == size * unit,
        local == tile_bytes(data, 0, tile_len(size, parts, 0), 8 * unit),
        forall|i: int|
            1 <= i < parts ==> results.contains_key(#[trigger] tiles[i].id)
                && results[tiles[i].id].output@ == tile_bytes(
                data,
                tile_start(size, parts, i as nat),
                tile_len(size, parts, i as nat),
                8 * unit,
            ),
    ensures
        tile_start(size, parts, k) <= size,
        0 <= tile_start(size, parts, k) * unit <= data.len(),
        joined(local, results, tiles, k) == data.take(
            (tile_start(size, parts, k) * unit) as int,
        ),
    decreases k,
{
    let m = (k - 1) as nat;
    let start = tile_start(size, parts, m);
    let count = tile_len(size, parts, m);
    assert(tile_start(size, parts, parts) == size) by {
        law_tiles_cover(size, parts);
    }
    law_tiles_are_even(size, parts, m, 0);
    lemma_starts_grow(size, parts, k, parts);
    assert(tile_start(size, parts, k) == start + count);
    lemma_whole_bytes(data, size, start, count, unit);
    if k == 1 {
        lemma_mul_basics(unit as int);
        assert(data.subrange(0, (count * unit) as int) =~= data.take((count * unit) as int));
    } else {
        lemma_joined_tiles(data, size, parts, unit, local, results, tiles, m);
        assert(results.contains_key(tiles[k - 1].id));
        assert(data.take((start * unit) as int) + data.subrange(
            (start * unit) as int,
            ((start + count) * unit) as int,
        ) =~= data.take(((start + count) * unit) as int));
    }
}

/// Where the elements have whole bytes and every tile's output is its part of an
/// array, the tiles put together are the array.
pub proof fn law_reassembly_restores(
    data: Seq<u8>,
    size: nat,
    unit: nat,
    local: Seq<u8>,
    results: Map<u64, TileResult>,
    tiles: Seq<Tile>,
)
    requires
        0 < tiles.len() <= size,
        unit > 0,
        data.len() == size * unit,
        local == tile_bytes(data, 0, tile_len(size, tiles.len(), 0), 8 * unit),
        forall|i: int|
            1 <= i < tiles.len() ==> results.contains_key(#[trigger] tiles[i].id)
                && results[tiles[i].id].output@ == tile_bytes(
                data,
                tile_start(size, tiles.len(), i as nat),
                tile_len(size, tiles.len(), i as nat),
                8 * unit,
            ),
    ensures
        joined(local, results, tiles, tiles.len()) == data,
{
    lemma_joined_tiles(data, size, tiles.len(), unit, local, results, tiles, tiles.len());
    assert(tile_start(size, tiles.len(), tiles.len()) == size) by {
        law_tiles_cover(size, tiles.len());
    }
    assert(data.take(data.len() as int) =~= data);
}

} // verus!
