//! Tiles, messages, and the coordinator.

use numtoy::bytes::{read_u32, read_u64, write_u32_le, write_u64_le};
use numtoy::graph::{ArenaGraph, Node};
use numtoy::ir::{flat_var, Expr};
use numtoy::network::layer::{NetworkLayer, NodeAddr, WorkerConn};
use numtoy::network::ring::RingBuffer;
use numtoy::network::tiles::{decompose, Tile, TileIds, TileResult};
use numtoy::network::wire::{
    decode_tile_resp, encode_tile_req, parse_request, process_tile_request, receive_step,
    worker_step, ReceiveStep, WorkerStep,
};
use numtoy::types::DataType;
use std::collections::HashMap;

const SIZE: usize = (1 << 20) + 3;

fn var(id: usize, d: DataType, size: usize) -> Expr {
    let bytes = size * d.bit_width() as usize / 8;
    let data: Vec<u8> = (0..bytes).map(|i| (i * 7 + id) as u8).collect();
    flat_var(id, "v", d, size, data, None, false)
}

fn tile(id: u64, bufs: Vec<Vec<u8>>) -> Tile {
    Tile { id, elem_start: 0, elem_count: 2, bits: 16, input_bufs: bufs }
}

#[test]
fn numbers_are_little_endian() {
    let mut b = Vec::new();
    write_u32_le(&mut b, 0x0102_0304);
    write_u64_le(&mut b, 0x1122_3344_5566_7788);
    assert_eq!(b[..4], [4, 3, 2, 1]);
    assert_eq!(read_u32(&b, 0), 0x0102_0304);
    assert_eq!(read_u64(&b, 4), 0x1122_3344_5566_7788);
}

#[test]
fn the_ring_is_first_in_first_out() {
    let mut r = RingBuffer::new();
    let mut out = Vec::new();
    assert!(r.push(&[1, 2, 3]));
    assert!(r.push(&[4]));
    assert_eq!(r.drain(&mut out, 2), 2);
    assert_eq!(r.len(), 2);
    assert_eq!(r.drain(&mut out, 100), 2);
    assert_eq!(out, vec![1, 2, 3, 4]);
    assert_eq!(r.drain(&mut out, 100), 0);
    let big = vec![7u8; (1 << 22) - 1];
    assert!(r.push(&big));
    assert!(!r.push(&[1, 2]));
    assert!(r.push(&[9]));
    out.clear();
    assert_eq!(r.drain(&mut out, 1 << 22), 1 << 22);
    assert_eq!(out[(1 << 22) - 1], 9);
    assert!(r.push(&[5, 6]));
    out.clear();
    r.drain(&mut out, 10);
    assert_eq!(out, vec![5, 6]);
}

#[test]
fn small_or_unsuited_graphs_are_not_cut() {
    let mut ids = TileIds { next: 0 };
    let small = ArenaGraph::from_expr(&var(1, DataType::Int(8), 100));
    assert!(decompose(&small, 3, &mut ids).is_none());
    let large = ArenaGraph::from_expr(&var(1, DataType::Int(8), SIZE));
    assert!(decompose(&large, 0, &mut ids).is_none());
    let mut product = ArenaGraph::from_expr(&var(1, DataType::Int(8), SIZE));
    let w = product.root;
    product.root = product.push(Node::DequantizeMatmul(w, w, SIZE, 1, 1));
    assert!(decompose(&product, 3, &mut ids).is_none());
    assert_eq!(ids.next, 0);
}

#[test]
fn tiles_cover_all_elements() {
    let d = DataType::Int(16);
    let e = var(1, d, SIZE).add(var(2, d, SIZE)).mul(var(1, d, SIZE));
    let g = ArenaGraph::from_expr(&e);
    let mut ids = TileIds { next: 5 };
    let tiles = decompose(&g, 3, &mut ids).unwrap();
    assert_eq!(tiles.len(), 4);
    assert_eq!(ids.next, 9);
    let mut start = 0;
    for (i, t) in tiles.iter().enumerate() {
        assert_eq!(t.id, 5 + i as u64);
        assert_eq!(t.elem_start, start);
        assert_eq!(t.bits, 16);
        assert_eq!(t.input_bufs.len(), 2);
        assert_eq!(t.input_bufs[0].len(), 2 * t.elem_count);
        start += t.elem_count;
    }
    assert_eq!(start, SIZE);
    assert_eq!(tiles[0].elem_count, tiles[3].elem_count + 1);
}

#[test]
fn tiles_hold_the_bits_of_their_elements() {
    let bit = |s: &[u8], j: usize| (s[j / 8] >> (j % 8)) & 1;
    let bytes: Vec<u8> = (0..SIZE).map(|i| (i * 37 + i / 256) as u8).collect();
    let narrow = flat_var(1, "v", DataType::Int(4), SIZE, bytes.clone(), None, false);
    let odd = flat_var(2, "v", DataType::ScalableInt(3), SIZE, bytes.clone(), None, false);
    let g = ArenaGraph::from_expr(&narrow.add(odd));
    let mut ids = TileIds { next: 0 };
    for t in decompose(&g, 6, &mut ids).unwrap() {
        for (buf, w) in t.input_bufs.iter().zip([4, 3]) {
            let n = t.elem_count * w;
            assert_eq!(buf.len(), (n + 7) / 8);
            for j in 0..n {
                assert_eq!(bit(buf, j), bit(&bytes, t.elem_start * w + j));
            }
            for j in n..8 * buf.len() {
                assert_eq!(bit(buf, j), 0);
            }
        }
    }
}

#[test]
fn missing_bytes_are_zeros() {
    let e = flat_var(1, "v", DataType::Int(8), SIZE, vec![1u8; 10], None, false);
    let g = ArenaGraph::from_expr(&e);
    let mut ids = TileIds { next: u64::MAX };
    let tiles = decompose(&g, 1, &mut ids).unwrap();
    assert_eq!(tiles[0].input_bufs[0], vec![1u8; 10]);
    assert_eq!(tiles[1].input_bufs[0], vec![0u8; tiles[1].elem_count]);
    assert_eq!(tiles[1].id, 0);
}

#[test]
fn requests_round_trip() {
    let t = tile(0x0102, vec![vec![1, 2, 3, 4], vec![], vec![9]]);
    let msg = encode_tile_req(&t);
    assert_eq!(msg[0], 1);
    assert_eq!(msg.len(), 1 + 20 + 4 + 4 + 4 + 4 + 1);
    let mut more = msg[1..].to_vec();
    more.extend_from_slice(&[8, 8]);
    let (req, used) = parse_request(&more).unwrap();
    assert_eq!(used, msg.len() - 1);
    assert_eq!(req.id, 0x0102);
    assert_eq!(req.elem_count, 2);
    assert_eq!(req.bits, 16);
    assert_eq!(req.input_bufs, t.input_bufs);
    for n in 0..msg.len() - 1 {
        assert!(parse_request(&msg[1..1 + n]).is_none());
    }
}

#[test]
fn workers_answer_with_the_first_input() {
    let echo = |bufs: Vec<Vec<u8>>| {
        let msg = encode_tile_req(&tile(3, bufs));
        let (req, _) = parse_request(&msg[1..]).unwrap();
        let resp = process_tile_request(&req);
        assert_eq!(resp[0], 2);
        let (res, used) = decode_tile_resp(&resp[1..]).unwrap();
        assert_eq!(used, resp.len() - 1);
        assert_eq!(res.id, 3);
        assert_eq!(res.elem_count, 2);
        assert_eq!(res.bits, 16);
        res.output
    };
    assert_eq!(echo(vec![vec![1, 2, 3, 4], vec![5]]), vec![1, 2, 3, 4]);
    assert_eq!(echo(vec![vec![1, 2, 3, 4, 5, 6]]), vec![1, 2, 3, 4]);
    assert_eq!(echo(vec![vec![1]]), vec![1, 0, 0, 0]);
    assert_eq!(echo(vec![]), vec![0, 0, 0, 0]);
}

#[test]
fn connections_step_through_their_bytes() {
    assert!(matches!(worker_step(&[]), WorkerStep::Wait));
    assert!(matches!(worker_step(&[0xFF]), WorkerStep::Shutdown));
    assert!(matches!(worker_step(&[9, 9]), WorkerStep::Close));
    let msg = encode_tile_req(&tile(3, vec![vec![1, 2, 3, 4]]));
    assert!(matches!(worker_step(&msg[..10]), WorkerStep::Wait));
    let response = match worker_step(&msg) {
        WorkerStep::Reply { response, used } => {
            assert_eq!(used, msg.len());
            response
        }
        _ => panic!("expected a reply"),
    };
    assert!(matches!(receive_step(&[]), ReceiveStep::Wait));
    assert!(matches!(receive_step(&[0xFF]), ReceiveStep::Close));
    assert!(matches!(receive_step(&response[..20]), ReceiveStep::Wait));
    match receive_step(&response) {
        ReceiveStep::Take { result, used } => {
            assert_eq!(used, response.len());
            assert_eq!(result.output, vec![1, 2, 3, 4]);
        }
        _ => panic!("expected a result"),
    }
}

fn layer(n: usize) -> NetworkLayer {
    let nodes: Vec<NodeAddr> =
        (0..n).map(|i| NodeAddr::new(format!("host{i}"), 7700)).collect();
    NetworkLayer::connect(&nodes, &vec![true; n])
}

#[test]
fn addresses_are_texts() {
    assert_eq!(NodeAddr::new("localhost".to_string(), 80).authority(), "localhost:80");
}

#[test]
fn unreached_nodes_are_skipped() {
    let nodes =
        vec![NodeAddr::new("a".to_string(), 1), NodeAddr::new("b".to_string(), 2)];
    let l = NetworkLayer::connect(&nodes, &vec![false, true]);
    assert_eq!(l.workers.len(), 1);
    assert!(l.is_available());
    let none = NetworkLayer::connect(&nodes, &vec![false, false]);
    assert!(!none.is_available());
}

#[test]
fn tiles_go_to_workers_in_turn() {
    let mut l = layer(2);
    let tiles: Vec<Tile> = (0..4).map(|i| tile(i, vec![vec![i as u8; 4]])).collect();
    assert_eq!(l.dispatch(&tiles), vec![1, 2, 3]);
    let mut sent = Vec::new();
    l.workers[0].ring.drain(&mut sent, 1000);
    let mut expected = encode_tile_req(&tiles[1]);
    expected.extend(encode_tile_req(&tiles[3]));
    assert_eq!(sent, expected);
    l.workers[1].alive = false;
    assert_eq!(l.dispatch(&tiles), vec![1, 3]);
    assert!(layer(0).dispatch(&[]).is_empty());
}

#[test]
fn results_are_collected_and_joined() {
    let mut l = layer(2);
    let tiles: Vec<Tile> = (0..3).map(|i| tile(i, vec![])).collect();
    let result = |id: u64| TileResult { id, elem_count: 2, bits: 16, output: vec![id as u8; 4] };
    l.workers[1].accept_result(result(2));
    let mut results = HashMap::new();
    assert_eq!(l.collect(&vec![1, 2], &mut results), vec![1]);
    l.workers[0].accept_result(result(1));
    assert!(l.collect(&vec![1], &mut results).is_empty());
    assert_eq!(
        NetworkLayer::reassemble(&[0; 4], &results, &tiles),
        vec![0, 0, 0, 0, 1, 1, 1, 1, 2, 2, 2, 2]
    );
    results.remove(&1);
    assert_eq!(
        NetworkLayer::reassemble(&[0; 4], &results, &tiles),
        vec![0, 0, 0, 0, 0, 0, 0, 0, 2, 2, 2, 2]
    );
}

#[test]
fn dropped_tiles_leave_zeros() {
    let part = |id: u64, start: usize| Tile {
        id,
        elem_start: start,
        elem_count: 2,
        bits: 8,
        input_bufs: vec![],
    };
    let tiles = vec![part(10, 0), part(11, 2), part(12, 4)];
    let mut results = HashMap::new();
    results.insert(12, TileResult { id: 12, elem_count: 2, bits: 8, output: vec![5, 6] });
    assert_eq!(NetworkLayer::reassemble(&[1, 2], &results, &tiles), vec![1, 2, 0, 0, 5, 6]);
    let narrow = vec![part(10, 0), Tile { bits: 12, elem_count: 3, ..part(13, 2) }];
    assert_eq!(NetworkLayer::reassemble(&[1, 2], &results, &narrow), vec![1, 2, 0, 0, 0, 0, 0, 0]);
}

#[test]
fn shutdown_tells_the_workers() {
    let mut l = layer(1);
    l.shutdown();
    assert!(!l.is_available());
    let mut sent = Vec::new();
    l.workers[0].ring.drain(&mut sent, 10);
    assert_eq!(sent, vec![0xFF]);
    let mut c = WorkerConn::new();
    assert!(c.poll_result(1).is_none());
    assert!(c.send_tile(&tile(1, vec![])));
}

#[test]
fn cut_and_joined_arrays_are_unchanged() {
    let e = var(1, DataType::Int(8), SIZE);
    let g = ArenaGraph::from_expr(&e);
    let mut ids = TileIds { next: 0 };
    let tiles = decompose(&g, 2, &mut ids).unwrap();
    let mut results = HashMap::new();
    for t in &tiles[1..] {
        let msg = encode_tile_req(t);
        if let WorkerStep::Reply { response, .. } = worker_step(&msg) {
            if let ReceiveStep::Take { result, .. } = receive_step(&response) {
                results.insert(result.id, result);
            }
        }
    }
    let whole = NetworkLayer::reassemble(&tiles[0].input_bufs[0], &results, &tiles);
    match &e {
        Expr::Variable { packed_data, .. } => assert_eq!(whole, packed_data.as_slice()),
        _ => panic!("expected Variable"),
    }
}
