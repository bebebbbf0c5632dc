use lib::command::{BrotliDistanceParams, BrotliEncoderParams, Command};
use lib::histogram::{SetCostTotals, ZopfliCostModelHistograms};
use lib::node::{BrotliInitZopfliNodes, UpdateZopfliNode, Union1, ZopfliNode};
use lib::queue::{
    CostOrderKey, InitStartPosQueue, PosData, StartPosQueue, StartPosQueueAt, StartPosQueuePush,
    StartPosQueueSize,
};
use lib::update::{EvaluateNode, NodeCandidate, ZopfliNodeCandidates};

fn params() -> BrotliEncoderParams {
    BrotliEncoderParams {
        quality: 11,
        lgwin: 22,
        dist: BrotliDistanceParams {
            distance_postfix_bits: 0,
            num_direct_distance_codes: 0,
            alphabet_size: 64,
            max_distance: (1 << 22) - 16,
        },
    }
}

fn pos_data(pos: usize, costdiff: f32) -> PosData {
    PosData { pos, distance_cache: [4, 11, 15, 16], costdiff: costdiff.to_bits(), cost: 0 }
}

fn empty_queue() -> StartPosQueue {
    let mut q = StartPosQueue { q_: [pos_data(99, 0.0); 8], idx_: 5 };
    InitStartPosQueue(&mut q);
    q
}

fn costdiffs(q: &StartPosQueue) -> Vec<f32> {
    (0..StartPosQueueSize(q)).map(|k| f32::from_bits(StartPosQueueAt(q, k).costdiff)).collect()
}

fn positions(q: &StartPosQueue) -> Vec<usize> {
    (0..StartPosQueueSize(q)).map(|k| StartPosQueueAt(q, k).pos).collect()
}

#[test]
fn order_key_orders_like_the_floats() {
    let values = [-1e30f32, -2.5, -1.0, -0.0, 0.0, 1e-30, 0.5, 1.0, 3.25, 1.7e38];
    for a in values.iter() {
        for b in values.iter() {
            assert_eq!(a < b, CostOrderKey(a.to_bits()) < CostOrderKey(b.to_bits()), "{} {}", a, b);
        }
    }
    assert_eq!(CostOrderKey(0.0f32.to_bits()), 0);
    assert_eq!(CostOrderKey((-0.0f32).to_bits()), 0);
}

#[test]
fn queue_keeps_the_smallest_costdiff_first() {
    let mut q = empty_queue();
    assert_eq!(StartPosQueueSize(&q), 0);
    for (pos, c) in [(1usize, 3.0f32), (2, 1.0), (3, 2.0), (4, -1.0)].iter() {
        StartPosQueuePush(&mut q, &pos_data(*pos, *c));
    }
    assert_eq!(StartPosQueueSize(&q), 4);
    assert_eq!(costdiffs(&q), vec![-1.0, 1.0, 2.0, 3.0]);
    assert_eq!(positions(&q), vec![4, 2, 3, 1]);
}

#[test]
fn full_queue_drops_its_last_entry() {
    let mut q = empty_queue();
    for i in 0..10usize {
        StartPosQueuePush(&mut q, &pos_data(i, (10 - i) as f32));
    }
    assert_eq!(StartPosQueueSize(&q), 8);
    assert_eq!(costdiffs(&q), vec![1.0, 2.0, 3.0, 4.0, 5.0, 6.0, 7.0, 8.0]);
    StartPosQueuePush(&mut q, &pos_data(20, 0.5));
    assert_eq!(costdiffs(&q), vec![0.5, 1.0, 2.0, 3.0, 4.0, 5.0, 6.0, 7.0]);
    StartPosQueuePush(&mut q, &pos_data(21, 100.0));
    assert_eq!(costdiffs(&q), vec![0.5, 1.0, 2.0, 3.0, 4.0, 5.0, 6.0, 100.0]);
    assert_eq!(positions(&q)[7], 21);
}

#[test]
fn equal_costdiffs_keep_the_newest_first() {
    let mut q = empty_queue();
    StartPosQueuePush(&mut q, &pos_data(1, 2.0));
    StartPosQueuePush(&mut q, &pos_data(2, 2.0));
    assert_eq!(positions(&q), vec![2, 1]);
}

fn repeated_ring() -> Vec<u8> {
    let mut rb = vec![b'.'; 128];
    rb[..9].copy_from_slice(b"abcabcabc");
    rb
}

fn cache_candidate(len: usize, cmdcode: u16, copycode: u16) -> NodeCandidate {
    NodeCandidate {
        len,
        len_code: len,
        dist: 3,
        short_code: 1,
        copycode,
        copy_extra: 0,
        cmdcode,
        cost_dist_index: 0,
        dist_extra: 0,
        from_cache: true,
    }
}

fn same(a: &NodeCandidate, b: &NodeCandidate) -> bool {
    a.len == b.len && a.len_code == b.len_code && a.dist == b.dist && a.short_code == b.short_code
        && a.copycode == b.copycode && a.copy_extra == b.copy_extra && a.cmdcode == b.cmdcode
        && a.cost_dist_index == b.cost_dist_index && a.dist_extra == b.dist_extra
        && a.from_cache == b.from_cache
}

#[test]
fn candidates_from_the_cache_then_from_the_matches() {
    let rb = repeated_ring();
    let mut posdata = pos_data(0, 0.0);
    posdata.distance_cache = [3, 1, 2, 4];
    let m: u64 = 3 | ((6u64 << 5) << 32);
    let c = ZopfliNodeCandidates(9, 0, 3, &rb, 63, &params(), 1000, &posdata, 0, 2, 1, &[m]);
    assert_eq!(c.len(), 10);
    // last distance (code 0) for lengths 2..=6
    for (t, l) in (2usize..=6).enumerate() {
        let copycode = [0u16, 1, 2, 3, 4][t];
        assert!(same(&c[t], &cache_candidate(l, 24 + copycode, copycode)), "{:?}", c[t]);
    }
    // the match at distance 3, coded explicitly (distance code 18 -> prefix 1041)
    for (t, l) in (2usize..=6).enumerate() {
        let e = &c[5 + t];
        assert_eq!(e.len, l);
        assert_eq!(e.len_code, l);
        assert_eq!(e.dist, 3);
        assert_eq!(e.short_code, 0);
        assert_eq!(e.cmdcode, 128 + 24 + t as u16);
        assert_eq!(e.cost_dist_index, 17);
        assert_eq!(e.dist_extra, 1);
        assert!(!e.from_cache);
    }
}

#[test]
fn later_queue_entries_try_only_the_cache() {
    let rb = repeated_ring();
    let mut posdata = pos_data(0, 0.0);
    posdata.distance_cache = [3, 1, 2, 4];
    let m: u64 = 3 | ((6u64 << 5) << 32);
    let c = ZopfliNodeCandidates(9, 0, 3, &rb, 63, &params(), 1000, &posdata, 2, 2, 1, &[m]);
    assert_eq!(c.len(), 5);
    assert!(c.iter().all(|x| x.from_cache));
}

#[test]
fn long_match_is_tried_only_at_its_full_length() {
    let mut rb = vec![b'z'; 2048];
    rb[0] = b'y';
    let mut posdata = pos_data(1, 0.0);
    posdata.distance_cache = [500, 500, 500, 500];
    // a match of 400 bytes at distance 1 (longer than the 325 followed byte by byte)
    let m: u64 = 1 | ((400u64 << 5) << 32);
    let c = ZopfliNodeCandidates(600, 0, 2, &rb, 511, &params(), 1000, &posdata, 0, 2, 1, &[m]);
    assert_eq!(c.len(), 1);
    assert_eq!(c[0].len, 400);
    assert_eq!(c[0].dist, 1);
}

#[test]
fn dictionary_match_uses_its_length_code() {
    let rb = repeated_ring();
    let mut posdata = pos_data(0, 0.0);
    posdata.distance_cache = [100, 100, 100, 100];
    // distance 2000 lies beyond max_distance (3), so this is a dictionary word
    let m: u64 = 2000 | (((8u64 << 5) | 6) << 32);
    let c = ZopfliNodeCandidates(9, 0, 3, &rb, 63, &params(), 1000, &posdata, 0, 2, 1, &[m]);
    assert_eq!(c.len(), 1);
    assert_eq!(c[0].len, 8);
    assert_eq!(c[0].len_code, 6);
    assert_eq!(c[0].copycode, 4);
    assert_eq!(c[0].dist, 2000);
}

fn node_stub() -> ZopfliNode {
    ZopfliNode { length: 0, distance: 0, dcode_insert_length: 0, u: Union1::cost(0) }
}

#[test]
fn evaluate_node_sets_the_shortcut_and_pushes() {
    let mut nodes = vec![node_stub(); 11];
    BrotliInitZopfliNodes(&mut nodes, 11);
    nodes[0].length = 0;
    nodes[0].u = Union1::shortcut(0);
    UpdateZopfliNode(&mut nodes, 0, 0, 4, 4, 1, 0, 2.5f32.to_bits());
    let mut q = empty_queue();
    let starting = [4i32, 11, 15, 16];
    EvaluateNode(100, 4, 1000, 0, &starting, &mut q, &mut nodes, true, (-1.5f32).to_bits());
    assert!(matches!(nodes[4].u, Union1::shortcut(4)));
    assert_eq!(StartPosQueueSize(&q), 1);
    let e = StartPosQueueAt(&q, 0);
    assert_eq!(e.pos, 4);
    assert_eq!(e.distance_cache, [1, 4, 11, 15]);
    assert_eq!(f32::from_bits(e.costdiff), -1.5);
    assert_eq!(f32::from_bits(e.cost), 2.5);

    // a node not worth starting from only gets its shortcut
    UpdateZopfliNode(&mut nodes, 4, 4, 4, 4, 1, 1, 3.0f32.to_bits());
    EvaluateNode(100, 8, 1000, 0, &starting, &mut q, &mut nodes, false, 0);
    assert!(matches!(nodes[8].u, Union1::shortcut(4)));
    assert_eq!(StartPosQueueSize(&q), 1);
}

fn command(insert: u32, copy: u32, cmd: u16, dist: u16) -> Command {
    Command { insert_len_: insert, copy_len_: copy, dist_extra_: 0, cmd_prefix_: cmd, dist_prefix_: dist }
}

#[test]
fn histograms_count_literals_commands_and_distances() {
    let mut rb = vec![0u8; 64];
    rb[..12].copy_from_slice(b"xyabcdefghij");
    let cmds = [command(3, 4, 130, 1040), command(2, 3, 20, 0), command(1, 2, 130, 1041)];
    // the first command starts 1 byte before position 1
    let (lit, cmd, dist) = ZopfliCostModelHistograms(1, &rb, 63, &cmds, 3, 1);
    assert_eq!(lit.len(), 256);
    assert_eq!(cmd.len(), 704);
    assert_eq!(dist.len(), 544);
    // literals: "xya" (bytes 0..3), "fg" (7..9) and the zero byte at 12
    assert_eq!(lit[b'x' as usize], 1);
    assert_eq!(lit[b'y' as usize], 1);
    assert_eq!(lit[b'a' as usize], 1);
    assert_eq!(lit[b'f' as usize], 1);
    assert_eq!(lit[b'g' as usize], 1);
    assert_eq!(lit[0], 1);
    assert_eq!(lit.iter().sum::<u32>(), 6);
    assert_eq!(cmd[130], 2);
    assert_eq!(cmd[20], 1);
    assert_eq!(cmd.iter().sum::<u32>(), 3);
    assert_eq!(dist[16], 1);
    assert_eq!(dist[17], 1);
    assert_eq!(dist.iter().sum::<u32>(), 2);
}

#[test]
fn cost_totals() {
    let h = [3u32, 0, 5, 0, 7];
    assert_eq!(SetCostTotals(&h, 5, 0), (15, 17));
    assert_eq!(SetCostTotals(&h, 5, 1), (15, 15));
    assert_eq!(SetCostTotals(&h, 3, 0), (8, 9));
    assert_eq!(SetCostTotals(&h, 0, 0), (0, 0));
}

#[test]
fn nan_costdiff_is_never_moved_back() {
    // a NaN compares false with everything, so it stays where it was placed
    let mut q = empty_queue();
    StartPosQueuePush(&mut q, &pos_data(1, 1.0));
    StartPosQueuePush(&mut q, &pos_data(2, f32::NAN));
    assert_eq!(positions(&q), vec![2, 1]);
    StartPosQueuePush(&mut q, &pos_data(3, 5.0));
    // 5.0 > NaN is false: no swap
    assert_eq!(positions(&q), vec![3, 2, 1]);
    assert!(lib::queue::CostGreater(2.0f32.to_bits(), 1.0f32.to_bits()));
    assert!(!lib::queue::CostGreater(f32::NAN.to_bits(), 1.0f32.to_bits()));
    assert!(!lib::queue::CostGreater(1.0f32.to_bits(), f32::NAN.to_bits()));
    assert!(!lib::queue::CostGreater((-0.0f32).to_bits(), 0.0f32.to_bits()));
}
