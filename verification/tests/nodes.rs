use lib::command::{BrotliDistanceParams, BrotliEncoderParams, Command};
use lib::node::{
    BrotliInitZopfliNodes, BrotliZopfliCreateCommands, ComputeDistanceCache, ComputeDistanceShortcut,
    ComputeShortestPathFromNodes, UpdateZopfliNode, Union1, ZopfliNode, ZopfliNodeCommandLength,
    ZopfliNodeCopyDistance, ZopfliNodeCopyLength, ZopfliNodeDistanceCode, ZopfliNodeLengthCode,
    K_INFINITY_BITS,
};

fn blank() -> ZopfliNode {
    ZopfliNode { length: 7, distance: 7, dcode_insert_length: 7, u: Union1::next(7) }
}

fn fresh_nodes(n: usize) -> Vec<ZopfliNode> {
    let mut nodes = vec![blank(); n];
    BrotliInitZopfliNodes(&mut nodes, n);
    nodes
}

fn params() -> BrotliEncoderParams {
    BrotliEncoderParams {
        quality: 11,
        lgwin: 22,
        dist: BrotliDistanceParams {
            distance_postfix_bits: 0,
            num_direct_distance_codes: 0,
            alphabet_size: 64,
            max_distance: (1 << 22) - 16,
        },
    }
}

fn empty_command() -> Command {
    Command { insert_len_: 0, copy_len_: 0, dist_extra_: 0, cmd_prefix_: 0, dist_prefix_: 0 }
}

fn cost_bits(n: &ZopfliNode) -> Option<u32> {
    match n.u {
        Union1::cost(c) => Some(c),
        _ => None,
    }
}

fn link(n: &ZopfliNode) -> Option<u32> {
    match n.u {
        Union1::next(c) => Some(c),
        _ => None,
    }
}

#[test]
fn init_resets_only_the_prefix() {
    let mut nodes = vec![blank(); 5];
    BrotliInitZopfliNodes(&mut nodes, 3);
    for n in nodes.iter().take(3) {
        assert_eq!(n.length, 1);
        assert_eq!(n.distance, 0);
        assert_eq!(n.dcode_insert_length, 0);
        assert_eq!(cost_bits(n), Some(K_INFINITY_BITS));
    }
    for n in nodes.iter().skip(3) {
        assert_eq!(n.length, 7);
        assert_eq!(link(n), Some(7));
    }
}

#[test]
fn update_then_read_back_a_plain_distance() {
    let mut nodes = fresh_nodes(40);
    UpdateZopfliNode(&mut nodes, 10, 4, 20, 22, 1000, 0, 0x4120_0000);
    let n = &nodes[30];
    assert_eq!(ZopfliNodeCopyLength(n), 20);
    assert_eq!(ZopfliNodeLengthCode(n), 22);
    assert_eq!(ZopfliNodeCopyDistance(n), 1000);
    assert_eq!(ZopfliNodeDistanceCode(n), 1015);
    assert_eq!(n.dcode_insert_length & 0x7ffffff, 6);
    assert_eq!(ZopfliNodeCommandLength(n), 26);
    assert_eq!(cost_bits(n), Some(0x4120_0000));
    // every other node stays as it was
    assert_eq!(nodes[29].length, 1);
    assert_eq!(nodes[31].length, 1);
}

#[test]
fn update_then_read_back_a_short_code() {
    let mut nodes = fresh_nodes(16);
    UpdateZopfliNode(&mut nodes, 3, 3, 4, 4, 11, 2, 0);
    let n = &nodes[7];
    assert_eq!(ZopfliNodeCopyLength(n), 4);
    assert_eq!(ZopfliNodeLengthCode(n), 4);
    assert_eq!(ZopfliNodeCopyDistance(n), 11);
    assert_eq!(ZopfliNodeDistanceCode(n), 1);
    assert_eq!(ZopfliNodeCommandLength(n), 4);
}

#[test]
fn length_code_of_a_dictionary_copy_differs_from_the_length() {
    let mut nodes = fresh_nodes(16);
    UpdateZopfliNode(&mut nodes, 0, 0, 5, 9, 77, 0, 0);
    assert_eq!(ZopfliNodeCopyLength(&nodes[5]), 5);
    assert_eq!(ZopfliNodeLengthCode(&nodes[5]), 9);
}

fn two_command_path() -> Vec<ZopfliNode> {
    let mut nodes = fresh_nodes(11);
    nodes[0].length = 0;
    nodes[0].u = Union1::cost(0);
    UpdateZopfliNode(&mut nodes, 0, 0, 4, 4, 1, 0, 0x4000_0000);
    UpdateZopfliNode(&mut nodes, 6, 4, 4, 4, 3, 0, 0x4100_0000);
    nodes
}

#[test]
fn shortest_path_links_the_path_forward() {
    let mut nodes = two_command_path();
    let r = ComputeShortestPathFromNodes(10, &mut nodes);
    assert_eq!(r, 2);
    assert_eq!(link(&nodes[10]), Some(u32::MAX));
    assert_eq!(link(&nodes[4]), Some(6));
    assert_eq!(link(&nodes[0]), Some(4));
    // nodes off the path keep their cost
    assert_eq!(cost_bits(&nodes[5]), Some(K_INFINITY_BITS));
}

#[test]
fn shortest_path_skips_unreached_tail_nodes() {
    let mut nodes = two_command_path();
    let mut longer = fresh_nodes(14);
    longer[..11].copy_from_slice(&nodes);
    let r = ComputeShortestPathFromNodes(13, &mut longer);
    assert_eq!(r, 2);
    assert_eq!(link(&longer[10]), Some(u32::MAX));
    let r2 = ComputeShortestPathFromNodes(10, &mut nodes);
    assert_eq!(r2, r);
}

#[test]
fn path_with_no_command_has_zero_commands() {
    let mut nodes = fresh_nodes(6);
    nodes[0].length = 0;
    nodes[0].u = Union1::cost(0);
    assert_eq!(ComputeShortestPathFromNodes(5, &mut nodes), 0);
    assert_eq!(link(&nodes[0]), Some(u32::MAX));
}

#[test]
fn commands_follow_the_linked_path() {
    let mut nodes = two_command_path();
    let r = ComputeShortestPathFromNodes(10, &mut nodes);
    let mut dist_cache = [4i32, 11, 15, 16];
    let mut last_insert_len = 5usize;
    let mut commands = vec![empty_command(); r];
    let mut num_literals = 100usize;
    BrotliZopfliCreateCommands(
        10, 100, 1000, &nodes, &mut dist_cache, &mut last_insert_len, &params(), &mut commands,
        &mut num_literals,
    );
    assert_eq!(commands[0].insert_len_, 5);
    assert_eq!(commands[0].copy_len_, 4);
    assert_eq!(commands[0].dist_prefix_, 1040);
    assert_eq!(commands[0].dist_extra_, 0);
    assert_eq!(commands[0].cmd_prefix_, 170);
    assert_eq!(commands[1].insert_len_, 2);
    assert_eq!(commands[1].copy_len_, 4);
    assert_eq!(commands[1].dist_prefix_, 1041);
    assert_eq!(commands[1].dist_extra_, 0);
    assert_eq!(commands[1].cmd_prefix_, 146);
    assert_eq!(dist_cache, [3, 1, 4, 11]);
    assert_eq!(num_literals, 107);
    assert_eq!(last_insert_len, 0);
}

#[test]
fn trailing_literals_go_to_last_insert_len() {
    let nodes = two_command_path();
    let mut longer = fresh_nodes(14);
    longer[..11].copy_from_slice(&nodes);
    let r = ComputeShortestPathFromNodes(13, &mut longer);
    let mut dist_cache = [4i32, 11, 15, 16];
    let mut last_insert_len = 0usize;
    let mut commands = vec![empty_command(); r];
    let mut num_literals = 0usize;
    BrotliZopfliCreateCommands(
        13, 100, 1000, &longer, &mut dist_cache, &mut last_insert_len, &params(), &mut commands,
        &mut num_literals,
    );
    assert_eq!(commands[0].insert_len_, 0);
    assert_eq!(num_literals, 2);
    assert_eq!(last_insert_len, 3);
}

#[test]
fn distance_beyond_the_window_is_a_dictionary_reference() {
    let mut nodes = fresh_nodes(6);
    nodes[0].length = 0;
    nodes[0].u = Union1::cost(0);
    // distance 500 lies beyond min(block_start + pos, max_backward) = 10
    UpdateZopfliNode(&mut nodes, 0, 0, 5, 5, 500, 0, 0);
    let r = ComputeShortestPathFromNodes(5, &mut nodes);
    assert_eq!(r, 1);
    let mut dist_cache = [4i32, 11, 15, 16];
    let mut last_insert_len = 0usize;
    let mut commands = vec![empty_command(); 1];
    let mut num_literals = 0usize;
    BrotliZopfliCreateCommands(
        5, 10, 1000, &nodes, &mut dist_cache, &mut last_insert_len, &params(), &mut commands,
        &mut num_literals,
    );
    assert_eq!(dist_cache, [4, 11, 15, 16]);
    assert_eq!(commands[0].copy_len_, 5);
}

#[test]
fn distance_shortcut_and_cache() {
    let mut nodes = two_command_path();
    // shortcuts as the search leaves them: node 4's command is usable, so is node 10's
    let s0 = ComputeDistanceShortcut(100, 0, 1000, 0, &nodes);
    assert_eq!(s0, 0);
    nodes[0].u = Union1::shortcut(s0);
    let s4 = ComputeDistanceShortcut(100, 4, 1000, 0, &nodes);
    assert_eq!(s4, 4);
    nodes[4].u = Union1::shortcut(s4);
    let s10 = ComputeDistanceShortcut(100, 10, 1000, 0, &nodes);
    assert_eq!(s10, 10);
    nodes[10].u = Union1::shortcut(s10);

    let starting = [4i32, 11, 15, 16];
    let mut cache = [0i32; 5];
    cache[4] = 99;
    ComputeDistanceCache(10, &starting, &nodes, &mut cache);
    assert_eq!(cache, [3, 1, 4, 11, 99]);
    ComputeDistanceCache(4, &starting, &nodes, &mut cache);
    assert_eq!(cache, [1, 4, 11, 15, 99]);
    ComputeDistanceCache(0, &starting, &nodes, &mut cache);
    assert_eq!(cache, [4, 11, 15, 16, 99]);
}

#[test]
fn distance_shortcut_passes_over_a_repeated_distance() {
    let mut nodes = fresh_nodes(11);
    nodes[0].length = 0;
    nodes[0].u = Union1::shortcut(0);
    UpdateZopfliNode(&mut nodes, 0, 0, 4, 4, 1, 0, 0);
    nodes[4].u = Union1::shortcut(4);
    // node 8's command repeats the last distance (short code 1 means distance code 0)
    UpdateZopfliNode(&mut nodes, 4, 4, 4, 4, 1, 1, 0);
    assert_eq!(ComputeDistanceShortcut(100, 8, 1000, 0, &nodes), 4);
    // a distance farther back than the data before it is not usable either
    UpdateZopfliNode(&mut nodes, 4, 4, 6, 6, 200, 0, 0);
    assert_eq!(ComputeDistanceShortcut(0, 10, 1000, 0, &nodes), 4);
}

#[test]
fn commands_and_leftover_literals_cover_the_block() {
    for (num_bytes, pending) in [(10usize, 5usize), (13, 0), (13, 7)].iter() {
        let base = two_command_path();
        let mut nodes = fresh_nodes(num_bytes + 1);
        nodes[..11].copy_from_slice(&base);
        let r = ComputeShortestPathFromNodes(*num_bytes, &mut nodes);
        let mut dist_cache = [4i32, 11, 15, 16];
        let mut last_insert_len = *pending;
        let mut commands = vec![empty_command(); r];
        let mut num_literals = 1000usize;
        BrotliZopfliCreateCommands(
            *num_bytes, 100, 1000, &nodes, &mut dist_cache, &mut last_insert_len, &params(), &mut commands,
            &mut num_literals,
        );
        let span: usize = commands.iter().map(|c| (c.insert_len_ + (c.copy_len_ & 0x1ffffff)) as usize).sum();
        let inserted: usize = commands.iter().map(|c| c.insert_len_ as usize).sum();
        assert_eq!(span + last_insert_len, num_bytes + pending);
        assert_eq!(num_literals, 1000 + inserted);
    }
}

#[test]
fn search_cache_equals_command_cache() {
    let starting = [4i32, 11, 15, 16];
    // the cache the search computes at the end of the path
    let mut searched = two_command_path();
    searched[0].u = Union1::shortcut(0);
    for pos in [4usize, 10] {
        let s = ComputeDistanceShortcut(100, pos, 1000, 0, &searched);
        searched[pos].u = Union1::shortcut(s);
    }
    let mut at_end = [0i32; 4];
    ComputeDistanceCache(10, &starting, &searched, &mut at_end);
    // the cache the command walk holds after the last command
    let mut nodes = two_command_path();
    let r = ComputeShortestPathFromNodes(10, &mut nodes);
    let mut dist_cache = starting;
    let mut last_insert_len = 0usize;
    let mut commands = vec![empty_command(); r];
    let mut num_literals = 0usize;
    BrotliZopfliCreateCommands(
        10, 100, 1000, &nodes, &mut dist_cache, &mut last_insert_len, &params(), &mut commands, &mut num_literals,
    );
    assert_eq!(dist_cache, at_end);
}

#[test]
fn each_command_is_the_init_command_of_its_path_node() {
    let mut nodes = two_command_path();
    let r = ComputeShortestPathFromNodes(10, &mut nodes);
    let marker = Command { insert_len_: 77, copy_len_: 77, dist_extra_: 77, cmd_prefix_: 77, dist_prefix_: 77 };
    let mut commands = vec![marker; r + 2];
    let mut dist_cache = [4i32, 11, 15, 16];
    let mut last_insert_len = 5usize;
    let mut num_literals = 0usize;
    BrotliZopfliCreateCommands(
        10, 100, 1000, &nodes, &mut dist_cache, &mut last_insert_len, &params(), &mut commands, &mut num_literals,
    );
    // the path reaches node 4, then node 10
    for (k, q) in [4usize, 10].iter().enumerate() {
        let n = &nodes[*q];
        let ins = (n.dcode_insert_length & 0x7ffffff) as usize + if k == 0 { 5 } else { 0 };
        let copy = ZopfliNodeCopyLength(n) as usize;
        let delta = (ZopfliNodeLengthCode(n) as i32 - copy as i32) as usize;
        let mut expected = marker;
        lib::command::InitCommand(&mut expected, &params().dist, ins, copy, delta, ZopfliNodeDistanceCode(n) as usize);
        let c = &commands[k];
        assert_eq!(
            (c.insert_len_, c.copy_len_, c.dist_extra_, c.cmd_prefix_, c.dist_prefix_),
            (expected.insert_len_, expected.copy_len_, expected.dist_extra_, expected.cmd_prefix_, expected.dist_prefix_)
        );
    }
    for c in &commands[r..] {
        assert_eq!(c.insert_len_, 77);
        assert_eq!(c.cmd_prefix_, 77);
    }
}
