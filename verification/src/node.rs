use vstd::prelude::*;
use crate::command::{BrotliEncoderParams, BrotliDistanceParams, Command, InitCommand, init_command, init_command_ok, command_copy_len, code_copy_length, prefix_dist};
use crate::util::brotli_min_size_t;

verus! {

/// The per-position payload of a node: while the search runs, the cost of the
/// cheapest path found so far to this position (the bit pattern of an IEEE-754
/// single-precision number); during the search the distance shortcut of the
/// node; after the path is traced back, the offset to the next node of the path.
#[allow(non_camel_case_types)]
#[derive(Clone, Copy, Debug)]
pub enum Union1 {
    cost(u32),
    next(u32),
    shortcut(u32),
}

/// One position of the shortest-path search over the input block.
///
/// `length` packs the copy length (low 25 bits) and `len + 9 - len_code`
/// (high 7 bits); `dcode_insert_length` packs the insert length (low 27 bits)
/// and the distance short code plus one (high 5 bits, 0 for a plain distance).
#[derive(Clone, Copy, Debug)]
pub struct ZopfliNode {
    pub length: u32,
    pub distance: u32,
    pub dcode_insert_length: u32,
    pub u: Union1,
}

/// Bit pattern of the "infinite" cost `1.7e38` that unreached nodes carry.
pub const K_INFINITY_BITS: u32 = 0x7effc99e;

/// Copy length of a node: the low 25 bits of `length`.
pub open spec fn node_copy_length(n: ZopfliNode) -> u32 {
    n.length & 0x1ffffff
}

/// Copy length code of a node: the copy length adjusted by the high 7 bits of
/// `length` (`copy_length + 9 - modifier`, modulo 2^32).
pub open spec fn node_length_code(n: ZopfliNode) -> u32 {
    node_copy_length(n).wrapping_add(9).wrapping_sub(n.length >> 25u32)
}

/// Insert length of a node: the low 27 bits of `dcode_insert_length`.
pub open spec fn node_insert_length(n: ZopfliNode) -> u32 {
    n.dcode_insert_length & 0x7ffffff
}

/// Distance code of a node: the short code minus one when the high 5 bits of
/// `dcode_insert_length` are set, else the distance plus 15 (modulo 2^32).
pub open spec fn node_distance_code(n: ZopfliNode) -> u32 {
    let short_code = n.dcode_insert_length >> 27u32;
    if short_code == 0 {
        n.distance.wrapping_add(16).wrapping_sub(1)
    } else {
        (short_code - 1) as u32
    }
}

/// Length of the command that ends at a node: copy length plus insert length.
pub open spec fn node_command_length(n: ZopfliNode) -> u32 {
    node_copy_length(n).wrapping_add(node_insert_length(n))
}

/// The value every node of a fresh search holds.
pub open spec fn stub_node() -> ZopfliNode {
    ZopfliNode { length: 1, distance: 0, dcode_insert_length: 0, u: Union1::cost(K_INFINITY_BITS) }
}

/// Resets the first `length` nodes to the unreached state (copy length 1, no
/// insert, no distance, infinite cost); the others are left as they were.
pub fn BrotliInitZopfliNodes(array: &mut [ZopfliNode], length: usize)
    requires
        length <= old(array)@.len(),
    ensures
        final(array)@.len() == old(array)@.len(),
        forall|i: int| 0 <= i < length ==> #[trigger] final(array)@[i] == stub_node(),
        forall|i: int| length <= i < old(array)@.len() ==> #[trigger] final(array)@[i] == old(array)@[i],
{
    let stub = ZopfliNode {
        length: 1,
        distance: 0,
        dcode_insert_length: 0u32,
        u: Union1::cost(K_INFINITY_BITS),
    };
    let mut i: usize = 0;
    while i < length
        invariant
            i <= length,
            stub == stub_node(),
            length <= array@.len(),
            array@.len() == old(array)@.len(),
            forall|j: int| 0 <= j < i ==> #[trigger] array@[j] == stub_node(),
            forall|j: int| i <= j < old(array)@.len() ==> #[trigger] array@[j] == old(array)@[j],
        decreases length - i,
    {
        array[i] = stub;
        i = i + 1;
    }
}

/// Copy length stored in a node.
pub fn ZopfliNodeCopyLength(xself: &ZopfliNode) -> (r: u32)
    ensures
        r == node_copy_length(*xself),
{
    xself.length & 0x1ffffffu32
}

/// Distance stored in a node.
pub fn ZopfliNodeCopyDistance(xself: &ZopfliNode) -> (r: u32)
    ensures
        r == xself.distance,
{
    xself.distance
}

/// Copy length code stored in a node.
pub fn ZopfliNodeLengthCode(xself: &ZopfliNode) -> (r: u32)
    ensures
        r == node_length_code(*xself),
{
    let modifier: u32 = xself.length >> 25u32;
    ZopfliNodeCopyLength(xself).wrapping_add(9u32).wrapping_sub(modifier)
}

/// Distance code stored in a node.
pub fn ZopfliNodeDistanceCode(xself: &ZopfliNode) -> (r: u32)
    ensures
        r == node_distance_code(*xself),
{
    let short_code: u32 = xself.dcode_insert_length >> 27u32;
    proof {
        let d = xself.dcode_insert_length;
        assert(d >> 27u32 <= 31) by (bit_vector);
    }
    if short_code == 0u32 {
        ZopfliNodeCopyDistance(xself).wrapping_add(16u32).wrapping_sub(1u32)
    } else {
        short_code.wrapping_sub(1u32)
    }
}

/// Length of the command that ends at a node.
pub fn ZopfliNodeCommandLength(xself: &ZopfliNode) -> (r: u32)
    ensures
        r == node_command_length(*xself),
{
    ZopfliNodeCopyLength(xself).wrapping_add(xself.dcode_insert_length & 0x7ffffffu32)
}

/// The node that `UpdateZopfliNode` writes for a command that inserts the
/// bytes from `start_pos` to `pos` and then copies `len` bytes from `dist`
/// back, with copy length code `len_code`, distance short code `short_code`
/// (0 for a plain distance) and path cost bits `cost`.
pub open spec fn updated_node(
    pos: usize,
    start_pos: usize,
    len: usize,
    len_code: usize,
    dist: usize,
    short_code: usize,
    cost: u32,
) -> ZopfliNode {
    ZopfliNode {
        length: (len | (len.wrapping_add(9).wrapping_sub(len_code) << 25usize)) as u32,
        distance: dist as u32,
        dcode_insert_length: ((short_code << 27usize) | pos.wrapping_sub(start_pos)) as u32,
        u: Union1::cost(cost),
    }
}

/// Records at node `pos + len` the command described by the arguments (see
/// `updated_node`); every other node is left as it was.
pub fn UpdateZopfliNode(
    nodes: &mut [ZopfliNode],
    pos: usize,
    start_pos: usize,
    len: usize,
    len_code: usize,
    dist: usize,
    short_code: usize,
    cost: u32,
)
    requires
        pos + len < old(nodes)@.len(),
    ensures
        final(nodes)@ == old(nodes)@.update(
            pos + len,
            updated_node(pos, start_pos, len, len_code, dist, short_code, cost),
        ),
{
    let idx = pos + len;
    let next = ZopfliNode {
        length: (len | (len.wrapping_add(9usize).wrapping_sub(len_code) << 25usize)) as u32,
        distance: dist as u32,
        dcode_insert_length: ((short_code << 27usize) | pos.wrapping_sub(start_pos)) as u32,
        u: Union1::cost(cost),
    };
    nodes[idx] = next;
}

/// What `UpdateZopfliNode` writes, the accessors read back: the copy length,
/// the copy length code, the distance, the insert length (`pos - start_pos`)
/// and the distance code (the short code minus one, or the distance plus 15),
/// for every command whose fields fit their bit widths.
pub proof fn lemma_update_node_read_back(
    pos: usize,
    start_pos: usize,
    len: usize,
    len_code: usize,
    dist: usize,
    short_code: usize,
    cost: u32,
)
    requires
        len < 0x2000000,
        len_code <= len + 9,
        len + 9 - len_code < 128,
        start_pos <= pos,
        pos - start_pos < 0x8000000,
        short_code < 32,
        dist < 0x100000000,
    ensures
        ({
            let n = updated_node(pos, start_pos, len, len_code, dist, short_code, cost);
            &&& node_copy_length(n) == len
            &&& node_length_code(n) == len_code
            &&& n.distance == dist
            &&& node_insert_length(n) == pos - start_pos
            &&& node_distance_code(n) == (if short_code == 0 {
                (dist as u32).wrapping_add(16).wrapping_sub(1)
            } else {
                (short_code - 1) as u32
            })
            &&& node_command_length(n) == len + (pos - start_pos)
            &&& n.u == Union1::cost(cost)
        }),
{
    let d: usize = len.wrapping_add(9).wrapping_sub(len_code);
    assert(d == len + 9 - len_code);
    let ins: usize = pos.wrapping_sub(start_pos);
    assert(ins == pos - start_pos);
    let length: u32 = (len | (d << 25usize)) as u32;
    let dcode: u32 = ((short_code << 27usize) | ins) as u32;
    assert(length & 0x1ffffff == len && length >> 25u32 == d) by (bit_vector)
        requires
            len < 0x2000000usize,
            d < 128usize,
            length == (len | (d << 25usize)) as u32;
    assert(dcode & 0x7ffffff == ins && dcode >> 27u32 == short_code) by (bit_vector)
        requires
            ins < 0x8000000usize,
            short_code < 32usize,
            dcode == ((short_code << 27usize) | ins) as u32;
}

/// A node that no command has reached yet: no insert and copy length field 1.
pub open spec fn is_unreached(n: ZopfliNode) -> bool {
    node_insert_length(n) == 0 && n.length == 1
}

/// The highest index `<= i` whose node has been reached, or -1 if none has.
pub open spec fn last_reached(nodes: Seq<ZopfliNode>, i: int) -> int
    decreases i + 1,
{
    if i < 0 {
        -1
    } else if !is_unreached(nodes[i]) {
        i
    } else {
        last_reached(nodes, i - 1)
    }
}

/// Walking back from node `index` by the command length of each node reaches
/// node 0 exactly, every step going back by at least one position.
pub open spec fn back_path_ok(nodes: Seq<ZopfliNode>, index: int) -> bool
    decreases index,
{
    if index == 0 {
        nodes.len() > 0
    } else if 0 < index < nodes.len() {
        let cl = node_command_length(nodes[index]) as int;
        1 <= cl <= index && back_path_ok(nodes, index - cl)
    } else {
        false
    }
}

/// The positions visited walking back from `index`: `index`, then `index`
/// minus its command length, and so on down to 0.
pub open spec fn back_path(nodes: Seq<ZopfliNode>, index: int) -> Seq<int>
    decreases index,
{
    if 0 < index < nodes.len() {
        let cl = node_command_length(nodes[index]) as int;
        if 1 <= cl <= index {
            seq![index] + back_path(nodes, index - cl)
        } else {
            seq![index]
        }
    } else {
        seq![index]
    }
}

/// A node whose payload is the forward link `l`.
pub open spec fn with_link(n: ZopfliNode, l: u32) -> ZopfliNode {
    ZopfliNode { u: Union1::next(l), ..n }
}

/// The nodes after the first `c` steps of tracing `path` back: the end of the
/// path is marked with the link `u32::MAX`, and each of the first `c`
/// predecessors on the path links forward by the command length of the node
/// that follows it.
pub open spec fn linked_nodes(nodes: Seq<ZopfliNode>, path: Seq<int>, c: nat) -> Seq<ZopfliNode>
    decreases c,
{
    if c == 0 {
        nodes.update(path[0], with_link(nodes[path[0]], u32::MAX))
    } else {
        linked_nodes(nodes, path, (c - 1) as nat).update(
            path[c as int],
            with_link(nodes[path[c as int]], node_command_length(nodes[path[c - 1]])),
        )
    }
}

proof fn lemma_back_path_facts(nodes: Seq<ZopfliNode>, index: int)
    requires
        back_path_ok(nodes, index),
    ensures
        back_path(nodes, index).len() >= 1,
        back_path(nodes, index)[0] == index,
        back_path(nodes, index).last() == 0,
        back_path(nodes, index).len() <= index + 1,
        forall|k: int| 0 <= k < back_path(nodes, index).len() ==>
            0 <= #[trigger] back_path(nodes, index)[k] <= index,
        forall|k: int| 0 <= k < back_path(nodes, index).len() ==>
            back_path_ok(nodes, #[trigger] back_path(nodes, index)[k]),
        forall|k: int| 0 <= k < back_path(nodes, index).len() - 1 ==>
            #[trigger] back_path(nodes, index)[k + 1] == back_path(nodes, index)[k]
                - node_command_length(nodes[back_path(nodes, index)[k]]),
        forall|k: int| 0 <= k < back_path(nodes, index).len() - 1 ==>
            back_path(nodes, index)[k + 1] < #[trigger] back_path(nodes, index)[k],
    decreases index,
{
    if index > 0 {
        let cl = node_command_length(nodes[index]) as int;
        lemma_back_path_facts(nodes, index - cl);
        let rest = back_path(nodes, index - cl);
        assert(back_path(nodes, index) == seq![index] + rest);
        assert forall|k: int| 0 <= k < back_path(nodes, index).len() - 1 implies
            #[trigger] back_path(nodes, index)[k + 1] == back_path(nodes, index)[k]
                - node_command_length(nodes[back_path(nodes, index)[k]]) by {
            if k > 0 {
                assert(back_path(nodes, index)[k + 1] == rest[k]);
                assert(back_path(nodes, index)[k] == rest[k - 1]);
            }
        }
        assert forall|k: int| 0 <= k < back_path(nodes, index).len() - 1 implies
            back_path(nodes, index)[k + 1] < #[trigger] back_path(nodes, index)[k] by {
            if k > 0 {
                assert(back_path(nodes, index)[k + 1] == rest[k]);
                assert(back_path(nodes, index)[k] == rest[k - 1]);
            }
        }
        assert forall|k: int| 0 <= k < back_path(nodes, index).len() implies
            back_path_ok(nodes, #[trigger] back_path(nodes, index)[k]) by {
            if k > 0 {
                assert(back_path(nodes, index)[k] == rest[k - 1]);
            }
        }
    }
}

proof fn lemma_last_reached(nodes: Seq<ZopfliNode>, i: int)
    requires
        -1 <= i < nodes.len(),
    ensures
        -1 <= last_reached(nodes, i) <= i,
        last_reached(nodes, i) >= 0 ==> !is_unreached(nodes[last_reached(nodes, i)]),
    decreases i + 1,
{
    if i >= 0 && is_unreached(nodes[i]) {
        lemma_last_reached(nodes, i - 1);
    }
}

/// Two nodes that differ at most in their payload.
pub open spec fn same_command(a: ZopfliNode, b: ZopfliNode) -> bool {
    a.length == b.length && a.distance == b.distance && a.dcode_insert_length == b.dcode_insert_length
}

proof fn lemma_linked_nodes_keep_commands(nodes: Seq<ZopfliNode>, path: Seq<int>, c: nat)
    requires
        c < path.len(),
        forall|k: int| 0 <= k < path.len() ==> 0 <= #[trigger] path[k] < nodes.len(),
    ensures
        linked_nodes(nodes, path, c).len() == nodes.len(),
        forall|j: int| 0 <= j < nodes.len() ==> same_command(#[trigger] linked_nodes(nodes, path, c)[j], nodes[j]),
    decreases c,
{
    if c > 0 {
        lemma_linked_nodes_keep_commands(nodes, path, (c - 1) as nat);
    }
}

/// Traces the cheapest path back from the end of the block and turns it into
/// forward links.
///
/// Starting from the last reached node at or below `num_bytes`, the walk goes
/// back by each node's command length down to node 0. The last reached node
/// gets the link `u32::MAX` (end of path) and every predecessor on the path the
/// command length of the node that follows it; nothing else changes. The
/// result is the number of commands on the path.
pub fn ComputeShortestPathFromNodes(num_bytes: usize, nodes: &mut [ZopfliNode]) -> (r: usize)
    requires
        num_bytes < old(nodes)@.len(),
        last_reached(old(nodes)@, num_bytes as int) >= 0,
        back_path_ok(old(nodes)@, last_reached(old(nodes)@, num_bytes as int)),
    ensures
        ({
            let path = back_path(old(nodes)@, last_reached(old(nodes)@, num_bytes as int));
            &&& r == path.len() - 1
            &&& final(nodes)@ == linked_nodes(old(nodes)@, path, r as nat)
        }),
{
    let ghost old_nodes = nodes@;
    let mut index: usize = num_bytes;
    let mut num_commands: usize = 0;
    proof {
        lemma_last_reached(old_nodes, num_bytes as int);
    }
    while (nodes[index].dcode_insert_length & 0x7ffffffu32) == 0u32 && nodes[index].length == 1u32
        invariant
            nodes@ == old_nodes,
            index <= num_bytes < nodes@.len(),
            last_reached(old_nodes, index as int) == last_reached(old_nodes, num_bytes as int),
            last_reached(old_nodes, index as int) >= 0,
        decreases index,
    {
        proof {
            lemma_last_reached(old_nodes, index as int);
        }
        index = index - 1;
    }
    let ghost end = index as int;
    let ghost path = back_path(old_nodes, end);
    proof {
        assert(last_reached(old_nodes, end) == end);
        lemma_back_path_facts(old_nodes, end);
    }
    nodes[index].u = Union1::next(u32::MAX);
    assert(nodes@ =~= linked_nodes(old_nodes, path, 0));
    while index != 0
        invariant
            nodes@.len() == old_nodes.len(),
            end < old_nodes.len(),
            back_path_ok(old_nodes, end),
            path == back_path(old_nodes, end),
            path.len() >= 1,
            path.last() == 0,
            num_commands < path.len(),
            index == path[num_commands as int],
            nodes@ == linked_nodes(old_nodes, path, num_commands as nat),
        decreases index,
    {
        proof {
            lemma_back_path_facts(old_nodes, end);
            assert(back_path_ok(old_nodes, index as int));
            if num_commands as int == path.len() - 1 {
                assert(index == path.last());
            }
            assert(num_commands + 1 < path.len());
            lemma_linked_nodes_keep_commands(old_nodes, path, num_commands as nat);
            assert(same_command(nodes@[index as int], old_nodes[index as int]));
        }
        let len: usize = ZopfliNodeCommandLength(&nodes[index]) as usize;
        let ghost prev = nodes@;
        index = index - len;
        nodes[index].u = Union1::next(len as u32);
        num_commands = num_commands + 1;
        proof {
            assert(index == path[num_commands as int]);
            assert(same_command(prev[index as int], old_nodes[index as int]));
            assert(nodes@ =~= linked_nodes(old_nodes, path, num_commands as nat));
        }
    }
    proof {
        lemma_back_path_facts(old_nodes, end);
        if (num_commands as int) < path.len() - 1 {
            assert(path[num_commands as int + 1] < path[num_commands as int]);
        }
    }
    num_commands
}

/// The forward link of a node (0 when its payload is not a link).
pub open spec fn link_of(n: ZopfliNode) -> u32 {
    match n.u {
        Union1::next(off) => off,
        _ => 0,
    }
}

/// The state of the forward walk that turns the linked path into commands:
/// position, pending link, number of commands made, distance cache, pending
/// insert length, literal count and the command buffer.
pub struct CommandWalk {
    pub pos: usize,
    pub offset: u32,
    pub i: usize,
    pub dist_cache: Seq<i32>,
    pub last_insert_len: usize,
    pub num_literals: usize,
    pub commands: Seq<Command>,
}

/// The node the pending link of a walk state points at.
pub open spec fn walk_next(nodes: Seq<ZopfliNode>, s: CommandWalk) -> ZopfliNode {
    nodes[s.pos.wrapping_add(s.offset as usize) as int]
}

/// Insert length of the command a walk step makes: the node's insert length,
/// plus the pending insert length for the first command.
pub open spec fn walk_insert_length(nodes: Seq<ZopfliNode>, s: CommandWalk) -> usize {
    let ins = node_insert_length(walk_next(nodes, s)) as usize;
    if s.i == 0 {
        ins.wrapping_add(s.last_insert_len)
    } else {
        ins
    }
}

/// Signed difference between copy length code and copy length of a node
/// (32-bit signed arithmetic), as `InitCommand` receives it.
pub open spec fn walk_delta(next: ZopfliNode) -> usize {
    ((node_length_code(next) as usize as i32) as int - (node_copy_length(next) as usize as i32) as int) as i32 as usize
}

/// A walk step's distance lies beyond the window reachable at its position:
/// it refers to the static dictionary.
pub open spec fn walk_is_dictionary(
    nodes: Seq<ZopfliNode>,
    block_start: usize,
    max_backward_limit: usize,
    s: CommandWalk,
) -> bool {
    let next = walk_next(nodes, s);
    let pos1 = s.pos.wrapping_add(node_insert_length(next) as usize);
    let max_distance = if block_start.wrapping_add(pos1) < max_backward_limit {
        block_start.wrapping_add(pos1)
    } else {
        max_backward_limit
    };
    next.distance as usize > max_distance
}

/// The distance cache after a command: a distance that is neither a
/// dictionary reference nor a repeat of the last distance is pushed in front
/// of the first three entries.
pub open spec fn walk_dist_cache(
    nodes: Seq<ZopfliNode>,
    block_start: usize,
    max_backward_limit: usize,
    s: CommandWalk,
) -> Seq<i32> {
    let next = walk_next(nodes, s);
    if !walk_is_dictionary(nodes, block_start, max_backward_limit, s) && node_distance_code(next) as usize > 0 {
        s.dist_cache.update(3, s.dist_cache[2]).update(2, s.dist_cache[1]).update(1, s.dist_cache[0]).update(
            0,
            next.distance as usize as i32,
        )
    } else {
        s.dist_cache
    }
}

/// One step of the forward walk: the command for the linked node, the
/// updated distance cache and counters, and the next position and link.
pub open spec fn walk_step(
    nodes: Seq<ZopfliNode>,
    block_start: usize,
    max_backward_limit: usize,
    dist: BrotliDistanceParams,
    s: CommandWalk,
) -> CommandWalk {
    let next = walk_next(nodes, s);
    let copy_length = node_copy_length(next) as usize;
    let insert_length = walk_insert_length(nodes, s);
    let cmd = init_command(dist, insert_length, copy_length, walk_delta(next), node_distance_code(next) as usize);
    CommandWalk {
        pos: s.pos.wrapping_add(node_insert_length(next) as usize).wrapping_add(copy_length),
        offset: link_of(next),
        i: s.i.wrapping_add(1),
        dist_cache: walk_dist_cache(nodes, block_start, max_backward_limit, s),
        last_insert_len: if s.i == 0 { 0 } else { s.last_insert_len },
        num_literals: s.num_literals.wrapping_add(insert_length),
        commands: s.commands.update(s.i as int, cmd),
    }
}

/// The walk state after `n` steps.
pub open spec fn walk_run(
    nodes: Seq<ZopfliNode>,
    block_start: usize,
    max_backward_limit: usize,
    dist: BrotliDistanceParams,
    s: CommandWalk,
    n: nat,
) -> CommandWalk
    decreases n,
{
    if n == 0 {
        s
    } else {
        walk_run(nodes, block_start, max_backward_limit, dist, walk_step(nodes, block_start, max_backward_limit, dist, s), (n - 1) as nat)
    }
}

/// A walk step can be taken without fault: the link points into the node
/// array, the command fits the command buffer, the command can be coded, and
/// the distance cache has room when it is updated.
pub open spec fn walk_step_ok(
    nodes: Seq<ZopfliNode>,
    block_start: usize,
    max_backward_limit: usize,
    dist: BrotliDistanceParams,
    s: CommandWalk,
) -> bool {
    let idx = s.pos.wrapping_add(s.offset as usize);
    &&& idx < nodes.len()
    &&& s.i < s.commands.len()
    &&& {
        let next = nodes[idx as int];
        &&& i32::MIN <= (node_length_code(next) as usize as i32) as int - (node_copy_length(next) as usize as i32) as int <= i32::MAX
        &&& init_command_ok(dist, node_copy_length(next) as usize, walk_delta(next), node_distance_code(next) as usize)
        &&& (!walk_is_dictionary(nodes, block_start, max_backward_limit, s) && node_distance_code(next) as usize > 0)
            ==> s.dist_cache.len() >= 4
    }
}

/// From state `s` the walk ends (meets the link `u32::MAX`) after exactly `n`
/// steps, each of which can be taken without fault.
pub open spec fn walk_ok(
    nodes: Seq<ZopfliNode>,
    block_start: usize,
    max_backward_limit: usize,
    dist: BrotliDistanceParams,
    s: CommandWalk,
    n: nat,
) -> bool
    decreases n,
{
    if n == 0 {
        s.offset == u32::MAX
    } else {
        &&& s.offset != u32::MAX
        &&& walk_step_ok(nodes, block_start, max_backward_limit, dist, s)
        &&& walk_ok(nodes, block_start, max_backward_limit, dist, walk_step(nodes, block_start, max_backward_limit, dist, s), (n - 1) as nat)
    }
}

/// The walk state `BrotliZopfliCreateCommands` starts from.
pub open spec fn walk_start(
    nodes: Seq<ZopfliNode>,
    dist_cache: Seq<i32>,
    last_insert_len: usize,
    num_literals: usize,
    commands: Seq<Command>,
) -> CommandWalk {
    CommandWalk {
        pos: 0,
        offset: link_of(nodes[0]),
        i: 0,
        dist_cache,
        last_insert_len,
        num_literals,
        commands,
    }
}

proof fn lemma_walk_ok_unique(
    nodes: Seq<ZopfliNode>,
    block_start: usize,
    max_backward_limit: usize,
    dist: BrotliDistanceParams,
    s: CommandWalk,
    n: nat,
    m: nat,
)
    requires
        walk_ok(nodes, block_start, max_backward_limit, dist, s, n),
        walk_ok(nodes, block_start, max_backward_limit, dist, s, m),
    ensures
        n == m,
    decreases n,
{
    if n > 0 && m > 0 {
        lemma_walk_ok_unique(nodes, block_start, max_backward_limit, dist,
            walk_step(nodes, block_start, max_backward_limit, dist, s), (n - 1) as nat, (m - 1) as nat);
    }
}

/// Turns the path that `ComputeShortestPathFromNodes` linked into commands.
///
/// Starting at node 0, each step follows the link to the next node on the
/// path and writes the command that ends there into `commands[i]`: its insert
/// length (the first command also takes over the pending `last_insert_len`),
/// its copy length and length code, and its distance code. A distance that is
/// not a dictionary reference and not the last distance is pushed onto the
/// distance cache; `num_literals` grows by each insert length. At the end,
/// `last_insert_len` holds the literals after the last command (see
/// `walk_step` and `walk_run`).
pub fn BrotliZopfliCreateCommands(
    num_bytes: usize,
    block_start: usize,
    max_backward_limit: usize,
    nodes: &[ZopfliNode],
    dist_cache: &mut [i32],
    last_insert_len: &mut usize,
    params: &BrotliEncoderParams,
    commands: &mut [Command],
    num_literals: &mut usize,
)
    requires
        nodes@.len() > 0,
        exists|n: nat| walk_ok(
            nodes@, block_start, max_backward_limit, params.dist,
            walk_start(nodes@, old(dist_cache)@, *old(last_insert_len), *old(num_literals), old(commands)@),
            n,
        ),
    ensures
        forall|n: nat| walk_ok(
            nodes@, block_start, max_backward_limit, params.dist,
            walk_start(nodes@, old(dist_cache)@, *old(last_insert_len), *old(num_literals), old(commands)@),
            n,
        ) ==> {
            let e = walk_run(
                nodes@, block_start, max_backward_limit, params.dist,
                walk_start(nodes@, old(dist_cache)@, *old(last_insert_len), *old(num_literals), old(commands)@),
                n,
            );
            &&& final(commands)@ == e.commands
            &&& final(dist_cache)@ == e.dist_cache
            &&& *final(num_literals) == e.num_literals
            &&& *final(last_insert_len) == e.last_insert_len.wrapping_add(num_bytes.wrapping_sub(e.pos))
        },
{
    let ghost s0 = walk_start(nodes@, dist_cache@, *last_insert_len, *num_literals, commands@);
    let ghost n: nat = choose|n: nat| walk_ok(nodes@, block_start, max_backward_limit, params.dist, s0, n);
    let mut pos: usize = 0;
    let mut offset: u32 = match nodes[0].u {
        Union1::next(off) => off,
        _ => 0,
    };
    let mut i: usize = 0;
    let gap: usize = 0;
    let ghost mut k: nat = 0;
    while offset != u32::MAX
        invariant
            gap == 0,
            k <= n,
            walk_ok(nodes@, block_start, max_backward_limit, params.dist, s0, n),
            walk_ok(
                nodes@, block_start, max_backward_limit, params.dist,
                CommandWalk {
                    pos, offset, i, dist_cache: dist_cache@, last_insert_len: *last_insert_len,
                    num_literals: *num_literals, commands: commands@,
                },
                (n - k) as nat,
            ),
            walk_run(nodes@, block_start, max_backward_limit, params.dist, s0, k) == (CommandWalk {
                pos, offset, i, dist_cache: dist_cache@, last_insert_len: *last_insert_len,
                num_literals: *num_literals, commands: commands@,
            }),
        decreases n - k,
    {
        let ghost s = CommandWalk {
            pos, offset, i, dist_cache: dist_cache@, last_insert_len: *last_insert_len,
            num_literals: *num_literals, commands: commands@,
        };
        proof {
            assert(n - k > 0);
        }
        let next: &ZopfliNode = &nodes[pos.wrapping_add(offset as usize)];
        let copy_length: usize = ZopfliNodeCopyLength(next) as usize;
        let mut insert_length: usize = (next.dcode_insert_length & 0x7ffffffu32) as usize;
        pos = pos.wrapping_add(insert_length);
        offset = match next.u {
            Union1::next(off) => off,
            _ => 0,
        };
        if i == 0 {
            insert_length = insert_length.wrapping_add(*last_insert_len);
            *last_insert_len = 0;
        }
        let distance: usize = ZopfliNodeCopyDistance(next) as usize;
        let len_code: usize = ZopfliNodeLengthCode(next) as usize;
        let max_distance: usize = brotli_min_size_t(block_start.wrapping_add(pos), max_backward_limit);
        let is_dictionary: bool = distance > max_distance.wrapping_add(gap);
        let dist_code: usize = ZopfliNodeDistanceCode(next) as usize;
        InitCommand(
            &mut commands[i],
            &params.dist,
            insert_length,
            copy_length,
            (len_code as i32 - copy_length as i32) as usize,
            dist_code,
        );
        if !is_dictionary && dist_code > 0 {
            dist_cache[3] = dist_cache[2];
            dist_cache[2] = dist_cache[1];
            dist_cache[1] = dist_cache[0];
            dist_cache[0] = distance as i32;
        }
        *num_literals = (*num_literals).wrapping_add(insert_length);
        pos = pos.wrapping_add(copy_length);
        i = i.wrapping_add(1);
        proof {
            let s1 = walk_step(nodes@, block_start, max_backward_limit, params.dist, s);
            assert(dist_cache@ =~= s1.dist_cache);
            assert(commands@ =~= s1.commands);
            assert((CommandWalk {
                pos, offset, i, dist_cache: dist_cache@, last_insert_len: *last_insert_len,
                num_literals: *num_literals, commands: commands@,
            }) == s1);
            lemma_walk_run_step(nodes@, block_start, max_backward_limit, params.dist, s0, k);
            k = k + 1;
        }
    }
    proof {
        if n - k > 0 {
            assert(false);
        }
    }
    *last_insert_len = (*last_insert_len).wrapping_add(num_bytes.wrapping_sub(pos));
    proof {
        assert forall|m: nat| walk_ok(nodes@, block_start, max_backward_limit, params.dist, s0, m) implies m == n by {
            lemma_walk_ok_unique(nodes@, block_start, max_backward_limit, params.dist, s0, n, m);
        }
    }
}

proof fn lemma_walk_run_step(
    nodes: Seq<ZopfliNode>,
    block_start: usize,
    max_backward_limit: usize,
    dist: BrotliDistanceParams,
    s: CommandWalk,
    k: nat,
)
    ensures
        walk_run(nodes, block_start, max_backward_limit, dist, s, k + 1) == walk_step(
            nodes, block_start, max_backward_limit, dist, walk_run(nodes, block_start, max_backward_limit, dist, s, k),
        ),
    decreases k,
{
    let s1 = walk_step(nodes, block_start, max_backward_limit, dist, s);
    assert(walk_run(nodes, block_start, max_backward_limit, dist, s, k + 1)
        == walk_run(nodes, block_start, max_backward_limit, dist, s1, k));
    if k > 0 {
        lemma_walk_run_step(nodes, block_start, max_backward_limit, dist, s1, (k - 1) as nat);
        assert(walk_run(nodes, block_start, max_backward_limit, dist, s, k)
            == walk_run(nodes, block_start, max_backward_limit, dist, s1, (k - 1) as nat));
    }
}

/// The copy length and insert length fields fit their bit widths.
pub proof fn lemma_node_field_bounds(n: ZopfliNode)
    ensures
        node_copy_length(n) <= 0x1ffffff,
        node_insert_length(n) <= 0x7ffffff,
        node_command_length(n) == node_copy_length(n) + node_insert_length(n),
{
    let l = n.length;
    let d = n.dcode_insert_length;
    assert(l & 0x1ffffff <= 0x1ffffff) by (bit_vector);
    assert(d & 0x7ffffff <= 0x7ffffff) by (bit_vector);
}

/// Following links from position `pos` with pending link `offset` reaches the
/// end mark `u32::MAX` after exactly `n` links, each pointing into the node
/// array; each link moves the position by the command length of the node it
/// points at.
pub open spec fn link_walk_ends(nodes: Seq<ZopfliNode>, pos: usize, offset: u32, n: nat) -> bool
    decreases n,
{
    if n == 0 {
        offset == u32::MAX
    } else {
        let idx = pos.wrapping_add(offset as usize);
        &&& offset != u32::MAX
        &&& idx < nodes.len()
        &&& link_walk_ends(
            nodes,
            pos.wrapping_add(node_insert_length(nodes[idx as int]) as usize).wrapping_add(
                node_copy_length(nodes[idx as int]) as usize,
            ),
            link_of(nodes[idx as int]),
            (n - 1) as nat,
        )
    }
}

proof fn lemma_link_walk_unique(nodes: Seq<ZopfliNode>, pos: usize, offset: u32, n: nat, m: nat)
    requires
        link_walk_ends(nodes, pos, offset, n),
        link_walk_ends(nodes, pos, offset, m),
    ensures
        n == m,
    decreases n,
{
    if n > 0 && m > 0 {
        let idx = pos.wrapping_add(offset as usize);
        lemma_link_walk_unique(
            nodes,
            pos.wrapping_add(node_insert_length(nodes[idx as int]) as usize).wrapping_add(
                node_copy_length(nodes[idx as int]) as usize,
            ),
            link_of(nodes[idx as int]),
            (n - 1) as nat,
            (m - 1) as nat,
        );
    }
}

proof fn lemma_walk_ok_link_walk(
    nodes: Seq<ZopfliNode>,
    block_start: usize,
    max_backward_limit: usize,
    dist: BrotliDistanceParams,
    s: CommandWalk,
    n: nat,
)
    requires
        walk_ok(nodes, block_start, max_backward_limit, dist, s, n),
    ensures
        link_walk_ends(nodes, s.pos, s.offset, n),
    decreases n,
{
    if n > 0 {
        lemma_walk_ok_link_walk(nodes, block_start, max_backward_limit, dist,
            walk_step(nodes, block_start, max_backward_limit, dist, s), (n - 1) as nat);
    }
}

proof fn lemma_linked_nodes_links(nodes: Seq<ZopfliNode>, path: Seq<int>, c: nat)
    requires
        c < path.len(),
        forall|k: int| 0 <= k < path.len() ==> 0 <= #[trigger] path[k] < nodes.len(),
        forall|k: int| 0 <= k < path.len() - 1 ==> path[k + 1] < #[trigger] path[k],
    ensures
        link_of(linked_nodes(nodes, path, c)[path[0]]) == u32::MAX,
        forall|j: int| 1 <= j <= c ==> link_of(#[trigger] linked_nodes(nodes, path, c)[path[j]])
            == node_command_length(nodes[path[j - 1]]),
    decreases c,
{
    lemma_linked_nodes_keep_commands(nodes, path, c);
    if c > 0 {
        let prev = linked_nodes(nodes, path, (c - 1) as nat);
        let cur = linked_nodes(nodes, path, c);
        lemma_linked_nodes_links(nodes, path, (c - 1) as nat);
        lemma_linked_nodes_keep_commands(nodes, path, (c - 1) as nat);
        assert(cur == prev.update(path[c as int], with_link(nodes[path[c as int]], node_command_length(nodes[path[c - 1]]))));
        assert(path[c as int] < path[0]) by {
            lemma_strictly_decreasing(path, 0, c as int);
        }
        assert(cur[path[0]] == prev[path[0]]);
        assert forall|j: int| 1 <= j <= c implies link_of(#[trigger] cur[path[j]])
            == node_command_length(nodes[path[j - 1]]) by {
            if j < c {
                lemma_strictly_decreasing(path, j, c as int);
                assert(cur[path[j]] == prev[path[j]]);
            }
        }
    }
}

proof fn lemma_strictly_decreasing(path: Seq<int>, a: int, b: int)
    requires
        0 <= a < b < path.len(),
        forall|k: int| 0 <= k < path.len() - 1 ==> path[k + 1] < #[trigger] path[k],
    ensures
        path[b] < path[a],
    decreases b - a,
{
    if a + 1 < b {
        lemma_strictly_decreasing(path, a, b - 1);
        assert(path[b] < path[b - 1]);
    }
}

proof fn lemma_walk_along_path(nodes: Seq<ZopfliNode>, path: Seq<int>, linked: Seq<ZopfliNode>, end: int, j: nat)
    requires
        j < path.len(),
        nodes.len() <= usize::MAX,
        linked.len() == nodes.len(),
        forall|k: int| 0 <= k < path.len() ==> 0 <= #[trigger] path[k] <= end,
        end < nodes.len(),
        forall|k: int| 0 <= k < path.len() - 1 ==>
            #[trigger] path[k + 1] == path[k] - node_command_length(nodes[path[k]]),
        forall|jj: int| 0 <= jj < nodes.len() ==> same_command(#[trigger] linked[jj], nodes[jj]),
        link_of(linked[path[0]]) == u32::MAX,
        forall|jj: int| 1 <= jj < path.len() ==> link_of(#[trigger] linked[path[jj]])
            == node_command_length(nodes[path[jj - 1]]),
    ensures
        link_walk_ends(linked, path[j as int] as usize, link_of(linked[path[j as int]]), j),
    decreases j,
{
    if j > 0 {
        lemma_walk_along_path(nodes, path, linked, end, (j - 1) as nat);
        let p = path[j as int];
        let q = path[j as int - 1];
        let cl = node_command_length(nodes[q]);
        lemma_node_field_bounds(nodes[q]);
        lemma_node_field_bounds(linked[q]);
        assert(same_command(linked[q], nodes[q]));
        assert(link_of(linked[p]) == cl);
        assert(path[(j as int - 1) + 1] == path[j as int - 1] - node_command_length(nodes[path[j as int - 1]]));
        assert(p + cl == q);
        assert((p as usize).wrapping_add(cl as usize) == q);
        assert(link_of(linked[p]) != u32::MAX);
    }
}

/// Tracing the path back and walking it forward agree: after
/// `ComputeShortestPathFromNodes` has returned `r`, following the links from
/// node 0 reaches the end mark after exactly `r` links, so
/// `BrotliZopfliCreateCommands` makes exactly `r` commands from these nodes.
pub proof fn lemma_traced_path_gives_command_count(
    nodes: Seq<ZopfliNode>,
    num_bytes: usize,
    block_start: usize,
    max_backward_limit: usize,
    dist: BrotliDistanceParams,
    s: CommandWalk,
    n: nat,
)
    requires
        num_bytes < nodes.len() <= usize::MAX,
        last_reached(nodes, num_bytes as int) >= 0,
        back_path_ok(nodes, last_reached(nodes, num_bytes as int)),
    ensures
        ({
            let path = back_path(nodes, last_reached(nodes, num_bytes as int));
            let r = (path.len() - 1) as nat;
            let linked = linked_nodes(nodes, path, r);
            &&& link_walk_ends(linked, 0, link_of(linked[0]), r)
            &&& (s.pos == 0 && s.offset == link_of(linked[0])
                && walk_ok(linked, block_start, max_backward_limit, dist, s, n)) ==> n == r
        }),
{
    let end = last_reached(nodes, num_bytes as int);
    let path = back_path(nodes, end);
    let r = (path.len() - 1) as nat;
    lemma_last_reached(nodes, num_bytes as int);
    lemma_back_path_facts(nodes, end);
    lemma_linked_nodes_keep_commands(nodes, path, r);
    lemma_linked_nodes_links(nodes, path, r);
    let linked = linked_nodes(nodes, path, r);
    lemma_walk_along_path(nodes, path, linked, end, r);
    assert(path[r as int] == 0);
    if s.pos == 0 && s.offset == link_of(linked[0]) && walk_ok(linked, block_start, max_backward_limit, dist, s, n) {
        lemma_walk_ok_link_walk(linked, block_start, max_backward_limit, dist, s, n);
        lemma_link_walk_unique(linked, 0, link_of(linked[0]), n, r);
    }
}

/// Sum of the insert and copy lengths of the first `n` commands.
pub open spec fn commands_span(cmds: Seq<Command>, n: int) -> int
    decreases n,
{
    if n <= 0 {
        0
    } else {
        commands_span(cmds, n - 1) + cmds[n - 1].insert_len_ + command_copy_len(cmds[n - 1])
    }
}

/// Sum of the insert lengths of the first `n` commands.
pub open spec fn commands_inserts(cmds: Seq<Command>, n: int) -> int
    decreases n,
{
    if n <= 0 {
        0
    } else {
        commands_inserts(cmds, n - 1) + cmds[n - 1].insert_len_
    }
}

proof fn lemma_command_sums_update(cmds: Seq<Command>, n: int, k: int, c: Command)
    requires
        0 <= n <= k < cmds.len(),
    ensures
        commands_span(cmds.update(k, c), n) == commands_span(cmds, n),
        commands_inserts(cmds.update(k, c), n) == commands_inserts(cmds, n),
    decreases n,
{
    if n > 0 {
        lemma_command_sums_update(cmds, n - 1, k, c);
    }
}

proof fn lemma_walk_ok_run(
    nodes: Seq<ZopfliNode>,
    block_start: usize,
    max_backward_limit: usize,
    dist: BrotliDistanceParams,
    s: CommandWalk,
    n: nat,
    k: nat,
)
    requires
        walk_ok(nodes, block_start, max_backward_limit, dist, s, n),
        k <= n,
    ensures
        walk_ok(nodes, block_start, max_backward_limit, dist, walk_run(nodes, block_start, max_backward_limit, dist, s, k), (n - k) as nat),
    decreases k,
{
    if k > 0 {
        lemma_walk_ok_run(nodes, block_start, max_backward_limit, dist,
            walk_step(nodes, block_start, max_backward_limit, dist, s), (n - 1) as nat, (k - 1) as nat);
    }
}

proof fn lemma_copy_len_read_back(copylen: usize, y: u32)
    requires
        copylen <= 0x1ffffff,
    ensures
        ((copylen as u32) | (y << 25u32)) & 0x1ffffff == copylen,
{
    let c = copylen as u32;
    assert((c | (y << 25u32)) & 0x1ffffff == c) by (bit_vector)
        requires c <= 0x1ffffffu32;
}

proof fn lemma_walk_follows_path(
    nodes: Seq<ZopfliNode>,
    path: Seq<int>,
    linked: Seq<ZopfliNode>,
    end: int,
    r: nat,
    block_start: usize,
    max_backward_limit: usize,
    dist: BrotliDistanceParams,
    s0: CommandWalk,
    k: nat,
)
    requires
        path_links_ok(nodes, path, linked, end, r),
        k <= r,
        end + s0.last_insert_len < 0x100000000,
        s0.num_literals + end + s0.last_insert_len <= usize::MAX,
        s0.pos == 0,
        s0.i == 0,
        s0.offset == link_of(linked[0]),
        walk_ok(linked, block_start, max_backward_limit, dist, s0, r),
    ensures
        ({
            let w = walk_run(linked, block_start, max_backward_limit, dist, s0, k);
            &&& w.commands.len() == s0.commands.len()
            &&& k >= 1 ==> w.last_insert_len == 0
            &&& k == 0 ==> w.last_insert_len == s0.last_insert_len
            &&& commands_span(w.commands, k as int) + w.last_insert_len == w.pos + s0.last_insert_len
            &&& w.num_literals == s0.num_literals + commands_inserts(w.commands, k as int)
            &&& commands_inserts(w.commands, k as int) <= commands_span(w.commands, k as int)
        }),
    decreases k,
{
    lemma_walk_positions(nodes, path, linked, end, r, block_start, max_backward_limit, dist, s0, k);
    if k > 0 {
        let k1 = (k - 1) as nat;
        lemma_walk_follows_path(nodes, path, linked, end, r, block_start, max_backward_limit, dist, s0, k1);
        lemma_walk_positions(nodes, path, linked, end, r, block_start, max_backward_limit, dist, s0, k1);
        lemma_walk_run_step(linked, block_start, max_backward_limit, dist, s0, k1);
        lemma_walk_ok_run(linked, block_start, max_backward_limit, dist, s0, r, k1);
        let w = walk_run(linked, block_start, max_backward_limit, dist, s0, k1);
        let w1 = walk_step(linked, block_start, max_backward_limit, dist, w);
        assert(walk_run(linked, block_start, max_backward_limit, dist, s0, k) == w1);
        let q = path[r - k1 - 1];
        let next = walk_next(linked, w);
        lemma_node_field_bounds(nodes[q]);
        lemma_node_field_bounds(next);
        assert(same_command(next, nodes[q]));
        let ins = node_insert_length(next) as usize;
        let copy = node_copy_length(next) as usize;
        assert(walk_ok(linked, block_start, max_backward_limit, dist, w, (r - k1) as nat));
        assert(w.i < w.commands.len());
        let ins2 = walk_insert_length(linked, w);
        if k1 == 0 {
            assert(ins2 == ins + s0.last_insert_len);
        } else {
            assert(ins2 == ins);
        }
        let cmd = init_command(dist, ins2, copy, walk_delta(next), node_distance_code(next) as usize);
        assert(w1.commands == w.commands.update(k1 as int, cmd));
        assert(cmd.insert_len_ == ins2);
        lemma_copy_len_read_back(copy, ((walk_delta(next) as i8) as u8 as u32));
        assert(command_copy_len(cmd) == copy);
        lemma_command_sums_update(w.commands, k1 as int, k1 as int, cmd);
        assert(w1.commands[k1 as int] == cmd);
        assert(commands_span(w1.commands, k as int) == commands_span(w.commands, k1 as int) + ins2 + copy);
        assert(commands_inserts(w1.commands, k as int) == commands_inserts(w.commands, k1 as int) + ins2);
    }
}

/// The facts about a traced path and its linked nodes that the walk lemmas
/// rest on: `path` runs from `end` down to 0 by command lengths, and
/// `linked` keeps every command and links each path node to the next.
pub open spec fn path_links_ok(nodes: Seq<ZopfliNode>, path: Seq<int>, linked: Seq<ZopfliNode>, end: int, r: nat) -> bool {
    &&& path.len() == r + 1
    &&& r <= end
    &&& nodes.len() <= usize::MAX
    &&& linked.len() == nodes.len()
    &&& path[0] == end
    &&& path[r as int] == 0
    &&& end < nodes.len()
    &&& forall|j: int| 0 <= j < path.len() ==> 0 <= #[trigger] path[j] <= end
    &&& forall|j: int| 0 <= j < path.len() - 1 ==>
        #[trigger] path[j + 1] == path[j] - node_command_length(nodes[path[j]])
    &&& forall|j: int| 0 <= j < path.len() - 1 ==> node_command_length(nodes[#[trigger] path[j]]) >= 1
    &&& forall|jj: int| 0 <= jj < nodes.len() ==> same_command(#[trigger] linked[jj], nodes[jj])
    &&& forall|jj: int| 1 <= jj < path.len() ==> link_of(#[trigger] linked[path[jj]])
        == node_command_length(nodes[path[jj - 1]])
    &&& link_of(linked[path[0]]) == u32::MAX
}

proof fn lemma_walk_positions(
    nodes: Seq<ZopfliNode>,
    path: Seq<int>,
    linked: Seq<ZopfliNode>,
    end: int,
    r: nat,
    block_start: usize,
    max_backward_limit: usize,
    dist: BrotliDistanceParams,
    s0: CommandWalk,
    k: nat,
)
    requires
        path_links_ok(nodes, path, linked, end, r),
        k <= r,
        s0.pos == 0,
        s0.i == 0,
        s0.offset == link_of(linked[0]),
    ensures
        ({
            let w = walk_run(linked, block_start, max_backward_limit, dist, s0, k);
            &&& w.pos == path[r - k]
            &&& w.offset == link_of(linked[path[r - k]])
            &&& w.i == k
            &&& k < r ==> {
                let q = path[r - k - 1];
                &&& 0 < q < nodes.len()
                &&& w.pos.wrapping_add(w.offset as usize) == q
                &&& walk_next(linked, w) == linked[q]
                &&& q == w.pos + node_insert_length(nodes[q]) + node_copy_length(nodes[q])
                &&& node_command_length(nodes[q]) >= 1
            }
        }),
    decreases k,
{
    let w = walk_run(linked, block_start, max_backward_limit, dist, s0, k);
    if k > 0 {
        let k1 = (k - 1) as nat;
        lemma_walk_positions(nodes, path, linked, end, r, block_start, max_backward_limit, dist, s0, k1);
        lemma_walk_run_step(linked, block_start, max_backward_limit, dist, s0, k1);
        let w0 = walk_run(linked, block_start, max_backward_limit, dist, s0, k1);
        assert(w == walk_step(linked, block_start, max_backward_limit, dist, w0));
        let q0 = path[r - k1 - 1];
        lemma_node_field_bounds(nodes[q0]);
        lemma_node_field_bounds(linked[q0]);
        assert(same_command(linked[q0], nodes[q0]));
        assert(w.pos == q0);
        assert(w.i == k);
    }
    if k < r {
        let jp = r - k;
        let p = path[jp];
        let q = path[jp - 1];
        assert(path[(jp - 1) + 1] == path[jp - 1] - node_command_length(nodes[path[jp - 1]]));
        let cl = node_command_length(nodes[q]);
        lemma_node_field_bounds(nodes[q]);
        lemma_node_field_bounds(linked[q]);
        assert(same_command(linked[q], nodes[q]));
        assert(node_command_length(nodes[path[jp - 1]]) >= 1);
        assert(link_of(linked[p]) == cl);
        assert(p + cl == q);
        assert((p as usize).wrapping_add(cl as usize) == q);
        assert(walk_next(linked, w) == linked[q]);
    }
}

proof fn lemma_path_links(nodes: Seq<ZopfliNode>, num_bytes: usize)
    requires
        num_bytes < nodes.len() <= usize::MAX,
        last_reached(nodes, num_bytes as int) >= 0,
        back_path_ok(nodes, last_reached(nodes, num_bytes as int)),
    ensures
        ({
            let end = last_reached(nodes, num_bytes as int);
            let path = back_path(nodes, end);
            let r = (path.len() - 1) as nat;
            path_links_ok(nodes, path, linked_nodes(nodes, path, r), end, r)
        }),
{
    let end = last_reached(nodes, num_bytes as int);
    let path = back_path(nodes, end);
    let r = (path.len() - 1) as nat;
    lemma_last_reached(nodes, num_bytes as int);
    lemma_back_path_facts(nodes, end);
    lemma_linked_nodes_keep_commands(nodes, path, r);
    lemma_linked_nodes_links(nodes, path, r);
    assert(path[r as int] == 0);
    assert forall|j: int| 0 <= j < path.len() - 1 implies node_command_length(nodes[#[trigger] path[j]]) >= 1 by {
        assert(path[j + 1] == path[j] - node_command_length(nodes[path[j]]));
        assert(path[j + 1] < path[j]);
    }
}

/// The command for the `k`-th step along the traced path (counting from 0 at
/// node 0): the one `InitCommand` builds from the node the step reaches, its
/// insert length (plus the pending `last_insert_len` for the first command),
/// copy length, length code and distance code.
pub open spec fn path_command(
    nodes: Seq<ZopfliNode>,
    path: Seq<int>,
    r: nat,
    k: int,
    dist: BrotliDistanceParams,
    last_insert_len: usize,
) -> Command {
    let q = nodes[path[r - k - 1]];
    let ins = node_insert_length(q) as usize;
    init_command(
        dist,
        if k == 0 { ins.wrapping_add(last_insert_len) } else { ins },
        node_copy_length(q) as usize,
        walk_delta(q),
        node_distance_code(q) as usize,
    )
}

proof fn lemma_walk_commands(
    nodes: Seq<ZopfliNode>,
    path: Seq<int>,
    linked: Seq<ZopfliNode>,
    end: int,
    r: nat,
    block_start: usize,
    max_backward_limit: usize,
    dist: BrotliDistanceParams,
    s0: CommandWalk,
    k: nat,
)
    requires
        path_links_ok(nodes, path, linked, end, r),
        k <= r,
        s0.pos == 0,
        s0.i == 0,
        s0.offset == link_of(linked[0]),
        r <= s0.commands.len(),
    ensures
        ({
            let w = walk_run(linked, block_start, max_backward_limit, dist, s0, k);
            &&& w.commands.len() == s0.commands.len()
            &&& k >= 1 ==> w.last_insert_len == 0
            &&& k == 0 ==> w.last_insert_len == s0.last_insert_len
            &&& forall|j: int| 0 <= j < k ==> #[trigger] w.commands[j]
                == path_command(nodes, path, r, j, dist, s0.last_insert_len)
            &&& forall|j: int| k <= j < s0.commands.len() ==> #[trigger] w.commands[j] == s0.commands[j]
        }),
    decreases k,
{
    if k > 0 {
        let k1 = (k - 1) as nat;
        lemma_walk_commands(nodes, path, linked, end, r, block_start, max_backward_limit, dist, s0, k1);
        lemma_walk_positions(nodes, path, linked, end, r, block_start, max_backward_limit, dist, s0, k1);
        lemma_walk_run_step(linked, block_start, max_backward_limit, dist, s0, k1);
        let w = walk_run(linked, block_start, max_backward_limit, dist, s0, k1);
        let w1 = walk_step(linked, block_start, max_backward_limit, dist, w);
        assert(walk_run(linked, block_start, max_backward_limit, dist, s0, k) == w1);
        let q = path[r - k1 - 1];
        let next = walk_next(linked, w);
        assert(same_command(next, nodes[q]));
        assert(w.i < w.commands.len());
        let cmd = init_command(dist, walk_insert_length(linked, w), node_copy_length(next) as usize, walk_delta(next),
            node_distance_code(next) as usize);
        assert(cmd == path_command(nodes, path, r, k1 as int, dist, s0.last_insert_len));
        assert(w1.commands == w.commands.update(k1 as int, cmd));
    }
}

/// After the path is traced back, the walk `BrotliZopfliCreateCommands`
/// follows writes exactly the commands of the path and nothing else, for
/// every command buffer with room for them: command `k` is the one
/// `InitCommand` builds from the `k`-th node the path reaches from node 0
/// (the first also taking the pending `last_insert_len`; see
/// `path_command`), and the commands past the path are left as they were.
pub proof fn lemma_commands_are_path_commands(
    nodes: Seq<ZopfliNode>,
    num_bytes: usize,
    block_start: usize,
    max_backward_limit: usize,
    dist: BrotliDistanceParams,
    dist_cache: Seq<i32>,
    last_insert_len: usize,
    num_literals: usize,
    commands: Seq<Command>,
)
    requires
        num_bytes < nodes.len() <= usize::MAX,
        last_reached(nodes, num_bytes as int) >= 0,
        back_path_ok(nodes, last_reached(nodes, num_bytes as int)),
    ensures
        ({
            let path = back_path(nodes, last_reached(nodes, num_bytes as int));
            let r = (path.len() - 1) as nat;
            let linked = linked_nodes(nodes, path, r);
            let s0 = walk_start(linked, dist_cache, last_insert_len, num_literals, commands);
            r <= commands.len() ==> {
                let e = walk_run(linked, block_start, max_backward_limit, dist, s0, r);
                &&& e.commands.len() == commands.len()
                &&& forall|k: int| 0 <= k < r ==> #[trigger] e.commands[k]
                    == path_command(nodes, path, r, k, dist, last_insert_len)
                &&& forall|k: int| r <= k < commands.len() ==> #[trigger] e.commands[k] == commands[k]
            }
        }),
{
    let end = last_reached(nodes, num_bytes as int);
    let path = back_path(nodes, end);
    let r = (path.len() - 1) as nat;
    let linked = linked_nodes(nodes, path, r);
    let s0 = walk_start(linked, dist_cache, last_insert_len, num_literals, commands);
    if r <= commands.len() {
        lemma_path_links(nodes, num_bytes);
        lemma_walk_commands(nodes, path, linked, end, r, block_start, max_backward_limit, dist, s0, r);
    }
}

/// After the path is traced back, the commands the forward walk makes cover
/// the block exactly: their insert and copy lengths, plus the literals left
/// for the next block (the final `last_insert_len` of
/// `BrotliZopfliCreateCommands`), add up to the block size plus the literals
/// pending before it; and the literal count grows by exactly the literals the
/// commands insert.
pub proof fn lemma_commands_cover_block(
    nodes: Seq<ZopfliNode>,
    num_bytes: usize,
    block_start: usize,
    max_backward_limit: usize,
    dist: BrotliDistanceParams,
    dist_cache: Seq<i32>,
    last_insert_len: usize,
    num_literals: usize,
    commands: Seq<Command>,
)
    requires
        num_bytes < nodes.len() <= usize::MAX,
        last_reached(nodes, num_bytes as int) >= 0,
        back_path_ok(nodes, last_reached(nodes, num_bytes as int)),
        num_bytes + last_insert_len < 0x100000000,
        num_literals + num_bytes + last_insert_len <= usize::MAX,
    ensures
        ({
            let path = back_path(nodes, last_reached(nodes, num_bytes as int));
            let r = (path.len() - 1) as nat;
            let linked = linked_nodes(nodes, path, r);
            let s0 = walk_start(linked, dist_cache, last_insert_len, num_literals, commands);
            walk_ok(linked, block_start, max_backward_limit, dist, s0, r) ==> {
                let e = walk_run(linked, block_start, max_backward_limit, dist, s0, r);
                &&& commands_span(e.commands, r as int) + e.last_insert_len.wrapping_add(num_bytes.wrapping_sub(e.pos))
                    == num_bytes + last_insert_len
                &&& e.num_literals == num_literals + commands_inserts(e.commands, r as int)
            }
        }),
{
    let end = last_reached(nodes, num_bytes as int);
    let path = back_path(nodes, end);
    let r = (path.len() - 1) as nat;
    lemma_last_reached(nodes, num_bytes as int);
    lemma_back_path_facts(nodes, end);
    lemma_linked_nodes_keep_commands(nodes, path, r);
    lemma_linked_nodes_links(nodes, path, r);
    let linked = linked_nodes(nodes, path, r);
    let s0 = walk_start(linked, dist_cache, last_insert_len, num_literals, commands);
    if walk_ok(linked, block_start, max_backward_limit, dist, s0, r) {
        lemma_path_links(nodes, num_bytes);
        lemma_walk_follows_path(nodes, path, linked, end, r, block_start, max_backward_limit, dist, s0, r);
        lemma_walk_positions(nodes, path, linked, end, r, block_start, max_backward_limit, dist, s0, r);
        let e = walk_run(linked, block_start, max_backward_limit, dist, s0, r);
        assert(e.pos == end);
        assert(e.last_insert_len <= last_insert_len);
        assert(e.last_insert_len.wrapping_add(num_bytes.wrapping_sub(e.pos)) == e.last_insert_len + (num_bytes - end));
    }
}

/// The distance shortcut of a node (0 when its payload is not a shortcut).
pub open spec fn shortcut_of(n: ZopfliNode) -> u32 {
    match n.u {
        Union1::shortcut(s) => s,
        _ => 0,
    }
}

/// Position where the command ending at node `pos` starts (64-bit wrapping).
pub open spec fn command_start(nodes: Seq<ZopfliNode>, pos: usize) -> usize {
    pos.wrapping_sub(node_copy_length(nodes[pos as int]) as usize).wrapping_sub(
        node_insert_length(nodes[pos as int]) as usize,
    )
}

/// The command ending at node `pos` may serve as a last distance: its
/// distance reaches back no further than the data before it and within the
/// window, and it is not itself a repeat of an earlier distance.
pub open spec fn usable_as_last_distance(
    nodes: Seq<ZopfliNode>,
    block_start: usize,
    pos: usize,
    max_backward: usize,
    gap: usize,
) -> bool {
    let n = nodes[pos as int];
    let clen = node_copy_length(n) as usize;
    let dist = n.distance as usize;
    &&& dist.wrapping_add(clen) <= block_start.wrapping_add(pos).wrapping_add(gap)
    &&& dist <= max_backward.wrapping_add(gap)
    &&& node_distance_code(n) > 0
}

/// The distance shortcut of node `pos`: the latest position at or before
/// `pos` on its path whose command may serve as a last distance (0 if none):
/// `pos` itself if its command does, else the shortcut of the node where its
/// command starts.
pub open spec fn distance_shortcut(
    nodes: Seq<ZopfliNode>,
    block_start: usize,
    pos: usize,
    max_backward: usize,
    gap: usize,
) -> u32 {
    if pos == 0 {
        0
    } else if usable_as_last_distance(nodes, block_start, pos, max_backward, gap) {
        pos as u32
    } else {
        shortcut_of(nodes[command_start(nodes, pos) as int])
    }
}

/// Computes the distance shortcut of node `pos` (see `distance_shortcut`).
pub fn ComputeDistanceShortcut(
    block_start: usize,
    pos: usize,
    max_backward: usize,
    gap: usize,
    nodes: &[ZopfliNode],
) -> (r: u32)
    requires
        pos < nodes@.len(),
        pos != 0 && !usable_as_last_distance(nodes@, block_start, pos, max_backward, gap)
            ==> command_start(nodes@, pos) < nodes@.len(),
    ensures
        r == distance_shortcut(nodes@, block_start, pos, max_backward, gap),
{
    let clen: usize = ZopfliNodeCopyLength(&nodes[pos]) as usize;
    let ilen: usize = (nodes[pos].dcode_insert_length & 0x7ffffffu32) as usize;
    let dist: usize = ZopfliNodeCopyDistance(&nodes[pos]) as usize;
    if pos == 0 {
        0u32
    } else if dist.wrapping_add(clen) <= block_start.wrapping_add(pos).wrapping_add(gap) && dist
        <= max_backward.wrapping_add(gap) && ZopfliNodeDistanceCode(&nodes[pos]) > 0u32 {
        pos as u32
    } else {
        match nodes[pos.wrapping_sub(clen).wrapping_sub(ilen)].u {
            Union1::shortcut(shrt) => shrt,
            _ => 0,
        }
    }
}

/// The positions of the chain of distance shortcuts from node `pos` (at most
/// `k` of them): its shortcut, then the shortcut of the node where that
/// command starts, and so on, until a shortcut is 0.
pub open spec fn shortcut_chain(nodes: Seq<ZopfliNode>, p: usize, k: nat) -> Seq<usize>
    decreases k,
{
    if k == 0 || p == 0 {
        seq![]
    } else {
        seq![p] + shortcut_chain(nodes, shortcut_of(nodes[command_start(nodes, p) as int]) as usize, (k - 1) as nat)
    }
}

/// Every node the shortcut chain visits, and the node where its command
/// starts, lies in the node array.
pub open spec fn shortcut_chain_ok(nodes: Seq<ZopfliNode>, p: usize, k: nat) -> bool
    decreases k,
{
    k == 0 || p == 0 || (p < nodes.len() && command_start(nodes, p) < nodes.len()
        && shortcut_chain_ok(nodes, shortcut_of(nodes[command_start(nodes, p) as int]) as usize, (k - 1) as nat))
}

/// The distance cache at node `pos`: the distances of the (up to four)
/// commands of its shortcut chain, most recent first, then the entries of the
/// starting cache.
pub open spec fn distance_cache_at(nodes: Seq<ZopfliNode>, pos: usize, starting: Seq<i32>) -> Seq<i32> {
    let chain = shortcut_chain(nodes, shortcut_of(nodes[pos as int]) as usize, 4);
    Seq::new(4, |j: int| if j < chain.len() { nodes[chain[j] as int].distance as usize as i32 } else { starting[j - chain.len()] })
}

proof fn lemma_shortcut_chain_len(nodes: Seq<ZopfliNode>, p: usize, k: nat)
    ensures
        shortcut_chain(nodes, p, k).len() <= k,
        forall|j: int| 0 <= j < shortcut_chain(nodes, p, k).len() ==> #[trigger] shortcut_chain(nodes, p, k)[j] != 0,
    decreases k,
{
    if k > 0 && p != 0 {
        lemma_shortcut_chain_len(nodes, shortcut_of(nodes[command_start(nodes, p) as int]) as usize, (k - 1) as nat);
    }
}

/// Fills the first four entries of `dist_cache` with the distance cache at
/// node `pos` (see `distance_cache_at`); the other entries are left as they
/// were.
pub fn ComputeDistanceCache(
    pos: usize,
    starting_dist_cache: &[i32],
    nodes: &[ZopfliNode],
    dist_cache: &mut [i32],
)
    requires
        pos < nodes@.len(),
        shortcut_chain_ok(nodes@, shortcut_of(nodes@[pos as int]) as usize, 4),
        old(dist_cache)@.len() >= 4,
        starting_dist_cache@.len() + shortcut_chain(nodes@, shortcut_of(nodes@[pos as int]) as usize, 4).len() >= 4,
    ensures
        final(dist_cache)@.len() == old(dist_cache)@.len(),
        final(dist_cache)@.subrange(0, 4) == distance_cache_at(nodes@, pos, starting_dist_cache@),
        final(dist_cache)@.subrange(4, final(dist_cache)@.len() as int) == old(dist_cache)@.subrange(4, old(dist_cache)@.len() as int),
{
    let ghost chain = shortcut_chain(nodes@, shortcut_of(nodes@[pos as int]) as usize, 4);
    let ghost target = distance_cache_at(nodes@, pos, starting_dist_cache@);
    let mut idx: usize = 0;
    let mut p: usize = match nodes[pos].u {
        Union1::shortcut(shrt) => shrt,
        _ => 0,
    } as usize;
    proof {
        lemma_shortcut_chain_len(nodes@, p, 4);
    }
    while idx < 4 && p > 0
        invariant
            idx <= 4,
            idx <= chain.len(),
            pos < nodes@.len(),
            dist_cache@.len() >= 4,
            dist_cache@.len() == old(dist_cache)@.len(),
            chain == shortcut_chain(nodes@, shortcut_of(nodes@[pos as int]) as usize, 4),
            target == distance_cache_at(nodes@, pos, starting_dist_cache@),
            chain.len() <= 4,
            shortcut_chain(nodes@, p, (4 - idx) as nat) == chain.subrange(idx as int, chain.len() as int),
            shortcut_chain_ok(nodes@, p, (4 - idx) as nat),
            forall|j: int| 0 <= j < idx ==> #[trigger] dist_cache@[j] == target[j],
            forall|j: int| 4 <= j < dist_cache@.len() ==> #[trigger] dist_cache@[j] == old(dist_cache)@[j],
        decreases 4 - idx,
    {
        let ilen: usize = (nodes[p].dcode_insert_length & 0x7ffffffu32) as usize;
        let clen: usize = ZopfliNodeCopyLength(&nodes[p]) as usize;
        let dist: usize = ZopfliNodeCopyDistance(&nodes[p]) as usize;
        proof {
            let rest = shortcut_chain(nodes@, shortcut_of(nodes@[command_start(nodes@, p) as int]) as usize, (4 - idx - 1) as nat);
            assert(shortcut_chain(nodes@, p, (4 - idx) as nat) == seq![p] + rest);
            assert(chain.subrange(idx as int, chain.len() as int)[0] == p);
            assert(chain[idx as int] == p);
        }
        dist_cache[idx] = dist as i32;
        idx = idx + 1;
        let ghost old_p = p;
        p = match nodes[p.wrapping_sub(clen).wrapping_sub(ilen)].u {
            Union1::shortcut(shrt) => shrt,
            _ => 0,
        } as usize;
        proof {
            assert(shortcut_chain(nodes@, old_p, (4 - (idx - 1)) as nat)
                == seq![old_p] + shortcut_chain(nodes@, p, (4 - idx) as nat));
            assert(chain.subrange(idx as int, chain.len() as int) =~= chain.subrange(idx - 1, chain.len() as int).subrange(1, chain.len() - (idx - 1)));
        }
    }
    proof {
        assert(chain.subrange(idx as int, chain.len() as int).len() == 0);
        assert(idx == chain.len());
    }
    let mut k: usize = 0;
    while idx < 4
        invariant
            chain.len() <= idx <= 4,
            k + chain.len() == idx,
            pos < nodes@.len(),
            dist_cache@.len() == old(dist_cache)@.len(),
            dist_cache@.len() >= 4,
            starting_dist_cache@.len() + chain.len() >= 4,
            target == distance_cache_at(nodes@, pos, starting_dist_cache@),
            chain == shortcut_chain(nodes@, shortcut_of(nodes@[pos as int]) as usize, 4),
            forall|j: int| 0 <= j < idx ==> #[trigger] dist_cache@[j] == target[j],
            forall|j: int| 4 <= j < dist_cache@.len() ==> #[trigger] dist_cache@[j] == old(dist_cache)@[j],
        decreases 4 - idx,
    {
        dist_cache[idx] = starting_dist_cache[k];
        idx = idx + 1;
        k = k + 1;
    }
    proof {
        assert(dist_cache@.subrange(0, 4) =~= target);
        assert(dist_cache@.subrange(4, dist_cache@.len() as int) =~= old(dist_cache)@.subrange(4, old(dist_cache)@.len() as int));
    }
}


/// The end positions of the commands on the path back from node `index`
/// whose distance may serve as a last distance, most recent first.
pub open spec fn usable_positions(nodes: Seq<ZopfliNode>, block_start: usize, max_backward: usize, gap: usize, index: int) -> Seq<int>
    decreases index,
{
    if 0 < index < nodes.len() {
        let cl = node_command_length(nodes[index]) as int;
        if 1 <= cl <= index {
            let rest = usable_positions(nodes, block_start, max_backward, gap, index - cl);
            if usable_as_last_distance(nodes, block_start, index as usize, max_backward, gap) {
                seq![index] + rest
            } else {
                rest
            }
        } else {
            seq![]
        }
    } else {
        seq![]
    }
}

/// The distances of those commands (see `usable_positions`), most recent
/// first, as the distance cache holds them.
pub open spec fn usable_distances(nodes: Seq<ZopfliNode>, block_start: usize, max_backward: usize, gap: usize, index: int) -> Seq<i32> {
    let u = usable_positions(nodes, block_start, max_backward, gap, index);
    Seq::new(u.len(), |j: int| nodes[u[j]].distance as usize as i32)
}

/// Every node on the path back from node `index` carries the distance
/// shortcut that `EvaluateNode` gives it, node 0 the shortcut 0.
pub open spec fn shortcuts_consistent(nodes: Seq<ZopfliNode>, block_start: usize, max_backward: usize, gap: usize, index: int) -> bool
    decreases index,
{
    if index == 0 {
        0 < nodes.len() && shortcut_of(nodes[0]) == 0
    } else if 0 < index < nodes.len() {
        let cl = node_command_length(nodes[index]) as int;
        &&& 1 <= cl <= index
        &&& shortcut_of(nodes[index]) == distance_shortcut(nodes, block_start, index as usize, max_backward, gap)
        &&& shortcuts_consistent(nodes, block_start, max_backward, gap, index - cl)
    } else {
        false
    }
}

proof fn lemma_usable_positions_head(nodes: Seq<ZopfliNode>, block_start: usize, max_backward: usize, gap: usize, index: int)
    requires
        shortcuts_consistent(nodes, block_start, max_backward, gap, index),
        0 <= index < 0x100000000,
    ensures
        ({
            let u = usable_positions(nodes, block_start, max_backward, gap, index);
            &&& shortcut_of(nodes[index]) as int == (if u.len() > 0 { u[0] } else { 0 })
            &&& u.len() > 0 ==> {
                let p = u[0];
                let cl = node_command_length(nodes[p]) as int;
                &&& 0 < p <= index
                &&& p < nodes.len()
                &&& 1 <= cl <= p
                &&& command_start(nodes, p as usize) == p - cl
                &&& shortcuts_consistent(nodes, block_start, max_backward, gap, p - cl)
                &&& u == seq![p] + usable_positions(nodes, block_start, max_backward, gap, p - cl)
            }
        }),
    decreases index,
{
    if index > 0 {
        let cl = node_command_length(nodes[index]) as int;
        lemma_node_field_bounds(nodes[index]);
        assert(command_start(nodes, index as usize) == index - cl);
        if !usable_as_last_distance(nodes, block_start, index as usize, max_backward, gap) {
            lemma_usable_positions_head(nodes, block_start, max_backward, gap, index - cl);
        }
    }
}

proof fn lemma_shortcut_chain_usable(nodes: Seq<ZopfliNode>, block_start: usize, max_backward: usize, gap: usize, index: int, k: nat)
    requires
        shortcuts_consistent(nodes, block_start, max_backward, gap, index),
        0 <= index < 0x100000000,
    ensures
        ({
            let u = usable_positions(nodes, block_start, max_backward, gap, index);
            let chain = shortcut_chain(nodes, shortcut_of(nodes[index]) as usize, k);
            &&& chain.len() == (if k < u.len() { k as int } else { u.len() as int })
            &&& forall|j: int| 0 <= j < chain.len() ==> chain[j] as int == #[trigger] u[j]
        }),
    decreases k,
{
    lemma_usable_positions_head(nodes, block_start, max_backward, gap, index);
    let u = usable_positions(nodes, block_start, max_backward, gap, index);
    if k > 0 && u.len() > 0 {
        let p = u[0];
        let cl = node_command_length(nodes[p]) as int;
        lemma_shortcut_chain_usable(nodes, block_start, max_backward, gap, p - cl, (k - 1) as nat);
        let rest = usable_positions(nodes, block_start, max_backward, gap, p - cl);
        let chain = shortcut_chain(nodes, shortcut_of(nodes[index]) as usize, k);
        let tail = shortcut_chain(nodes, shortcut_of(nodes[p - cl]) as usize, (k - 1) as nat);
        assert(shortcut_of(nodes[index]) as usize == p);
        assert(chain == seq![p as usize] + tail);
        assert forall|j: int| 0 <= j < chain.len() implies chain[j] as int == #[trigger] u[j] by {
            if j > 0 {
                assert(chain[j] == tail[j - 1]);
                assert(u[j] == rest[j - 1]);
            }
        }
    }
}

/// Where the shortcuts along the path back from node `index` are those
/// `EvaluateNode` gives, the distance cache the search computes there holds
/// the distances of the last four commands on that path that may serve as a
/// last distance, most recent first, then the entries of the starting cache.
pub proof fn lemma_distance_cache_at_usable(
    nodes: Seq<ZopfliNode>,
    block_start: usize,
    max_backward: usize,
    gap: usize,
    index: int,
    starting: Seq<i32>,
)
    requires
        shortcuts_consistent(nodes, block_start, max_backward, gap, index),
        0 <= index < 0x100000000,
        starting.len() >= 4,
    ensures
        distance_cache_at(nodes, index as usize, starting)
            == (usable_distances(nodes, block_start, max_backward, gap, index) + starting).take(4),
{
    lemma_shortcut_chain_usable(nodes, block_start, max_backward, gap, index, 4);
    let u = usable_positions(nodes, block_start, max_backward, gap, index);
    let chain = shortcut_chain(nodes, shortcut_of(nodes[index]) as usize, 4);
    let d = usable_distances(nodes, block_start, max_backward, gap, index);
    let lhs = distance_cache_at(nodes, index as usize, starting);
    let rhs = (d + starting).take(4);
    assert forall|j: int| 0 <= j < 4 implies lhs[j] == rhs[j] by {
        if j < chain.len() {
            assert(chain[j] as int == u[j]);
        }
    }
    assert(lhs =~= rhs);
}

proof fn lemma_walk_cache_along_path(
    nodes: Seq<ZopfliNode>,
    path: Seq<int>,
    linked: Seq<ZopfliNode>,
    end: int,
    r: nat,
    block_start: usize,
    max_backward_limit: usize,
    dist: BrotliDistanceParams,
    s0: CommandWalk,
    k: nat,
)
    requires
        path_links_ok(nodes, path, linked, end, r),
        k <= r,
        s0.pos == 0,
        s0.i == 0,
        s0.offset == link_of(linked[0]),
        s0.dist_cache.len() >= 4,
        block_start + end + 0x102000000 <= usize::MAX,
    ensures
        ({
            let w = walk_run(linked, block_start, max_backward_limit, dist, s0, k);
            &&& w.dist_cache.len() == s0.dist_cache.len()
            &&& w.dist_cache.take(4)
                == (usable_distances(nodes, block_start, max_backward_limit, 0, path[r - k]) + s0.dist_cache).take(4)
        }),
    decreases k,
{
    lemma_walk_positions(nodes, path, linked, end, r, block_start, max_backward_limit, dist, s0, k);
    if k == 0 {
        assert(usable_positions(nodes, block_start, max_backward_limit, 0, 0) =~= seq![]);
        assert(usable_distances(nodes, block_start, max_backward_limit, 0, 0) + s0.dist_cache =~= s0.dist_cache);
    } else {
        let k1 = (k - 1) as nat;
        lemma_walk_cache_along_path(nodes, path, linked, end, r, block_start, max_backward_limit, dist, s0, k1);
        lemma_walk_positions(nodes, path, linked, end, r, block_start, max_backward_limit, dist, s0, k1);
        lemma_walk_run_step(linked, block_start, max_backward_limit, dist, s0, k1);
        let w = walk_run(linked, block_start, max_backward_limit, dist, s0, k1);
        let w1 = walk_step(linked, block_start, max_backward_limit, dist, w);
        assert(walk_run(linked, block_start, max_backward_limit, dist, s0, k) == w1);
        let p = path[r - k1];
        let q = path[r - k1 - 1];
        let next = walk_next(linked, w);
        lemma_node_field_bounds(nodes[q]);
        lemma_node_field_bounds(next);
        assert(same_command(next, nodes[q]));
        let cl = node_command_length(nodes[q]) as int;
        let ins = node_insert_length(nodes[q]) as int;
        let clen = node_copy_length(nodes[q]) as int;
        assert(q == p + ins + clen);
        assert(q - cl == p);
        let dq = nodes[q].distance as usize;
        let pos1 = w.pos.wrapping_add(node_insert_length(next) as usize);
        assert(pos1 == p + ins);
        assert(block_start.wrapping_add(pos1) == block_start + p + ins);
        assert(dq.wrapping_add(clen as usize) == dq + clen);
        assert(block_start.wrapping_add(q as usize).wrapping_add(0) == block_start + q);
        assert(max_backward_limit.wrapping_add(0) == max_backward_limit);
        let usable = usable_as_last_distance(nodes, block_start, q as usize, max_backward_limit, 0);
        let pushes = !walk_is_dictionary(linked, block_start, max_backward_limit, w) && node_distance_code(next) as usize > 0;
        assert(usable == pushes);
        let up = usable_positions(nodes, block_start, max_backward_limit, 0, p);
        let uq = usable_positions(nodes, block_start, max_backward_limit, 0, q);
        let x = usable_distances(nodes, block_start, max_backward_limit, 0, p) + s0.dist_cache;
        let y = usable_distances(nodes, block_start, max_backward_limit, 0, q) + s0.dist_cache;
        if usable {
            assert(uq == seq![q] + up);
            assert(usable_distances(nodes, block_start, max_backward_limit, 0, q)
                =~= seq![dq as i32] + usable_distances(nodes, block_start, max_backward_limit, 0, p));
            assert(y =~= seq![dq as i32] + x);
            let dc = w.dist_cache;
            assert(dc.take(4) == x.take(4));
            assert(dc[0] == x[0] && dc[1] == x[1] && dc[2] == x[2]) by {
                assert(dc.take(4)[0] == dc[0]);
                assert(dc.take(4)[1] == dc[1]);
                assert(dc.take(4)[2] == dc[2]);
            }
            assert(w1.dist_cache.take(4) =~= y.take(4));
        } else {
            assert(uq == up);
            assert(usable_distances(nodes, block_start, max_backward_limit, 0, q)
                =~= usable_distances(nodes, block_start, max_backward_limit, 0, p));
            assert(w1.dist_cache == w.dist_cache);
        }
    }
}

/// The distance cache the search computes at a node is the one
/// `BrotliZopfliCreateCommands` holds when its walk reaches that node: after
/// the path is traced back, once the walk has made the `k` commands up to
/// node `path[r - k]`, the first four entries of its cache equal
/// `distance_cache_at` there, wherever the nodes on the path back from it
/// carry the shortcuts `EvaluateNode` gives them.
pub proof fn lemma_search_cache_is_command_cache(
    nodes: Seq<ZopfliNode>,
    num_bytes: usize,
    block_start: usize,
    max_backward_limit: usize,
    dist: BrotliDistanceParams,
    dist_cache: Seq<i32>,
    last_insert_len: usize,
    num_literals: usize,
    commands: Seq<Command>,
    k: nat,
)
    requires
        num_bytes < nodes.len() <= usize::MAX,
        last_reached(nodes, num_bytes as int) >= 0,
        back_path_ok(nodes, last_reached(nodes, num_bytes as int)),
        dist_cache.len() >= 4,
        num_bytes < 0x100000000,
        block_start + num_bytes + 0x102000000 <= usize::MAX,
    ensures
        ({
            let path = back_path(nodes, last_reached(nodes, num_bytes as int));
            let r = (path.len() - 1) as nat;
            let linked = linked_nodes(nodes, path, r);
            let s0 = walk_start(linked, dist_cache, last_insert_len, num_literals, commands);
            (k <= r && shortcuts_consistent(nodes, block_start, max_backward_limit, 0, path[r - k])) ==>
                walk_run(linked, block_start, max_backward_limit, dist, s0, k).dist_cache.take(4)
                    == distance_cache_at(nodes, path[r - k] as usize, dist_cache)
        }),
{
    let end = last_reached(nodes, num_bytes as int);
    let path = back_path(nodes, end);
    let r = (path.len() - 1) as nat;
    let linked = linked_nodes(nodes, path, r);
    let s0 = walk_start(linked, dist_cache, last_insert_len, num_literals, commands);
    if k <= r && shortcuts_consistent(nodes, block_start, max_backward_limit, 0, path[r - k]) {
        lemma_path_links(nodes, num_bytes);
        lemma_last_reached(nodes, num_bytes as int);
        lemma_walk_cache_along_path(nodes, path, linked, end, r, block_start, max_backward_limit, dist, s0, k);
        lemma_distance_cache_at_usable(nodes, block_start, max_backward_limit, 0, path[r - k], dist_cache);
    }
}


/// The command ending at node `n` can be coded: its copy length code and
/// distance code are ones `InitCommand` takes.
pub open spec fn node_codable(n: ZopfliNode, dist: BrotliDistanceParams) -> bool {
    &&& i32::MIN <= (node_length_code(n) as usize as i32) as int - (node_copy_length(n) as usize as i32) as int <= i32::MAX
    &&& init_command_ok(dist, node_copy_length(n) as usize, walk_delta(n), node_distance_code(n) as usize)
}

/// The nodes as the search keeps them: node 0 is reached, and every other
/// reached node's command goes back at least one position to a reached
/// node and can be coded.
pub open spec fn search_nodes_ok(nodes: Seq<ZopfliNode>, dist: BrotliDistanceParams) -> bool {
    &&& nodes.len() > 0
    &&& !is_unreached(nodes[0])
    &&& forall|q: int| 0 < q < nodes.len() && !is_unreached(#[trigger] nodes[q]) ==> {
        let cl = node_command_length(nodes[q]) as int;
        &&& 1 <= cl <= q
        &&& !is_unreached(nodes[q - cl])
        &&& node_codable(nodes[q], dist)
    }
}

/// A fresh node array with node 0 given copy length 0, as the search starts
/// from, satisfies `search_nodes_ok`.
pub proof fn lemma_fresh_nodes_search_ok(nodes: Seq<ZopfliNode>, dist: BrotliDistanceParams)
    requires
        nodes.len() > 0,
        nodes[0].length == 0,
        forall|q: int| 0 < q < nodes.len() ==> #[trigger] nodes[q] == stub_node(),
    ensures
        search_nodes_ok(nodes, dist),
{
    let l0 = nodes[0].length;
    assert(l0 & 0x1ffffff == 0) by (bit_vector)
        requires l0 == 0u32;
    let d: u32 = 0;
    assert(d & 0x7ffffff == 0) by (bit_vector)
        requires d == 0u32;
}

/// Changing only node payloads (costs, shortcuts, links) keeps
/// `search_nodes_ok`.
pub proof fn lemma_payload_change_keeps_search_ok(nodes: Seq<ZopfliNode>, n1: Seq<ZopfliNode>, dist: BrotliDistanceParams)
    requires
        search_nodes_ok(nodes, dist),
        n1.len() == nodes.len(),
        forall|q: int| 0 <= q < nodes.len() ==> same_command(#[trigger] n1[q], nodes[q]),
    ensures
        search_nodes_ok(n1, dist),
{
    assert forall|q: int| 0 < q < n1.len() && !is_unreached(#[trigger] n1[q]) implies {
        let cl = node_command_length(n1[q]) as int;
        &&& 1 <= cl <= q
        &&& !is_unreached(n1[q - cl])
        &&& node_codable(n1[q], dist)
    } by {
        assert(same_command(n1[q], nodes[q]));
        let cl = node_command_length(nodes[q]) as int;
        assert(same_command(n1[q - cl], nodes[q - cl]));
    }
    assert(same_command(n1[0], nodes[0]));
}

proof fn lemma_signed_delta_round_trip(x: i32)
    ensures
        ((x as usize) as i32) == x,
{
    assert(((x as usize) as i32) == x) by (bit_vector);
}

/// The node `UpdateZopfliNode` writes for a command with a copy length code
/// of at least 2 whose distance code `InitCommand` takes can be coded.
pub proof fn lemma_updated_node_codable(
    pos: usize,
    start_pos: usize,
    len: usize,
    len_code: usize,
    dist: usize,
    short_code: usize,
    cost: u32,
    params: BrotliDistanceParams,
)
    requires
        len < 0x2000000,
        2 <= len_code <= len + 9,
        len + 9 - len_code < 128,
        start_pos <= pos,
        pos - start_pos < 0x8000000,
        short_code < 32,
        dist < 0x100000000,
        params.distance_postfix_bits < 32,
        ({
            let code = node_distance_code(updated_node(pos, start_pos, len, len_code, dist, short_code, cost)) as usize;
            code >= 16usize.wrapping_add(params.num_direct_distance_codes as usize) ==> prefix_dist(
                code,
                params.num_direct_distance_codes as usize,
                params.distance_postfix_bits as u64,
            ) >= 2
        }),
    ensures
        node_codable(updated_node(pos, start_pos, len, len_code, dist, short_code, cost), params),
{
    let n = updated_node(pos, start_pos, len, len_code, dist, short_code, cost);
    lemma_update_node_read_back(pos, start_pos, len, len_code, dist, short_code, cost);
    let x: i32 = ((len_code as usize as i32) as int - (len as usize as i32) as int) as i32;
    assert((len_code as usize as i32) as int == len_code);
    assert((len as usize as i32) as int == len);
    lemma_signed_delta_round_trip(x);
    assert(walk_delta(n) == x as usize);
    assert(code_copy_length(len, walk_delta(n)) == len_code);
}

/// Recording a command as `UpdateZopfliNode` does keeps `search_nodes_ok`,
/// when the command copies at least 2 bytes, starts at a reached node no
/// later than `pos`, fits the node fields, and makes a node that can be coded
/// (see `lemma_updated_node_codable`).
pub proof fn lemma_update_keeps_search_ok(
    nodes: Seq<ZopfliNode>,
    params: BrotliDistanceParams,
    pos: usize,
    start_pos: usize,
    len: usize,
    len_code: usize,
    dist: usize,
    short_code: usize,
    cost: u32,
)
    requires
        search_nodes_ok(nodes, params),
        pos + len < nodes.len(),
        start_pos <= pos,
        !is_unreached(nodes[start_pos as int]),
        2 <= len < 0x2000000,
        len_code <= len + 9,
        len + 9 - len_code < 128,
        pos - start_pos < 0x8000000,
        short_code < 32,
        dist < 0x100000000,
        node_codable(updated_node(pos, start_pos, len, len_code, dist, short_code, cost), params),
    ensures
        search_nodes_ok(nodes.update(pos + len, updated_node(pos, start_pos, len, len_code, dist, short_code, cost)), params),
{
    let t = pos + len;
    let n = updated_node(pos, start_pos, len, len_code, dist, short_code, cost);
    let n1 = nodes.update(t, n);
    lemma_update_node_read_back(pos, start_pos, len, len_code, dist, short_code, cost);
    lemma_node_field_bounds(n);
    assert(n.length & 0x1ffffff == len);
    assert(!is_unreached(n)) by {
        let nl = n.length;
        if nl == 1 {
            assert(nl & 0x1ffffff == 1) by (bit_vector)
                requires nl == 1u32;
        }
    }
    assert forall|q: int| 0 < q < n1.len() && !is_unreached(#[trigger] n1[q]) implies {
        let cl = node_command_length(n1[q]) as int;
        &&& 1 <= cl <= q
        &&& !is_unreached(n1[q - cl])
        &&& node_codable(n1[q], params)
    } by {
        if q == t {
            assert(node_command_length(n) == len + (pos - start_pos));
            assert(t - (len + (pos - start_pos)) == start_pos);
            assert(n1[start_pos as int] == nodes[start_pos as int]);
        } else {
            assert(n1[q] == nodes[q]);
            let cl = node_command_length(nodes[q]) as int;
            if q - cl != t {
                assert(n1[q - cl] == nodes[q - cl]);
            }
        }
    }
}

proof fn lemma_search_back_path(nodes: Seq<ZopfliNode>, params: BrotliDistanceParams, q: int)
    requires
        search_nodes_ok(nodes, params),
        0 <= q < nodes.len(),
        !is_unreached(nodes[q]),
    ensures
        back_path_ok(nodes, q),
        forall|j: int| 0 <= j < back_path(nodes, q).len() - 1 ==> node_codable(nodes[#[trigger] back_path(nodes, q)[j]], params),
    decreases q,
{
    if q > 0 {
        let cl = node_command_length(nodes[q]) as int;
        lemma_search_back_path(nodes, params, q - cl);
        let rest = back_path(nodes, q - cl);
        assert(back_path(nodes, q) == seq![q] + rest);
        assert forall|j: int| 0 <= j < back_path(nodes, q).len() - 1 implies
            node_codable(nodes[#[trigger] back_path(nodes, q)[j]], params) by {
            if j > 0 {
                assert(back_path(nodes, q)[j] == rest[j - 1]);
            }
        }
    }
}

proof fn lemma_walk_cache_len(
    nodes: Seq<ZopfliNode>,
    block_start: usize,
    max_backward_limit: usize,
    dist: BrotliDistanceParams,
    s0: CommandWalk,
    k: nat,
)
    requires
        s0.dist_cache.len() >= 4,
    ensures
        walk_run(nodes, block_start, max_backward_limit, dist, s0, k).dist_cache.len() == s0.dist_cache.len(),
    decreases k,
{
    if k > 0 {
        let k1 = (k - 1) as nat;
        lemma_walk_cache_len(nodes, block_start, max_backward_limit, dist, s0, k1);
        lemma_walk_run_step(nodes, block_start, max_backward_limit, dist, s0, k1);
    }
}

proof fn lemma_walk_ok_along_path(
    nodes: Seq<ZopfliNode>,
    path: Seq<int>,
    linked: Seq<ZopfliNode>,
    end: int,
    r: nat,
    block_start: usize,
    max_backward_limit: usize,
    dist: BrotliDistanceParams,
    s0: CommandWalk,
    k: nat,
)
    requires
        path_links_ok(nodes, path, linked, end, r),
        k <= r,
        s0.pos == 0,
        s0.i == 0,
        s0.offset == link_of(linked[0]),
        r <= s0.commands.len(),
        s0.dist_cache.len() >= 4,
        forall|j: int| 0 <= j < r ==> node_codable(nodes[#[trigger] path[j]], dist),
    ensures
        walk_ok(linked, block_start, max_backward_limit, dist,
            walk_run(linked, block_start, max_backward_limit, dist, s0, k), (r - k) as nat),
    decreases r - k,
{
    lemma_walk_positions(nodes, path, linked, end, r, block_start, max_backward_limit, dist, s0, k);
    let w = walk_run(linked, block_start, max_backward_limit, dist, s0, k);
    if k < r {
        lemma_walk_ok_along_path(nodes, path, linked, end, r, block_start, max_backward_limit, dist, s0, k + 1);
        lemma_walk_run_step(linked, block_start, max_backward_limit, dist, s0, k);
        lemma_walk_commands(nodes, path, linked, end, r, block_start, max_backward_limit, dist, s0, k);
        lemma_walk_cache_len(linked, block_start, max_backward_limit, dist, s0, k);
        let q = path[r - k - 1];
        assert(node_codable(nodes[path[r - k - 1]], dist));
        assert(same_command(linked[q], nodes[q]));
        let cl = node_command_length(nodes[q]);
        lemma_node_field_bounds(nodes[q]);
        assert(w.offset == cl);
        assert(walk_step_ok(linked, block_start, max_backward_limit, dist, w));
    }
}

/// The nodes the search keeps (see `search_nodes_ok`) are ready for the
/// trace back and the command builder: the last reached node at or below
/// `num_bytes` exists and its path back reaches node 0, so
/// `ComputeShortestPathFromNodes` can run; and after it, the walk of
/// `BrotliZopfliCreateCommands` runs without fault whenever the command
/// buffer has room for the path's commands and the distance cache has four
/// entries.
pub proof fn lemma_search_nodes_ready(
    nodes: Seq<ZopfliNode>,
    num_bytes: usize,
    block_start: usize,
    max_backward_limit: usize,
    dist: BrotliDistanceParams,
    dist_cache: Seq<i32>,
    last_insert_len: usize,
    num_literals: usize,
    commands: Seq<Command>,
)
    requires
        search_nodes_ok(nodes, dist),
        num_bytes < nodes.len() <= usize::MAX,
    ensures
        last_reached(nodes, num_bytes as int) >= 0,
        back_path_ok(nodes, last_reached(nodes, num_bytes as int)),
        ({
            let path = back_path(nodes, last_reached(nodes, num_bytes as int));
            let r = (path.len() - 1) as nat;
            let linked = linked_nodes(nodes, path, r);
            let s0 = walk_start(linked, dist_cache, last_insert_len, num_literals, commands);
            &&& r <= num_bytes
            &&& (r <= commands.len() && dist_cache.len() >= 4) ==> walk_ok(linked, block_start, max_backward_limit, dist, s0, r)
        }),
{
    lemma_last_reached(nodes, num_bytes as int);
    let end = last_reached(nodes, num_bytes as int);
    assert(end >= 0) by {
        lemma_last_reached_at_least(nodes, num_bytes as int, 0);
    }
    lemma_search_back_path(nodes, dist, end);
    let path = back_path(nodes, end);
    let r = (path.len() - 1) as nat;
    let linked = linked_nodes(nodes, path, r);
    let s0 = walk_start(linked, dist_cache, last_insert_len, num_literals, commands);
    lemma_back_path_facts(nodes, end);
    lemma_path_links(nodes, num_bytes);
    if r <= commands.len() && dist_cache.len() >= 4 {
        assert(forall|j: int| 0 <= j < r ==> node_codable(nodes[#[trigger] path[j]], dist));
        lemma_walk_ok_along_path(nodes, path, linked, end, r, block_start, max_backward_limit, dist, s0, 0);
    }
}

proof fn lemma_last_reached_at_least(nodes: Seq<ZopfliNode>, i: int, j: int)
    requires
        0 <= j <= i < nodes.len(),
        !is_unreached(nodes[j]),
    ensures
        last_reached(nodes, i) >= j,
    decreases i,
{
    if i > j && is_unreached(nodes[i]) {
        lemma_last_reached_at_least(nodes, i - 1, j);
    }
}


/// Where the shortcuts along the path back from node `index` are those
/// `EvaluateNode` gives, the chain of shortcuts its distance cache follows
/// stays inside the node array (see `shortcut_chain_ok`).
pub proof fn lemma_consistent_shortcut_chain_ok(
    nodes: Seq<ZopfliNode>,
    block_start: usize,
    max_backward: usize,
    gap: usize,
    index: int,
    k: nat,
)
    requires
        shortcuts_consistent(nodes, block_start, max_backward, gap, index),
        0 <= index < 0x100000000,
    ensures
        shortcut_chain_ok(nodes, shortcut_of(nodes[index]) as usize, k),
        shortcut_chain(nodes, shortcut_of(nodes[index]) as usize, k).len() <= k,
    decreases k,
{
    lemma_usable_positions_head(nodes, block_start, max_backward, gap, index);
    lemma_shortcut_chain_len(nodes, shortcut_of(nodes[index]) as usize, k);
    let u = usable_positions(nodes, block_start, max_backward, gap, index);
    if k > 0 && u.len() > 0 {
        let p = u[0];
        let cl = node_command_length(nodes[p]) as int;
        lemma_consistent_shortcut_chain_ok(nodes, block_start, max_backward, gap, p - cl, (k - 1) as nat);
        assert(shortcut_of(nodes[index]) as usize == p);
    }
}

} // verus!
