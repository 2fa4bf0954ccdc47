//! Monte Carlo tree search over an arena of nodes addressed by index: a
//! bipartite tree of move nodes and spawn nodes, grown by
//! selection–expansion–rollout–backpropagation iterations, with tree
//! reuse across real turns by rerooting onto the realized board.

use vstd::prelude::*;
use crate::game::Direction;
use crate::fastgame::{
    FastGame, valid_grid, changes, lost, possible_dirs, grid_sum, cell_empty, grid_after,
    move_score_spec, place_spec, empty_count_from, lemma_make_move_keeps_sum,
};
use crate::minimax::expectimax_value;
use crate::randsrc::{rand_below, shuffle_directions, shuffle_cells, rng_from_entropy, instant_now,
    elapsed_millis};
use crate::minimax::get_best_direction_expectimax;

verus! {

/// The rollout policy: how the play-to-completion simulation picks each
/// move.
#[derive(Clone, Copy, PartialEq, Eq, Structural, Debug)]
pub enum RolloutPolicy {
    /// A uniformly random legal move.
    Uniform,
    /// The legal move with the largest immediate merge score.
    GreedyScore,
    /// The legal move leaving the most empty cells.
    GreedyEmpty,
    /// A one-ply expectimax lookahead.
    Lookahead,
}

/// Payload of one tree node: a move node holds its still-undiscovered
/// directions; a spawn node holds the move that led to it, its two
/// independently shuffled spawn pools, and its accumulated rollout value.
pub enum NodeInfo {
    Move { actions_left: Vec<Direction> },
    Spawn {
        move_made: Direction,
        two_block_spawns_left: Vec<(usize, usize)>,
        four_block_spawns_left: Vec<(usize, usize)>,
        total_value: u64,
    },
}

/// One arena node. Parent and children are indices, never references, so
/// the tree can be rerooted by pure index remapping.
pub struct Node {
    pub game_state: [u32; 4],
    pub parent_index: Option<usize>,
    pub visit_count: u64,
    pub is_terminal: bool,
    pub children_indices: Vec<usize>,
    pub move_number: u64,
    pub score: u64,
    pub info: NodeInfo,
}

/// Whether a payload is a move payload.
pub open spec fn is_move(info: NodeInfo) -> bool {
    match info {
        NodeInfo::Move { .. } => true,
        NodeInfo::Spawn { .. } => false,
    }
}

/// The undiscovered directions of a move payload.
pub open spec fn actions_of(info: NodeInfo) -> Seq<Direction> {
    match info {
        NodeInfo::Move { actions_left } => actions_left@,
        NodeInfo::Spawn { .. } => Seq::empty(),
    }
}

/// The low-spawn pool of a spawn payload.
pub open spec fn twos_of(info: NodeInfo) -> Seq<(usize, usize)> {
    match info {
        NodeInfo::Move { .. } => Seq::empty(),
        NodeInfo::Spawn { two_block_spawns_left, .. } => two_block_spawns_left@,
    }
}

/// The high-spawn pool of a spawn payload.
pub open spec fn fours_of(info: NodeInfo) -> Seq<(usize, usize)> {
    match info {
        NodeInfo::Move { .. } => Seq::empty(),
        NodeInfo::Spawn { four_block_spawns_left, .. } => four_block_spawns_left@,
    }
}

/// The accumulated value of a spawn payload.
pub open spec fn value_of(info: NodeInfo) -> u64 {
    match info {
        NodeInfo::Move { .. } => 0,
        NodeInfo::Spawn { total_value, .. } => total_value,
    }
}

/// The move that created a spawn payload.
pub open spec fn move_of(info: NodeInfo) -> Direction {
    match info {
        NodeInfo::Move { .. } => Direction::Stay,
        NodeInfo::Spawn { move_made, .. } => move_made,
    }
}

/// A node still offers an option that was never expanded.
pub open spec fn unexplored(n: Node) -> bool {
    if is_move(n.info) {
        actions_of(n.info).len() > 0
    } else {
        twos_of(n.info).len() > 0 || fours_of(n.info).len() > 0
    }
}

/// Well-formedness of one arena slot: a valid board within the table's
/// domain; a parent of the opposite kind below it that lists it as a
/// child; children of the opposite kind above it, pointing back, each
/// with no more visits than this node; move payloads hold only changing
/// directions; spawn payloads hold only empty cells and a real move; an
/// unfinished node of either kind still has an option or a child.
pub open spec fn node_inv(nodes: Seq<Node>, i: int) -> bool {
    let n = nodes[i];
    &&& valid_grid(n.game_state@)
    &&& grid_sum(n.game_state@) < 0x40000
    &&& match n.parent_index {
        Option::Some(p) => {
            &&& i != 0
            &&& (p as int) < i
            &&& is_move(nodes[p as int].info) != is_move(n.info)
            &&& exists|k: int|
                0 <= k < nodes[p as int].children_indices@.len() && nodes[
                    p as int
                ].children_indices@[k] as int == i
        },
        Option::None => i == 0,
    }
    &&& (i == 0 ==> is_move(n.info))
    &&& forall|k: int|
        0 <= k < n.children_indices@.len() ==> {
            let c = #[trigger] n.children_indices@[k] as int;
            &&& i < c < nodes.len()
            &&& nodes[c].parent_index == Option::Some((i as usize))
            &&& is_move(nodes[c].info) != is_move(n.info)
            &&& nodes[c].visit_count <= n.visit_count
        }
    &&& (if is_move(n.info) {
        &&& (forall|k: int|
            0 <= k < actions_of(n.info).len() ==> #[trigger] actions_of(n.info)[k]
                != Direction::Stay && changes(n.game_state@, actions_of(n.info)[k]))
        &&& (!n.is_terminal ==> actions_of(n.info).len() + n.children_indices@.len() >= 1)
    } else {
        &&& (forall|k: int|
            0 <= k < twos_of(n.info).len() ==> (#[trigger] twos_of(n.info)[k]).0 < 4 && twos_of(
                n.info,
            )[k].1 < 4 && cell_empty(
                n.game_state@,
                twos_of(n.info)[k].0 as int,
                twos_of(n.info)[k].1 as int,
            ))
        &&& (forall|k: int|
            0 <= k < fours_of(n.info).len() ==> (#[trigger] fours_of(n.info)[k]).0 < 4 && fours_of(
                n.info,
            )[k].1 < 4 && cell_empty(
                n.game_state@,
                fours_of(n.info)[k].0 as int,
                fours_of(n.info)[k].1 as int,
            ))
        &&& move_of(n.info) != Direction::Stay
        &&& (!n.is_terminal ==> twos_of(n.info).len() + fours_of(n.info).len()
            + n.children_indices@.len() >= 1)
    })
}

/// Well-formedness of the whole arena.
pub open spec fn tree_inv(nodes: Seq<Node>) -> bool {
    &&& nodes.len() >= 1
    &&& forall|i: int| 0 <= i < nodes.len() ==> #[trigger] node_inv(nodes, i)
}

/// Every child in the arena has at least one visit. Growth preserves
/// this between iterations: the freshly expanded child is backpropagated
/// before its iteration completes, so the zero-visit expanded child —
/// the state the original treats as a fatal bookkeeping breach — cannot
/// be observed through the public interface.
pub open spec fn children_visited(nodes: Seq<Node>) -> bool {
    forall|i: int, k: int|
        0 <= i < nodes.len() && 0 <= k < nodes[i].children_indices@.len() ==> nodes[#[trigger] nodes[i].children_indices@[k] as int].visit_count >= 1
}

/// The search tree: a growable arena of nodes, the completed-iteration
/// counter since the last reroot, and the statistics inherited by the
/// current root when it was rerooted.
pub struct MonteCarloTree {
    nodes: Vec<Node>,
    generation_iteration_count: u64,
    inherited_node_count: usize,
    inherited_root_visits: u64,
    rollout_policy: RolloutPolicy,
}

impl MonteCarloTree {
    /// The arena, abstractly.
    pub closed spec fn nodes_seq(&self) -> Seq<Node> {
        self.nodes@
    }

    /// Completed growth iterations since the last reroot.
    pub closed spec fn iterations(&self) -> u64 {
        self.generation_iteration_count
    }

    /// Root visits inherited through the last reroot.
    pub closed spec fn inherited_visits(&self) -> u64 {
        self.inherited_root_visits
    }

    /// Nodes inherited through the last reroot.
    pub closed spec fn inherited_nodes(&self) -> usize {
        self.inherited_node_count
    }

    /// The rollout policy in force.
    pub closed spec fn policy(&self) -> RolloutPolicy {
        self.rollout_policy
    }

    /// The root's visit count.
    pub open spec fn root_visits(&self) -> u64 {
        self.nodes_seq()[0].visit_count
    }

    /// The root's board.
    pub open spec fn root_board(&self) -> Seq<u32> {
        self.nodes_seq()[0].game_state@
    }

    /// The tree is well formed and the root's visits account exactly for
    /// the completed iterations plus the inherited statistics: each
    /// iteration runs exactly one backpropagation pass, and every pass
    /// reaches the root.
    pub closed spec fn wf(&self) -> bool {
        &&& tree_inv(self.nodes@)
        &&& self.nodes@[0].visit_count as int == self.generation_iteration_count as int
            + self.inherited_root_visits as int
    }

    /// Exposes the visit accounting: in a well-formed tree the root's
    /// visit count is exactly the completed iterations plus the inherited
    /// visits.
    pub proof fn lemma_visit_accounting(&self)
        requires
            self.wf(),
        ensures
            self.nodes_seq().len() >= 1,
            self.root_visits() as int == self.iterations() as int + self.inherited_visits() as int,
    {
    }
}

/// In a well-formed arena every node's visit count is bounded by its
/// parent's, hence by the root's.
pub proof fn lemma_visits_le_root(nodes: Seq<Node>, j: int)
    requires
        tree_inv(nodes),
        0 <= j < nodes.len(),
    ensures
        nodes[j].visit_count <= nodes[0].visit_count,
    decreases j,
{
    if j != 0 {
        assert(node_inv(nodes, j));
        match nodes[j].parent_index {
            Option::Some(p) => {
                assert(node_inv(nodes, p as int));
                let k = choose|k: int|
                    0 <= k < nodes[p as int].children_indices@.len() && nodes[
                        p as int
                    ].children_indices@[k] as int == j;
                assert(nodes[j].visit_count <= nodes[p as int].visit_count);
                lemma_visits_le_root(nodes, p as int);
            },
            Option::None => {},
        }
    }
}

/// The bipartite law: the root is a move node, and along every edge the
/// kinds alternate — every move node's children are spawn nodes and every
/// spawn node's children are move nodes.
pub proof fn lemma_tree_bipartite(t: &MonteCarloTree)
    requires
        t.wf(),
    ensures
        t.nodes_seq().len() >= 1,
        is_move(t.nodes_seq()[0].info),
        forall|i: int, k: int|
            0 <= i < t.nodes_seq().len() && 0 <= k < t.nodes_seq()[i].children_indices@.len()
                ==> {
                let c = #[trigger] t.nodes_seq()[i].children_indices@[k] as int;
                i < c < t.nodes_seq().len() && is_move(t.nodes_seq()[c].info) != is_move(
                    t.nodes_seq()[i].info,
                )
            },
{
    assert(node_inv(t.nodes_seq(), 0));
    assert forall|i: int, k: int|
        0 <= i < t.nodes_seq().len() && 0 <= k < t.nodes_seq()[i].children_indices@.len() implies {
        let c = #[trigger] t.nodes_seq()[i].children_indices@[k] as int;
        i < c < t.nodes_seq().len() && is_move(t.nodes_seq()[c].info) != is_move(
            t.nodes_seq()[i].info,
        )
    } by {
        assert(node_inv(t.nodes_seq(), i));
    }
}

/// Saturating 64-bit addition, for the diagnostic score and value
/// accumulators.
fn sat_add(a: u64, b: u64) -> (r: u64)
    ensures
        r as int == if a + b <= u64::MAX {
            a + b
        } else {
            u64::MAX as int
        },
{
    if a <= u64::MAX - b {
        a + b
    } else {
        u64::MAX
    }
}

/// Floor of the base-two logarithm.
fn log2_u64(x: u64) -> (r: u64)
    ensures
        r <= 64,
{
    let mut v = x;
    let mut l: u64 = 0;
    proof {
        vstd::arithmetic::power2::lemma2_to64();
    }
    while v > 1
        invariant
            l <= 64,
            (v as int) * vstd::arithmetic::power2::pow2(l as nat) <= u64::MAX as int,
        decreases v,
    {
        proof {
            let p = vstd::arithmetic::power2::pow2(l as nat);
            vstd::arithmetic::power2::lemma_pow2_pos(l as nat);
            assert(2 * p <= (v as int) * p) by (nonlinear_arith)
                requires
                    v >= 2,
                    p >= 1,
            ;
            if l >= 63 {
                vstd::arithmetic::power2::lemma2_to64_rest();
                if l > 63 {
                    vstd::arithmetic::power2::lemma_pow2_strictly_increases(63, l as nat);
                }
                assert(p >= vstd::arithmetic::power2::pow2(63));
                assert(false);
            }
            vstd::arithmetic::power2::lemma_pow2_adds(l as nat, 1);
            vstd::arithmetic::power2::lemma2_to64();
            assert(((v / 2) as int) * vstd::arithmetic::power2::pow2((l + 1) as nat) <= (v as int)
                * p) by (nonlinear_arith)
                requires
                    v >= 2,
                    p >= 1,
                    vstd::arithmetic::power2::pow2((l + 1) as nat) == 2 * p,
            ;
        }
        v = v / 2;
        l = l + 1;
    }
    l
}

/// Integer square root of a small fixed-point value.
fn isqrt_small(x: u128) -> (r: u128)
    requires
        x <= 0x1000000,
    ensures
        r <= 0x1000,
{
    let mut r: u128 = 0;
    loop
        invariant
            r <= 0x1000,
            x <= 0x1000000,
        decreases 0x1001 - r,
    {
        proof {
            assert((r + 1) * (r + 1) < 0x10000000) by (nonlinear_arith)
                requires
                    r <= 0x1000,
            ;
        }
        let s = (r + 1) * (r + 1);
        if s <= x {
            proof {
                assert(s <= 0x1000000 ==> r + 1 <= 0x1000) by (nonlinear_arith)
                    requires
                        s == (r + 1) * (r + 1),
                ;
            }
            r = r + 1;
        } else {
            return r;
        }
    }
}

/// One rollout step's move choice under a policy: `Stay` exactly on a
/// lost board, otherwise a direction that changes the board.
#[verifier::rlimit(60)]
fn choose_rollout_direction(
    fast: &FastGame,
    grid: &[u32; 4],
    policy: RolloutPolicy,
    rng: &mut rand::rngs::SmallRng,
) -> (r: Direction)
    requires
        fast.wf(),
        valid_grid(grid@),
        grid_sum(grid@) + 4 < 0x40000,
    ensures
        (r == Direction::Stay) <==> lost(grid@),
        r != Direction::Stay ==> changes(grid@, r),
        (!lost(grid@) && policy == RolloutPolicy::GreedyScore) ==> forall|d: Direction|
            d != Direction::Stay && changes(grid@, d) ==> move_score_spec(grid@, d)
                <= move_score_spec(grid@, r),
        (!lost(grid@) && policy == RolloutPolicy::GreedyEmpty) ==> forall|d: Direction|
            d != Direction::Stay && changes(grid@, d) ==> empty_count_from(grid_after(grid@, d), 0)
                <= empty_count_from(grid_after(grid@, r), 0),
        (!lost(grid@) && policy == RolloutPolicy::Lookahead) ==> forall|d: Direction|
            d != Direction::Stay && changes(grid@, d) ==> expectimax_value(
                grid_after(grid@, d),
                1,
                false,
            ) <= expectimax_value(grid_after(grid@, r), 1, false),
{
    let dirs = fast.get_possible_directions(grid);
    if dirs.len() == 0 {
        return Direction::Stay;
    }
    match policy {
        RolloutPolicy::Uniform => {
            let k = rand_below(rng, dirs.len() as u32) as usize;
            let d = dirs[k];
            proof {
                assert(dirs@.contains(d));
            }
            d
        },
        RolloutPolicy::GreedyScore => {
            let mut best = dirs[0];
            let (_b0, mut bs) = fast.make_move(grid, &dirs[0]);
            proof {
                assert(dirs@.contains(best));
            }
            let mut k: usize = 1;
            while k < dirs.len()
                invariant
                    fast.wf(),
                    valid_grid(grid@),
                    k <= dirs@.len(),
                    dirs@ == possible_dirs(grid@),
                    forall|d: Direction| #[trigger]
                        dirs@.contains(d) <==> (d != Direction::Stay && changes(grid@, d)),
                    dirs@.contains(best),
                    bs as int == move_score_spec(grid@, best),
                    forall|kk: int|
                        0 <= kk < k ==> move_score_spec(grid@, #[trigger] dirs@[kk])
                            <= bs as int,
                decreases dirs@.len() - k,
            {
                let d = dirs[k];
                let (_ng, sc) = fast.make_move(grid, &d);
                if sc > bs {
                    bs = sc;
                    best = d;
                    proof {
                        assert(dirs@.contains(best));
                    }
                }
                k += 1;
            }
            proof {
                assert forall|d: Direction| d != Direction::Stay && changes(grid@, d) implies
                    move_score_spec(grid@, d) <= move_score_spec(grid@, best) by {
                    assert(dirs@.contains(d));
                    let kk = choose|kk: int| 0 <= kk < dirs@.len() && dirs@[kk] == d;
                    assert(move_score_spec(grid@, dirs@[kk]) <= bs as int);
                }
            }
            best
        },
        RolloutPolicy::GreedyEmpty => {
            let mut best = dirs[0];
            let (b0, _s0) = fast.make_move(grid, &dirs[0]);
            let mut be = FastGame::empty_list(&b0).len();
            proof {
                assert(dirs@.contains(best));
            }
            let mut k: usize = 1;
            while k < dirs.len()
                invariant
                    fast.wf(),
                    valid_grid(grid@),
                    k <= dirs@.len(),
                    dirs@ == possible_dirs(grid@),
                    forall|d: Direction| #[trigger]
                        dirs@.contains(d) <==> (d != Direction::Stay && changes(grid@, d)),
                    dirs@.contains(best),
                    be as int == empty_count_from(grid_after(grid@, best), 0),
                    forall|kk: int|
                        0 <= kk < k ==> empty_count_from(
                            grid_after(grid@, #[trigger] dirs@[kk]),
                            0,
                        ) <= be as int,
                decreases dirs@.len() - k,
            {
                let d = dirs[k];
                let (ng, _sc) = fast.make_move(grid, &d);
                let e = FastGame::empty_list(&ng).len();
                if e > be {
                    be = e;
                    best = d;
                    proof {
                        assert(dirs@.contains(best));
                    }
                }
                k += 1;
            }
            proof {
                assert forall|d: Direction| d != Direction::Stay && changes(grid@, d) implies
                    empty_count_from(grid_after(grid@, d), 0) <= empty_count_from(
                    grid_after(grid@, best),
                    0,
                ) by {
                    assert(dirs@.contains(d));
                    let kk = choose|kk: int| 0 <= kk < dirs@.len() && dirs@[kk] == d;
                    assert(empty_count_from(grid_after(grid@, dirs@[kk]), 0) <= be as int);
                }
            }
            best
        },
        RolloutPolicy::Lookahead => {
            let d = get_best_direction_expectimax(fast, *grid, 1);
            d
        },
    }
}

/// Node `m` of a rerooted arena is an exact statistical copy of node
/// `km[m]` of the old arena — board, visits, value, flags and payload —
/// and its children are the old node's children re-indexed through the
/// same map, so the whole subtree travels.
pub open spec fn kept_node_matches(o: Seq<Node>, n: Seq<Node>, km: Seq<usize>, m: int) -> bool {
    let ob = o[km[m] as int];
    let nb = n[m];
    &&& (km[m] as int) < o.len()
    &&& nb.game_state == ob.game_state
    &&& nb.visit_count == ob.visit_count
    &&& nb.is_terminal == ob.is_terminal
    &&& nb.move_number == ob.move_number
    &&& nb.score == ob.score
    &&& is_move(nb.info) == is_move(ob.info)
    &&& actions_of(nb.info) == actions_of(ob.info)
    &&& twos_of(nb.info) == twos_of(ob.info)
    &&& fours_of(nb.info) == fours_of(ob.info)
    &&& move_of(nb.info) == move_of(ob.info)
    &&& value_of(nb.info) == value_of(ob.info)
    &&& nb.children_indices@.len() == ob.children_indices@.len()
    &&& (forall|k: int|
        0 <= k < ob.children_indices@.len() ==> (#[trigger] nb.children_indices@[k] as int)
            < km.len() && km[nb.children_indices@[k] as int] == ob.children_indices@[k])
}

/// Rebuilding an arena from the kept-index list and its inverse map
/// yields a well-formed arena whose every node matches its source node.
#[verifier::rlimit(100)]
proof fn lemma_reroot_arena(
    old_nodes: Seq<Node>,
    nn: Seq<Node>,
    km: Seq<usize>,
    im: Seq<Option<usize>>,
    r: usize,
)
    requires
        tree_inv(old_nodes),
        (r as int) < old_nodes.len(),
        is_move(old_nodes[r as int].info),
        km.len() == nn.len(),
        km.len() >= 1,
        km[0] == r,
        im.len() == old_nodes.len(),
        forall|n1: int, n2: int| 0 <= n1 < n2 < km.len() ==> #[trigger] km[n1] < #[trigger] km[n2],
        forall|n: int|
            0 <= n < km.len() ==> r <= #[trigger] km[n] && (km[n] as int) < old_nodes.len(),
        forall|n: int|
            0 <= n < km.len() ==> im[#[trigger] km[n] as int] == Option::Some((n as usize)),
        forall|j: int|
            0 <= j < old_nodes.len() ==> match #[trigger] im[j] {
                Option::Some(nj) => (nj as int) < km.len() && km[nj as int] as int == j,
                Option::None => true,
            },
        im[r as int] == Option::Some(0usize),
        forall|j: int|
            (r as int) < j < old_nodes.len() ==> match old_nodes[j].parent_index {
                Option::Some(p) => (p as int) < j && ((#[trigger] im[j]) is Some <==> im[
                    p as int
                ] is Some),
                Option::None => !(im[j] is Some),
            },
        forall|m: int|
            0 <= m < km.len() ==> {
                let oi = #[trigger] km[m] as int;
                let nb = nn[m];
                let ob = old_nodes[oi];
                &&& nb.game_state == ob.game_state
                &&& nb.visit_count == ob.visit_count
                &&& nb.is_terminal == ob.is_terminal
                &&& nb.move_number == ob.move_number
                &&& nb.score == ob.score
                &&& is_move(nb.info) == is_move(ob.info)
                &&& actions_of(nb.info) == actions_of(ob.info)
                &&& twos_of(nb.info) == twos_of(ob.info)
                &&& fours_of(nb.info) == fours_of(ob.info)
                &&& move_of(nb.info) == move_of(ob.info)
                &&& value_of(nb.info) == value_of(ob.info)
                &&& nb.children_indices@.len() == ob.children_indices@.len()
                &&& (forall|k: int|
                    0 <= k < ob.children_indices@.len() ==> im[#[trigger] ob.children_indices@[k] as int]
                        == Option::Some(nb.children_indices@[k]))
                &&& (m == 0 ==> nb.parent_index is None)
                &&& (m != 0 ==> match ob.parent_index {
                    Option::Some(p) => nb.parent_index == im[p as int],
                    Option::None => false,
                })
            },
    ensures
        tree_inv(nn),
        forall|m: int|
            0 <= m < km.len() ==> #[trigger] kept_node_matches(old_nodes, nn, km, m),
        forall|m1: int, m2: int| 0 <= m1 < m2 < km.len() ==> #[trigger] km[m1] != #[trigger] km[m2],
        children_visited(old_nodes) ==> children_visited(nn),
{
    assert forall|m: int| 0 <= m < nn.len() implies #[trigger] node_inv(nn, m) by {
        let oi = km[m] as int;
        assert(node_inv(old_nodes, oi));
        if m != 0 {
            match old_nodes[oi].parent_index {
                Option::Some(p) => {
                    assert(im[p as int] is Some);
                    let np = nn[m].parent_index.unwrap();
                    assert(im[p as int] == Option::Some(np));
                    assert(km[np as int] as int == p as int);
                    assert((p as int) < oi);
                    if (np as int) >= m {
                        if (np as int) > m {
                            assert(km[m] < km[np as int]);
                        }
                        assert(false);
                    }
                    assert(is_move(nn[np as int].info) == is_move(old_nodes[p as int].info));
                    let kk = choose|kk: int|
                        0 <= kk < old_nodes[p as int].children_indices@.len() && old_nodes[
                            p as int
                        ].children_indices@[kk] as int == oi;
                    assert(im[old_nodes[p as int].children_indices@[kk] as int] == Option::Some(
                        nn[np as int].children_indices@[kk],
                    ));
                    assert(im[oi] == Option::Some((m as usize)));
                    assert(nn[np as int].children_indices@[kk] as int == m);
                },
                Option::None => {
                    assert(oi == 0);
                    assert(r == 0);
                    assert(km[0] == r);
                    assert(false);
                },
            }
        }
        assert forall|k: int|
            0 <= k < nn[m].children_indices@.len() implies {
            let c = #[trigger] nn[m].children_indices@[k] as int;
            &&& m < c < nn.len()
            &&& nn[c].parent_index == Option::Some((m as usize))
            &&& is_move(nn[c].info) != is_move(nn[m].info)
            &&& nn[c].visit_count <= nn[m].visit_count
        } by {
            let c_old = old_nodes[oi].children_indices@[k] as int;
            assert(im[c_old] == Option::Some(nn[m].children_indices@[k]));
            let c = nn[m].children_indices@[k] as int;
            assert(km[c] as int == c_old);
            assert(oi < c_old);
            if c <= m {
                if c < m {
                    assert(km[c] < km[m]);
                }
                assert(false);
            }
            assert(old_nodes[c_old].parent_index == Option::Some((oi as usize)));
            assert(nn[c].parent_index == im[oi]);
            assert(im[oi] == Option::Some((m as usize)));
            assert(is_move(nn[c].info) == is_move(old_nodes[c_old].info));
            assert(nn[c].visit_count == old_nodes[c_old].visit_count);
        }
    }
    assert forall|m: int| 0 <= m < km.len() implies #[trigger] kept_node_matches(
        old_nodes,
        nn,
        km,
        m,
    ) by {
        let oi = km[m] as int;
        assert(node_inv(old_nodes, oi));
        assert forall|k: int|
            0 <= k < old_nodes[oi].children_indices@.len() implies (#[trigger] nn[
            m
        ].children_indices@[k] as int) < km.len() && km[nn[m].children_indices@[k] as int]
            == old_nodes[oi].children_indices@[k] by {
            let c_old = old_nodes[oi].children_indices@[k] as int;
            assert(0 <= c_old < old_nodes.len());
            assert(im[c_old] == Option::Some(nn[m].children_indices@[k]));
            assert(match im[c_old] {
                Option::Some(nj) => (nj as int) < km.len() && km[nj as int] as int == c_old,
                Option::None => true,
            });
        }
    }
    if children_visited(old_nodes) {
        assert forall|i: int, k: int|
            0 <= i < nn.len() && 0 <= k < nn[i].children_indices@.len() implies nn[#[trigger] nn[
            i
        ].children_indices@[k] as int].visit_count >= 1 by {
            let oi = km[i] as int;
            assert(kept_node_matches(old_nodes, nn, km, i));
            let c = nn[i].children_indices@[k] as int;
            let c_old = old_nodes[oi].children_indices@[k] as int;
            assert(km[c] as int == c_old);
            assert(node_inv(old_nodes, oi));
            assert(old_nodes[old_nodes[oi].children_indices@[k] as int].visit_count >= 1);
            assert(kept_node_matches(old_nodes, nn, km, c));
            assert(nn[c].visit_count == old_nodes[c_old].visit_count);
        }
    }
}

/// The domain guard fired: the spawn node's board has no headroom for
/// another spawn within the table's domain, so the node was marked
/// terminal and everything else was kept.
pub open spec fn guard_stopped(ob: Node, nb: Node) -> bool {
    &&& !is_move(ob.info)
    &&& grid_sum(ob.game_state@) + 4 >= 0x40000
    &&& nb.is_terminal
    &&& nb.game_state == ob.game_state
    &&& nb.parent_index == ob.parent_index
    &&& nb.visit_count == ob.visit_count
    &&& nb.children_indices@ == ob.children_indices@
    &&& nb.move_number == ob.move_number
    &&& nb.score == ob.score
    &&& is_move(nb.info) == is_move(ob.info)
    &&& actions_of(nb.info) == actions_of(ob.info)
    &&& twos_of(nb.info) == twos_of(ob.info)
    &&& fours_of(nb.info) == fours_of(ob.info)
    &&& move_of(nb.info) == move_of(ob.info)
    &&& value_of(nb.info) == value_of(ob.info)
}

/// Exactly one child was materialized: appended at the old length, linked
/// both ways, of the opposite kind, with zero statistics; the parent lost
/// the popped option and gained the child, everything else kept. A move
/// parent pops its last undiscovered direction and the spawn child plays
/// it (score and move number advance, saturating); a spawn parent pops a
/// cell from one pool and the move child holds the placed board with its
/// exact legal-direction set.
pub open spec fn expansion_grew(o: Seq<Node>, n: Seq<Node>, idx: int, r: int) -> bool {
    let ob = o[idx];
    let pb = n[idx];
    let cb = n[r];
    &&& n.len() == o.len() + 1
    &&& r == o.len()
    &&& !ob.is_terminal
    &&& (forall|j: int| 0 <= j < o.len() && j != idx ==> n[j] == o[j])
    &&& pb.game_state == ob.game_state
    &&& pb.parent_index == ob.parent_index
    &&& pb.visit_count == ob.visit_count
    &&& pb.is_terminal == ob.is_terminal
    &&& pb.move_number == ob.move_number
    &&& pb.score == ob.score
    &&& pb.children_indices@ == ob.children_indices@.push((r as usize))
    &&& is_move(pb.info) == is_move(ob.info)
    &&& cb.parent_index == Option::Some((idx as usize))
    &&& cb.visit_count == 0
    &&& cb.children_indices@.len() == 0
    &&& is_move(cb.info) != is_move(ob.info)
    &&& (if is_move(ob.info) {
        let d = actions_of(ob.info).last();
        &&& actions_of(ob.info).len() >= 1
        &&& actions_of(pb.info) == actions_of(ob.info).drop_last()
        &&& move_of(cb.info) == d
        &&& value_of(cb.info) == 0
        &&& cb.game_state@ == grid_after(ob.game_state@, d)
        &&& cb.score as int == (if ob.score + move_score_spec(ob.game_state@, d) <= u64::MAX {
            ob.score + move_score_spec(ob.game_state@, d)
        } else {
            u64::MAX as int
        })
        &&& cb.move_number as int == (if ob.move_number + 1 <= u64::MAX {
            ob.move_number + 1
        } else {
            u64::MAX as int
        })
        &&& twos_of(cb.info).to_multiset() == fours_of(cb.info).to_multiset()
        &&& (forall|i: int, c: int|
            0 <= i < 4 && 0 <= c < 4 && #[trigger] cell_empty(cb.game_state@, i, c) ==> twos_of(
                cb.info,
            ).contains(((i as usize), (c as usize))))
        &&& (cb.is_terminal <==> (lost(cb.game_state@) || twos_of(cb.info).len() + fours_of(
            cb.info,
        ).len() == 0))
    } else {
        &&& move_of(pb.info) == move_of(ob.info)
        &&& value_of(pb.info) == value_of(ob.info)
        &&& cb.score == ob.score
        &&& cb.move_number == ob.move_number
        &&& value_of(cb.info) == 0
        &&& (cb.is_terminal <==> lost(cb.game_state@))
        &&& (forall|d: Direction| #[trigger]
            actions_of(cb.info).contains(d) <==> (d != Direction::Stay && changes(
                cb.game_state@,
                d,
            )))
        &&& ({
            ||| (twos_of(ob.info).len() >= 1 && cb.game_state@ == place_spec(
                ob.game_state@,
                twos_of(ob.info).last().0 as int,
                twos_of(ob.info).last().1 as int,
                1,
            ) && twos_of(pb.info) == twos_of(ob.info).drop_last() && fours_of(pb.info) == fours_of(
                ob.info,
            ))
            ||| (fours_of(ob.info).len() >= 1 && cb.game_state@ == place_spec(
                ob.game_state@,
                fours_of(ob.info).last().0 as int,
                fours_of(ob.info).last().1 as int,
                2,
            ) && fours_of(pb.info) == fours_of(ob.info).drop_last() && twos_of(pb.info) == twos_of(
                ob.info,
            ))
        })
    })
}

/// The node at `b` is the node at `a` after one backpropagation touch:
/// one more visit, the reward added to a spawn node's accumulated value
/// (saturating), everything structural unchanged.
pub open spec fn bumped(a: Node, b: Node, reward: u64) -> bool {
    &&& b.game_state == a.game_state
    &&& b.parent_index == a.parent_index
    &&& b.is_terminal == a.is_terminal
    &&& b.children_indices@ == a.children_indices@
    &&& b.move_number == a.move_number
    &&& b.score == a.score
    &&& is_move(b.info) == is_move(a.info)
    &&& actions_of(b.info) == actions_of(a.info)
    &&& twos_of(b.info) == twos_of(a.info)
    &&& fours_of(b.info) == fours_of(a.info)
    &&& move_of(b.info) == move_of(a.info)
    &&& b.visit_count as int == a.visit_count as int + 1
    &&& value_of(b.info) as int == (if is_move(a.info) {
        value_of(a.info) as int
    } else if value_of(a.info) + reward <= u64::MAX {
        value_of(a.info) + reward
    } else {
        u64::MAX as int
    })
}

/// Element-wise copy of a direction list.
fn copy_dirs(v: &Vec<Direction>) -> (r: Vec<Direction>)
    ensures
        r@ == v@,
{
    let mut r: Vec<Direction> = Vec::new();
    let mut k: usize = 0;
    while k < v.len()
        invariant
            k <= v@.len(),
            r@ == v@.take(k as int),
        decreases v@.len() - k,
    {
        proof {
            assert(v@.take(k as int + 1) =~= v@.take(k as int).push(v@[k as int]));
        }
        r.push(v[k]);
        k += 1;
    }
    proof {
        assert(v@.take(v@.len() as int) =~= v@);
    }
    r
}

/// Element-wise copy of a cell list.
fn copy_cells(v: &Vec<(usize, usize)>) -> (r: Vec<(usize, usize)>)
    ensures
        r@ == v@,
{
    let mut r: Vec<(usize, usize)> = Vec::new();
    let mut k: usize = 0;
    while k < v.len()
        invariant
            k <= v@.len(),
            r@ == v@.take(k as int),
        decreases v@.len() - k,
    {
        proof {
            assert(v@.take(k as int + 1) =~= v@.take(k as int).push(v@[k as int]));
        }
        r.push(v[k]);
        k += 1;
    }
    proof {
        assert(v@.take(v@.len() as int) =~= v@);
    }
    r
}

/// Element-wise copy of an index list.
fn copy_indices(v: &Vec<usize>) -> (r: Vec<usize>)
    ensures
        r@ == v@,
{
    let mut r: Vec<usize> = Vec::new();
    let mut k: usize = 0;
    while k < v.len()
        invariant
            k <= v@.len(),
            r@ == v@.take(k as int),
        decreases v@.len() - k,
    {
        proof {
            assert(v@.take(k as int + 1) =~= v@.take(k as int).push(v@[k as int]));
        }
        r.push(v[k]);
        k += 1;
    }
    proof {
        assert(v@.take(v@.len() as int) =~= v@);
    }
    r
}

impl MonteCarloTree {
    /// A fresh single-node tree rooted at the given board, with zero
    /// statistics and the uniformly random rollout policy.
    pub fn new(fast: &FastGame, root_state: [u32; 4]) -> (r: MonteCarloTree)
        requires
            fast.wf(),
            valid_grid(root_state@),
            grid_sum(root_state@) < 0x40000,
        ensures
            r.wf(),
            r.nodes_seq().len() == 1,
            r.root_board() == root_state@,
            r.root_visits() == 0,
            r.iterations() == 0,
            r.inherited_visits() == 0,
            r.inherited_nodes() == 0,
            r.policy() == RolloutPolicy::Uniform,
            r.nodes_seq()[0].parent_index == Option::<usize>::None,
            r.nodes_seq()[0].children_indices@.len() == 0,
            r.nodes_seq()[0].move_number == 0,
            r.nodes_seq()[0].score == 0,
            is_move(r.nodes_seq()[0].info),
            r.nodes_seq()[0].is_terminal <==> lost(root_state@),
            actions_of(r.nodes_seq()[0].info) == possible_dirs(root_state@),
            children_visited(r.nodes_seq()),
    {
        let possible_directions = fast.get_possible_directions(&root_state);
        let terminal = possible_directions.len() == 0;
        let rootnode = Node {
            game_state: root_state,
            parent_index: Option::None,
            visit_count: 0,
            is_terminal: terminal,
            children_indices: Vec::new(),
            move_number: 0,
            score: 0,
            info: NodeInfo::Move { actions_left: possible_directions },
        };
        let mut nodes: Vec<Node> = Vec::new();
        nodes.push(rootnode);
        let r = MonteCarloTree {
            nodes,
            generation_iteration_count: 0,
            inherited_node_count: 0,
            inherited_root_visits: 0,
            rollout_policy: RolloutPolicy::Uniform,
        };
        proof {
            assert(node_inv(r.nodes@, 0));
        }
        r
    }

    /// Chooses the rollout policy used by subsequent growth.
    pub fn set_rollout_policy(&mut self, policy: RolloutPolicy)
        requires
            old(self).wf(),
        ensures
            final(self).wf(),
            final(self).policy() == policy,
            final(self).nodes_seq() == old(self).nodes_seq(),
            final(self).iterations() == old(self).iterations(),
            final(self).inherited_visits() == old(self).inherited_visits(),
            final(self).inherited_nodes() == old(self).inherited_nodes(),
    {
        self.rollout_policy = policy;
    }

    /// Looks for a move node holding exactly the given board: the
    /// candidate new root after a real move and spawn.
    pub fn find_new_root(&self, new_root_state: [u32; 4]) -> (r: Option<usize>)
        requires
            self.wf(),
        ensures
            match r {
                Option::Some(i) => i < self.nodes_seq().len() && self.nodes_seq()[
                    i as int
                ].game_state@ == new_root_state@ && is_move(self.nodes_seq()[i as int].info),
                Option::None => forall|i: int|
                    0 <= i < self.nodes_seq().len() ==> !(#[trigger] self.nodes_seq()[i].game_state@
                        == new_root_state@ && is_move(self.nodes_seq()[i].info)),
            },
    {
        let mut i: usize = 0;
        while i < self.nodes.len()
            invariant
                i <= self.nodes@.len(),
                forall|j: int|
                    0 <= j < i ==> !(#[trigger] self.nodes@[j].game_state@ == new_root_state@
                        && is_move(self.nodes@[j].info)),
            decreases self.nodes@.len() - i,
        {
            let n = &self.nodes[i];
            let same = n.game_state[0] == new_root_state[0] && n.game_state[1] == new_root_state[1]
                && n.game_state[2] == new_root_state[2] && n.game_state[3] == new_root_state[3];
            let mv = match &n.info {
                NodeInfo::Move { .. } => true,
                NodeInfo::Spawn { .. } => false,
            };
            if same && mv {
                proof {
                    assert(n.game_state@ =~= new_root_state@);
                }
                return Option::Some(i);
            }
            proof {
                if self.nodes@[i as int].game_state@ == new_root_state@ {
                    assert(self.nodes@[i as int].game_state@[0] == new_root_state@[0]
                        && self.nodes@[i as int].game_state@[1] == new_root_state@[1]
                        && self.nodes@[i as int].game_state@[2] == new_root_state@[2]
                        && self.nodes@[i as int].game_state@[3] == new_root_state@[3]);
                }
            }
            i += 1;
        }
        Option::None
    }

    /// Among the root's spawn children, the move of one with maximal
    /// accumulated value; `Stay` when the root has no children yet.
    pub fn get_best_direction(&self) -> (r: Direction)
        requires
            self.wf(),
        ensures
            (r == Direction::Stay) <==> self.nodes_seq()[0].children_indices@.len() == 0,
            self.nodes_seq()[0].children_indices@.len() > 0 ==> exists|k: int|
                0 <= k < self.nodes_seq()[0].children_indices@.len() && {
                    let c = #[trigger] self.nodes_seq()[0].children_indices@[k] as int;
                    r == move_of(self.nodes_seq()[c].info) && forall|k2: int|
                        0 <= k2 < self.nodes_seq()[0].children_indices@.len() ==> value_of(
                            self.nodes_seq()[#[trigger] self.nodes_seq()[0].children_indices@[k2] as int].info,
                        ) <= value_of(self.nodes_seq()[c].info)
                },
    {
        proof {
            assert(node_inv(self.nodes@, 0));
        }
        let root_children_len = self.nodes[0].children_indices.len();
        if root_children_len == 0 {
            return Direction::Stay;
        }
        let c0 = self.nodes[0].children_indices[0];
        proof {
            assert(node_inv(self.nodes@, 0));
        }
        let mut best_k: usize = 0;
        let mut best_val: u64 = match &self.nodes[c0].info {
            NodeInfo::Spawn { total_value, .. } => { let tv: u64 = *total_value; tv },
            NodeInfo::Move { .. } => 0,
        };
        let mut k: usize = 1;
        while k < self.nodes[0].children_indices.len()
            invariant
                self.wf(),
                self.nodes@[0].children_indices@.len() > 0,
                1 <= k <= self.nodes@[0].children_indices@.len(),
                best_k < k,
                best_val == value_of(
                    self.nodes@[self.nodes@[0].children_indices@[best_k as int] as int].info,
                ),
                forall|k2: int|
                    0 <= k2 < k ==> value_of(
                        self.nodes@[#[trigger] self.nodes@[0].children_indices@[k2] as int].info,
                    ) <= best_val,
            decreases self.nodes@[0].children_indices@.len() - k,
        {
            proof {
                assert(node_inv(self.nodes@, 0));
            }
            let c = self.nodes[0].children_indices[k];
            let v = match &self.nodes[c].info {
                NodeInfo::Spawn { total_value, .. } => { let tv: u64 = *total_value; tv },
                NodeInfo::Move { .. } => 0,
            };
            if v > best_val {
                best_val = v;
                best_k = k;
            }
            k += 1;
        }
        proof {
            assert(node_inv(self.nodes@, 0));
        }
        let cb = self.nodes[0].children_indices[best_k];
        let r = match &self.nodes[cb].info {
            NodeInfo::Spawn { move_made, .. } => { let mm: Direction = *move_made; mm },
            NodeInfo::Move { .. } => Direction::Stay,
        };
        proof {
            assert(node_inv(self.nodes@, 0));
            assert(node_inv(self.nodes@, cb as int));
            assert(is_move(self.nodes@[cb as int].info) != is_move(self.nodes@[0].info));
            assert(r == move_of(self.nodes@[cb as int].info));
            assert(r != Direction::Stay);
        }
        r
    }

    /// Selection: descends from the root while the current node is
    /// neither terminal nor has an unexplored option. At a move node it
    /// takes the child with the best fixed-point UCB score; at a spawn
    /// node it samples the 90/10 tile class and takes the least-visited
    /// child of that class.
    fn selection(&self, rng: &mut rand::rngs::SmallRng) -> (r: usize)
        requires
            self.wf(),
        ensures
            r < self.nodes_seq().len(),
            self.nodes_seq()[r as int].is_terminal || unexplored(self.nodes_seq()[r as int]),
    {
        let mut idx: usize = 0;
        loop
            invariant
                self.wf(),
                idx < self.nodes@.len(),
            decreases self.nodes@.len() - idx,
        {
            proof {
                assert(node_inv(self.nodes@, idx as int));
            }
            if self.nodes[idx].is_terminal {
                return idx;
            }
            let unex = match &self.nodes[idx].info {
                NodeInfo::Move { actions_left } => actions_left.len() > 0,
                NodeInfo::Spawn { two_block_spawns_left, four_block_spawns_left, .. } => {
                    two_block_spawns_left.len() > 0 || four_block_spawns_left.len() > 0
                },
            };
            if unex {
                return idx;
            }
            let child_count = self.nodes[idx].children_indices.len();
            proof {
                assert(child_count >= 1);
            }
            let is_mv = match &self.nodes[idx].info {
                NodeInfo::Move { .. } => true,
                NodeInfo::Spawn { .. } => false,
            };
            let mut best_c = self.nodes[idx].children_indices[0];
            proof {
                assert(idx < best_c && (best_c as int) < self.nodes@.len());
            }
            if is_mv {
                let lg = log2_u64(sat_add(self.nodes[idx].visit_count, 1));
                let mut best_score = self.child_ucb(best_c, lg);
                let mut k: usize = 1;
                while k < self.nodes[idx].children_indices.len()
                    invariant
                        self.wf(),
                        idx < self.nodes@.len(),
                        lg <= 64,
                        1 <= k <= self.nodes@[idx as int].children_indices@.len(),
                        idx < best_c && (best_c as int) < self.nodes@.len(),
                    decreases self.nodes@[idx as int].children_indices@.len() - k,
                {
                    proof {
                        assert(node_inv(self.nodes@, idx as int));
                    }
                    let c = self.nodes[idx].children_indices[k];
                    let s = self.child_ucb(c, lg);
                    if s > best_score {
                        best_score = s;
                        best_c = c;
                    }
                    k += 1;
                }
            } else {
                let parent_sum = FastGame::grid_sum_x(&self.nodes[idx].game_state);
                let want_low = rand_below(rng, 10) < 9;
                let mut best_v = self.nodes[best_c].visit_count;
                let mut found_class = self.child_is_low(best_c, parent_sum) == want_low;
                let mut k: usize = 1;
                while k < self.nodes[idx].children_indices.len()
                    invariant
                        self.wf(),
                        idx < self.nodes@.len(),
                        parent_sum <= 0x200000,
                        1 <= k <= self.nodes@[idx as int].children_indices@.len(),
                        idx < best_c && (best_c as int) < self.nodes@.len(),
                    decreases self.nodes@[idx as int].children_indices@.len() - k,
                {
                    proof {
                        assert(node_inv(self.nodes@, idx as int));
                    }
                    let c = self.nodes[idx].children_indices[k];
                    let v = self.nodes[c].visit_count;
                    let matching = self.child_is_low(c, parent_sum) == want_low;
                    if (matching && !found_class) || (matching == found_class && v < best_v) {
                        best_c = c;
                        best_v = v;
                        found_class = found_class || matching;
                    }
                    k += 1;
                }
            }
            idx = best_c;
        }
    }

    /// Fixed-point UCB score of one child: scaled average value plus an
    /// exploration bonus from the parent's log-visits.
    fn child_ucb(&self, c: usize, lg: u64) -> (r: u128)
        requires
            self.wf(),
            c < self.nodes_seq().len(),
            lg <= 64,
    {
        let tv: u64 = match &self.nodes[c].info {
            NodeInfo::Spawn { total_value, .. } => {
                let t: u64 = *total_value;
                t
            },
            NodeInfo::Move { .. } => 0,
        };
        let vc = self.nodes[c].visit_count;
        let exploit: u128 = (tv as u128) * 64 / ((vc as u128) + 1);
        let ratio: u128 = ((lg as u128) * 4096) / ((vc as u128) + 1);
        proof {
            assert(((lg as u128) * 4096) / ((vc as u128) + 1) <= (lg as u128) * 4096)
                by (nonlinear_arith);
        }
        let explore: u128 = 4096 * isqrt_small(ratio);
        exploit + explore
    }

    /// Whether a spawn child's board grew by a low tile (value 2) over
    /// its parent's board.
    fn child_is_low(&self, c: usize, parent_sum: u32) -> (r: bool)
        requires
            self.wf(),
            c < self.nodes_seq().len(),
            parent_sum <= 0x200000,
    {
        proof {
            assert(node_inv(self.nodes@, c as int));
        }
        let child_sum = FastGame::grid_sum_x(&self.nodes[c].game_state);
        child_sum == parent_sum + 2
    }

    /// Rollout: plays from the given node's board to completion under
    /// the configured policy, interleaving standard 90/10 random spawns,
    /// and reports the final board, move count and score — the score is
    /// the reward backpropagation accumulates.
    fn simulate(&self, fast: &FastGame, node_index: usize, rng: &mut rand::rngs::SmallRng) -> (r: (
        [u32; 4],
        u64,
        u64,
    ))
        requires
            self.wf(),
            fast.wf(),
            node_index < self.nodes_seq().len(),
        ensures
            r.2 >= self.nodes_seq()[node_index as int].score,
            valid_grid(r.0@),
            lost(r.0@) || grid_sum(r.0@) + 4 >= 0x40000,
    {
        proof {
            assert(node_inv(self.nodes@, node_index as int));
            vstd::arithmetic::power2::lemma2_to64();
        }
        let mut board: [u32; 4] = self.nodes[node_index].game_state;
        let mut score: u64 = self.nodes[node_index].score;
        let mut mn: u64 = self.nodes[node_index].move_number;
        let is_spawn = match &self.nodes[node_index].info {
            NodeInfo::Spawn { .. } => true,
            NodeInfo::Move { .. } => false,
        };
        if is_spawn {
            let s0 = FastGame::grid_sum_x(&board);
            if s0 + 4 < 0x40000 {
                let empties = FastGame::empty_list(&board);
                if empties.len() > 0 {
                    let idx2 = rand_below(rng, empties.len() as u32) as usize;
                    let pos = empties[idx2];
                    proof {
                        assert(empties@.contains(pos));
                    }
                    let value: u32 = if rand_below(rng, 10) < 9 {
                        1
                    } else {
                        2
                    };
                    board = fast.place_block(board, pos, value);
                }
            }
        }
        let policy = self.rollout_policy;
        loop
            invariant
                fast.wf(),
                valid_grid(board@),
                grid_sum(board@) < 0x40000,
                score >= self.nodes@[node_index as int].score,
            decreases 0x40000 - grid_sum(board@),
        {
            let s = FastGame::grid_sum_x(&board);
            if s + 4 >= 0x40000 {
                return (board, mn, score);
            }
            let d = choose_rollout_direction(fast, &board, policy, rng);
            if matches!(d, Direction::Stay) {
                return (board, mn, score);
            }
            proof {
                lemma_make_move_keeps_sum(board@, d);
            }
            let ghost pre_move = board@;
            let (nb, ms) = fast.make_move(&board, &d);
            board = nb;
            score = sat_add(score, ms as u64);
            mn = sat_add(mn, 1);
            let empties = FastGame::empty_list(&board);
            proof {
                // a changing move always leaves an empty cell to spawn on
                crate::fastgame::lemma_change_leaves_empty(pre_move, d);
                let (i, c) = choose|i: int, c: int|
                    0 <= i < 4 && 0 <= c < 4 && #[trigger] cell_empty(board@, i, c);
                assert(empties@.contains((i as usize, c as usize)));
            }
            let idx2 = rand_below(rng, empties.len() as u32) as usize;
            let pos = empties[idx2];
            proof {
                assert(empties@.contains(pos));
                vstd::arithmetic::power2::lemma2_to64();
            }
            let value: u32 = if rand_below(rng, 10) < 9 {
                1
            } else {
                2
            };
            board = fast.place_block(board, pos, value);
        }
    }

    /// Expansion: materializes exactly one new child of the selected
    /// node. A spawn node draws a value (90/10 while both pools are
    /// nonempty, else forced), pops a cell from the matching pool and
    /// creates a move child with a pre-shuffled legal-direction list; a
    /// move node pops a direction and creates a spawn child with two
    /// independently shuffled empty-cell pools. A terminal node, or a
    /// spawn node whose board has no headroom left in the table's
    /// domain, is returned unchanged (the latter marked terminal).
    #[verifier::rlimit(100)]
    fn expansion(&mut self, fast: &FastGame, node_index: usize, rng: &mut rand::rngs::SmallRng)
        -> (r: usize)
        requires
            old(self).wf(),
            fast.wf(),
            node_index < old(self).nodes_seq().len(),
            old(self).nodes_seq()[node_index as int].is_terminal || unexplored(
                old(self).nodes_seq()[node_index as int],
            ),
        ensures
            final(self).wf(),
            old(self).nodes_seq().len() <= final(self).nodes_seq().len()
                <= old(self).nodes_seq().len() + 1,
            r < final(self).nodes_seq().len(),
            final(self).root_visits() == old(self).root_visits(),
            final(self).root_board() == old(self).root_board(),
            final(self).iterations() == old(self).iterations(),
            final(self).inherited_visits() == old(self).inherited_visits(),
            final(self).inherited_nodes() == old(self).inherited_nodes(),
            final(self).policy() == old(self).policy(),
            old(self).nodes_seq()[node_index as int].is_terminal ==> final(self).nodes_seq()
                == old(self).nodes_seq() && r == node_index,
            final(self).nodes_seq().len() == old(self).nodes_seq().len() ==> r == node_index && (
            forall|j: int|
                0 <= j < old(self).nodes_seq().len() && j != node_index
                    ==> final(self).nodes_seq()[j] == old(self).nodes_seq()[j]),
            (final(self).nodes_seq().len() == old(self).nodes_seq().len()
                && !old(self).nodes_seq()[node_index as int].is_terminal) ==> guard_stopped(
                old(self).nodes_seq()[node_index as int],
                final(self).nodes_seq()[node_index as int],
            ),
            final(self).nodes_seq().len() == old(self).nodes_seq().len() + 1 ==> expansion_grew(
                old(self).nodes_seq(),
                final(self).nodes_seq(),
                node_index as int,
                r as int,
            ),
    {
        let ghost old_nodes = self.nodes@;
        let new_child_index = self.nodes.len();
        proof {
            assert(node_inv(old_nodes, node_index as int));
        }
        if self.nodes[node_index].is_terminal {
            proof {
                assert(self.nodes@ == old_nodes);
            }
            return node_index;
        }
        let is_mv = match &self.nodes[node_index].info {
            NodeInfo::Move { .. } => true,
            NodeInfo::Spawn { .. } => false,
        };
        if is_mv {
            let (d, new_actions) = {
                match &self.nodes[node_index].info {
                    NodeInfo::Move { actions_left } => {
                        let mut a2 = copy_dirs(actions_left);
                        let d = a2.pop().unwrap();
                        (d, a2)
                    },
                    NodeInfo::Spawn { .. } => {
                        proof {
                            assert(false);
                        }
                        (Direction::Stay, Vec::new())
                    },
                }
            };
            proof {
                assert(d == actions_of(old_nodes[node_index as int].info).last());
                assert(changes(old_nodes[node_index as int].game_state@, d));
                lemma_make_move_keeps_sum(old_nodes[node_index as int].game_state@, d);
            }
            let (new_state, move_score) = fast.make_move(&self.nodes[node_index].game_state, &d);
            let pool = FastGame::empty_list(&new_state);
            let ghost pool0 = pool@;
            let mut twos = pool;
            let mut fours = copy_cells(&twos);
            shuffle_cells(rng, &mut twos);
            shuffle_cells(rng, &mut fours);
            proof {
                pool0.to_multiset_ensures();
                twos@.to_multiset_ensures();
                fours@.to_multiset_ensures();
                assert forall|k: int| 0 <= k < twos@.len() implies pool0.contains(
                    #[trigger] twos@[k],
                ) by {
                    assert(twos@.contains(twos@[k]));
                    assert(twos@.to_multiset().count(twos@[k]) > 0);
                    assert(pool0.to_multiset().count(twos@[k]) > 0);
                }
                assert forall|k: int| 0 <= k < fours@.len() implies pool0.contains(
                    #[trigger] fours@[k],
                ) by {
                    assert(fours@.contains(fours@[k]));
                    assert(fours@.to_multiset().count(fours@[k]) > 0);
                    assert(pool0.to_multiset().count(fours@[k]) > 0);
                }
                assert forall|k: int| 0 <= k < pool0.len() implies twos@.contains(
                    #[trigger] pool0[k],
                ) by {
                    assert(pool0.contains(pool0[k]));
                    assert(pool0.to_multiset().count(pool0[k]) > 0);
                    assert(twos@.to_multiset().count(pool0[k]) > 0);
                }
            }
            let mut terminal = fast.is_lost(&new_state);
            if !terminal && twos.len() == 0 && fours.len() == 0 {
                terminal = true;
            }
            let child_score = sat_add(self.nodes[node_index].score, move_score as u64);
            let child_mn = sat_add(self.nodes[node_index].move_number, 1);
            let pgs = self.nodes[node_index].game_state;
            let ppi = self.nodes[node_index].parent_index;
            let pvc = self.nodes[node_index].visit_count;
            let pit = self.nodes[node_index].is_terminal;
            let pmn = self.nodes[node_index].move_number;
            let psc = self.nodes[node_index].score;
            let mut new_children = copy_indices(&self.nodes[node_index].children_indices);
            new_children.push(new_child_index);
            let new_parent_node = Node {
                game_state: pgs,
                parent_index: ppi,
                visit_count: pvc,
                is_terminal: pit,
                children_indices: new_children,
                move_number: pmn,
                score: psc,
                info: NodeInfo::Move { actions_left: new_actions },
            };
            self.nodes[node_index] = new_parent_node;
            let child = Node {
                game_state: new_state,
                parent_index: Option::Some(node_index),
                visit_count: 0,
                is_terminal: terminal,
                children_indices: Vec::new(),
                move_number: child_mn,
                score: child_score,
                info: NodeInfo::Spawn {
                    move_made: d,
                    two_block_spawns_left: twos,
                    four_block_spawns_left: fours,
                    total_value: 0,
                },
            };
            self.nodes.push(child);
            proof {
                let nn = self.nodes@;
                let ob = old_nodes[node_index as int];
                assert(nn.len() == old_nodes.len() + 1);
                assert(actions_of(nn[node_index as int].info) =~= actions_of(ob.info).drop_last());
                assert(nn[node_index as int].children_indices@ =~= ob.children_indices@.push(
                    (new_child_index as usize),
                ));
                assert forall|i: int, c: int|
                    0 <= i < 4 && 0 <= c < 4 && #[trigger] cell_empty(new_state@, i, c) implies
                    twos@.contains(((i as usize), (c as usize))) by {
                    assert(pool0.contains(((i as usize), (c as usize))));
                    let k = choose|k: int|
                        0 <= k < pool0.len() && pool0[k] == ((i as usize), (c as usize));
                    assert(twos@.contains(pool0[k]));
                }
                assert(expansion_grew(old_nodes, nn, node_index as int, new_child_index as int));
                assert forall|i: int| 0 <= i < nn.len() implies #[trigger] node_inv(nn, i) by {
                    if i == new_child_index as int {
                        assert(nn[node_index as int].children_indices@[old_nodes[
                            node_index as int
                        ].children_indices@.len() as int] as int == i);
                    } else {
                        assert(node_inv(old_nodes, i));
                        assert(nn[i].children_indices@ == old_nodes[i].children_indices@ || i
                            == node_index as int);
                        match old_nodes[i].parent_index {
                            Option::Some(p) => {
                                let k = choose|k: int|
                                    0 <= k < old_nodes[p as int].children_indices@.len()
                                        && old_nodes[p as int].children_indices@[k] as int == i;
                                assert(nn[p as int].children_indices@[k] as int == i);
                            },
                            Option::None => {},
                        }
                        assert forall|k: int|
                            0 <= k < nn[i].children_indices@.len() implies {
                            let c = #[trigger] nn[i].children_indices@[k] as int;
                            &&& i < c < nn.len()
                            &&& nn[c].parent_index == Option::Some((i as usize))
                            &&& is_move(nn[c].info) != is_move(nn[i].info)
                            &&& nn[c].visit_count <= nn[i].visit_count
                        } by {
                            if i == node_index as int && k == old_nodes[
                                i
                            ].children_indices@.len() as int {
                            } else {
                                assert(old_nodes[i].children_indices@[k] == nn[
                                    i
                                ].children_indices@[k]);
                            }
                        }
                        if i == node_index as int {
                            assert(actions_of(nn[i].info) == actions_of(
                                old_nodes[i].info,
                            ).drop_last());
                        }
                    }
                }
            }
            return new_child_index;
        } else {
            let s = FastGame::grid_sum_x(&self.nodes[node_index].game_state);
            if s + 4 >= 0x40000 {
                // the packed representation caps tile exponents: a board
                // with no headroom for another spawn stops growing here
                let pgs = self.nodes[node_index].game_state;
                let ppi = self.nodes[node_index].parent_index;
                let pvc = self.nodes[node_index].visit_count;
                let pmn = self.nodes[node_index].move_number;
                let psc = self.nodes[node_index].score;
                let new_children = copy_indices(&self.nodes[node_index].children_indices);
                let info2 = {
                    match &self.nodes[node_index].info {
                        NodeInfo::Spawn {
                            move_made,
                            two_block_spawns_left,
                            four_block_spawns_left,
                            total_value,
                        } => {
                            let mm: Direction = *move_made;
                            let tv: u64 = *total_value;
                            NodeInfo::Spawn {
                                move_made: mm,
                                two_block_spawns_left: copy_cells(two_block_spawns_left),
                                four_block_spawns_left: copy_cells(four_block_spawns_left),
                                total_value: tv,
                            }
                        },
                        NodeInfo::Move { .. } => {
                            proof {
                                assert(false);
                            }
                            NodeInfo::Move { actions_left: Vec::new() }
                        },
                    }
                };
                let new_node = Node {
                    game_state: pgs,
                    parent_index: ppi,
                    visit_count: pvc,
                    is_terminal: true,
                    children_indices: new_children,
                    move_number: pmn,
                    score: psc,
                    info: info2,
                };
                self.nodes[node_index] = new_node;
                proof {
                    assert(guard_stopped(old_nodes[node_index as int], self.nodes@[node_index as int]));
                    let nn = self.nodes@;
                    assert forall|i: int| 0 <= i < nn.len() implies #[trigger] node_inv(nn, i) by {
                        assert(node_inv(old_nodes, i));
                        match old_nodes[i].parent_index {
                            Option::Some(p) => {
                                let k = choose|k: int|
                                    0 <= k < old_nodes[p as int].children_indices@.len()
                                        && old_nodes[p as int].children_indices@[k] as int == i;
                                assert(nn[p as int].children_indices@[k] as int == i);
                            },
                            Option::None => {},
                        }
                        assert forall|k: int|
                            0 <= k < nn[i].children_indices@.len() implies {
                            let c = #[trigger] nn[i].children_indices@[k] as int;
                            &&& i < c < nn.len()
                            &&& nn[c].parent_index == Option::Some((i as usize))
                            &&& is_move(nn[c].info) != is_move(nn[i].info)
                            &&& nn[c].visit_count <= nn[i].visit_count
                        } by {
                            assert(old_nodes[i].children_indices@[k] == nn[i].children_indices@[k]);
                        }
                    }
                }
                return node_index;
            }
            let (tl, fl) = match &self.nodes[node_index].info {
                NodeInfo::Spawn { two_block_spawns_left, four_block_spawns_left, .. } => (
                    two_block_spawns_left.len(),
                    four_block_spawns_left.len(),
                ),
                NodeInfo::Move { .. } => (0, 0),
            };
            let use_low = if tl > 0 && fl > 0 {
                rand_below(rng, 10) < 9
            } else {
                tl > 0
            };
            let (coords, value, new_twos, new_fours, mm, tv) = {
                match &self.nodes[node_index].info {
                    NodeInfo::Spawn {
                        move_made,
                        two_block_spawns_left,
                        four_block_spawns_left,
                        total_value,
                    } => {
                        let mut t2 = copy_cells(two_block_spawns_left);
                        let mut f2 = copy_cells(four_block_spawns_left);
                        let mmv: Direction = *move_made;
                        let tvv: u64 = *total_value;
                        if use_low {
                            let c = t2.pop().unwrap();
                            (c, 1u32, t2, f2, mmv, tvv)
                        } else {
                            let c = f2.pop().unwrap();
                            (c, 2u32, t2, f2, mmv, tvv)
                        }
                    },
                    NodeInfo::Move { .. } => {
                        proof {
                            assert(false);
                        }
                        ((0usize, 0usize), 1u32, Vec::new(), Vec::new(), Direction::Stay, 0u64)
                    },
                }
            };
            proof {
                vstd::arithmetic::power2::lemma2_to64();
                let ob = old_nodes[node_index as int];
                if use_low {
                    assert(new_twos@ =~= twos_of(ob.info).drop_last());
                    assert(new_fours@ == fours_of(ob.info));
                    assert(coords == twos_of(ob.info).last());
                } else {
                    assert(new_fours@ =~= fours_of(ob.info).drop_last());
                    assert(new_twos@ == twos_of(ob.info));
                    assert(coords == fours_of(ob.info).last());
                }
                assert(cell_empty(
                    old_nodes[node_index as int].game_state@,
                    coords.0 as int,
                    coords.1 as int,
                ));
            }
            let new_state = fast.place_block(self.nodes[node_index].game_state, coords, value);
            let mut dirs = fast.get_possible_directions(&new_state);
            let terminal = dirs.len() == 0;
            let ghost dirs0 = dirs@;
            shuffle_directions(rng, &mut dirs);
            proof {
                dirs0.to_multiset_ensures();
                dirs@.to_multiset_ensures();
                assert forall|k: int| 0 <= k < dirs@.len() implies dirs0.contains(
                    #[trigger] dirs@[k],
                ) by {
                    assert(dirs@.contains(dirs@[k]));
                    assert(dirs@.to_multiset().count(dirs@[k]) > 0);
                    assert(dirs0.to_multiset().count(dirs@[k]) > 0);
                }
                assert forall|k: int| 0 <= k < dirs0.len() implies dirs@.contains(
                    #[trigger] dirs0[k],
                ) by {
                    assert(dirs0.contains(dirs0[k]));
                    assert(dirs0.to_multiset().count(dirs0[k]) > 0);
                    assert(dirs@.to_multiset().count(dirs0[k]) > 0);
                }
            }
            let child_score = self.nodes[node_index].score;
            let child_mn = self.nodes[node_index].move_number;
            let pgs = self.nodes[node_index].game_state;
            let ppi = self.nodes[node_index].parent_index;
            let pvc = self.nodes[node_index].visit_count;
            let pit = self.nodes[node_index].is_terminal;
            let pmn = self.nodes[node_index].move_number;
            let psc = self.nodes[node_index].score;
            let mut new_children = copy_indices(&self.nodes[node_index].children_indices);
            new_children.push(new_child_index);
            let new_parent_node = Node {
                game_state: pgs,
                parent_index: ppi,
                visit_count: pvc,
                is_terminal: pit,
                children_indices: new_children,
                move_number: pmn,
                score: psc,
                info: NodeInfo::Spawn {
                    move_made: mm,
                    two_block_spawns_left: new_twos,
                    four_block_spawns_left: new_fours,
                    total_value: tv,
                },
            };
            self.nodes[node_index] = new_parent_node;
            let child = Node {
                game_state: new_state,
                parent_index: Option::Some(node_index),
                visit_count: 0,
                is_terminal: terminal,
                children_indices: Vec::new(),
                move_number: child_mn,
                score: child_score,
                info: NodeInfo::Move { actions_left: dirs },
            };
            self.nodes.push(child);
            proof {
                let nn = self.nodes@;
                let ob = old_nodes[node_index as int];
                assert(nn.len() == old_nodes.len() + 1);
                assert(nn[node_index as int].children_indices@ =~= ob.children_indices@.push(
                    (new_child_index as usize),
                ));
                assert(lost(new_state@) <==> possible_dirs(new_state@).len() == 0);
                assert forall|d2: Direction| #[trigger]
                    actions_of(nn[new_child_index as int].info).contains(d2) <==> (d2
                    != Direction::Stay && changes(new_state@, d2)) by {
                    if actions_of(nn[new_child_index as int].info).contains(d2) {
                        let k = choose|k: int| 0 <= k < dirs@.len() && dirs@[k] == d2;
                        assert(dirs0.contains(dirs@[k]));
                    }
                    if d2 != Direction::Stay && changes(new_state@, d2) {
                        assert(dirs0.contains(d2));
                        let k = choose|k: int| 0 <= k < dirs0.len() && dirs0[k] == d2;
                        assert(dirs@.contains(dirs0[k]));
                    }
                }
                assert(expansion_grew(old_nodes, nn, node_index as int, new_child_index as int));
                assert forall|i: int| 0 <= i < nn.len() implies #[trigger] node_inv(nn, i) by {
                    if i == new_child_index as int {
                        assert(nn[node_index as int].children_indices@[old_nodes[
                            node_index as int
                        ].children_indices@.len() as int] as int == i);
                        assert(lost(nn[i].game_state@) <==> possible_dirs(
                            nn[i].game_state@,
                        ).len() == 0);
                    } else {
                        assert(node_inv(old_nodes, i));
                        match old_nodes[i].parent_index {
                            Option::Some(p) => {
                                let k = choose|k: int|
                                    0 <= k < old_nodes[p as int].children_indices@.len()
                                        && old_nodes[p as int].children_indices@[k] as int == i;
                                assert(nn[p as int].children_indices@[k] as int == i);
                            },
                            Option::None => {},
                        }
                        assert forall|k: int|
                            0 <= k < nn[i].children_indices@.len() implies {
                            let c = #[trigger] nn[i].children_indices@[k] as int;
                            &&& i < c < nn.len()
                            &&& nn[c].parent_index == Option::Some((i as usize))
                            &&& is_move(nn[c].info) != is_move(nn[i].info)
                            &&& nn[c].visit_count <= nn[i].visit_count
                        } by {
                            if i == node_index as int && k == old_nodes[
                                i
                            ].children_indices@.len() as int {
                            } else {
                                assert(old_nodes[i].children_indices@[k] == nn[
                                    i
                                ].children_indices@[k]);
                            }
                        }
                        if i == node_index as int {
                            if use_low {
                                assert(twos_of(nn[i].info) == twos_of(
                                    old_nodes[i].info,
                                ).drop_last());
                                assert(fours_of(nn[i].info) == fours_of(old_nodes[i].info));
                            } else {
                                assert(fours_of(nn[i].info) == fours_of(
                                    old_nodes[i].info,
                                ).drop_last());
                                assert(twos_of(nn[i].info) == twos_of(old_nodes[i].info));
                            }
                        }
                    }
                }
            }
            return new_child_index;
        }
    }

    /// Backpropagation: walks the parent links from the given node to the
    /// root, adding exactly one visit to every node on the path and the
    /// reward to each spawn node's accumulated value (saturating).
    fn backpropagation(&mut self, node_index: usize, reward: u64)
        requires
            tree_inv(old(self).nodes@),
            node_index < old(self).nodes@.len(),
            old(self).nodes@[0].visit_count < u64::MAX,
        ensures
            tree_inv(final(self).nodes@),
            final(self).nodes@.len() == old(self).nodes@.len(),
            final(self).nodes@[0].visit_count as int == old(self).nodes@[0].visit_count as int + 1,
            final(self).nodes@[0].game_state == old(self).nodes@[0].game_state,
            final(self).nodes@[node_index as int].visit_count as int == old(self).nodes@[
                node_index as int
            ].visit_count as int + 1,
            forall|i: int|
                0 <= i < old(self).nodes@.len() ==> final(self).nodes@[i].visit_count >= old(
                    self,
                ).nodes@[i].visit_count && #[trigger] final(self).nodes@[i].children_indices@
                    == old(self).nodes@[i].children_indices@,
            exists|ps: Set<int>|
                #[trigger] ps.contains(node_index as int) && ps.contains(0) && (forall|j: int|
                    #[trigger] ps.contains(j) ==> 0 <= j < old(self).nodes@.len() && (j != 0
                        ==> match old(self).nodes@[j].parent_index {
                        Option::Some(p) => ps.contains(p as int),
                        Option::None => false,
                    })) && (forall|j: int|
                    0 <= j < old(self).nodes@.len() ==> if ps.contains(j) {
                        bumped(old(self).nodes@[j], #[trigger] final(self).nodes@[j], reward)
                    } else {
                        final(self).nodes@[j] == old(self).nodes@[j]
                    }),
            final(self).generation_iteration_count == old(self).generation_iteration_count,
            final(self).inherited_root_visits == old(self).inherited_root_visits,
            final(self).inherited_node_count == old(self).inherited_node_count,
            final(self).rollout_policy == old(self).rollout_policy,
    {
        let ghost old_nodes = self.nodes@;
        let mut idx = node_index;
        let ghost mut pset: Set<int> = Set::empty();
        loop
            invariant
                tree_inv(old_nodes),
                old_nodes == old(self).nodes@,
                old_nodes[0].visit_count < u64::MAX,
                self.nodes@.len() == old_nodes.len(),
                idx < old_nodes.len(),
                !pset.contains(idx as int),
                pset.contains(node_index as int) || idx == node_index,
                forall|j: int|
                    0 <= j < old_nodes.len() ==> if pset.contains(j) {
                        bumped(old_nodes[j], #[trigger] self.nodes@[j], reward)
                    } else {
                        self.nodes@[j] == old_nodes[j]
                    },
                forall|j: int|
                    #[trigger] pset.contains(j) ==> 0 <= j < old_nodes.len() && j > idx as int
                        && match old_nodes[j].parent_index {
                        Option::Some(p) => p as int == idx as int || pset.contains(p as int),
                        Option::None => false,
                    },
                self.generation_iteration_count == old(self).generation_iteration_count,
                self.inherited_root_visits == old(self).inherited_root_visits,
                self.inherited_node_count == old(self).inherited_node_count,
                self.rollout_policy == old(self).rollout_policy,
            decreases idx,
        {
            proof {
                assert(node_inv(old_nodes, idx as int));
                lemma_visits_le_root(old_nodes, idx as int);
                assert(self.nodes@[idx as int] == old_nodes[idx as int]);
            }
            let pgs = self.nodes[idx].game_state;
            let ppi = self.nodes[idx].parent_index;
            let pvc = self.nodes[idx].visit_count;
            let pit = self.nodes[idx].is_terminal;
            let pmn = self.nodes[idx].move_number;
            let psc = self.nodes[idx].score;
            let new_children = copy_indices(&self.nodes[idx].children_indices);
            let info2 = {
                match &self.nodes[idx].info {
                    NodeInfo::Spawn {
                        move_made,
                        two_block_spawns_left,
                        four_block_spawns_left,
                        total_value,
                    } => {
                        let mm: Direction = *move_made;
                        let tv: u64 = *total_value;
                        NodeInfo::Spawn {
                            move_made: mm,
                            two_block_spawns_left: copy_cells(two_block_spawns_left),
                            four_block_spawns_left: copy_cells(four_block_spawns_left),
                            total_value: sat_add(tv, reward),
                        }
                    },
                    NodeInfo::Move { actions_left } => {
                        NodeInfo::Move { actions_left: copy_dirs(actions_left) }
                    },
                }
            };
            let new_node = Node {
                game_state: pgs,
                parent_index: ppi,
                visit_count: pvc + 1,
                is_terminal: pit,
                children_indices: new_children,
                move_number: pmn,
                score: psc,
                info: info2,
            };
            self.nodes[idx] = new_node;
            proof {
                assert(bumped(old_nodes[idx as int], self.nodes@[idx as int], reward));
                pset = pset.insert(idx as int);
            }
            match ppi {
                Option::Some(p) => {
                    proof {
                        assert(node_inv(old_nodes, idx as int));
                    }
                    idx = p;
                },
                Option::None => {
                    proof {
                        assert(idx == 0);
                        assert(pset.contains(0));
                        assert(pset.contains(node_index as int));
                        assert(forall|j: int|
                            #[trigger] pset.contains(j) ==> 0 <= j < old_nodes.len() && (j != 0
                                ==> match old_nodes[j].parent_index {
                                Option::Some(p) => pset.contains(p as int),
                                Option::None => false,
                            }));
                        assert forall|i2: int| 0 <= i2 < old_nodes.len() implies self.nodes@[
                            i2
                        ].visit_count >= old_nodes[i2].visit_count && #[trigger] self.nodes@[
                            i2
                        ].children_indices@ == old_nodes[i2].children_indices@ by {
                            if pset.contains(i2) {
                                assert(bumped(old_nodes[i2], self.nodes@[i2], reward));
                            }
                        }
                        let nn = self.nodes@;
                        assert forall|i: int| 0 <= i < nn.len() implies #[trigger] node_inv(
                            nn,
                            i,
                        ) by {
                            assert(node_inv(old_nodes, i));
                            match old_nodes[i].parent_index {
                                Option::Some(p2) => {
                                    let k = choose|k: int|
                                        0 <= k < old_nodes[p2 as int].children_indices@.len()
                                            && old_nodes[p2 as int].children_indices@[k] as int
                                            == i;
                                    assert(nn[p2 as int].children_indices@[k] as int == i);
                                },
                                Option::None => {},
                            }
                            assert forall|k: int|
                                0 <= k < nn[i].children_indices@.len() implies {
                                let c = #[trigger] nn[i].children_indices@[k] as int;
                                &&& i < c < nn.len()
                                &&& nn[c].parent_index == Option::Some((i as usize))
                                &&& is_move(nn[c].info) != is_move(nn[i].info)
                                &&& nn[c].visit_count <= nn[i].visit_count
                            } by {
                                assert(old_nodes[i].children_indices@[k] == nn[
                                    i
                                ].children_indices@[k]);
                                let c = nn[i].children_indices@[k] as int;
                                assert(old_nodes[c].parent_index == Option::Some((i as usize)));
                                if pset.contains(c) {
                                    assert(pset.contains(i) || i == 0);
                                }
                            }
                        }
                    }
                    return ;
                },
            }
        }
    }

    /// The growth loop: repeats selection, expansion, rollout and
    /// backpropagation until the iteration budget or the wall-clock
    /// budget (checked once per completed iteration) is exhausted. Each
    /// completed iteration runs exactly one backpropagation pass, so the
    /// root gains exactly one visit per iteration.
    pub fn grow_tree(&mut self, fast: &FastGame, time_limit_ms: u64, iteration_limit: u64)
        requires
            old(self).wf(),
            fast.wf(),
            old(self).root_visits() as int + (iteration_limit as int) < u64::MAX as int,
        ensures
            final(self).wf(),
            final(self).inherited_visits() == old(self).inherited_visits(),
            old(self).iterations() <= final(self).iterations(),
            final(self).iterations() as int <= old(self).iterations() as int
                + iteration_limit as int,
            final(self).root_visits() as int - old(self).root_visits() as int
                == final(self).iterations() as int - old(self).iterations() as int,
            final(self).root_board() == old(self).root_board(),
            final(self).nodes_seq().len() as int <= old(self).nodes_seq().len() as int
                + (final(self).iterations() as int - old(self).iterations() as int),
            final(self).policy() == old(self).policy(),
            final(self).inherited_nodes() == old(self).inherited_nodes(),
            children_visited(old(self).nodes_seq()) ==> children_visited(final(self).nodes_seq()),
    {
        let mut rng = rng_from_entropy();
        let start = instant_now();
        let mut its: u64 = 0;
        while its < iteration_limit && elapsed_millis(&start) < time_limit_ms
            invariant
                self.wf(),
                fast.wf(),
                its <= iteration_limit,
                old(self).root_visits() as int + (iteration_limit as int) < u64::MAX as int,
                self.iterations() as int == old(self).iterations() as int + its as int,
                self.inherited_visits() == old(self).inherited_visits(),
                self.root_visits() as int == old(self).root_visits() as int + its as int,
                self.root_board() == old(self).root_board(),
                self.nodes_seq().len() as int <= old(self).nodes_seq().len() as int + its as int,
                self.policy() == old(self).policy(),
                self.inherited_nodes() == old(self).inherited_nodes(),
                children_visited(old(self).nodes_seq()) ==> children_visited(self.nodes_seq()),
            decreases iteration_limit - its,
        {
            let sel = self.selection(&mut rng);
            let ghost pre = self.nodes@;
            let chosen = self.expansion(fast, sel, &mut rng);
            let ghost mid = self.nodes@;
            let (_final_board, _mn, score) = self.simulate(fast, chosen, &mut rng);
            self.backpropagation(chosen, score);
            proof {
                if children_visited(old(self).nodes@) {
                    assert(children_visited(pre));
                    assert forall|i: int, k: int|
                        0 <= i < self.nodes@.len() && 0 <= k < self.nodes@[
                        i
                    ].children_indices@.len() implies self.nodes@[#[trigger] self.nodes@[
                        i
                    ].children_indices@[k] as int].visit_count >= 1 by {
                        assert(self.nodes@[i].children_indices@ == mid[i].children_indices@);
                        let c = self.nodes@[i].children_indices@[k] as int;
                        if mid.len() == pre.len() {
                            assert(node_inv(pre, i));
                            assert(mid[i].children_indices@ == pre[i].children_indices@);
                            assert(pre[c].visit_count >= 1);
                            assert(mid[c].visit_count >= 1);
                            assert(self.nodes@[c].visit_count >= mid[c].visit_count);
                        } else {
                            assert(expansion_grew(pre, mid, sel as int, chosen as int));
                            if i == chosen as int {
                                assert(mid[i].children_indices@.len() == 0);
                            } else if i == sel as int && k == pre[
                                sel as int
                            ].children_indices@.len() as int {
                                assert(c == chosen as int);
                                assert(self.nodes@[c].visit_count as int == mid[
                                    c
                                ].visit_count as int + 1);
                            } else {
                                assert(i < pre.len());
                                assert(node_inv(pre, i));
                                assert(mid[i].children_indices@[k] == pre[i].children_indices@[k]);
                                assert(c < pre.len());
                                assert(pre[c].visit_count >= 1);
                                assert(mid[c].visit_count >= 1);
                                assert(self.nodes@[c].visit_count >= mid[c].visit_count);
                            }
                        }
                    }
                }
            }
            self.generation_iteration_count = self.generation_iteration_count + 1;
            its = its + 1;
        }
    }

    /// Reroot: after a real move and spawn, if some move node holds the
    /// realized board, its reachable subtree is migrated into a fresh
    /// arena with remapped indices, keeping all accumulated statistics;
    /// otherwise the tree restarts as a fresh single-node arena with zero
    /// statistics at the new board.
    #[verifier::rlimit(100)]
    pub fn reroot(&mut self, fast: &FastGame, gained_score: u64, new_root_state: [u32; 4])
        requires
            old(self).wf(),
            fast.wf(),
            valid_grid(new_root_state@),
            grid_sum(new_root_state@) < 0x40000,
        ensures
            final(self).wf(),
            final(self).root_board() == new_root_state@,
            final(self).iterations() == 0,
            children_visited(old(self).nodes_seq()) ==> children_visited(final(self).nodes_seq()),
            (exists|i: int|
                0 <= i < old(self).nodes_seq().len() && #[trigger] old(self).nodes_seq()[
                    i
                ].game_state@ == new_root_state@ && is_move(old(self).nodes_seq()[i].info))
                ==> exists|i: int|
                0 <= i < old(self).nodes_seq().len() && #[trigger] old(self).nodes_seq()[
                    i
                ].game_state@ == new_root_state@ && is_move(old(self).nodes_seq()[i].info) && final(self).root_visits() == old(self).nodes_seq()[i].visit_count && final(self).nodes_seq()[
                    0
                ].move_number == old(self).nodes_seq()[i].move_number && final(self).nodes_seq()[
                    0
                ].score == old(self).nodes_seq()[i].score && final(self).inherited_visits() == old(self).nodes_seq()[i].visit_count,
            (forall|i: int|
                0 <= i < old(self).nodes_seq().len() ==> !(#[trigger] old(self).nodes_seq()[
                    i
                ].game_state@ == new_root_state@ && is_move(old(self).nodes_seq()[i].info)))
                ==> final(self).nodes_seq().len() == 1 && final(self).root_visits() == 0 && final(self).inherited_visits() == 0 && final(self).inherited_nodes() == 0 && final(self).nodes_seq()[0].children_indices@.len() == 0 && is_move(final(self).nodes_seq()[0].info) && (final(self).nodes_seq()[0].is_terminal <==> lost(new_root_state@)) && actions_of(final(self).nodes_seq()[0].info) == possible_dirs(new_root_state@) && final(self).nodes_seq()[0].score as int == (if old(self).nodes_seq()[0].score + gained_score <= u64::MAX {
                old(self).nodes_seq()[0].score + gained_score
            } else {
                u64::MAX as int
            }) && final(self).nodes_seq()[0].move_number as int == (if old(self).nodes_seq()[0].move_number + 1 <= u64::MAX {
                old(self).nodes_seq()[0].move_number + 1
            } else {
                u64::MAX as int
            }),
            (exists|i: int|
                0 <= i < old(self).nodes_seq().len() && #[trigger] old(self).nodes_seq()[
                    i
                ].game_state@ == new_root_state@ && is_move(old(self).nodes_seq()[i].info))
                ==> exists|km: Seq<usize>|
                {
                    &&& km.len() == final(self).nodes_seq().len()
                    &&& km.len() >= 1
                    &&& (km[0] as int) < old(self).nodes_seq().len()
                    &&& old(self).nodes_seq()[km[0] as int].game_state@ == new_root_state@
                    &&& (forall|m1: int, m2: int|
                        0 <= m1 < m2 < km.len() ==> #[trigger] km[m1] != #[trigger] km[m2])
                    &&& (forall|m: int|
                        0 <= m < km.len() ==> #[trigger] kept_node_matches(
                            old(self).nodes_seq(),
                            final(self).nodes_seq(),
                            km,
                            m,
                        ))
                },
    {
        let found = self.find_new_root(new_root_state);
        match found {
            Option::None => {
                let possible_directions = fast.get_possible_directions(&new_root_state);
                let terminal = possible_directions.len() == 0;
                proof {
                    assert(node_inv(self.nodes@, 0));
                }
                let old_mn = self.nodes[0].move_number;
                let old_score = self.nodes[0].score;
                let rootnode = Node {
                    game_state: new_root_state,
                    parent_index: Option::None,
                    visit_count: 0,
                    is_terminal: terminal,
                    children_indices: Vec::new(),
                    move_number: sat_add(old_mn, 1),
                    score: sat_add(old_score, gained_score),
                    info: NodeInfo::Move { actions_left: possible_directions },
                };
                let mut nodes2: Vec<Node> = Vec::new();
                nodes2.push(rootnode);
                self.nodes = nodes2;
                self.generation_iteration_count = 0;
                self.inherited_node_count = 0;
                self.inherited_root_visits = 0;
                proof {
                    assert(node_inv(self.nodes@, 0));
                }
            },
            Option::Some(r) => {
                let old_len = self.nodes.len();
                let mut index_map: Vec<Option<usize>> = Vec::new();
                let mut q: usize = 0;
                while q < old_len
                    invariant
                        index_map@.len() == q,
                        q <= old_len,
                        forall|j: int| 0 <= j < q ==> #[trigger] index_map@[j] is None,
                    decreases old_len - q,
                {
                    index_map.push(Option::None);
                    q += 1;
                }
                index_map[r] = Option::Some(0);
                let mut kept: Vec<usize> = Vec::new();
                kept.push(r);
                let mut i: usize = r + 1;
                while i < old_len
                    invariant
                        self.wf(),
                        self.nodes@ == old(self).nodes@,
                        r < old_len,
                        old_len == self.nodes@.len(),
                        r + 1 <= i <= old_len,
                        index_map@.len() == old_len,
                        kept@.len() >= 1,
                        kept@[0] == r,
                        kept@.len() as int <= i - r,
                        forall|n1: int, n2: int|
                            0 <= n1 < n2 < kept@.len() ==> #[trigger] kept@[n1] < #[trigger] kept@[n2],
                        forall|n: int|
                            0 <= n < kept@.len() ==> r <= #[trigger] kept@[n] && (kept@[n] as int)
                                < i,
                        forall|n: int|
                            0 <= n < kept@.len() ==> index_map@[#[trigger] kept@[n] as int]
                                == Option::Some((n as usize)),
                        forall|j: int|
                            0 <= j < old_len ==> match #[trigger] index_map@[j] {
                                Option::Some(nj) => (nj as int) < kept@.len() && kept@[
                                    nj as int
                                ] as int == j,
                                Option::None => true,
                            },
                        forall|j: int|
                            r < j < i ==> match self.nodes@[j].parent_index {
                                Option::Some(p) => (p as int) < j && ((#[trigger] index_map@[j])
                                    is Some <==> index_map@[p as int] is Some),
                                Option::None => !(index_map@[j] is Some),
                            },
                        forall|j: int|
                            0 <= j < old_len && !(r <= j < i) ==> #[trigger] index_map@[j] is None,
                        index_map@[r as int] == Option::Some(0usize),
                    decreases old_len - i,
                {
                    proof {
                        assert(node_inv(self.nodes@, i as int));
                    }
                    let pi = self.nodes[i].parent_index;
                    match pi {
                        Option::Some(p) => {
                            let mp = index_map[p];
                            match mp {
                                Option::Some(_np) => {
                                    index_map[i] = Option::Some(kept.len());
                                    kept.push(i);
                                },
                                Option::None => {},
                            }
                        },
                        Option::None => {
                            proof {
                                assert(false);
                            }
                        },
                    }
                    i += 1;
                }
                let kept_len = kept.len();
                let ghost km = kept@;
                let ghost im = index_map@;
                let mut new_nodes: Vec<Node> = Vec::new();
                let mut n: usize = 0;
                while n < kept_len
                    invariant
                        self.wf(),
                        self.nodes@ == old(self).nodes@,
                        r < old_len,
                        old_len == self.nodes@.len(),
                        kept@ == km,
                        index_map@ == im,
                        kept_len == km.len(),
                        km.len() >= 1,
                        km[0] == r,
                        km.len() <= old_len,
                        forall|j: int|
                            r < j < old_len ==> match self.nodes@[j].parent_index {
                                Option::Some(p) => (p as int) < j && ((#[trigger] im[j]) is Some
                                    <==> im[p as int] is Some),
                                Option::None => !(im[j] is Some),
                            },
                        im.len() == old_len,
                        forall|n1: int, n2: int|
                            0 <= n1 < n2 < km.len() ==> #[trigger] km[n1] < #[trigger] km[n2],
                        forall|nn: int|
                            0 <= nn < km.len() ==> r <= #[trigger] km[nn] && (km[nn] as int)
                                < old_len,
                        forall|nn: int|
                            0 <= nn < km.len() ==> im[#[trigger] km[nn] as int] == Option::Some(
                                (nn as usize),
                            ),
                        forall|j: int|
                            0 <= j < old_len ==> match #[trigger] im[j] {
                                Option::Some(nj) => (nj as int) < km.len() && km[nj as int] as int
                                    == j,
                                Option::None => true,
                            },
                        forall|j: int| 0 <= j < r ==> #[trigger] im[j] is None,
                        im[r as int] == Option::Some(0usize),
                        new_nodes@.len() == n,
                        n <= kept_len,
                        forall|m: int|
                            0 <= m < n ==> {
                                let oi = #[trigger] km[m] as int;
                                let nb = new_nodes@[m];
                                let ob = self.nodes@[oi];
                                &&& nb.game_state == ob.game_state
                                &&& nb.visit_count == ob.visit_count
                                &&& nb.is_terminal == ob.is_terminal
                                &&& nb.move_number == ob.move_number
                                &&& nb.score == ob.score
                                &&& is_move(nb.info) == is_move(ob.info)
                                &&& actions_of(nb.info) == actions_of(ob.info)
                                &&& twos_of(nb.info) == twos_of(ob.info)
                                &&& fours_of(nb.info) == fours_of(ob.info)
                                &&& move_of(nb.info) == move_of(ob.info)
                                &&& value_of(nb.info) == value_of(ob.info)
                                &&& nb.children_indices@.len() == ob.children_indices@.len()
                                &&& (forall|k: int|
                                    0 <= k < ob.children_indices@.len() ==> im[#[trigger] ob.children_indices@[k] as int]
                                        == Option::Some(nb.children_indices@[k]))
                                &&& (m == 0 ==> nb.parent_index is None)
                                &&& (m != 0 ==> match ob.parent_index {
                                    Option::Some(p) => nb.parent_index == im[p as int],
                                    Option::None => false,
                                })
                            },
                    decreases kept_len - n,
                {
                    let oi = kept[n];
                    proof {
                        assert(node_inv(self.nodes@, oi as int));
                    }
                    let mut nc: Vec<usize> = Vec::new();
                    let mut k: usize = 0;
                    while k < self.nodes[oi].children_indices.len()
                        invariant
                            self.wf(),
                            self.nodes@ == old(self).nodes@,
                            old_len == self.nodes@.len(),
                            r < old_len,
                            index_map@ == im,
                            im.len() == old_len,
                            (oi as int) < old_len,
                            r <= oi,
                            im[oi as int] is Some,
                            forall|j: int|
                                r < j < old_len ==> match self.nodes@[j].parent_index {
                                    Option::Some(p) => (p as int) < j && ((#[trigger] im[j])
                                        is Some <==> im[p as int] is Some),
                                    Option::None => !(im[j] is Some),
                                },
                            nc@.len() == k,
                            k <= self.nodes@[oi as int].children_indices@.len(),
                            forall|kk: int|
                                0 <= kk < k ==> im[#[trigger] self.nodes@[oi as int].children_indices@[kk] as int]
                                    == Option::Some(nc@[kk]),
                        decreases self.nodes@[oi as int].children_indices@.len() - k,
                    {
                        proof {
                            assert(node_inv(self.nodes@, oi as int));
                        }
                        let c = self.nodes[oi].children_indices[k];
                        proof {
                            assert(self.nodes@[c as int].parent_index == Option::Some(oi));
                            assert((oi as int) < c as int && (c as int) < old_len);
                            assert(im[c as int] is Some);
                        }
                        let mc = index_map[c];
                        let mcu = mc.unwrap();
                        nc.push(mcu);
                        k += 1;
                    }
                    let npar: Option<usize> = if n == 0 {
                        Option::None
                    } else {
                        proof {
                            assert(km[n as int] > km[0]);
                            assert(oi != 0);
                            assert(node_inv(self.nodes@, oi as int));
                        }
                        match self.nodes[oi].parent_index {
                            Option::Some(p) => {
                                proof {
                                    assert(im[p as int] is Some);
                                }
                                index_map[p]
                            },
                            Option::None => {
                                proof {
                                    assert(false);
                                }
                                Option::None
                            },
                        }
                    };
                    let info2 = {
                        match &self.nodes[oi].info {
                            NodeInfo::Move { actions_left } => {
                                NodeInfo::Move { actions_left: copy_dirs(actions_left) }
                            },
                            NodeInfo::Spawn {
                                move_made,
                                two_block_spawns_left,
                                four_block_spawns_left,
                                total_value,
                            } => {
                                let mm: Direction = *move_made;
                                let tv: u64 = *total_value;
                                NodeInfo::Spawn {
                                    move_made: mm,
                                    two_block_spawns_left: copy_cells(two_block_spawns_left),
                                    four_block_spawns_left: copy_cells(four_block_spawns_left),
                                    total_value: tv,
                                }
                            },
                        }
                    };
                    let node2 = Node {
                        game_state: self.nodes[oi].game_state,
                        parent_index: npar,
                        visit_count: self.nodes[oi].visit_count,
                        is_terminal: self.nodes[oi].is_terminal,
                        children_indices: nc,
                        move_number: self.nodes[oi].move_number,
                        score: self.nodes[oi].score,
                        info: info2,
                    };
                    new_nodes.push(node2);
                    n += 1;
                }
                let new_root_visits = new_nodes[0].visit_count;
                let new_len = new_nodes.len();
                let ghost old_nodes = self.nodes@;
                self.nodes = new_nodes;
                self.generation_iteration_count = 0;
                self.inherited_node_count = new_len;
                self.inherited_root_visits = new_root_visits;
                proof {
                    let nn = self.nodes@;
                    assert(nn.len() == km.len());
                    lemma_reroot_arena(old_nodes, nn, km, im, r);
                    assert(nn[0].game_state@ == new_root_state@);
                    assert(km.len() == nn.len() && km.len() >= 1 && (km[0] as int) < old_nodes.len()
                        && old_nodes[km[0] as int].game_state@ == new_root_state@);
                }
            },
        }
    }

    /// Diagnostics: the arena size, the completed iterations since the
    /// last reroot, how many nodes the last reroot inherited, and the
    /// root's move number and visit count.
    pub fn get_info(&self) -> (r: (usize, u64, usize, u64, u64))
        requires
            self.wf(),
        ensures
            r.0 == self.nodes_seq().len(),
            r.1 == self.iterations(),
            r.2 == self.inherited_nodes(),
            r.3 == self.nodes_seq()[0].move_number,
            r.4 == self.root_visits(),
    {
        (
            self.nodes.len(),
            self.generation_iteration_count,
            self.inherited_node_count,
            self.nodes[0].move_number,
            self.nodes[0].visit_count,
        )
    }
}

} // verus!
