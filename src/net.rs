use vstd::prelude::*;

verus! {

/// Kind of an eraser node: a unit value, or a garbage sink.
pub const ERA: u32 = 0;

/// Kind of a constructor node: a lambda or an application.
pub const CON: u32 = 1;

/// Kind of a fan node: a pair or a duplication.
pub const FAN: u32 = 2;

/// Kind held by the root node, outside of `ERA`, `CON` and `FAN`.
pub const ROOT: u32 = 4;

/// The most cells an arena may hold, so that every link fits in 32 bits.
pub const MAX_CELLS: usize = 0xFFFF_FFFC;

/// Counters of a reduction.
#[derive(Clone, Copy, Debug)]
pub struct Stats {
    pub loops: u32,
    pub rules: u32,
    pub betas: u32,
    pub dupls: u32,
    pub annis: u32,
}

/// An interaction net: four cells per node (links of ports 0, 1, 2, then the kind),
/// and the indices of freed nodes.
#[derive(Clone, Debug)]
pub struct Net {
    pub nodes: Vec<u32>,
    pub reuse: Vec<u32>,
}

/// Cell index of port `p` of node `n`.
pub open spec fn lnk(n: int, p: int) -> int {
    n * 4 + p
}

/// A cell that holds a link (ports 0, 1 and 2; not the kind cell).
pub open spec fn is_port(l: int) -> bool {
    l % 4 != 3
}

/// Structural validity of an arena: whole nodes, a root, every link naming a port
/// of the arena, and every freed index naming a node other than the root.
pub open spec fn wf_cells(nodes: Seq<u32>, reuse: Seq<u32>) -> bool {
    &&& nodes.len() % 4 == 0
    &&& 4 <= nodes.len() <= MAX_CELLS
    &&& forall|i: int| 0 <= i < nodes.len() && is_port(i) ==> {
        &&& #[trigger] nodes[i] < nodes.len()
        &&& is_port(nodes[i] as int)
    }
    &&& forall|j: int| 0 <= j < reuse.len() ==> 0 < #[trigger] reuse[j] && reuse[j] < nodes.len() / 4
}

/// The root keeps its sentinel kind, and every other node is an eraser, a
/// constructor or a fan.
pub open spec fn wf_kinds(nodes: Seq<u32>) -> bool {
    &&& nodes.len() >= 4
    &&& nodes[3] == ROOT
    &&& forall|n: int| 0 < n < nodes.len() / 4 ==> #[trigger] nodes[lnk(n, 3)] <= FAN
}

/// The number of nodes in use: the arena's nodes less the freed ones.
pub open spec fn live_count(nodes: Seq<u32>, reuse: Seq<u32>) -> int {
    nodes.len() / 4 - reuse.len()
}

/// Whether `k` more nodes can be allocated without passing `MAX_CELLS`.
pub open spec fn has_room(nodes: Seq<u32>, reuse: Seq<u32>, k: int) -> bool {
    reuse.len() + (MAX_CELLS - nodes.len()) / 4 >= k
}

/// The cells after `connect(a, b)`.
pub open spec fn connect_cells(nodes: Seq<u32>, a: u32, b: u32) -> Seq<u32> {
    nodes.update(a as int, b).update(b as int, a)
}

/// The index that the next allocation returns.
pub open spec fn fresh_index(nodes: Seq<u32>, reuse: Seq<u32>) -> u32 {
    if reuse.len() > 0 {
        reuse.last()
    } else {
        (nodes.len() / 4) as u32
    }
}

/// The cells, the free list and the index after allocating a node of kind `k`:
/// the node's three ports loop onto themselves and its fourth cell holds `k`.
pub open spec fn alloc_node(nodes: Seq<u32>, reuse: Seq<u32>, k: u32) -> (Seq<u32>, Seq<u32>, u32) {
    let n = fresh_index(nodes, reuse);
    let base = if reuse.len() > 0 {
        nodes
    } else {
        nodes + seq![0u32, 0u32, 0u32, 0u32]
    };
    let cells = base.update(lnk(n as int, 0), lnk(n as int, 0) as u32).update(
        lnk(n as int, 1),
        lnk(n as int, 1) as u32,
    ).update(lnk(n as int, 2), lnk(n as int, 2) as u32).update(lnk(n as int, 3), k);
    let free = if reuse.len() > 0 {
        reuse.drop_last()
    } else {
        reuse
    };
    (cells, free, n)
}

/// The cells and free list after the rewrite of the active pair `x`, `y`.
#[verifier::opaque]
pub open spec fn rewrite_net(nodes: Seq<u32>, reuse: Seq<u32>, x: u32, y: u32) -> (
    Seq<u32>,
    Seq<u32>,
) {
    if nodes[lnk(x as int, 3)] == nodes[lnk(y as int, 3)] {
        let s1 = connect_cells(nodes, nodes[lnk(x as int, 1)], nodes[lnk(y as int, 1)]);
        let s2 = connect_cells(s1, s1[lnk(x as int, 2)], s1[lnk(y as int, 2)]);
        (s2, reuse.push(x).push(y))
    } else {
        let (n1, r1, a) = alloc_node(nodes, reuse, nodes[lnk(x as int, 3)]);
        let (n2, r2, b) = alloc_node(n1, r1, n1[lnk(y as int, 3)]);
        let s1 = connect_cells(n2, lnk(b as int, 0) as u32, n2[lnk(x as int, 1)]);
        let s2 = connect_cells(s1, lnk(y as int, 0) as u32, s1[lnk(x as int, 2)]);
        let s3 = connect_cells(s2, lnk(a as int, 0) as u32, s2[lnk(y as int, 1)]);
        let s4 = connect_cells(s3, lnk(x as int, 0) as u32, s3[lnk(y as int, 2)]);
        let s5 = connect_cells(s4, lnk(a as int, 1) as u32, lnk(b as int, 1) as u32);
        let s6 = connect_cells(s5, lnk(a as int, 2) as u32, lnk(y as int, 1) as u32);
        let s7 = connect_cells(s6, lnk(x as int, 1) as u32, lnk(b as int, 2) as u32);
        let s8 = connect_cells(s7, lnk(x as int, 2) as u32, lnk(y as int, 2) as u32);
        (s8, r2)
    }
}

pub(crate) proof fn lemma_alloc_wf(nodes: Seq<u32>, reuse: Seq<u32>, k: u32)
    requires
        wf_cells(nodes, reuse),
        has_room(nodes, reuse, 1),
    ensures
        ({
            let (cells, free, n) = alloc_node(nodes, reuse, k);
            &&& wf_cells(cells, free)
            &&& 0 < n < cells.len() / 4
            &&& cells.len() >= nodes.len()
            &&& cells.len() == nodes.len() || reuse.len() == 0
            &&& has_room(nodes, reuse, 2) ==> has_room(cells, free, 1)
            &&& live_count(cells, free) == live_count(nodes, reuse) + 1
            &&& wf_kinds(nodes) && k <= FAN ==> wf_kinds(cells)
        }),
{
    let (cells, free, n) = alloc_node(nodes, reuse, k);
    if wf_kinds(nodes) && k <= FAN {
        assert forall|m: int| 0 < m < cells.len() / 4 implies #[trigger] cells[lnk(m, 3)] <= FAN by {
            if m != n && lnk(m, 3) < nodes.len() {
                assert(cells[lnk(m, 3)] == nodes[lnk(m, 3)]);
            }
        }
    }
    if reuse.len() > 0 {
        assert(reuse[reuse.len() - 1] == reuse.last());
    }
    assert forall|i: int| 0 <= i < cells.len() && is_port(i) implies {
        &&& #[trigger] cells[i] < cells.len()
        &&& is_port(cells[i] as int)
    } by {
        if !(lnk(n as int, 0) <= i <= lnk(n as int, 3)) && i < nodes.len() {
            assert(cells[i] == nodes[i]);
        }
    }
    assert forall|j: int| 0 <= j < free.len() implies 0 < #[trigger] free[j] && free[j] < cells.len()
        / 4 by {
        assert(free[j] == reuse[j]);
    }
}

/// Allocates a node of kind `kind`, reusing the last freed index when there is one.
pub fn new_node(net: &mut Net, kind: u32) -> (r: u32)
    requires
        wf_cells(old(net).nodes@, old(net).reuse@),
        has_room(old(net).nodes@, old(net).reuse@, 1),
    ensures
        (final(net).nodes@, final(net).reuse@, r) == alloc_node(
            old(net).nodes@,
            old(net).reuse@,
            kind,
        ),
        wf_cells(final(net).nodes@, final(net).reuse@),
        wf_kinds(old(net).nodes@) && kind <= FAN ==> wf_kinds(final(net).nodes@),
        0 < r < final(net).nodes@.len() / 4,
{
    proof {
        lemma_alloc_wf(net.nodes@, net.reuse@, kind);
    }
    let ghost cells0 = net.nodes@;
    let node: u32 = match net.reuse.pop() {
        Some(index) => index,
        None => {
            let len = net.nodes.len();
            net.nodes.push(0);
            net.nodes.push(0);
            net.nodes.push(0);
            net.nodes.push(0);
            assert(net.nodes@ =~= cells0 + seq![0u32, 0u32, 0u32, 0u32]);
            (len as u32) / 4
        },
    };
    let l0 = link(node, 0);
    let l1 = link(node, 1);
    let l2 = link(node, 2);
    let l3 = link(node, 3);
    net.nodes.set(l0 as usize, l0);
    net.nodes.set(l1 as usize, l1);
    net.nodes.set(l2 as usize, l2);
    net.nodes.set(l3 as usize, kind);
    node
}

/// Builds a link, the name of port `port` of node `node`.
pub fn link(node: u32, port: u32) -> (r: u32)
    requires
        node < 0x4000_0000,
        port < 4,
    ensures
        r == lnk(node as int, port as int),
{
    assert((node << 2u32) | port == node * 4 + port) by (bit_vector)
        requires
            node < 0x4000_0000,
            port < 4,
    ;
    (node << 2u32) | port
}

/// The node that a link names.
pub fn addr(link: u32) -> (r: u32)
    ensures
        r == link / 4,
{
    assert(link >> 2u32 == link / 4) by (bit_vector);
    link >> 2u32
}

/// The port that a link names.
pub fn port(link: u32) -> (r: u32)
    ensures
        r == link % 4,
{
    assert(link & 3u32 == link % 4) by (bit_vector);
    link & 3u32
}

/// The link stored at `link`: the port on the other side of the edge.
pub fn enter(net: &Net, link: u32) -> (r: u32)
    requires
        link < net.nodes@.len(),
    ensures
        r == net.nodes@[link as int],
{
    net.nodes[link as usize]
}

/// The kind of node `node`.
pub fn kind(net: &Net, node: u32) -> (r: u32)
    requires
        node < 0x4000_0000,
        lnk(node as int, 3) < net.nodes@.len(),
    ensures
        r == net.nodes@[lnk(node as int, 3)],
{
    net.nodes[link(node, 3) as usize]
}

/// Connects two ports: each stores the link of the other.
pub fn connect(net: &mut Net, ptr_a: u32, ptr_b: u32)
    requires
        ptr_a < old(net).nodes@.len(),
        ptr_b < old(net).nodes@.len(),
    ensures
        final(net).nodes@ == connect_cells(old(net).nodes@, ptr_a, ptr_b),
        final(net).reuse@ == old(net).reuse@,
{
    net.nodes.set(ptr_a as usize, ptr_b);
    net.nodes.set(ptr_b as usize, ptr_a);
}

pub(crate) proof fn lemma_connect_wf(nodes: Seq<u32>, reuse: Seq<u32>, a: u32, b: u32)
    requires
        wf_cells(nodes, reuse),
        a < nodes.len(),
        b < nodes.len(),
        is_port(a as int),
        is_port(b as int),
    ensures
        wf_cells(connect_cells(nodes, a, b), reuse),
        wf_kinds(nodes) ==> wf_kinds(connect_cells(nodes, a, b)),
{
    let s = connect_cells(nodes, a, b);
    if wf_kinds(nodes) {
        assert forall|m: int| 0 < m < s.len() / 4 implies #[trigger] s[lnk(m, 3)] <= FAN by {
            assert(s[lnk(m, 3)] == nodes[lnk(m, 3)]);
        }
        assert(s[3] == nodes[3]);
    }
    assert forall|i: int| 0 <= i < s.len() && is_port(i) implies {
        &&& #[trigger] s[i] < s.len()
        &&& is_port(s[i] as int)
    } by {
        if i != a && i != b {
            assert(s[i] == nodes[i]);
        }
    }
}


/// Rewrites the active pair `x`, `y`: annihilation when their kinds agree,
/// commutation otherwise.
#[verifier::rlimit(80)]
pub fn rewrite(net: &mut Net, x: u32, y: u32)
    requires
        wf_cells(old(net).nodes@, old(net).reuse@),
        0 < x < old(net).nodes@.len() / 4,
        0 < y < old(net).nodes@.len() / 4,
        old(net).nodes@[lnk(x as int, 3)] != old(net).nodes@[lnk(y as int, 3)] ==> has_room(
            old(net).nodes@,
            old(net).reuse@,
            2,
        ),
    ensures
        (final(net).nodes@, final(net).reuse@) == rewrite_net(
            old(net).nodes@,
            old(net).reuse@,
            x,
            y,
        ),
        wf_cells(final(net).nodes@, final(net).reuse@),
        wf_kinds(old(net).nodes@) ==> wf_kinds(final(net).nodes@),
        final(net).nodes@.len() >= old(net).nodes@.len(),
        old(net).nodes@[lnk(x as int, 3)] == old(net).nodes@[lnk(y as int, 3)] ==> {
            &&& live_count(final(net).nodes@, final(net).reuse@) == live_count(
                old(net).nodes@,
                old(net).reuse@,
            ) - 2
            &&& final(net).reuse@.len() == old(net).reuse@.len() + 2
        },
        old(net).nodes@[lnk(x as int, 3)] != old(net).nodes@[lnk(y as int, 3)] ==> {
            &&& live_count(final(net).nodes@, final(net).reuse@) == live_count(
                old(net).nodes@,
                old(net).reuse@,
            ) + 2
            &&& old(net).reuse@.len() == 0 ==> final(net).reuse@ == old(net).reuse@
        },
{
    reveal(rewrite_net);
    let kx = kind(net, x);
    let ky = kind(net, y);
    if kx == ky {
        let p0 = enter(net, link(x, 1));
        let p1 = enter(net, link(y, 1));
        proof {
            lemma_connect_wf(net.nodes@, net.reuse@, p0, p1);
        }
        connect(net, p0, p1);
        let p0 = enter(net, link(x, 2));
        let p1 = enter(net, link(y, 2));
        proof {
            lemma_connect_wf(net.nodes@, net.reuse@, p0, p1);
        }
        connect(net, p0, p1);
        net.reuse.push(x);
        net.reuse.push(y);
        proof {
            let r = net.reuse@;
            assert forall|j: int| 0 <= j < r.len() implies 0 < #[trigger] r[j] && r[j]
                < net.nodes@.len() / 4 by {
                if j < old(net).reuse@.len() {
                    assert(r[j] == old(net).reuse@[j]);
                }
            }
        }
    } else {
        proof {
            lemma_alloc_wf(net.nodes@, net.reuse@, kx);
        }
        let a = new_node(net, kx);
        let t = kind(net, y);
        proof {
            lemma_alloc_wf(net.nodes@, net.reuse@, t);
        }
        let b = new_node(net, t);
        let t = enter(net, link(x, 1));
        proof {
            lemma_connect_wf(net.nodes@, net.reuse@, lnk(b as int, 0) as u32, t);
        }
        connect(net, link(b, 0), t);
        let t = enter(net, link(x, 2));
        proof {
            lemma_connect_wf(net.nodes@, net.reuse@, lnk(y as int, 0) as u32, t);
        }
        connect(net, link(y, 0), t);
        let t = enter(net, link(y, 1));
        proof {
            lemma_connect_wf(net.nodes@, net.reuse@, lnk(a as int, 0) as u32, t);
        }
        connect(net, link(a, 0), t);
        let t = enter(net, link(y, 2));
        proof {
            lemma_connect_wf(net.nodes@, net.reuse@, lnk(x as int, 0) as u32, t);
        }
        connect(net, link(x, 0), t);
        proof {
            lemma_connect_wf(
                net.nodes@,
                net.reuse@,
                lnk(a as int, 1) as u32,
                lnk(b as int, 1) as u32,
            );
        }
        connect(net, link(a, 1), link(b, 1));
        proof {
            lemma_connect_wf(
                net.nodes@,
                net.reuse@,
                lnk(a as int, 2) as u32,
                lnk(y as int, 1) as u32,
            );
        }
        connect(net, link(a, 2), link(y, 1));
        proof {
            lemma_connect_wf(
                net.nodes@,
                net.reuse@,
                lnk(x as int, 1) as u32,
                lnk(b as int, 2) as u32,
            );
        }
        connect(net, link(x, 1), link(b, 2));
        proof {
            lemma_connect_wf(
                net.nodes@,
                net.reuse@,
                lnk(x as int, 2) as u32,
                lnk(y as int, 2) as u32,
            );
        }
        connect(net, link(x, 2), link(y, 2));
    }
}


/// A state of the reduction walk: the net, the two stacks, the link under
/// consideration and the counters.
pub struct Walk {
    pub nodes: Seq<u32>,
    pub reuse: Seq<u32>,
    pub schedule: Seq<u32>,
    pub exit: Seq<u32>,
    pub next: u32,
    pub stats: Stats,
}

/// The walk's first state: both stacks empty, at the root's port-0 link.
pub open spec fn walk_start(nodes: Seq<u32>, reuse: Seq<u32>) -> Walk {
    Walk {
        nodes,
        reuse,
        schedule: seq![],
        exit: seq![],
        next: nodes[0],
        stats: Stats { loops: 0, rules: 0, betas: 0, dupls: 0, annis: 0 },
    }
}

/// The walk is over: nothing under consideration and nothing scheduled.
pub open spec fn walk_halted(w: Walk) -> bool {
    w.next == 0 && w.schedule.len() == 0
}

/// The link examined by the next step, after a pop of the schedule when `next` is 0.
pub open spec fn walk_focus(w: Walk) -> u32 {
    if w.next == 0 {
        w.nodes[w.schedule.last() as int]
    } else {
        w.next
    }
}

/// The schedule once the next step has taken what it examines.
pub open spec fn walk_agenda(w: Walk) -> Seq<u32> {
    if w.next == 0 {
        w.schedule.drop_last()
    } else {
        w.schedule
    }
}

/// The next step sits on two principal ports facing each other, neither of the root.
pub open spec fn walk_active(w: Walk) -> bool {
    let next = walk_focus(w);
    let prev = w.nodes[next as int];
    next % 4 == 0 && prev % 4 == 0 && prev / 4 != 0 && next / 4 != 0
}

/// No further step is taken: the walk is over, the loop counter is full, or an
/// active pair is met with an empty exit stack or, for a commutation, no room.
pub open spec fn walk_blocked(w: Walk) -> bool {
    let next = walk_focus(w);
    let x = w.nodes[next as int] / 4;
    let y = next / 4;
    ||| walk_halted(w)
    ||| w.stats.loops == u32::MAX
    ||| walk_active(w) && w.exit.len() == 0
    ||| walk_active(w) && w.nodes[lnk(x as int, 3)] != w.nodes[lnk(y as int, 3)] && !has_room(
        w.nodes,
        w.reuse,
        2,
    )
}

/// One step of the walk.
pub open spec fn walk_step(w: Walk) -> Walk {
    let next = walk_focus(w);
    let schedule = walk_agenda(w);
    let prev = w.nodes[next as int];
    let loops = (w.stats.loops + 1) as u32;
    if walk_active(w) {
        let x = prev / 4;
        let y = next / 4;
        let back = w.nodes[lnk(x as int, w.exit.last() as int)];
        let (cells, free) = rewrite_net(w.nodes, w.reuse, x, y);
        let same = w.nodes[lnk(x as int, 3)] == w.nodes[lnk(y as int, 3)];
        let beta = same && w.nodes[lnk(x as int, 3)] == CON;
        Walk {
            nodes: cells,
            reuse: free,
            schedule,
            exit: w.exit.drop_last(),
            next: cells[back as int],
            stats: Stats {
                loops,
                rules: (w.stats.rules + 1) as u32,
                betas: if beta { (w.stats.betas + 1) as u32 } else { w.stats.betas },
                dupls: if same { w.stats.dupls } else { (w.stats.dupls + 1) as u32 },
                annis: if same { (w.stats.annis + 1) as u32 } else { w.stats.annis },
            },
        }
    } else if next % 4 == 0 {
        Walk {
            nodes: w.nodes,
            reuse: w.reuse,
            schedule: schedule.push(lnk(node_of(next) as int, 2) as u32),
            exit: w.exit,
            next: w.nodes[lnk(node_of(next) as int, 1)],
            stats: Stats { loops, ..w.stats },
        }
    } else {
        Walk {
            nodes: w.nodes,
            reuse: w.reuse,
            schedule,
            exit: w.exit.push(next % 4),
            next: w.nodes[lnk(node_of(next) as int, 0)],
            stats: Stats { loops, ..w.stats },
        }
    }
}

/// The node that link `l` names.
pub open spec fn node_of(l: u32) -> u32 {
    l / 4
}

/// The walk after `n` steps from `w`.
pub open spec fn walk_run(w: Walk, n: nat) -> Walk
    decreases n,
{
    if n == 0 {
        w
    } else {
        walk_step(walk_run(w, (n - 1) as nat))
    }
}

/// Reduces a net lazily, walking from the root. The result is the state reached
/// after `loops` steps of `walk_step`, at which no step applies.
#[verifier::rlimit(50)]
pub fn reduce(net: &mut Net) -> (r: Stats)
    requires
        wf_cells(old(net).nodes@, old(net).reuse@),
    ensures
        wf_kinds(old(net).nodes@) ==> wf_kinds(final(net).nodes@),
        ({
            let w = walk_run(walk_start(old(net).nodes@, old(net).reuse@), r.loops as nat);
            &&& final(net).nodes@ == w.nodes
            &&& final(net).reuse@ == w.reuse
            &&& r == w.stats
            &&& walk_blocked(w)
        }),
        forall|m: nat|
            m < r.loops ==> !walk_blocked(
                #[trigger] walk_run(walk_start(old(net).nodes@, old(net).reuse@), m),
            ),
        wf_cells(final(net).nodes@, final(net).reuse@),
        r.rules == r.annis + r.dupls,
        r.betas <= r.annis,
{
    let mut stats = Stats { loops: 0, rules: 0, betas: 0, dupls: 0, annis: 0 };
    let mut schedule: Vec<u32> = Vec::new();
    let mut exit: Vec<u32> = Vec::new();
    let mut next: u32 = net.nodes[0];
    let ghost start = walk_start(net.nodes@, net.reuse@);
    loop
        invariant
            wf_cells(net.nodes@, net.reuse@),
            wf_kinds(old(net).nodes@) ==> wf_kinds(net.nodes@),
            walk_run(start, stats.loops as nat) == (Walk {
                nodes: net.nodes@,
                reuse: net.reuse@,
                schedule: schedule@,
                exit: exit@,
                next,
                stats,
            }),
            next < net.nodes@.len(),
            is_port(next as int),
            forall|i: int|
                0 <= i < schedule@.len() ==> #[trigger] schedule@[i] < net.nodes@.len()
                    && is_port(schedule@[i] as int),
            forall|i: int| 0 <= i < exit@.len() ==> #[trigger] exit@[i] == 1 || exit@[i] == 2,
            stats.rules == stats.annis + stats.dupls,
            stats.betas <= stats.annis,
            stats.rules <= stats.loops,
            forall|m: nat| m < stats.loops ==> !walk_blocked(#[trigger] walk_run(start, m)),
        ensures
            walk_blocked(
                Walk {
                    nodes: net.nodes@,
                    reuse: net.reuse@,
                    schedule: schedule@,
                    exit: exit@,
                    next,
                    stats,
                },
            ),
        decreases u32::MAX - stats.loops,
    {
        let ghost w = Walk {
            nodes: net.nodes@,
            reuse: net.reuse@,
            schedule: schedule@,
            exit: exit@,
            next,
            stats,
        };
        if next == 0 && schedule.len() == 0 {
            break;
        }
        if stats.loops == u32::MAX {
            break;
        }
        let focus = if next == 0 {
            enter(net, schedule[schedule.len() - 1])
        } else {
            next
        };
        assert(focus == walk_focus(w));
        let prev = enter(net, focus);
        if port(focus) == 0 && port(prev) == 0 && addr(prev) != 0 && addr(focus) != 0 {
            if exit.len() == 0 {
                break;
            }
            let x = addr(prev);
            let y = addr(focus);
            let kx = kind(net, x);
            let ky = kind(net, y);
            if kx != ky && net.reuse.len() < 2 && (MAX_CELLS - net.nodes.len()) / 4 + net.reuse.len()
                < 2 {
                break;
            }
            if next == 0 {
                schedule.pop();
            }
            let e = match exit.pop() {
                Some(e) => e,
                None => 0,
            };
            let back = enter(net, link(x, e));
            rewrite(net, x, y);
            next = enter(net, back);
            stats.rules = stats.rules + 1;
            if kx == ky {
                stats.annis = stats.annis + 1;
                if kx == CON {
                    stats.betas = stats.betas + 1;
                }
            } else {
                stats.dupls = stats.dupls + 1;
            }
        } else if port(focus) == 0 {
            if next == 0 {
                schedule.pop();
            }
            schedule.push(link(addr(focus), 2));
            next = enter(net, link(addr(focus), 1));
        } else {
            if next == 0 {
                schedule.pop();
            }
            exit.push(port(focus));
            next = enter(net, link(addr(focus), 0));
        }
        proof {
            assert(!walk_blocked(w));
        }
        stats.loops = stats.loops + 1;
        proof {
            assert(schedule@ =~= walk_step(w).schedule);
            assert(exit@ =~= walk_step(w).exit);
        }
    }
    stats
}


/// The free list of a valid arena never holds the root.
pub proof fn lemma_free_list_excludes_root(nodes: Seq<u32>, reuse: Seq<u32>)
    requires
        wf_cells(nodes, reuse),
    ensures
        !reuse.contains(0),
{
    if reuse.contains(0) {
        let j = choose|j: int| 0 <= j < reuse.len() && reuse[j] == 0;
        assert(0 < reuse[j]);
    }
}

/// Node `n` is in the arena and not on the free list.
pub open spec fn is_live(nodes: Seq<u32>, reuse: Seq<u32>, n: int) -> bool {
    0 <= n < nodes.len() / 4 && !reuse.contains(n as u32)
}

/// Every port of every live node stores the link of another port of a live
/// node, which stores the first link back.
pub open spec fn reciprocal(nodes: Seq<u32>, reuse: Seq<u32>) -> bool {
    forall|l: int|
        0 <= l < nodes.len() && is_port(l) && is_live(nodes, reuse, l / 4) ==> {
            &&& nodes[#[trigger] nodes[l] as int] == l
            &&& nodes[l] != l
            &&& is_live(nodes, reuse, nodes[l] as int / 4)
        }
}

/// Annihilating an active pair of two distinct live nodes of one kind keeps every
/// link reciprocal, and the free list free of repeats.
pub proof fn lemma_annihilation_keeps_links(nodes: Seq<u32>, reuse: Seq<u32>, x: u32, y: u32)
    requires
        wf_cells(nodes, reuse),
        reciprocal(nodes, reuse),
        reuse.no_duplicates(),
        x != y,
        is_live(nodes, reuse, x as int),
        is_live(nodes, reuse, y as int),
        nodes[lnk(x as int, 0)] == lnk(y as int, 0),
        nodes[lnk(x as int, 3)] == nodes[lnk(y as int, 3)],
    ensures
        reciprocal(rewrite_net(nodes, reuse, x, y).0, rewrite_net(nodes, reuse, x, y).1),
        rewrite_net(nodes, reuse, x, y).1.no_duplicates(),
{
    reveal(rewrite_net);
    let (c, f) = rewrite_net(nodes, reuse, x, y);
    let t1 = nodes[lnk(x as int, 1)];
    let t3 = nodes[lnk(y as int, 1)];
    let s1 = connect_cells(nodes, t1, t3);
    let u2 = s1[lnk(x as int, 2)];
    let u4 = s1[lnk(y as int, 2)];
    assert(c == connect_cells(s1, u2, u4));
    assert(f == reuse.push(x).push(y));
    assert(nodes[nodes[lnk(x as int, 0)] as int] == lnk(x as int, 0));
    assert(nodes[lnk(y as int, 0)] == lnk(x as int, 0));
    assert forall|n: int| 0 <= n < nodes.len() / 4 implies (#[trigger] is_live(c, f, n) <==> is_live(nodes, reuse, n) && n != x && n != y) by {
        assert(f.contains(n as u32) <==> reuse.contains(n as u32) || n == x || n == y) by {
            if f.contains(n as u32) {
                let j = choose|j: int| 0 <= j < f.len() && f[j] == n as u32;
                if j < reuse.len() {
                    assert(f[j] == reuse[j]);
                }
            }
            if reuse.contains(n as u32) {
                let j = choose|j: int| 0 <= j < reuse.len() && reuse[j] == n as u32;
                assert(f[j] == reuse[j]);
            }
            if n == x {
                assert(f[reuse.len() as int] == x);
            }
            if n == y {
                assert(f[reuse.len() as int + 1] == y);
            }
        }
    }
    let x1 = lnk(x as int, 1);
    let x2 = lnk(x as int, 2);
    let y1 = lnk(y as int, 1);
    let y2 = lnk(y as int, 2);
    let t2 = nodes[x2];
    let t4 = nodes[y2];
    assert(nodes[t1 as int] == x1 && t1 != x1 && is_live(nodes, reuse, t1 as int / 4));
    assert(nodes[t2 as int] == x2 && t2 != x2 && is_live(nodes, reuse, t2 as int / 4));
    assert(nodes[t3 as int] == y1 && t3 != y1 && is_live(nodes, reuse, t3 as int / 4));
    assert(nodes[t4 as int] == y2 && t4 != y2 && is_live(nodes, reuse, t4 as int / 4));
    assert(u2 == if x2 == t1 { t3 } else if x2 == t3 { t1 } else { t2 });
    assert(u4 == if y2 == t1 { t3 } else if y2 == t3 { t1 } else { t4 });
    assert forall|l: int|
        0 <= l < c.len() && is_port(l) && is_live(c, f, l / 4) implies {
            &&& c[#[trigger] c[l] as int] == l
            &&& c[l] != l
            &&& is_live(c, f, c[l] as int / 4)
        } by {
        let m = nodes[l];
        assert(nodes[m as int] == l);
        assert(is_live(nodes, reuse, m as int / 4));
        assert(is_live(nodes, reuse, l / 4));
        if l == t1 || l == t2 || l == t3 || l == t4 {
            if t1 as int / 4 == x || t1 as int / 4 == y {
                if t3 as int / 4 == x || t3 as int / 4 == y {
                } else {
                }
            } else {
                if t3 as int / 4 == x || t3 as int / 4 == y {
                } else {
                }
            }
        } else {
            assert(m as int / 4 != x && m as int / 4 != y);
            assert(l != u2 && l != u4);
            assert(m != t1 && m != t2 && m != t3 && m != t4);
            assert(m != u2 && m != u4);
            assert(c[l] == m);
            assert(c[m as int] == l);
        }
    }
    assert(f.no_duplicates()) by {
        assert forall|i: int, j: int| 0 <= i < f.len() && 0 <= j < f.len() && i != j implies f[i] != f[j] by {
            if i < reuse.len() && j < reuse.len() {
                assert(f[i] == reuse[i] && f[j] == reuse[j]);
            } else if i < reuse.len() {
                assert(f[i] == reuse[i]);
                assert(reuse.contains(reuse[i]));
            } else if j < reuse.len() {
                assert(f[j] == reuse[j]);
                assert(reuse.contains(reuse[j]));
            }
        }
    }
}

} // verus!
