use sic::net::{addr, connect, enter, kind, link, new_node, port, rewrite, Net, CON, ERA, FAN};

fn root() -> Net {
    Net { nodes: vec![0, 2, 1, 4], reuse: vec![] }
}

fn live(net: &Net) -> usize {
    net.nodes.len() / 4 - net.reuse.len()
}

#[test]
fn link_layout() {
    assert_eq!(link(5, 2), 22);
    assert_eq!(addr(22), 5);
    assert_eq!(port(22), 2);
    assert_eq!(link(0, 0), 0);
}

#[test]
fn new_node_self_loops() {
    let mut net = root();
    let n = new_node(&mut net, FAN);
    assert_eq!(n, 1);
    assert_eq!(net.nodes, vec![0, 2, 1, 4, 4, 5, 6, FAN]);
    assert_eq!(kind(&net, n), FAN);
}

#[test]
fn new_node_reuses_last_freed() {
    let mut net = root();
    let a = new_node(&mut net, CON);
    let b = new_node(&mut net, CON);
    net.reuse.push(a);
    net.reuse.push(b);
    let c = new_node(&mut net, ERA);
    assert_eq!(c, b);
    assert_eq!(net.reuse, vec![a]);
    assert_eq!(kind(&net, c), ERA);
    assert_eq!(enter(&net, link(c, 1)), link(c, 1));
}

#[test]
fn connect_is_symmetric() {
    let mut net = root();
    let a = new_node(&mut net, CON);
    let b = new_node(&mut net, CON);
    connect(&mut net, link(a, 1), link(b, 2));
    assert_eq!(enter(&net, link(a, 1)), link(b, 2));
    assert_eq!(enter(&net, link(b, 2)), link(a, 1));
}

fn pair(net: &mut Net, kx: u32, ky: u32) -> (u32, u32) {
    let x = new_node(net, kx);
    let y = new_node(net, ky);
    connect(net, link(x, 0), link(y, 0));
    let mut ends = vec![];
    for _ in 0..4 {
        let e = new_node(net, ERA);
        connect(net, link(e, 1), link(e, 2));
        ends.push(e);
    }
    connect(net, link(x, 1), link(ends[0], 0));
    connect(net, link(x, 2), link(ends[1], 0));
    connect(net, link(y, 1), link(ends[2], 0));
    connect(net, link(y, 2), link(ends[3], 0));
    (x, y)
}

#[test]
fn annihilation_frees_two_nodes() {
    let mut net = root();
    let (x, y) = pair(&mut net, CON, CON);
    let before = live(&net);
    rewrite(&mut net, x, y);
    assert_eq!(live(&net), before - 2);
    assert_eq!(net.reuse, vec![x, y]);
}

#[test]
fn annihilation_splices_auxiliaries() {
    let mut net = root();
    let (x, y) = pair(&mut net, FAN, FAN);
    let e0 = addr(enter(&net, link(x, 1)));
    let e2 = addr(enter(&net, link(y, 1)));
    rewrite(&mut net, x, y);
    assert_eq!(enter(&net, link(e0, 0)), link(e2, 0));
    assert_eq!(enter(&net, link(e2, 0)), link(e0, 0));
}

#[test]
fn commutation_adds_two_nodes() {
    let mut net = root();
    let (x, y) = pair(&mut net, CON, FAN);
    let before = live(&net);
    let cells = net.nodes.len();
    rewrite(&mut net, x, y);
    assert_eq!(live(&net), before + 2);
    assert!(net.reuse.is_empty());
    assert_eq!(net.nodes.len(), cells + 8);
    let a = (cells / 4) as u32;
    let b = a + 1;
    assert_eq!(kind(&net, a), CON);
    assert_eq!(kind(&net, b), FAN);
    assert_eq!(enter(&net, link(a, 1)), link(b, 1));
    assert_eq!(enter(&net, link(a, 2)), link(y, 1));
    assert_eq!(enter(&net, link(x, 1)), link(b, 2));
    assert_eq!(enter(&net, link(x, 2)), link(y, 2));
}

#[test]
fn reciprocity_after_reduction() {
    let t = sic::parse::from_string(b"/\\p = a b p | b a | * \\y y").unwrap();
    let mut net = sic::encode::to_net(&t).unwrap();
    sic::net::reduce(&mut net);
    let free: std::collections::HashSet<u32> = net.reuse.iter().copied().collect();
    assert!(!free.contains(&0));
    let n = (net.nodes.len() / 4) as u32;
    for node in 1..n {
        if free.contains(&node) {
            continue;
        }
        assert!(kind(&net, node) <= FAN);
        for p in 0..3 {
            let l = link(node, p);
            assert_eq!(enter(&net, enter(&net, l)), l);
        }
    }
    assert_eq!(kind(&net, 0), 4);
}
