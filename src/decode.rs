use vstd::prelude::*;
use crate::net::{
    Net, CON, ERA, FAN, addr, enter, is_port, kind, link, lnk, port, wf_cells,
};
use crate::term::{Term, TermV, clone_bytes, new_name, name_of_index};

verus! {

/// Every entry names a node of an arena of `len` cells.
pub open spec fn valid_nodes(s: Seq<u32>, len: nat) -> bool {
    forall|i: int| 0 <= i < s.len() ==> #[trigger] s[i] < len / 4
}

/// The (port, name) pairs of a naming list, names as byte sequences.
pub open spec fn dnames(s: Seq<(u32, Vec<u8>)>) -> Seq<(u32, Seq<u8>)> {
    Seq::new(s.len(), |i: int| (s[i].0, s[i].1@))
}

/// The name that the list gives port `p`, looking from entry `k` on.
pub open spec fn port_name(s: Seq<(u32, Seq<u8>)>, p: u32, k: int) -> Option<Seq<u8>>
    decreases s.len() - k,
{
    if k < 0 || k >= s.len() {
        None
    } else if s[k].0 == p {
        Some(s[k].1)
    } else {
        port_name(s, p, k + 1)
    }
}

/// Whether the node on the other side of `p` is an eraser.
pub open spec fn faces_eraser(nodes: Seq<u32>, p: u32) -> bool {
    nodes[lnk(nodes[p as int] as int / 4, 3)] == ERA
}

/// The name of the binder at port `p` and the naming list after: `-` when an
/// eraser sits on the other side; else the port's name, given on first request
/// as the next fresh name; nothing when the names would pass the counter.
pub open spec fn name_spec(nodes: Seq<u32>, p: u32, names: Seq<(u32, Seq<u8>)>) -> Option<
    (Seq<u8>, Seq<(u32, Seq<u8>)>),
> {
    if faces_eraser(nodes, p) {
        Some((seq![45u8], names))
    } else {
        match port_name(names, p, 0) {
            Some(n) => Some((n, names)),
            None => if names.len() >= 0xFFFF_FFFE {
                None
            } else {
                let n = name_of_index((names.len() + 1) as nat);
                Some((n, names.push((p, n))))
            },
        }
    }
}

/// The decoder's state: binder names given so far, duplications waiting to be
/// read, and those recorded once.
pub struct Dec {
    pub names: Seq<(u32, Seq<u8>)>,
    pub lets: Seq<u32>,
    pub seen: Seq<u32>,
}

/// The decoder's state as held by its three lists.
pub open spec fn dec_of(names: Seq<(u32, Vec<u8>)>, lets: Seq<u32>, seen: Seq<u32>) -> Dec {
    Dec { names: dnames(names), lets, seen }
}

/// The term that link `next` leads to, and the state after; nothing on a node of
/// no term kind, on running out of names, or past depth `fuel`.
pub open spec fn read_spec(nodes: Seq<u32>, next: u32, d: Dec, fuel: nat) -> Option<(TermV, Dec)>
    decreases fuel,
{
    if fuel == 0 {
        None
    } else {
        let a = next / 4;
        let k = nodes[lnk(a as int, 3)];
        let p = next % 4;
        let f = (fuel - 1) as nat;
        if k == ERA {
            Some((TermV::Unit, d))
        } else if k == CON && p == 0 {
            match name_spec(nodes, lnk(a as int, 1) as u32, d.names) {
                None => None,
                Some((nam, ns)) => match read_spec(nodes, nodes[lnk(a as int, 2)], Dec { names: ns, ..d }, f) {
                    None => None,
                    Some((bod, d2)) => Some((TermV::Lam { nam, bod: Box::new(bod) }, d2)),
                },
            }
        } else if k == CON && p == 1 {
            match name_spec(nodes, next, d.names) {
                None => None,
                Some((nam, ns)) => Some((TermV::Var { nam }, Dec { names: ns, ..d })),
            }
        } else if (k == CON && p != 0 && p != 1) || (k == FAN && p == 0) {
            let (i, j) = if k == CON {
                (0int, 1int)
            } else {
                (1int, 2int)
            };
            match read_spec(nodes, nodes[lnk(a as int, i)], d, f) {
                None => None,
                Some((x, d1)) => match read_spec(nodes, nodes[lnk(a as int, j)], d1, f) {
                    None => None,
                    Some((y, d2)) => Some(
                        (
                            if k == CON {
                                TermV::App { fun: Box::new(x), arg: Box::new(y) }
                            } else {
                                TermV::Par { fst: Box::new(x), snd: Box::new(y) }
                            },
                            d2,
                        ),
                    ),
                },
            }
        } else if k == FAN {
            let d1 = if d.seen.contains(a) {
                d
            } else {
                Dec { names: d.names, lets: d.lets.push(a), seen: d.seen.push(a) }
            };
            match name_spec(nodes, next, d1.names) {
                None => None,
                Some((nam, ns)) => Some((TermV::Var { nam }, Dec { names: ns, ..d1 })),
            }
        } else {
            None
        }
    }
}

/// The term after wrapping `main` in the waiting duplications, last recorded
/// first, each read from its port 0 and named by its ports 1 and 2; nothing when
/// a read fails or more than `rounds` remain.
pub open spec fn unwind(nodes: Seq<u32>, main: TermV, d: Dec, rounds: nat) -> Option<TermV>
    decreases rounds,
{
    if d.lets.len() == 0 {
        Some(main)
    } else if rounds == 0 {
        None
    } else {
        let dup = d.lets.last();
        let d1 = Dec { lets: d.lets.drop_last(), ..d };
        match read_spec(nodes, nodes[lnk(dup as int, 0)], d1, nodes.len()) {
            None => None,
            Some((val, d2)) => match name_spec(nodes, lnk(dup as int, 1) as u32, d2.names) {
                None => None,
                Some((fst, n3)) => match name_spec(nodes, lnk(dup as int, 2) as u32, n3) {
                    None => None,
                    Some((snd, n4)) => unwind(
                        nodes,
                        TermV::Dup { fst, snd, val: Box::new(val), nxt: Box::new(main) },
                        Dec { names: n4, ..d2 },
                        (rounds - 1) as nat,
                    ),
                },
            },
        }
    }
}

/// The term that a net decodes to, read from the root's port-0 link.
pub open spec fn decode_of(nodes: Seq<u32>) -> Option<TermV> {
    match read_spec(nodes, nodes[0], Dec { names: seq![], lets: seq![], seen: seq![] }, nodes.len()) {
        None => None,
        Some((main, d)) => unwind(nodes, main, d, (nodes.len() / 4 + 1) as nat),
    }
}

/// The name of the binder at `var_port`, given through `var_name`.
fn name_of(net: &Net, var_port: u32, var_name: &mut Vec<(u32, Vec<u8>)>) -> (r: Option<Vec<u8>>)
    requires
        wf_cells(net.nodes@, net.reuse@),
        var_port < net.nodes@.len(),
        is_port(var_port as int),
    ensures
        match name_spec(net.nodes@, var_port, dnames(old(var_name)@)) {
            Some((n, ns)) => r matches Some(v) && v@ == n && dnames(final(var_name)@) == ns,
            None => r is None && final(var_name)@ == old(var_name)@,
        },
{
    let other = enter(net, var_port);
    if kind(net, addr(other)) == ERA {
        let mut dash: Vec<u8> = Vec::new();
        dash.push(45u8);
        proof {
            assert(dash@ =~= seq![45u8]);
        }
        return Some(dash);
    }
    let mut k: usize = 0;
    while k < var_name.len()
        invariant
            k <= var_name@.len(),
            port_name(dnames(var_name@), var_port, k as int) == port_name(
                dnames(var_name@),
                var_port,
                0,
            ),
            !faces_eraser(net.nodes@, var_port),
            var_name@ == old(var_name)@,
        decreases var_name@.len() - k,
    {
        if var_name[k].0 == var_port {
            return Some(clone_bytes(&var_name[k].1));
        }
        k = k + 1;
    }
    if var_name.len() >= 0xFFFF_FFFE {
        return None;
    }
    let nam = new_name(var_name.len() as u32 + 1);
    var_name.push((var_port, clone_bytes(&nam)));
    proof {
        assert(dnames(var_name@) =~= dnames(old(var_name)@).push((var_port, nam@)));
    }
    Some(nam)
}

/// Whether `x` is in `v`.
fn holds(v: &Vec<u32>, x: u32) -> (r: bool)
    ensures
        r == v@.contains(x),
{
    let mut k: usize = 0;
    while k < v.len()
        invariant
            k <= v@.len(),
            forall|j: int| 0 <= j < k ==> v@[j] != x,
        decreases v@.len() - k,
    {
        if v[k] == x {
            return true;
        }
        k = k + 1;
    }
    false
}

/// Reads the term that link `next` leads to, naming binders through `var_name`
/// and recording in `lets_vec` (once each, by `lets_set`) the duplication nodes
/// met through their auxiliary ports.
fn read_term(
    net: &Net,
    next: u32,
    var_name: &mut Vec<(u32, Vec<u8>)>,
    lets_vec: &mut Vec<u32>,
    lets_set: &mut Vec<u32>,
    fuel: usize,
) -> (r: Option<Term>)
    requires
        wf_cells(net.nodes@, net.reuse@),
        next < net.nodes@.len(),
        is_port(next as int),
        valid_nodes(old(lets_vec)@, net.nodes@.len()),
        valid_nodes(old(lets_set)@, net.nodes@.len()),
    ensures
        valid_nodes(final(lets_vec)@, net.nodes@.len()),
        valid_nodes(final(lets_set)@, net.nodes@.len()),
        match read_spec(
            net.nodes@,
            next,
            dec_of(old(var_name)@, old(lets_vec)@, old(lets_set)@),
            fuel as nat,
        ) {
            Some((t, d)) => r matches Some(t2) && t2@ == t && dec_of(
                final(var_name)@,
                final(lets_vec)@,
                final(lets_set)@,
            ) == d,
            None => r is None,
        },
    decreases fuel,
{
    if fuel == 0 {
        return None;
    }
    let a = addr(next);
    let k = kind(net, a);
    if k == ERA {
        Some(Term::Unit)
    } else if k == CON {
        let p = port(next);
        if p == 0 {
            let nam = name_of(net, link(a, 1), var_name)?;
            let prt = enter(net, link(a, 2));
            let bod = read_term(net, prt, var_name, lets_vec, lets_set, fuel - 1)?;
            Some(Term::Lam { nam, bod: Box::new(bod) })
        } else if p == 1 {
            let nam = name_of(net, next, var_name)?;
            Some(Term::Var { nam })
        } else {
            let prt = enter(net, link(a, 0));
            let fun = read_term(net, prt, var_name, lets_vec, lets_set, fuel - 1)?;
            let prt = enter(net, link(a, 1));
            let arg = read_term(net, prt, var_name, lets_vec, lets_set, fuel - 1)?;
            Some(Term::App { fun: Box::new(fun), arg: Box::new(arg) })
        }
    } else if k == FAN {
        let p = port(next);
        if p == 0 {
            let prt = enter(net, link(a, 1));
            let fst = read_term(net, prt, var_name, lets_vec, lets_set, fuel - 1)?;
            let prt = enter(net, link(a, 2));
            let snd = read_term(net, prt, var_name, lets_vec, lets_set, fuel - 1)?;
            Some(Term::Par { fst: Box::new(fst), snd: Box::new(snd) })
        } else {
            if !holds(lets_set, a) {
                lets_set.push(a);
                lets_vec.push(a);
                proof {
                    assert(valid_nodes(lets_set@, net.nodes@.len()));
                    assert(valid_nodes(lets_vec@, net.nodes@.len()));
                }
            }
            let nam = name_of(net, next, var_name)?;
            Some(Term::Var { nam })
        }
    } else {
        None
    }
}

/// Reads a net back as a term, from the root's port-0 link. The duplications
/// met on the way are read after the main term and wrap it as outer `Dup`s, the
/// last one recorded outermost.
pub fn from_net(net: &Net) -> (r: Option<Term>)
    requires
        wf_cells(net.nodes@, net.reuse@),
    ensures
        match decode_of(net.nodes@) {
            Some(t) => r matches Some(t2) && t2@ == t,
            None => r is None,
        },
{
    let mut var_name: Vec<(u32, Vec<u8>)> = Vec::new();
    let mut lets_vec: Vec<u32> = Vec::new();
    let mut lets_set: Vec<u32> = Vec::new();
    let fuel = net.nodes.len();
    proof {
        assert(dec_of(var_name@, lets_vec@, lets_set@) == Dec {
            names: seq![],
            lets: seq![],
            seen: seq![],
        }) by {
            assert(dnames(var_name@) =~= seq![]);
        }
    }
    let mut main = read_term(net, enter(net, 0), &mut var_name, &mut lets_vec, &mut lets_set, fuel)?;
    let mut rounds: usize = net.nodes.len() / 4 + 1;
    while lets_vec.len() > 0
        invariant
            wf_cells(net.nodes@, net.reuse@),
            valid_nodes(lets_vec@, net.nodes@.len()),
            valid_nodes(lets_set@, net.nodes@.len()),
            fuel == net.nodes@.len(),
            unwind(net.nodes@, main@, dec_of(var_name@, lets_vec@, lets_set@), rounds as nat)
                == decode_of(net.nodes@),
        decreases rounds,
    {
        if rounds == 0 {
            return None;
        }
        rounds = rounds - 1;
        let ghost d = dec_of(var_name@, lets_vec@, lets_set@);
        let dup = match lets_vec.pop() {
            Some(d) => d,
            None => 0,
        };
        proof {
            assert(dec_of(var_name@, lets_vec@, lets_set@) == Dec { lets: d.lets.drop_last(), ..d });
        }
        let val = read_term(
            net,
            enter(net, link(dup, 0)),
            &mut var_name,
            &mut lets_vec,
            &mut lets_set,
            fuel,
        )?;
        let fst = name_of(net, link(dup, 1), &mut var_name)?;
        let snd = name_of(net, link(dup, 2), &mut var_name)?;
        main = Term::Dup { fst, snd, val: Box::new(val), nxt: Box::new(main) };
    }
    Some(main)
}

} // verus!
