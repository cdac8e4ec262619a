use vstd::prelude::*;
use crate::net::{
    Net, CON, ERA, FAN, MAX_CELLS, ROOT, alloc_node, connect, connect_cells, enter, has_room,
    is_port, link, lnk, new_node, wf_cells, wf_kinds,
};
use crate::parse::same_bytes;
use crate::term::{Term, TermV};

verus! {

/// Why a term could not be encoded as a net.
#[derive(Debug)]
pub enum EncodeError {
    /// A variable whose name no binder of the term carries.
    Unbound { nam: Vec<u8> },
    /// A variable whose binder is already used, or marked unused.
    NotAffine { nam: Vec<u8> },
    /// The net would pass the arena's size limit.
    TooLarge,
}

/// The variable occurrences of a term, in the order the encoder meets them.
pub open spec fn vars_of(t: TermV) -> Seq<Seq<u8>>
    decreases t,
{
    match t {
        TermV::Lam { nam, bod } => vars_of(*bod),
        TermV::App { fun, arg } => vars_of(*fun) + vars_of(*arg),
        TermV::Par { fst, snd } => vars_of(*fst) + vars_of(*snd),
        TermV::Dup { fst, snd, val, nxt } => vars_of(*val) + vars_of(*nxt),
        TermV::Var { nam } => seq![nam],
        TermV::Unit => seq![],
    }
}

/// The binder names of a term, in the order the encoder meets them.
pub open spec fn binders_of(t: TermV) -> Seq<Seq<u8>>
    decreases t,
{
    match t {
        TermV::Lam { nam, bod } => seq![nam] + binders_of(*bod),
        TermV::App { fun, arg } => binders_of(*fun) + binders_of(*arg),
        TermV::Par { fst, snd } => binders_of(*fst) + binders_of(*snd),
        TermV::Dup { fst, snd, val, nxt } => seq![fst, snd] + binders_of(*val) + binders_of(*nxt),
        TermV::Var { nam } => seq![],
        TermV::Unit => seq![],
    }
}

/// The names of a list of (name, link) entries.
pub open spec fn names(s: Seq<(Vec<u8>, u32)>) -> Seq<Seq<u8>> {
    Seq::new(s.len(), |i: int| s[i].0@)
}

/// Every link of the entries names a port of an arena of `len` cells.
pub open spec fn valid_links(s: Seq<(Vec<u8>, u32)>, len: nat) -> bool {
    forall|i: int| 0 <= i < s.len() ==> #[trigger] s[i].1 < len && is_port(s[i].1 as int)
}

/// The entries of a (name, link) list, names as byte sequences.
pub open spec fn entries(s: Seq<(Vec<u8>, u32)>) -> Seq<(Seq<u8>, u32)> {
    Seq::new(s.len(), |i: int| (s[i].0@, s[i].1))
}

/// The state that encoding threads through a term: the arena's cells and free
/// list, the binders met, and the variable occurrences met.
pub struct Enc {
    pub nodes: Seq<u32>,
    pub reuse: Seq<u32>,
    pub scope: Seq<(Seq<u8>, u32)>,
    pub vars: Seq<(Seq<u8>, u32)>,
}

/// The encoder's state as held by an arena and two entry lists.
pub open spec fn enc_of(net: Net, scope: Seq<(Vec<u8>, u32)>, vars: Seq<(Vec<u8>, u32)>) -> Enc {
    Enc { nodes: net.nodes@, reuse: net.reuse@, scope: entries(scope), vars: entries(vars) }
}

/// The state with ports `a` and `b` connected.
pub open spec fn enc_connect(e: Enc, a: u32, b: u32) -> Enc {
    Enc { nodes: connect_cells(e.nodes, a, b), ..e }
}

/// The cells, free list and index after allocating an eraser whose auxiliary
/// ports are joined; nothing when the arena is full.
pub open spec fn eraser_net(nodes: Seq<u32>, reuse: Seq<u32>) -> Option<(Seq<u32>, Seq<u32>, u32)> {
    if has_room(nodes, reuse, 1) {
        let (c, f, n) = alloc_node(nodes, reuse, ERA);
        Some((connect_cells(c, lnk(n as int, 1) as u32, lnk(n as int, 2) as u32), f, n))
    } else {
        None
    }
}

/// The state after allocating a node of kind `k`, and its index.
pub open spec fn enc_alloc(e: Enc, k: u32) -> Option<(Enc, u32)> {
    if has_room(e.nodes, e.reuse, 1) {
        let (c, f, n) = alloc_node(e.nodes, e.reuse, k);
        Some((Enc { nodes: c, reuse: f, ..e }, n))
    } else {
        None
    }
}

/// The state after plugging a fresh eraser into port `p`, when `erase` holds.
pub open spec fn enc_erase_at(e: Enc, p: u32, erase: bool) -> Option<Enc> {
    if erase {
        match eraser_net(e.nodes, e.reuse) {
            Some((c, f, n)) => Some(
                enc_connect(Enc { nodes: c, reuse: f, ..e }, p, lnk(n as int, 0) as u32),
            ),
            None => None,
        }
    } else {
        Some(e)
    }
}

/// Encoding of `t` into state `e`, where `up` is the port that will receive it:
/// the state after, and the port that stands for `t`; nothing when the arena
/// fills up.
pub open spec fn encode_spec(e: Enc, t: TermV, up: u32) -> Option<(Enc, u32)>
    decreases t,
{
    match t {
        TermV::Lam { nam, bod } => match enc_alloc(e, CON) {
            None => None,
            Some((e1, fun)) => {
                let e1 = Enc { scope: e1.scope.push((nam, lnk(fun as int, 1) as u32)), ..e1 };
                match enc_erase_at(e1, lnk(fun as int, 1) as u32, nam == seq![95u8]) {
                    None => None,
                    Some(e2) => match encode_spec(e2, *bod, lnk(fun as int, 2) as u32) {
                        None => None,
                        Some((e3, b)) => Some(
                            (enc_connect(e3, lnk(fun as int, 2) as u32, b), lnk(fun as int, 0) as u32),
                        ),
                    },
                }
            },
        },
        TermV::App { fun, arg } => match enc_alloc(e, CON) {
            None => None,
            Some((e1, app)) => match encode_spec(e1, *fun, lnk(app as int, 0) as u32) {
                None => None,
                Some((e2, f)) => {
                    let e2 = enc_connect(e2, lnk(app as int, 0) as u32, f);
                    match encode_spec(e2, *arg, lnk(app as int, 1) as u32) {
                        None => None,
                        Some((e3, a)) => Some(
                            (enc_connect(e3, lnk(app as int, 1) as u32, a), lnk(app as int, 2) as u32),
                        ),
                    }
                },
            },
        },
        TermV::Par { fst, snd } => match enc_alloc(e, FAN) {
            None => None,
            Some((e1, dup)) => match encode_spec(e1, *fst, lnk(dup as int, 1) as u32) {
                None => None,
                Some((e2, a)) => {
                    let e2 = enc_connect(e2, lnk(dup as int, 1) as u32, a);
                    match encode_spec(e2, *snd, lnk(dup as int, 2) as u32) {
                        None => None,
                        Some((e3, b)) => Some(
                            (enc_connect(e3, lnk(dup as int, 2) as u32, b), lnk(dup as int, 0) as u32),
                        ),
                    }
                },
            },
        },
        TermV::Dup { fst, snd, val, nxt } => match enc_alloc(e, FAN) {
            None => None,
            Some((e1, dup)) => {
                let e1 = Enc {
                    scope: e1.scope.push((fst, lnk(dup as int, 1) as u32)).push(
                        (snd, lnk(dup as int, 2) as u32),
                    ),
                    ..e1
                };
                match enc_erase_at(e1, lnk(dup as int, 1) as u32, fst == seq![45u8]) {
                    None => None,
                    Some(e2) => match enc_erase_at(e2, lnk(dup as int, 2) as u32, snd == seq![45u8]) {
                        None => None,
                        Some(e3) => match encode_spec(e3, *val, lnk(dup as int, 0) as u32) {
                            None => None,
                            Some((e4, v)) => encode_spec(
                                enc_connect(e4, v, lnk(dup as int, 0) as u32),
                                *nxt,
                                up,
                            ),
                        },
                    },
                }
            },
        },
        TermV::Unit => match eraser_net(e.nodes, e.reuse) {
            None => None,
            Some((c, f, n)) => Some((Enc { nodes: c, reuse: f, ..e }, lnk(n as int, 0) as u32)),
        },
        TermV::Var { nam } => Some((Enc { vars: e.vars.push((nam, up)), ..e }, up)),
    }
}

/// Why no net encodes a term, as values.
pub enum EncodeFault {
    Unbound(Seq<u8>),
    NotAffine(Seq<u8>),
    TooLarge,
}

/// The last position of `nam` among the first `i` entries.
pub open spec fn find_last(s: Seq<(Seq<u8>, u32)>, nam: Seq<u8>, i: int) -> Option<int>
    decreases i,
{
    if i <= 0 {
        None
    } else if s[i - 1].0 == nam {
        Some(i - 1)
    } else {
        find_last(s, nam, i - 1)
    }
}

/// The cells after joining each of the first `n` variables to the last binder of
/// its name; a variable fails when no binder has its name, or when that binder's
/// port is no longer a self-loop.
pub open spec fn resolve_vars(
    nodes: Seq<u32>,
    scope: Seq<(Seq<u8>, u32)>,
    vars: Seq<(Seq<u8>, u32)>,
    n: int,
) -> Result<Seq<u32>, EncodeFault>
    decreases n,
{
    if n <= 0 {
        Ok(nodes)
    } else {
        match resolve_vars(nodes, scope, vars, n - 1) {
            Err(f) => Err(f),
            Ok(c) => {
                let (nam, v) = vars[n - 1];
                match find_last(scope, nam, scope.len() as int) {
                    None => Err(EncodeFault::Unbound(nam)),
                    Some(k) => {
                        let b = scope[k].1;
                        if c[b as int] == b {
                            Ok(connect_cells(c, v, b))
                        } else {
                            Err(EncodeFault::NotAffine(nam))
                        }
                    },
                }
            },
        }
    }
}

/// The cells and free list after plugging an eraser into each of the first `n`
/// binders that is the last of its name and still a self-loop.
pub open spec fn erase_unused(
    nodes: Seq<u32>,
    reuse: Seq<u32>,
    scope: Seq<(Seq<u8>, u32)>,
    n: int,
) -> Option<(Seq<u32>, Seq<u32>)>
    decreases n,
{
    if n <= 0 {
        Some((nodes, reuse))
    } else {
        match erase_unused(nodes, reuse, scope, n - 1) {
            None => None,
            Some((c, f)) => {
                let (nam, a) = scope[n - 1];
                if find_last(scope, nam, scope.len() as int) == Some(n - 1) && c[a as int] == a {
                    match eraser_net(c, f) {
                        None => None,
                        Some((c2, f2, era)) => Some((connect_cells(c2, a, lnk(era as int, 0) as u32), f2)),
                    }
                } else {
                    Some((c, f))
                }
            },
        }
    }
}

proof fn lemma_resolve_fails_on(
    nodes: Seq<u32>,
    scope: Seq<(Seq<u8>, u32)>,
    vars: Seq<(Seq<u8>, u32)>,
    n: int,
    m: int,
)
    requires
        0 <= n <= m,
        resolve_vars(nodes, scope, vars, n) is Err,
    ensures
        resolve_vars(nodes, scope, vars, m) == resolve_vars(nodes, scope, vars, n),
    decreases m - n,
{
    if m > n {
        lemma_resolve_fails_on(nodes, scope, vars, n, m - 1);
    }
}

proof fn lemma_erase_fails_on(
    nodes: Seq<u32>,
    reuse: Seq<u32>,
    scope: Seq<(Seq<u8>, u32)>,
    n: int,
    m: int,
)
    requires
        0 <= n <= m,
        erase_unused(nodes, reuse, scope, n) is None,
    ensures
        erase_unused(nodes, reuse, scope, m) is None,
    decreases m - n,
{
    if m > n {
        lemma_erase_fails_on(nodes, reuse, scope, n, m - 1);
    }
}

/// The arena that starts every encoding: the root alone.
pub open spec fn root_enc() -> Enc {
    Enc { nodes: seq![0u32, 2u32, 1u32, ROOT], reuse: seq![], scope: seq![], vars: seq![] }
}

/// The cells and free list of the net that encodes `t`, or why there is none:
/// the term is encoded at the root, its variables joined to their binders, unused
/// binders erased, and the root's port 0 joined to the term.
pub open spec fn net_of(t: TermV) -> Result<(Seq<u32>, Seq<u32>), EncodeFault> {
    match encode_spec(root_enc(), t, 0) {
        None => Err(EncodeFault::TooLarge),
        Some((e, main)) => match resolve_vars(e.nodes, e.scope, e.vars, e.vars.len() as int) {
            Err(f) => Err(f),
            Ok(c) => match erase_unused(c, e.reuse, e.scope, e.scope.len() as int) {
                None => Err(EncodeFault::TooLarge),
                Some((c2, f2)) => Ok((connect_cells(c2, 0, main), f2)),
            },
        },
    }
}

/// Whether `k` more nodes fit in the arena.
fn room(net: &Net, k: usize) -> (r: bool)
    requires
        wf_cells(net.nodes@, net.reuse@),
    ensures
        r == has_room(net.nodes@, net.reuse@, k as int),
{
    net.reuse.len() >= k || (MAX_CELLS - net.nodes.len()) / 4 >= k - net.reuse.len()
}

/// Allocates an eraser whose auxiliary ports are joined to each other.
fn new_eraser(net: &mut Net) -> (r: Option<u32>)
    requires
        wf_cells(old(net).nodes@, old(net).reuse@),
        wf_kinds(old(net).nodes@),
    ensures
        wf_cells(final(net).nodes@, final(net).reuse@),
        wf_kinds(final(net).nodes@),
        final(net).nodes@.len() >= old(net).nodes@.len(),
        old(net).reuse@.len() == 0 ==> final(net).reuse@.len() == 0,
        r matches Some(n) ==> 0 < n < final(net).nodes@.len() / 4,
        r is None <==> !has_room(old(net).nodes@, old(net).reuse@, 1),
        match eraser_net(old(net).nodes@, old(net).reuse@) {
            Some((c, f, n)) => r == Some(n) && final(net).nodes@ == c && final(net).reuse@ == f,
            None => r is None && final(net).nodes@ == old(net).nodes@ && final(net).reuse@ == old(
                net,
            ).reuse@,
        },
{
    if !room(net, 1) {
        return None;
    }
    let era = new_node(net, ERA);
    proof {
        crate::net::lemma_connect_wf(
            net.nodes@,
            net.reuse@,
            lnk(era as int, 1) as u32,
            lnk(era as int, 2) as u32,
        );
    }
    connect(net, link(era, 1), link(era, 2));
    Some(era)
}

proof fn lemma_push_entry(s: Seq<(Vec<u8>, u32)>, e: (Vec<u8>, u32), len: nat)
    requires
        valid_links(s, len),
        e.1 < len,
        is_port(e.1 as int),
    ensures
        valid_links(s.push(e), len),
        names(s.push(e)) == names(s).push(e.0@),
        entries(s.push(e)) == entries(s).push((e.0@, e.1)),
{
    assert(names(s.push(e)) =~= names(s).push(e.0@));
    assert(entries(s.push(e)) =~= entries(s).push((e.0@, e.1)));
    assert forall|i: int| 0 <= i < s.push(e).len() implies #[trigger] s.push(e)[i].1 < len
        && is_port(s.push(e)[i].1 as int) by {
        if i < s.len() {
            assert(s.push(e)[i] == s[i]);
        }
    }
}

proof fn lemma_valid_grow(s: Seq<(Vec<u8>, u32)>, len: nat, len2: nat)
    requires
        valid_links(s, len),
        len <= len2,
    ensures
        valid_links(s, len2),
{
}

/// Appends the entry (`nam`, `l`) to a list.
fn push_entry(list: &mut Vec<(Vec<u8>, u32)>, nam: &Vec<u8>, l: u32)
    ensures
        entries(final(list)@) == entries(old(list)@).push((nam@, l)),
        names(final(list)@) == names(old(list)@).push(nam@),
        forall|len: nat|
            valid_links(old(list)@, len) && l < len && is_port(l as int) ==> #[trigger] valid_links(
                final(list)@,
                len,
            ),
{
    let ghost pre = list@;
    list.push((crate::term::clone_bytes(nam), l));
    proof {
        lemma_push_entry_any(pre, list@.last());
        assert(list@ =~= pre.push(list@.last()));
    }
}

proof fn lemma_push_entry_any(s: Seq<(Vec<u8>, u32)>, e: (Vec<u8>, u32))
    ensures
        names(s.push(e)) == names(s).push(e.0@),
        entries(s.push(e)) == entries(s).push((e.0@, e.1)),
        forall|len: nat|
            valid_links(s, len) && e.1 < len && is_port(e.1 as int) ==> #[trigger] valid_links(
                s.push(e),
                len,
            ),
{
    assert(names(s.push(e)) =~= names(s).push(e.0@));
    assert(entries(s.push(e)) =~= entries(s).push((e.0@, e.1)));
    assert forall|len: nat| valid_links(s, len) && e.1 < len && is_port(e.1 as int) implies #[trigger] valid_links(
        s.push(e),
        len,
    ) by {
        lemma_push_entry(s, e, len);
    }
}

/// Encodes `term` into `net`, where `up` is the port that will receive it: the
/// port that stands for the term. Binders go to `scope`, variable occurrences
/// to `vars`.
fn encode_term(
    net: &mut Net,
    term: &Term,
    up: u32,
    scope: &mut Vec<(Vec<u8>, u32)>,
    vars: &mut Vec<(Vec<u8>, u32)>,
) -> (r: Result<u32, EncodeError>)
    requires
        wf_cells(old(net).nodes@, old(net).reuse@),
        wf_kinds(old(net).nodes@),
        up < old(net).nodes@.len(),
        is_port(up as int),
        valid_links(old(scope)@, old(net).nodes@.len()),
        valid_links(old(vars)@, old(net).nodes@.len()),
    ensures
        wf_cells(final(net).nodes@, final(net).reuse@),
        wf_kinds(final(net).nodes@),
        final(net).nodes@.len() >= old(net).nodes@.len(),
        old(net).reuse@.len() == 0 ==> final(net).reuse@.len() == 0,
        valid_links(final(scope)@, final(net).nodes@.len()),
        valid_links(final(vars)@, final(net).nodes@.len()),
        match r {
            Ok(l) => {
                &&& l < final(net).nodes@.len()
                &&& is_port(l as int)
                &&& names(final(vars)@) == names(old(vars)@) + vars_of(term@)
                &&& names(final(scope)@) == names(old(scope)@) + binders_of(term@)
            },
            Err(e) => e is TooLarge,
        },
        ({
            let before = Enc {
                nodes: old(net).nodes@,
                reuse: old(net).reuse@,
                scope: entries(old(scope)@),
                vars: entries(old(vars)@),
            };
            let after = Enc {
                nodes: final(net).nodes@,
                reuse: final(net).reuse@,
                scope: entries(final(scope)@),
                vars: entries(final(vars)@),
            };
            match r {
                Ok(l) => encode_spec(before, term@, up) == Some((after, l)),
                Err(_) => encode_spec(before, term@, up) is None,
            }
        }),
    decreases term, 1int,
{
    match term {
        Term::Lam { .. } => encode_lam(net, term, up, scope, vars),
        Term::App { .. } => encode_app(net, term, up, scope, vars),
        Term::Par { .. } => encode_par(net, term, up, scope, vars),
        Term::Dup { .. } => encode_dup(net, term, up, scope, vars),
        Term::Unit => encode_unit(net, term, up, scope, vars),
        Term::Var { .. } => encode_var(net, term, up, scope, vars),
    }
}

#[verifier::rlimit(100)]
fn encode_lam(
    net: &mut Net,
    term: &Term,
    up: u32,
    scope: &mut Vec<(Vec<u8>, u32)>,
    vars: &mut Vec<(Vec<u8>, u32)>,
) -> (r: Result<u32, EncodeError>)
    requires
        term is Lam,
        wf_cells(old(net).nodes@, old(net).reuse@),
        wf_kinds(old(net).nodes@),
        up < old(net).nodes@.len(),
        is_port(up as int),
        valid_links(old(scope)@, old(net).nodes@.len()),
        valid_links(old(vars)@, old(net).nodes@.len()),
    ensures
        wf_cells(final(net).nodes@, final(net).reuse@),
        wf_kinds(final(net).nodes@),
        final(net).nodes@.len() >= old(net).nodes@.len(),
        old(net).reuse@.len() == 0 ==> final(net).reuse@.len() == 0,
        valid_links(final(scope)@, final(net).nodes@.len()),
        valid_links(final(vars)@, final(net).nodes@.len()),
        match r {
            Ok(l) => {
                &&& l < final(net).nodes@.len()
                &&& is_port(l as int)
                &&& names(final(vars)@) == names(old(vars)@) + vars_of(term@)
                &&& names(final(scope)@) == names(old(scope)@) + binders_of(term@)
            },
            Err(e) => e is TooLarge,
        },
        ({
            let before = Enc {
                nodes: old(net).nodes@,
                reuse: old(net).reuse@,
                scope: entries(old(scope)@),
                vars: entries(old(vars)@),
            };
            let after = Enc {
                nodes: final(net).nodes@,
                reuse: final(net).reuse@,
                scope: entries(final(scope)@),
                vars: entries(final(vars)@),
            };
            match r {
                Ok(l) => encode_spec(before, term@, up) == Some((after, l)),
                Err(_) => encode_spec(before, term@, up) is None,
            }
        }),
    decreases term, 0int,
{
    match term {
        Term::Lam { nam, bod } => {
            if !room(net, 1) {
                return Err(EncodeError::TooLarge);
            }
            let ghost before = enc_of(*old(net), old(scope)@, old(vars)@);
            let fun = new_node(net, CON);
            let ghost e1 = enc_of(*net, scope@, vars@);
            assert(enc_alloc(before, CON) == Some((e1, fun)));
            proof {
                lemma_valid_grow(scope@, old(net).nodes@.len(), net.nodes@.len());
                lemma_valid_grow(vars@, old(net).nodes@.len(), net.nodes@.len());
            }
            push_entry(scope, nam, link(fun, 1));
            let ghost e1b = enc_of(*net, scope@, vars@);
            let ghost erase = nam@ == seq![95u8];
            proof {
                assert(names(scope@) == names(old(scope)@).push(nam@));
                assert(e1b == Enc { scope: e1.scope.push((nam@, lnk(fun as int, 1) as u32)), ..e1 });
                if nam@.len() == 1 && nam@[0] == 95u8 {
                    assert(nam@ =~= seq![95u8]);
                }
            }
            let ghost mut e2 = e1b;
            if nam.len() == 1 && nam[0] == 95u8 {
                let era = match new_eraser(net) {
                    Some(era) => era,
                    None => {
                        assert(enc_erase_at(e1b, lnk(fun as int, 1) as u32, erase) is None);
                        return Err(EncodeError::TooLarge);
                    },
                };
                proof {
                    crate::net::lemma_connect_wf(
                        net.nodes@,
                        net.reuse@,
                        lnk(fun as int, 1) as u32,
                        lnk(era as int, 0) as u32,
                    );
                }
                connect(net, link(fun, 1), link(era, 0));
                proof {
                    e2 = enc_of(*net, scope@, vars@);
                }
            }
            assert(enc_erase_at(e1b, lnk(fun as int, 1) as u32, erase) == Some(e2));
            let ghost mid_scope = names(scope@);
            let ghost mid_vars = names(vars@);
            let b = encode_term(net, bod, link(fun, 2), scope, vars)?;
            proof {
                crate::net::lemma_connect_wf(net.nodes@, net.reuse@, lnk(fun as int, 2) as u32, b);
                assert(names(scope@) =~= names(old(scope)@) + binders_of(term@));
                assert(names(vars@) =~= names(old(vars)@) + vars_of(term@));
            }
            let ghost e3 = enc_of(*net, scope@, vars@);
            connect(net, link(fun, 2), b);
            assert(enc_of(*net, scope@, vars@) == enc_connect(e3, lnk(fun as int, 2) as u32, b));
            Ok(link(fun, 0))
        },
        _ => Err(EncodeError::TooLarge),
    }
}

#[verifier::rlimit(100)]
fn encode_app(
    net: &mut Net,
    term: &Term,
    up: u32,
    scope: &mut Vec<(Vec<u8>, u32)>,
    vars: &mut Vec<(Vec<u8>, u32)>,
) -> (r: Result<u32, EncodeError>)
    requires
        term is App,
        wf_cells(old(net).nodes@, old(net).reuse@),
        wf_kinds(old(net).nodes@),
        up < old(net).nodes@.len(),
        is_port(up as int),
        valid_links(old(scope)@, old(net).nodes@.len()),
        valid_links(old(vars)@, old(net).nodes@.len()),
    ensures
        wf_cells(final(net).nodes@, final(net).reuse@),
        wf_kinds(final(net).nodes@),
        final(net).nodes@.len() >= old(net).nodes@.len(),
        old(net).reuse@.len() == 0 ==> final(net).reuse@.len() == 0,
        valid_links(final(scope)@, final(net).nodes@.len()),
        valid_links(final(vars)@, final(net).nodes@.len()),
        match r {
            Ok(l) => {
                &&& l < final(net).nodes@.len()
                &&& is_port(l as int)
                &&& names(final(vars)@) == names(old(vars)@) + vars_of(term@)
                &&& names(final(scope)@) == names(old(scope)@) + binders_of(term@)
            },
            Err(e) => e is TooLarge,
        },
        ({
            let before = Enc {
                nodes: old(net).nodes@,
                reuse: old(net).reuse@,
                scope: entries(old(scope)@),
                vars: entries(old(vars)@),
            };
            let after = Enc {
                nodes: final(net).nodes@,
                reuse: final(net).reuse@,
                scope: entries(final(scope)@),
                vars: entries(final(vars)@),
            };
            match r {
                Ok(l) => encode_spec(before, term@, up) == Some((after, l)),
                Err(_) => encode_spec(before, term@, up) is None,
            }
        }),
    decreases term, 0int,
{
    match term {
        Term::App { fun, arg } => {
            if !room(net, 1) {
                return Err(EncodeError::TooLarge);
            }
            let app = new_node(net, CON);
            proof {
                lemma_valid_grow(scope@, old(net).nodes@.len(), net.nodes@.len());
                lemma_valid_grow(vars@, old(net).nodes@.len(), net.nodes@.len());
            }
            let f = encode_term(net, fun, link(app, 0), scope, vars)?;
            proof {
                crate::net::lemma_connect_wf(net.nodes@, net.reuse@, lnk(app as int, 0) as u32, f);
            }
            connect(net, link(app, 0), f);
            let a = encode_term(net, arg, link(app, 1), scope, vars)?;
            proof {
                crate::net::lemma_connect_wf(net.nodes@, net.reuse@, lnk(app as int, 1) as u32, a);
                assert(names(scope@) =~= names(old(scope)@) + binders_of(term@));
                assert(names(vars@) =~= names(old(vars)@) + vars_of(term@));
            }
            connect(net, link(app, 1), a);
            Ok(link(app, 2))
        },
        _ => Err(EncodeError::TooLarge),
    }
}

#[verifier::rlimit(100)]
fn encode_par(
    net: &mut Net,
    term: &Term,
    up: u32,
    scope: &mut Vec<(Vec<u8>, u32)>,
    vars: &mut Vec<(Vec<u8>, u32)>,
) -> (r: Result<u32, EncodeError>)
    requires
        term is Par,
        wf_cells(old(net).nodes@, old(net).reuse@),
        wf_kinds(old(net).nodes@),
        up < old(net).nodes@.len(),
        is_port(up as int),
        valid_links(old(scope)@, old(net).nodes@.len()),
        valid_links(old(vars)@, old(net).nodes@.len()),
    ensures
        wf_cells(final(net).nodes@, final(net).reuse@),
        wf_kinds(final(net).nodes@),
        final(net).nodes@.len() >= old(net).nodes@.len(),
        old(net).reuse@.len() == 0 ==> final(net).reuse@.len() == 0,
        valid_links(final(scope)@, final(net).nodes@.len()),
        valid_links(final(vars)@, final(net).nodes@.len()),
        match r {
            Ok(l) => {
                &&& l < final(net).nodes@.len()
                &&& is_port(l as int)
                &&& names(final(vars)@) == names(old(vars)@) + vars_of(term@)
                &&& names(final(scope)@) == names(old(scope)@) + binders_of(term@)
            },
            Err(e) => e is TooLarge,
        },
        ({
            let before = Enc {
                nodes: old(net).nodes@,
                reuse: old(net).reuse@,
                scope: entries(old(scope)@),
                vars: entries(old(vars)@),
            };
            let after = Enc {
                nodes: final(net).nodes@,
                reuse: final(net).reuse@,
                scope: entries(final(scope)@),
                vars: entries(final(vars)@),
            };
            match r {
                Ok(l) => encode_spec(before, term@, up) == Some((after, l)),
                Err(_) => encode_spec(before, term@, up) is None,
            }
        }),
    decreases term, 0int,
{
    match term {
        Term::Par { fst, snd } => {
            if !room(net, 1) {
                return Err(EncodeError::TooLarge);
            }
            let dup = new_node(net, FAN);
            proof {
                lemma_valid_grow(scope@, old(net).nodes@.len(), net.nodes@.len());
                lemma_valid_grow(vars@, old(net).nodes@.len(), net.nodes@.len());
            }
            let a = encode_term(net, fst, link(dup, 1), scope, vars)?;
            proof {
                crate::net::lemma_connect_wf(net.nodes@, net.reuse@, lnk(dup as int, 1) as u32, a);
            }
            connect(net, link(dup, 1), a);
            let b = encode_term(net, snd, link(dup, 2), scope, vars)?;
            proof {
                crate::net::lemma_connect_wf(net.nodes@, net.reuse@, lnk(dup as int, 2) as u32, b);
                assert(names(scope@) =~= names(old(scope)@) + binders_of(term@));
                assert(names(vars@) =~= names(old(vars)@) + vars_of(term@));
            }
            connect(net, link(dup, 2), b);
            Ok(link(dup, 0))
        },
        _ => Err(EncodeError::TooLarge),
    }
}

#[verifier::rlimit(100)]
fn encode_dup(
    net: &mut Net,
    term: &Term,
    up: u32,
    scope: &mut Vec<(Vec<u8>, u32)>,
    vars: &mut Vec<(Vec<u8>, u32)>,
) -> (r: Result<u32, EncodeError>)
    requires
        term is Dup,
        wf_cells(old(net).nodes@, old(net).reuse@),
        wf_kinds(old(net).nodes@),
        up < old(net).nodes@.len(),
        is_port(up as int),
        valid_links(old(scope)@, old(net).nodes@.len()),
        valid_links(old(vars)@, old(net).nodes@.len()),
    ensures
        wf_cells(final(net).nodes@, final(net).reuse@),
        wf_kinds(final(net).nodes@),
        final(net).nodes@.len() >= old(net).nodes@.len(),
        old(net).reuse@.len() == 0 ==> final(net).reuse@.len() == 0,
        valid_links(final(scope)@, final(net).nodes@.len()),
        valid_links(final(vars)@, final(net).nodes@.len()),
        match r {
            Ok(l) => {
                &&& l < final(net).nodes@.len()
                &&& is_port(l as int)
                &&& names(final(vars)@) == names(old(vars)@) + vars_of(term@)
                &&& names(final(scope)@) == names(old(scope)@) + binders_of(term@)
            },
            Err(e) => e is TooLarge,
        },
        ({
            let before = Enc {
                nodes: old(net).nodes@,
                reuse: old(net).reuse@,
                scope: entries(old(scope)@),
                vars: entries(old(vars)@),
            };
            let after = Enc {
                nodes: final(net).nodes@,
                reuse: final(net).reuse@,
                scope: entries(final(scope)@),
                vars: entries(final(vars)@),
            };
            match r {
                Ok(l) => encode_spec(before, term@, up) == Some((after, l)),
                Err(_) => encode_spec(before, term@, up) is None,
            }
        }),
    decreases term, 0int,
{
    match term {
        Term::Dup { fst, snd, val, nxt } => {
            if !room(net, 1) {
                return Err(EncodeError::TooLarge);
            }
            let ghost before = enc_of(*old(net), old(scope)@, old(vars)@);
            let dup = new_node(net, FAN);
            let ghost e1 = enc_of(*net, scope@, vars@);
            assert(enc_alloc(before, FAN) == Some((e1, dup)));
            proof {
                lemma_valid_grow(scope@, old(net).nodes@.len(), net.nodes@.len());
                lemma_valid_grow(vars@, old(net).nodes@.len(), net.nodes@.len());
            }
            push_entry(scope, fst, link(dup, 1));
            push_entry(scope, snd, link(dup, 2));
            let ghost pushed_len = net.nodes@.len();
            let ghost s1 = names(scope@);
            let ghost v1 = names(vars@);
            let ghost e1b = enc_of(*net, scope@, vars@);
            let ghost erase1 = fst@ == seq![45u8];
            let ghost erase2 = snd@ == seq![45u8];
            proof {
                assert(s1 =~= names(old(scope)@) + seq![fst@, snd@]);
                assert(v1 =~= names(old(vars)@));
                assert(e1b == Enc {
                    scope: e1.scope.push((fst@, lnk(dup as int, 1) as u32)).push(
                        (snd@, lnk(dup as int, 2) as u32),
                    ),
                    ..e1
                });
                if fst@.len() == 1 && fst@[0] == 45u8 {
                    assert(fst@ =~= seq![45u8]);
                }
                if snd@.len() == 1 && snd@[0] == 45u8 {
                    assert(snd@ =~= seq![45u8]);
                }
            }
            let ghost mut e2 = e1b;
            if fst.len() == 1 && fst[0] == 45u8 {
                let era = match new_eraser(net) {
                    Some(era) => era,
                    None => {
                        assert(enc_erase_at(e1b, lnk(dup as int, 1) as u32, erase1) is None);
                        return Err(EncodeError::TooLarge);
                    },
                };
                proof {
                    crate::net::lemma_connect_wf(
                        net.nodes@,
                        net.reuse@,
                        lnk(dup as int, 1) as u32,
                        lnk(era as int, 0) as u32,
                    );
                }
                connect(net, link(dup, 1), link(era, 0));
                proof {
                    e2 = enc_of(*net, scope@, vars@);
                }
            }
            assert(enc_erase_at(e1b, lnk(dup as int, 1) as u32, erase1) == Some(e2));
            let ghost mut e3 = e2;
            if snd.len() == 1 && snd[0] == 45u8 {
                let era = match new_eraser(net) {
                    Some(era) => era,
                    None => {
                        assert(enc_erase_at(e2, lnk(dup as int, 2) as u32, erase2) is None);
                        return Err(EncodeError::TooLarge);
                    },
                };
                proof {
                    crate::net::lemma_connect_wf(
                        net.nodes@,
                        net.reuse@,
                        lnk(dup as int, 2) as u32,
                        lnk(era as int, 0) as u32,
                    );
                }
                connect(net, link(dup, 2), link(era, 0));
                proof {
                    e3 = enc_of(*net, scope@, vars@);
                }
            }
            assert(enc_erase_at(e2, lnk(dup as int, 2) as u32, erase2) == Some(e3));
            proof {
                lemma_valid_grow(scope@, pushed_len, net.nodes@.len());
                lemma_valid_grow(vars@, pushed_len, net.nodes@.len());
            }
            let v = encode_term(net, val, link(dup, 0), scope, vars)?;
            let ghost s2 = names(scope@);
            let ghost v2 = names(vars@);
            proof {
                crate::net::lemma_connect_wf(net.nodes@, net.reuse@, v, lnk(dup as int, 0) as u32);
            }
            let ghost e4 = enc_of(*net, scope@, vars@);
            connect(net, v, link(dup, 0));
            assert(enc_of(*net, scope@, vars@) == enc_connect(e4, v, lnk(dup as int, 0) as u32));
            let r = encode_term(net, nxt, up, scope, vars);
            proof {
                if r is Ok {
                    assert(s2 == s1 + binders_of((**val)@));
                    assert(names(scope@) == s2 + binders_of((**nxt)@));
                    assert(names(scope@) =~= names(old(scope)@) + binders_of(term@));
                    assert(v2 == v1 + vars_of((**val)@));
                    assert(names(vars@) =~= names(old(vars)@) + vars_of(term@));
                }
            }
            r
        },
        _ => Err(EncodeError::TooLarge),
    }
}

#[verifier::rlimit(100)]
fn encode_unit(
    net: &mut Net,
    term: &Term,
    up: u32,
    scope: &mut Vec<(Vec<u8>, u32)>,
    vars: &mut Vec<(Vec<u8>, u32)>,
) -> (r: Result<u32, EncodeError>)
    requires
        term is Unit,
        wf_cells(old(net).nodes@, old(net).reuse@),
        wf_kinds(old(net).nodes@),
        up < old(net).nodes@.len(),
        is_port(up as int),
        valid_links(old(scope)@, old(net).nodes@.len()),
        valid_links(old(vars)@, old(net).nodes@.len()),
    ensures
        wf_cells(final(net).nodes@, final(net).reuse@),
        wf_kinds(final(net).nodes@),
        final(net).nodes@.len() >= old(net).nodes@.len(),
        old(net).reuse@.len() == 0 ==> final(net).reuse@.len() == 0,
        valid_links(final(scope)@, final(net).nodes@.len()),
        valid_links(final(vars)@, final(net).nodes@.len()),
        match r {
            Ok(l) => {
                &&& l < final(net).nodes@.len()
                &&& is_port(l as int)
                &&& names(final(vars)@) == names(old(vars)@) + vars_of(term@)
                &&& names(final(scope)@) == names(old(scope)@) + binders_of(term@)
            },
            Err(e) => e is TooLarge,
        },
        ({
            let before = Enc {
                nodes: old(net).nodes@,
                reuse: old(net).reuse@,
                scope: entries(old(scope)@),
                vars: entries(old(vars)@),
            };
            let after = Enc {
                nodes: final(net).nodes@,
                reuse: final(net).reuse@,
                scope: entries(final(scope)@),
                vars: entries(final(vars)@),
            };
            match r {
                Ok(l) => encode_spec(before, term@, up) == Some((after, l)),
                Err(_) => encode_spec(before, term@, up) is None,
            }
        }),
    decreases term, 0int,
{
    match term {
        Term::Unit => {
            match new_eraser(net) {
                Some(set) => {
                    proof {
                        lemma_valid_grow(scope@, old(net).nodes@.len(), net.nodes@.len());
                        lemma_valid_grow(vars@, old(net).nodes@.len(), net.nodes@.len());
                        assert(names(scope@) =~= names(old(scope)@) + binders_of(term@));
                        assert(names(vars@) =~= names(old(vars)@) + vars_of(term@));
                    }
                    Ok(link(set, 0))
                },
                None => Err(EncodeError::TooLarge),
            }
        },
        _ => Err(EncodeError::TooLarge),
    }
}

#[verifier::rlimit(100)]
fn encode_var(
    net: &mut Net,
    term: &Term,
    up: u32,
    scope: &mut Vec<(Vec<u8>, u32)>,
    vars: &mut Vec<(Vec<u8>, u32)>,
) -> (r: Result<u32, EncodeError>)
    requires
        term is Var,
        wf_cells(old(net).nodes@, old(net).reuse@),
        wf_kinds(old(net).nodes@),
        up < old(net).nodes@.len(),
        is_port(up as int),
        valid_links(old(scope)@, old(net).nodes@.len()),
        valid_links(old(vars)@, old(net).nodes@.len()),
    ensures
        wf_cells(final(net).nodes@, final(net).reuse@),
        wf_kinds(final(net).nodes@),
        final(net).nodes@.len() >= old(net).nodes@.len(),
        old(net).reuse@.len() == 0 ==> final(net).reuse@.len() == 0,
        valid_links(final(scope)@, final(net).nodes@.len()),
        valid_links(final(vars)@, final(net).nodes@.len()),
        match r {
            Ok(l) => {
                &&& l < final(net).nodes@.len()
                &&& is_port(l as int)
                &&& names(final(vars)@) == names(old(vars)@) + vars_of(term@)
                &&& names(final(scope)@) == names(old(scope)@) + binders_of(term@)
            },
            Err(e) => e is TooLarge,
        },
        ({
            let before = Enc {
                nodes: old(net).nodes@,
                reuse: old(net).reuse@,
                scope: entries(old(scope)@),
                vars: entries(old(vars)@),
            };
            let after = Enc {
                nodes: final(net).nodes@,
                reuse: final(net).reuse@,
                scope: entries(final(scope)@),
                vars: entries(final(vars)@),
            };
            match r {
                Ok(l) => encode_spec(before, term@, up) == Some((after, l)),
                Err(_) => encode_spec(before, term@, up) is None,
            }
        }),
    decreases term, 0int,
{
    match term {
        Term::Var { nam } => {
            proof {
                lemma_push_entry(vars@, (*nam, up), net.nodes@.len());
            }
            push_entry(vars, nam, up);
            assert(enc_of(*net, scope@, vars@) == Enc {
            vars: enc_of(*old(net), old(scope)@, old(vars)@).vars.push((nam@, up)),
            ..enc_of(*old(net), old(scope)@, old(vars)@)
            });
            proof {
                assert(names(scope@) =~= names(old(scope)@) + binders_of(term@));
                assert(names(vars@) =~= names(old(vars)@) + vars_of(term@));
            }
            Ok(up)
        },
        _ => Err(EncodeError::TooLarge),
    }
}

/// The position of the last entry of `scope` named `nam`, if any.
fn find_scope(scope: &Vec<(Vec<u8>, u32)>, nam: &Vec<u8>) -> (r: Option<usize>)
    ensures
        match r {
            Some(k) => {
                &&& k < scope@.len()
                &&& scope@[k as int].0@ == nam@
                &&& forall|j: int| k < j < scope@.len() ==> #[trigger] scope@[j].0@ != nam@
            },
            None => !names(scope@).contains(nam@),
        },
        match r {
            Some(k) => find_last(entries(scope@), nam@, scope@.len() as int) == Some(k as int),
            None => find_last(entries(scope@), nam@, scope@.len() as int) is None,
        },
{
    let mut k: usize = scope.len();
    while k > 0
        invariant
            k <= scope@.len(),
            forall|j: int| k <= j < scope@.len() ==> #[trigger] scope@[j].0@ != nam@,
            find_last(entries(scope@), nam@, scope@.len() as int) == find_last(
                entries(scope@),
                nam@,
                k as int,
            ),
        decreases k,
    {
        if same_bytes(scope[k - 1].0.as_slice(), nam.as_slice()) {
            return Some(k - 1);
        }
        k = k - 1;
    }
    proof {
        if names(scope@).contains(nam@) {
            let j = choose|j: int| 0 <= j < names(scope@).len() && names(scope@)[j] == nam@;
            assert(scope@[j].0@ != nam@);
        }
    }
    None
}

/// Encodes a term as a net whose root's port 0 leads to it. Each variable is
/// joined to the binder of its name that was met last; binders left unused get an
/// eraser.
pub fn to_net(term: &Term) -> (r: Result<Net, EncodeError>)
    ensures
        match r {
            Ok(net) => {
                &&& wf_cells(net.nodes@, net.reuse@)
                &&& wf_kinds(net.nodes@)
                &&& net.reuse@.len() == 0
                &&& net.nodes@[net.nodes@[0] as int] == 0
                &&& forall|i: int|
                    0 <= i < vars_of(term@).len() ==> binders_of(term@).contains(
                        #[trigger] vars_of(term@)[i],
                    )
            },
            Err(EncodeError::Unbound { nam }) => vars_of(term@).contains(nam@) && !binders_of(
                term@,
            ).contains(nam@),
            Err(EncodeError::NotAffine { nam }) => vars_of(term@).contains(nam@) && binders_of(
                term@,
            ).contains(nam@),
            Err(EncodeError::TooLarge) => true,
        },
        match net_of(term@) {
            Ok((c, f)) => r matches Ok(net) && net.nodes@ == c && net.reuse@ == f,
            Err(EncodeFault::Unbound(n)) => r matches Err(EncodeError::Unbound { nam }) && nam@ == n,
            Err(EncodeFault::NotAffine(n)) => r matches Err(EncodeError::NotAffine { nam }) && nam@
                == n,
            Err(EncodeFault::TooLarge) => r matches Err(EncodeError::TooLarge),
        },
{
    let mut nodes: Vec<u32> = Vec::new();
    nodes.push(0);
    nodes.push(2);
    nodes.push(1);
    nodes.push(ROOT);
    let mut net = Net { nodes, reuse: Vec::new() };
    let mut vars: Vec<(Vec<u8>, u32)> = Vec::new();
    let mut scope: Vec<(Vec<u8>, u32)> = Vec::new();
    proof {
        assert(names(vars@) =~= seq![]);
        assert(names(scope@) =~= seq![]);
        assert forall|n: int| 0 < n < net.nodes@.len() / 4 implies #[trigger] net.nodes@[lnk(n, 3)]
            <= FAN by {}
    }
    proof {
        assert(net.nodes@ =~= seq![0u32, 2u32, 1u32, ROOT]);
        assert(entries(scope@) =~= seq![]);
        assert(entries(vars@) =~= seq![]);
        assert(enc_of(net, scope@, vars@) == root_enc());
    }
    let main = encode_term(&mut net, term, 0, &mut scope, &mut vars)?;
    let ghost e = enc_of(net, scope@, vars@);
    proof {
        assert(names(vars@) =~= vars_of(term@));
        assert(names(scope@) =~= binders_of(term@));
    }
    let mut i: usize = 0;
    while i < vars.len()
        invariant
            wf_cells(net.nodes@, net.reuse@),
            wf_kinds(net.nodes@),
            net.reuse@.len() == 0,
            valid_links(scope@, net.nodes@.len()),
            valid_links(vars@, net.nodes@.len()),
            main < net.nodes@.len(),
            is_port(main as int),
            names(vars@) == vars_of(term@),
            names(scope@) == binders_of(term@),
            i <= vars@.len(),
            forall|k: int|
                0 <= k < i ==> binders_of(term@).contains(#[trigger] vars_of(term@)[k]),
            encode_spec(root_enc(), term@, 0) == Some((e, main)),
            e.scope == entries(scope@),
            e.vars == entries(vars@),
            net.reuse@ == e.reuse,
            resolve_vars(e.nodes, e.scope, e.vars, i as int) == Ok::<Seq<u32>, EncodeFault>(
                net.nodes@,
            ),
        decreases vars@.len() - i,
    {
        assert(vars_of(term@)[i as int] == vars@[i as int].0@);
        match find_scope(&scope, &vars[i].0) {
            Some(k) => {
                let next = scope[k].1;
                assert(names(scope@)[k as int] == vars@[i as int].0@);
                if enter(&net, next) == next {
                    proof {
                        crate::net::lemma_connect_wf(net.nodes@, net.reuse@, vars@[i as int].1, next);
                    }
                    connect(&mut net, vars[i].1, next);
                } else {
                    proof {
                        assert(e.vars[i as int] == (vars@[i as int].0@, vars@[i as int].1));
                        assert(resolve_vars(e.nodes, e.scope, e.vars, i + 1) == Err::<
                            Seq<u32>,
                            EncodeFault,
                        >(EncodeFault::NotAffine(vars@[i as int].0@)));
                        lemma_resolve_fails_on(
                            e.nodes,
                            e.scope,
                            e.vars,
                            i + 1,
                            e.vars.len() as int,
                        );
                    }
                    return Err(EncodeError::NotAffine { nam: crate::term::clone_bytes(&vars[i].0) });
                }
            },
            None => {
                proof {
                    assert(e.vars[i as int] == (vars@[i as int].0@, vars@[i as int].1));
                    assert(resolve_vars(e.nodes, e.scope, e.vars, i + 1) == Err::<
                        Seq<u32>,
                        EncodeFault,
                    >(EncodeFault::Unbound(vars@[i as int].0@)));
                    lemma_resolve_fails_on(e.nodes, e.scope, e.vars, i + 1, e.vars.len() as int);
                }
                return Err(EncodeError::Unbound { nam: crate::term::clone_bytes(&vars[i].0) });
            },
        }
        i = i + 1;
    }
    let ghost c_res = net.nodes@;
    let mut k: usize = 0;
    while k < scope.len()
        invariant
            wf_cells(net.nodes@, net.reuse@),
            wf_kinds(net.nodes@),
            net.reuse@.len() == 0,
            valid_links(scope@, net.nodes@.len()),
            main < net.nodes@.len(),
            is_port(main as int),
            k <= scope@.len(),
            encode_spec(root_enc(), term@, 0) == Some((e, main)),
            e.scope == entries(scope@),
            e.vars == entries(vars@),
            resolve_vars(e.nodes, e.scope, e.vars, e.vars.len() as int) == Ok::<
                Seq<u32>,
                EncodeFault,
            >(c_res),
            erase_unused(c_res, e.reuse, e.scope, k as int) == Some((net.nodes@, net.reuse@)),
        decreases scope@.len() - k,
    {
        let a = scope[k].1;
        let last = match find_scope(&scope, &scope[k].0) {
            Some(j) => j == k,
            None => false,
        };
        if last && enter(&net, a) == a {
            let ghost len0 = net.nodes@.len();
            let era = match new_eraser(&mut net) {
                Some(era) => era,
                None => {
                    proof {
                        assert(e.scope[k as int] == (scope@[k as int].0@, scope@[k as int].1));
                        assert(erase_unused(c_res, e.reuse, e.scope, k + 1) is None);
                        lemma_erase_fails_on(c_res, e.reuse, e.scope, k + 1, e.scope.len() as int);
                    }
                    return Err(EncodeError::TooLarge);
                },
            };
            proof {
                lemma_valid_grow(scope@, len0, net.nodes@.len());
                crate::net::lemma_connect_wf(net.nodes@, net.reuse@, a, lnk(era as int, 0) as u32);
            }
            connect(&mut net, a, link(era, 0));
        }
        k = k + 1;
    }
    proof {
        crate::net::lemma_connect_wf(net.nodes@, net.reuse@, 0, main);
    }
    connect(&mut net, 0, main);
    Ok(net)
}

} // verus!
