use vstd::prelude::*;
use crate::encode::{binders_of, net_of, to_net, vars_of};
use crate::decode::{decode_of, from_net};
use crate::net::{walk_blocked, walk_run, walk_start};

verus! {

/// Terms of the Symmetric Interaction Calculus.
#[derive(Debug)]
pub enum Term {
    /// An affine abstraction.
    Lam { nam: Vec<u8>, bod: Box<Term> },
    /// An application.
    App { fun: Box<Term>, arg: Box<Term> },
    /// A pair.
    Par { fst: Box<Term>, snd: Box<Term> },
    /// A duplication binding two names in `nxt`.
    Dup { fst: Vec<u8>, snd: Vec<u8>, val: Box<Term>, nxt: Box<Term> },
    /// A variable occurrence.
    Var { nam: Vec<u8> },
    /// The unit.
    Unit,
}

/// The mathematical value of a term: names as byte sequences.
pub enum TermV {
    Lam { nam: Seq<u8>, bod: Box<TermV> },
    App { fun: Box<TermV>, arg: Box<TermV> },
    Par { fst: Box<TermV>, snd: Box<TermV> },
    Dup { fst: Seq<u8>, snd: Seq<u8>, val: Box<TermV>, nxt: Box<TermV> },
    Var { nam: Seq<u8> },
    Unit,
}

impl View for Term {
    type V = TermV;

    open spec fn view(&self) -> TermV
        decreases self,
    {
        match self {
            Term::Lam { nam, bod } => TermV::Lam { nam: nam@, bod: Box::new((**bod)@) },
            Term::App { fun, arg } => TermV::App { fun: Box::new((**fun)@), arg: Box::new((**arg)@) },
            Term::Par { fst, snd } => TermV::Par { fst: Box::new((**fst)@), snd: Box::new((**snd)@) },
            Term::Dup { fst, snd, val, nxt } => TermV::Dup {
                fst: fst@,
                snd: snd@,
                val: Box::new((**val)@),
                nxt: Box::new((**nxt)@),
            },
            Term::Var { nam } => TermV::Var { nam: nam@ },
            Term::Unit => TermV::Unit,
        }
    }
}

/// The name of 1-based index `i`: `a`, `b`, ..., `z`, `aa`, `ab`, ... written
/// least significant letter first.
pub open spec fn name_of_index(i: nat) -> Seq<u8>
    decreases i,
{
    if i == 0 {
        seq![]
    } else {
        seq![(97 + (i - 1) % 26) as u8] + name_of_index(((i - 1) / 26) as nat)
    }
}

/// The index of a name made of the letters `a` to `z`, inverse of `name_of_index`.
pub open spec fn index_of_name(s: Seq<u8>) -> nat
    decreases s.len(),
{
    if s.len() == 0 {
        0
    } else {
        ((s[0] - 96) + 26 * index_of_name(s.drop_first())) as nat
    }
}

/// Every byte is a lowercase letter.
pub open spec fn is_lower_name(s: Seq<u8>) -> bool {
    forall|i: int| 0 <= i < s.len() ==> 97 <= #[trigger] s[i] <= 122
}

/// Builds a variable name from a 1-based index (1 = `a`, 26 = `z`, 27 = `aa`, ...).
pub fn new_name(idx: u32) -> (r: Vec<u8>)
    ensures
        r@ == name_of_index(idx as nat),
{
    let mut name: Vec<u8> = Vec::new();
    let mut idx: u32 = idx;
    let ghost start = idx as nat;
    while idx > 0
        invariant
            name@ + name_of_index(idx as nat) == name_of_index(start),
        decreases idx,
    {
        let ghost before = name@;
        idx = idx - 1;
        name.push((97 + idx % 26) as u8);
        idx = idx / 26;
        proof {
            assert(name@ + name_of_index(idx as nat) =~= before + name_of_index(
                (idx * 26 + (name@.last() - 97) + 1) as nat,
            ));
        }
    }
    proof {
        assert(name@ =~= name@ + name_of_index(0));
    }
    name
}

proof fn lemma_index_of_suffix(s: Seq<u8>, k: int)
    requires
        0 <= k <= s.len(),
        is_lower_name(s),
    ensures
        index_of_name(s.subrange(k, s.len() as int)) <= index_of_name(s),
    decreases k,
{
    if k > 0 {
        lemma_index_of_suffix(s, k - 1);
        let t = s.subrange(k - 1, s.len() as int);
        assert(t.drop_first() =~= s.subrange(k, s.len() as int));
        assert(t[0] == s[k - 1]);
        assert(97 <= s[k - 1]);
    } else {
        assert(s.subrange(0, s.len() as int) =~= s);
    }
}

/// The index of a name built by `new_name`.
pub fn name_idx(name: &Vec<u8>) -> (r: u32)
    requires
        is_lower_name(name@),
        index_of_name(name@) <= u32::MAX,
    ensures
        r == index_of_name(name@),
{
    let mut idx: u32 = 0;
    let mut k: usize = name.len();
    while k > 0
        invariant
            k <= name@.len(),
            is_lower_name(name@),
            index_of_name(name@) <= u32::MAX,
            idx == index_of_name(name@.subrange(k as int, name@.len() as int)),
        decreases k,
    {
        proof {
            lemma_index_of_suffix(name@, k - 1);
            let t = name@.subrange(k - 1, name@.len() as int);
            assert(t.drop_first() =~= name@.subrange(k as int, name@.len() as int));
        }
        k = k - 1;
        idx = (idx * 26) + (name[k] as u32 - 97) + 1;
    }
    proof {
        assert(name@.subrange(0, name@.len() as int) =~= name@);
    }
    idx
}

/// Reading back the name built for a positive index gives that index.
pub proof fn lemma_name_index_round_trip(i: nat)
    ensures
        index_of_name(name_of_index(i)) == i,
        is_lower_name(name_of_index(i)),
    decreases i,
{
    if i > 0 {
        lemma_name_index_round_trip(((i - 1) / 26) as nat);
        let s = name_of_index(i);
        assert(s.drop_first() =~= name_of_index(((i - 1) / 26) as nat));
    }
}


/// The decimal digits of `n`, most significant first.
pub open spec fn decimal_of(n: nat) -> Seq<u8>
    decreases n,
{
    if n < 10 {
        seq![(48 + n) as u8]
    } else {
        decimal_of(n / 10) + seq![(48 + n % 10) as u8]
    }
}

/// The name `var` moved into the namespace `space` with counter `idx`:
/// `space#idx#var`; the reserved name `-` stays as it is.
pub open spec fn namespaced(space: Seq<u8>, idx: nat, var: Seq<u8>) -> Seq<u8> {
    if var == seq![45u8] {
        var
    } else {
        space + seq![35u8] + decimal_of(idx) + seq![35u8] + var
    }
}

/// A term with every binder and variable name moved into a namespace.
pub open spec fn copy_of(space: Seq<u8>, idx: nat, t: TermV) -> TermV
    decreases t,
{
    match t {
        TermV::Lam { nam, bod } => TermV::Lam {
            nam: namespaced(space, idx, nam),
            bod: Box::new(copy_of(space, idx, *bod)),
        },
        TermV::App { fun, arg } => TermV::App {
            fun: Box::new(copy_of(space, idx, *fun)),
            arg: Box::new(copy_of(space, idx, *arg)),
        },
        TermV::Par { fst, snd } => TermV::Par {
            fst: Box::new(copy_of(space, idx, *fst)),
            snd: Box::new(copy_of(space, idx, *snd)),
        },
        TermV::Dup { fst, snd, val, nxt } => TermV::Dup {
            fst: namespaced(space, idx, fst),
            snd: namespaced(space, idx, snd),
            val: Box::new(copy_of(space, idx, *val)),
            nxt: Box::new(copy_of(space, idx, *nxt)),
        },
        TermV::Var { nam } => TermV::Var { nam: namespaced(space, idx, nam) },
        TermV::Unit => TermV::Unit,
    }
}

/// The printed form of a term: one space between children, a newline after the
/// value of a duplication.
pub open spec fn print_of(t: TermV) -> Seq<u8>
    decreases t,
{
    match t {
        TermV::Lam { nam, bod } => seq![92u8] + nam + seq![32u8] + print_of(*bod),
        TermV::App { fun, arg } => seq![47u8] + print_of(*fun) + seq![32u8] + print_of(*arg),
        TermV::Par { fst, snd } => seq![124u8, 32u8] + print_of(*fst) + seq![32u8] + print_of(*snd),
        TermV::Dup { fst, snd, val, nxt } => seq![61u8, 32u8] + fst + seq![32u8] + snd + seq![32u8]
            + print_of(*val) + seq![10u8] + print_of(*nxt),
        TermV::Var { nam } => nam,
        TermV::Unit => seq![42u8],
    }
}

/// Appends the bytes of `s` to `code`.
fn push_bytes(code: &mut Vec<u8>, s: &[u8])
    ensures
        final(code)@ == old(code)@ + s@,
{
    let mut i: usize = 0;
    while i < s.len()
        invariant
            i <= s@.len(),
            code@ == old(code)@ + s@.subrange(0, i as int),
        decreases s@.len() - i,
    {
        code.push(s[i]);
        i = i + 1;
        proof {
            assert(s@.subrange(0, i as int) =~= s@.subrange(0, i - 1) + seq![s@[i - 1]]);
        }
    }
    proof {
        assert(s@.subrange(0, s@.len() as int) =~= s@);
    }
}

/// A fresh copy of a byte string.
pub(crate) fn clone_bytes(s: &Vec<u8>) -> (r: Vec<u8>)
    ensures
        r@ == s@,
{
    let mut r: Vec<u8> = Vec::new();
    push_bytes(&mut r, s.as_slice());
    proof {
        assert(r@ =~= s@);
    }
    r
}

/// Appends the decimal digits of `n` to `out`.
fn push_decimal(out: &mut Vec<u8>, n: u32)
    ensures
        final(out)@ == old(out)@ + decimal_of(n as nat),
    decreases n,
{
    if n >= 10 {
        push_decimal(out, n / 10);
    }
    out.push((48 + n % 10) as u8);
    proof {
        if n >= 10 {
            assert(final(out)@ =~= old(out)@ + decimal_of(n as nat));
        } else {
            assert(final(out)@ =~= old(out)@ + decimal_of(n as nat));
        }
    }
}

/// Moves `var` into the namespace `space` with counter `idx`, as `space#idx#var`;
/// the reserved name `-` is kept.
pub fn namespace(space: &Vec<u8>, idx: u32, var: &Vec<u8>) -> (r: Vec<u8>)
    ensures
        r@ == namespaced(space@, idx as nat, var@),
{
    if !(var.len() == 1 && var[0] == 45u8) {
        let mut nam = clone_bytes(space);
        nam.push(35u8);
        push_decimal(&mut nam, idx);
        nam.push(35u8);
        push_bytes(&mut nam, var.as_slice());
        proof {
            assert(var@ != seq![45u8]);
        }
        nam
    } else {
        proof {
            assert(var@ =~= seq![45u8]);
        }
        clone_bytes(var)
    }
}

/// Makes a copy of a term with every name moved into the namespace `space`.
pub fn copy(space: &Vec<u8>, idx: u32, term: &Term) -> (r: Term)
    ensures
        r@ == copy_of(space@, idx as nat, term@),
    decreases term,
{
    match term {
        Term::Lam { nam, bod } => {
            let nam = namespace(space, idx, nam);
            let bod = Box::new(copy(space, idx, bod));
            Term::Lam { nam, bod }
        },
        Term::App { fun, arg } => {
            let fun = Box::new(copy(space, idx, fun));
            let arg = Box::new(copy(space, idx, arg));
            Term::App { fun, arg }
        },
        Term::Par { fst, snd } => {
            let fst = Box::new(copy(space, idx, fst));
            let snd = Box::new(copy(space, idx, snd));
            Term::Par { fst, snd }
        },
        Term::Dup { fst, snd, val, nxt } => {
            let fst = namespace(space, idx, fst);
            let snd = namespace(space, idx, snd);
            let val = Box::new(copy(space, idx, val));
            let nxt = Box::new(copy(space, idx, nxt));
            Term::Dup { fst, snd, val, nxt }
        },
        Term::Var { nam } => {
            let nam = namespace(space, idx, nam);
            Term::Var { nam }
        },
        Term::Unit => Term::Unit,
    }
}

/// Appends the printed form of `term` to `code`.
fn stringify_term(code: &mut Vec<u8>, term: &Term)
    ensures
        final(code)@ == old(code)@ + print_of(term@),
    decreases term,
{
    match term {
        Term::Lam { nam, bod } => {
            code.push(92u8);
            push_bytes(code, nam.as_slice());
            code.push(32u8);
            stringify_term(code, bod);
        },
        Term::App { fun, arg } => {
            code.push(47u8);
            stringify_term(code, fun);
            code.push(32u8);
            stringify_term(code, arg);
        },
        Term::Par { fst, snd } => {
            code.push(124u8);
            code.push(32u8);
            stringify_term(code, fst);
            code.push(32u8);
            stringify_term(code, snd);
        },
        Term::Dup { fst, snd, val, nxt } => {
            code.push(61u8);
            code.push(32u8);
            push_bytes(code, fst.as_slice());
            code.push(32u8);
            push_bytes(code, snd.as_slice());
            code.push(32u8);
            stringify_term(code, val);
            code.push(10u8);
            stringify_term(code, nxt);
        },
        Term::Unit => {
            code.push(42u8);
        },
        Term::Var { nam } => {
            push_bytes(code, nam.as_slice());
        },
    }
    proof {
        assert(final(code)@ =~= old(code)@ + print_of(term@));
    }
}

/// The printed form of a term.
pub fn to_string(term: &Term) -> (r: Vec<u8>)
    ensures
        r@ == print_of(term@),
{
    let mut code: Vec<u8> = Vec::new();
    stringify_term(&mut code, term);
    proof {
        assert(code@ =~= print_of(term@));
    }
    code
}


/// The number of steps after which the reduction walk from cells `c` and free
/// list `f` first stops.
pub open spec fn first_block(c: Seq<u32>, f: Seq<u32>) -> nat {
    choose|n: nat|
        walk_blocked(walk_run(walk_start(c, f), n)) && forall|m: nat|
            m < n ==> !walk_blocked(#[trigger] walk_run(walk_start(c, f), m))
}

/// The step at which the walk first stops is the one `first_block` names.
pub proof fn lemma_first_block(c: Seq<u32>, f: Seq<u32>, n: nat)
    requires
        walk_blocked(walk_run(walk_start(c, f), n)),
        forall|m: nat| m < n ==> !walk_blocked(#[trigger] walk_run(walk_start(c, f), m)),
    ensures
        first_block(c, f) == n,
{
    let k = first_block(c, f);
    assert(walk_blocked(walk_run(walk_start(c, f), k)) && forall|m: nat|
        m < k ==> !walk_blocked(#[trigger] walk_run(walk_start(c, f), m)));
    if k < n {
        assert(!walk_blocked(walk_run(walk_start(c, f), k)));
    } else if n < k {
        assert(!walk_blocked(walk_run(walk_start(c, f), n)));
    }
}

/// The normal form of a term: its net, reduced until the walk stops, read back.
pub open spec fn normal_form(t: TermV) -> Option<TermV> {
    match net_of(t) {
        Err(_) => None,
        Ok((c, f)) => decode_of(walk_run(walk_start(c, f), first_block(c, f)).nodes),
    }
}

/// Reduces a term through interaction combinators: encode, reduce, decode.
/// Fails when the term cannot be encoded or the result cannot be read back;
/// in particular when a variable has no binder of its name.
pub fn reduce(term: &Term) -> (r: Option<Term>)
    ensures
        match normal_form(term@) {
            Some(t) => r matches Some(t2) && t2@ == t,
            None => r is None,
        },
        (exists|i: int|
            0 <= i < vars_of(term@).len() && !binders_of(term@).contains(
                #[trigger] vars_of(term@)[i],
            )) ==> r is None,
{
    let mut net = match to_net(term) {
        Ok(net) => net,
        Err(_) => {
            return None;
        },
    };
    let ghost c = net.nodes@;
    let ghost f = net.reuse@;
    let stats = crate::net::reduce(&mut net);
    proof {
        lemma_first_block(c, f, stats.loops as nat);
    }
    from_net(&net)
}

} // verus!
