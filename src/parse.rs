use vstd::prelude::*;
use crate::term::{Term, TermV, copy, copy_of, print_of};

verus! {

/// Why a source text could not be read as a term.
#[derive(Debug, PartialEq, Eq, Structural)]
pub enum ParseError {
    /// The text ends where a term, or the byte after a name, is expected.
    UnexpectedEnd,
    /// No name starts at byte offset `pos`, where one is required.
    MissingName { pos: usize },
}

/// An entry of the parsing context: a binder (`val` empty) or a definition.
pub struct Binding {
    pub nam: Vec<u8>,
    pub val: Option<Term>,
}

/// Space, line feed or carriage return.
pub open spec fn is_ws(b: u8) -> bool {
    b == 32 || b == 10 || b == 13
}

/// A byte that ends a name: whitespace or one of `\ / | = # *`.
pub open spec fn is_delim(b: u8) -> bool {
    is_ws(b) || b == 92 || b == 47 || b == 124 || b == 61 || b == 35 || b == 42
}

/// The first offset from `j` on that holds no whitespace.
pub open spec fn skip_ws(code: Seq<u8>, j: int) -> int
    decreases code.len() - j,
{
    if 0 <= j < code.len() && is_ws(code[j]) {
        skip_ws(code, j + 1)
    } else {
        j
    }
}

/// The end of the longest run of non-delimiter bytes that starts at `i`.
pub open spec fn name_end(code: Seq<u8>, i: int) -> int
    decreases code.len() - i,
{
    if 0 <= i < code.len() && !is_delim(code[i]) {
        name_end(code, i + 1)
    } else {
        i
    }
}

/// The value of an optional term.
pub open spec fn opt_view(v: Option<Term>) -> Option<TermV> {
    match v {
        Some(t) => Some(t@),
        None => None,
    }
}

/// The value of a parsing context: each entry's name and optional definition.
pub open spec fn ctx_view(ctx: Seq<Binding>) -> Seq<(Seq<u8>, Option<TermV>)> {
    Seq::new(ctx.len(), |i: int| (ctx[i].nam@, opt_view(ctx[i].val)))
}

/// The entry for `nam` among the first `i` of the context, searching from the end.
pub open spec fn find_from(ctx: Seq<(Seq<u8>, Option<TermV>)>, nam: Seq<u8>, i: int) -> Option<
    Option<TermV>,
>
    decreases i,
{
    if i <= 0 {
        None
    } else if ctx[i - 1].0 == nam {
        Some(ctx[i - 1].1)
    } else {
        find_from(ctx, nam, i - 1)
    }
}

/// The term read from `code` at offset `pos` in context `ctx`, with `idx` the
/// counter of copies made so far and `comment` the depth of open comments:
/// the offset after it, the term, and the counter after it.
pub open spec fn parse_spec(
    code: Seq<u8>,
    pos: int,
    ctx: Seq<(Seq<u8>, Option<TermV>)>,
    idx: nat,
    comment: nat,
) -> Result<(int, TermV, nat), ParseError>
    decreases code.len() - pos,
{
    if pos < 0 || pos >= code.len() {
        Err(ParseError::UnexpectedEnd)
    } else if comment > 0 {
        let c = code[pos];
        if c == 40 {
            parse_spec(code, pos + 1, ctx, idx, comment + 1)
        } else if c == 41 {
            parse_spec(code, pos + 1, ctx, idx, (comment - 1) as nat)
        } else {
            parse_spec(code, pos + 1, ctx, idx, comment)
        }
    } else {
        let c = code[pos];
        if is_ws(c) {
            parse_spec(code, pos + 1, ctx, idx, 0)
        } else if c == 40 {
            parse_spec(code, pos + 1, ctx, idx, 1)
        } else if c == 92 {
            let j = skip_ws(code, pos + 1);
            let e = name_end(code, j);
            let nam = code.subrange(j, e);
            if e <= j || j <= pos || e > code.len() {
                Err(ParseError::MissingName { pos: j as usize })
            } else {
                match parse_spec(code, e, ctx.push((nam, None)), idx, 0) {
                    Ok((p, bod, i)) => Ok((p, TermV::Lam { nam, bod: Box::new(bod) }, i)),
                    Err(err) => Err(err),
                }
            }
        } else if c == 47 || c == 124 {
            match parse_spec(code, pos + 1, ctx, idx, 0) {
                Ok((p1, a, i1)) => if pos < p1 <= code.len() {
                    match parse_spec(code, p1, ctx, i1, 0) {
                        Ok((p2, b, i2)) => Ok(
                            (
                                p2,
                                if c == 47 {
                                    TermV::App { fun: Box::new(a), arg: Box::new(b) }
                                } else {
                                    TermV::Par { fst: Box::new(a), snd: Box::new(b) }
                                },
                                i2,
                            ),
                        ),
                        Err(err) => Err(err),
                    }
                } else {
                    Err(ParseError::UnexpectedEnd)
                },
                Err(err) => Err(err),
            }
        } else if c == 61 {
            let j1 = skip_ws(code, pos + 1);
            let e1 = name_end(code, j1);
            if e1 <= j1 || j1 <= pos || e1 > code.len() {
                Err(ParseError::MissingName { pos: j1 as usize })
            } else if e1 >= code.len() {
                Err(ParseError::UnexpectedEnd)
            } else {
                let j2 = skip_ws(code, e1 + 1);
                let e2 = name_end(code, j2);
                if e2 <= j2 || j2 <= e1 || e2 > code.len() {
                    Err(ParseError::MissingName { pos: j2 as usize })
                } else {
                    let fst = code.subrange(j1, e1);
                    let snd = code.subrange(j2, e2);
                    let inner = ctx.push((snd, None)).push((fst, None));
                    match parse_spec(code, e2, inner, idx, 0) {
                        Ok((p1, val, i1)) => if e2 < p1 <= code.len() {
                            match parse_spec(code, p1, inner, i1, 0) {
                                Ok((p2, nxt, i2)) => Ok(
                                    (
                                        p2,
                                        TermV::Dup {
                                            fst,
                                            snd,
                                            val: Box::new(val),
                                            nxt: Box::new(nxt),
                                        },
                                        i2,
                                    ),
                                ),
                                Err(err) => Err(err),
                            }
                        } else {
                            Err(ParseError::UnexpectedEnd)
                        },
                        Err(err) => Err(err),
                    }
                }
            }
        } else if c == 58 {
            let j = skip_ws(code, pos + 1);
            let e = name_end(code, j);
            let nam = code.subrange(j, e);
            if e <= j || j <= pos || e > code.len() {
                Err(ParseError::MissingName { pos: j as usize })
            } else {
                match parse_spec(code, e, ctx, idx, 0) {
                    Ok((p1, val, i1)) => if e < p1 <= code.len() {
                        parse_spec(code, p1, ctx.push((nam, Some(val))), i1, 0)
                    } else {
                        Err(ParseError::UnexpectedEnd)
                    },
                    Err(err) => Err(err),
                }
            }
        } else if c == 42 {
            Ok((pos + 1, TermV::Unit, idx))
        } else {
            let e = name_end(code, pos);
            let nam = code.subrange(pos, e);
            if e <= pos {
                Err(ParseError::MissingName { pos: pos as usize })
            } else {
                match find_from(ctx, nam, ctx.len() as int) {
                    Some(Some(v)) => Ok((e, copy_of(nam, idx, v), idx + 1)),
                    _ => Ok((e, TermV::Var { nam }, idx)),
                }
            }
        }
    }
}

/// The term that a whole source text denotes, read from its start.
pub open spec fn parse_of(code: Seq<u8>) -> Result<TermV, ParseError> {
    match parse_spec(code, 0, seq![], 0, 0) {
        Ok((_, t, _)) => Ok(t),
        Err(e) => Err(e),
    }
}

/// The exec result `r`, with the counter `idx` after the call, is the one that
/// `parse_spec` gives.
pub open spec fn parse_agrees(
    r: Result<(usize, Term), ParseError>,
    s: Result<(int, TermV, nat), ParseError>,
    idx: u32,
) -> bool {
    match s {
        Ok((p, t, i)) => match r {
            Ok((p2, t2)) => p2 == p && t2@ == t && idx == i,
            Err(_) => false,
        },
        Err(e) => match r {
            Ok(_) => false,
            Err(e2) => e2 == e,
        },
    }
}


/// Skips whitespace from `pos`, then reads a name: its start and its end.
fn parse_name(code: &[u8], pos: usize) -> (r: (usize, usize))
    requires
        pos <= code@.len(),
    ensures
        r.0 == skip_ws(code@, pos as int),
        r.1 == name_end(code@, r.0 as int),
        pos <= r.0 <= r.1 <= code@.len(),
{
    let mut j: usize = pos;
    while j < code.len() && (code[j] == 32u8 || code[j] == 10u8 || code[j] == 13u8)
        invariant
            pos <= j <= code@.len(),
            skip_ws(code@, j as int) == skip_ws(code@, pos as int),
        decreases code@.len() - j,
    {
        j = j + 1;
    }
    let mut i: usize = j;
    while i < code.len() && !(code[i] == 32u8 || code[i] == 10u8 || code[i] == 13u8 || code[i]
        == 92u8 || code[i] == 47u8 || code[i] == 124u8 || code[i] == 61u8 || code[i] == 35u8
        || code[i] == 42u8)
        invariant
            j <= i <= code@.len(),
            name_end(code@, i as int) == name_end(code@, j as int),
        decreases code@.len() - i,
    {
        i = i + 1;
    }
    (j, i)
}

/// The bytes of `code` from `j` to `e`.
fn sub_bytes(code: &[u8], j: usize, e: usize) -> (r: Vec<u8>)
    requires
        j <= e <= code@.len(),
    ensures
        r@ == code@.subrange(j as int, e as int),
{
    let mut r: Vec<u8> = Vec::new();
    let mut i: usize = j;
    while i < e
        invariant
            j <= i <= e,
            e <= code@.len(),
            r@ == code@.subrange(j as int, i as int),
        decreases e - i,
    {
        r.push(code[i]);
        i = i + 1;
        proof {
            assert(r@ =~= code@.subrange(j as int, i as int));
        }
    }
    r
}

/// Whether two byte strings are equal.
pub(crate) fn same_bytes(a: &[u8], b: &[u8]) -> (r: bool)
    ensures
        r == (a@ == b@),
{
    if a.len() != b.len() {
        return false;
    }
    let mut i: usize = 0;
    while i < a.len()
        invariant
            i <= a@.len(),
            a@.len() == b@.len(),
            a@.subrange(0, i as int) == b@.subrange(0, i as int),
        decreases a@.len() - i,
    {
        if a[i] != b[i] {
            proof {
                assert(a@[i as int] != b@[i as int]);
            }
            return false;
        }
        proof {
            assert(a@.subrange(0, i + 1) =~= a@.subrange(0, i as int).push(a@[i as int]));
            assert(b@.subrange(0, i + 1) =~= b@.subrange(0, i as int).push(b@[i as int]));
        }
        i = i + 1;
    }
    proof {
        assert(a@ =~= a@.subrange(0, i as int));
        assert(b@ =~= b@.subrange(0, i as int));
    }
    true
}

/// The position of the last entry of `ctx` named `nam`, if any.
fn lookup(ctx: &Vec<Binding>, nam: &Vec<u8>) -> (r: Option<usize>)
    ensures
        match r {
            Some(k) => k < ctx@.len() && find_from(ctx_view(ctx@), nam@, ctx@.len() as int) == Some(
                opt_view(ctx@[k as int].val),
            ),
            None => find_from(ctx_view(ctx@), nam@, ctx@.len() as int) == None::<Option<TermV>>,
        },
{
    let ghost cv = ctx_view(ctx@);
    let mut k: usize = ctx.len();
    while k > 0
        invariant
            k <= ctx@.len(),
            cv == ctx_view(ctx@),
            find_from(cv, nam@, ctx@.len() as int) == find_from(cv, nam@, k as int),
        decreases k,
    {
        if same_bytes(ctx[k - 1].nam.as_slice(), nam.as_slice()) {
            return Some(k - 1);
        }
        k = k - 1;
    }
    None
}

/// Pushes an entry onto the context.
fn extend(ctx: &mut Vec<Binding>, nam: Vec<u8>, val: Option<Term>)
    ensures
        final(ctx)@ == old(ctx)@.push(Binding { nam, val }),
        ctx_view(final(ctx)@) == ctx_view(old(ctx)@).push((nam@, opt_view(val))),
{
    ctx.push(Binding { nam, val });
    proof {
        assert(ctx_view(ctx@) =~= ctx_view(old(ctx)@).push((nam@, opt_view(val))));
    }
}

/// Removes the last entry of the context.
fn narrow(ctx: &mut Vec<Binding>)
    requires
        old(ctx)@.len() > 0,
    ensures
        final(ctx)@ == old(ctx)@.drop_last(),
{
    ctx.pop();
}

/// Parses a term from `code` at offset `pos`: the offset after it and the term.
/// Variables bound by a definition in `ctx` are replaced by a copy of its value,
/// namespaced with the counter `idx`, which then advances.
pub fn parse_term(
    code: &[u8],
    pos: usize,
    ctx: &mut Vec<Binding>,
    idx: &mut u32,
    comment: u32,
) -> (r: Result<(usize, Term), ParseError>)
    requires
        pos <= code@.len(),
        *old(idx) as int + (code@.len() - pos) <= u32::MAX,
        comment as int + (code@.len() - pos) <= u32::MAX,
    ensures
        parse_agrees(
            r,
            parse_spec(code@, pos as int, ctx_view(old(ctx)@), *old(idx) as nat, comment as nat),
            *final(idx),
        ),
        final(ctx)@ == old(ctx)@,
        r matches Ok((p, _)) ==> pos < p <= code@.len() && *final(idx) as int <= *old(idx) as int
            + (p - pos),
    decreases code@.len() - pos,
{
    if pos >= code.len() {
        return Err(ParseError::UnexpectedEnd);
    }
    let c = code[pos];
    if comment > 0 {
        if c == 40u8 {
            parse_term(code, pos + 1, ctx, idx, comment + 1)
        } else if c == 41u8 {
            parse_term(code, pos + 1, ctx, idx, comment - 1)
        } else {
            parse_term(code, pos + 1, ctx, idx, comment)
        }
    } else if c == 32u8 || c == 10u8 || c == 13u8 {
        parse_term(code, pos + 1, ctx, idx, 0)
    } else if c == 40u8 {
        parse_term(code, pos + 1, ctx, idx, 1)
    } else if c == 92u8 {
        let (j, e) = parse_name(code, pos + 1);
        if e <= j {
            return Err(ParseError::MissingName { pos: j });
        }
        let nam = sub_bytes(code, j, e);
        extend(ctx, sub_bytes(code, j, e), None);
        let r = parse_term(code, e, ctx, idx, 0);
        narrow(ctx);
        proof {
            assert(ctx@ =~= old(ctx)@);
        }
        match r {
            Ok((p, bod)) => Ok((p, Term::Lam { nam, bod: Box::new(bod) })),
            Err(err) => Err(err),
        }
    } else if c == 47u8 || c == 124u8 {
        let r1 = parse_term(code, pos + 1, ctx, idx, 0);
        match r1 {
            Err(err) => Err(err),
            Ok((p1, a)) => {
                let r2 = parse_term(code, p1, ctx, idx, 0);
                match r2 {
                    Err(err) => Err(err),
                    Ok((p2, b)) => {
                        if c == 47u8 {
                            Ok((p2, Term::App { fun: Box::new(a), arg: Box::new(b) }))
                        } else {
                            Ok((p2, Term::Par { fst: Box::new(a), snd: Box::new(b) }))
                        }
                    },
                }
            },
        }
    } else if c == 61u8 {
        let (j1, e1) = parse_name(code, pos + 1);
        if e1 <= j1 {
            return Err(ParseError::MissingName { pos: j1 });
        }
        if e1 >= code.len() {
            return Err(ParseError::UnexpectedEnd);
        }
        let (j2, e2) = parse_name(code, e1 + 1);
        if e2 <= j2 {
            return Err(ParseError::MissingName { pos: j2 });
        }
        let fst = sub_bytes(code, j1, e1);
        let snd = sub_bytes(code, j2, e2);
        extend(ctx, sub_bytes(code, j2, e2), None);
        extend(ctx, sub_bytes(code, j1, e1), None);
        let ghost inner = ctx_view(ctx@);
        let r1 = parse_term(code, e2, ctx, idx, 0);
        let r = match r1 {
            Err(err) => Err(err),
            Ok((p1, val)) => {
                let r2 = parse_term(code, p1, ctx, idx, 0);
                match r2 {
                    Err(err) => Err(err),
                    Ok((p2, nxt)) => Ok(
                        (p2, Term::Dup { fst, snd, val: Box::new(val), nxt: Box::new(nxt) }),
                    ),
                }
            },
        };
        narrow(ctx);
        narrow(ctx);
        proof {
            assert(ctx@ =~= old(ctx)@);
        }
        r
    } else if c == 58u8 {
        let (j, e) = parse_name(code, pos + 1);
        if e <= j {
            return Err(ParseError::MissingName { pos: j });
        }
        let r1 = parse_term(code, e, ctx, idx, 0);
        match r1 {
            Err(err) => Err(err),
            Ok((p1, val)) => {
                extend(ctx, sub_bytes(code, j, e), Some(val));
                let r2 = parse_term(code, p1, ctx, idx, 0);
                narrow(ctx);
                proof {
                    assert(ctx@ =~= old(ctx)@);
                }
                r2
            },
        }
    } else if c == 42u8 {
        Ok((pos + 1, Term::Unit))
    } else {
        let (j, e) = parse_name(code, pos);
        if e <= j {
            return Err(ParseError::MissingName { pos });
        }
        let nam = sub_bytes(code, j, e);
        match lookup(ctx, &nam) {
            Some(k) => match &ctx[k].val {
                Some(term) => {
                    let t = copy(&nam, *idx, term);
                    *idx = *idx + 1;
                    Ok((e, t))
                },
                None => Ok((e, Term::Var { nam })),
            },
            None => Ok((e, Term::Var { nam })),
        }
    }
}

/// Reads a source text as a term.
pub fn from_string(code: &[u8]) -> (r: Result<Term, ParseError>)
    requires
        code@.len() <= u32::MAX,
    ensures
        match parse_of(code@) {
            Ok(t) => r matches Ok(t2) && t2@ == t,
            Err(e) => r == Err::<Term, ParseError>(e),
        },
{
    let mut ctx: Vec<Binding> = Vec::new();
    let mut idx: u32 = 0;
    proof {
        assert(ctx_view(ctx@) =~= seq![]);
    }
    match parse_term(code, 0, &mut ctx, &mut idx, 0) {
        Ok((_, t)) => Ok(t),
        Err(e) => Err(e),
    }
}


/// A name that the parser reads back whole: non-empty, with no delimiter byte.
pub open spec fn good_name(s: Seq<u8>) -> bool {
    &&& s.len() > 0
    &&& forall|i: int| 0 <= i < s.len() ==> !is_delim(#[trigger] s[i])
}

/// Every name of the term reads back whole, and no variable starts with `(` or
/// `:`, which would open a comment or a definition.
pub open spec fn printable(t: TermV) -> bool
    decreases t,
{
    match t {
        TermV::Lam { nam, bod } => good_name(nam) && printable(*bod),
        TermV::App { fun, arg } => printable(*fun) && printable(*arg),
        TermV::Par { fst, snd } => printable(*fst) && printable(*snd),
        TermV::Dup { fst, snd, val, nxt } => good_name(fst) && good_name(snd) && printable(*val)
            && printable(*nxt),
        TermV::Var { nam } => good_name(nam) && nam[0] != 40 && nam[0] != 58,
        TermV::Unit => true,
    }
}

/// `code` holds `q` from offset `pos` on.
pub open spec fn holds_at(code: Seq<u8>, pos: int, q: Seq<u8>) -> bool {
    &&& 0 <= pos
    &&& pos + q.len() <= code.len()
    &&& forall|i: int| 0 <= i < q.len() ==> code[pos + i] == #[trigger] q[i]
}

/// `code` ends at `e`, or holds a delimiter there.
pub open spec fn ends_name(code: Seq<u8>, e: int) -> bool {
    e == code.len() || (0 <= e < code.len() && is_delim(code[e]))
}

proof fn lemma_holds_part(code: Seq<u8>, pos: int, p: Seq<u8>, off: int, q: Seq<u8>)
    requires
        holds_at(code, pos, p),
        0 <= off,
        off + q.len() <= p.len(),
        p.subrange(off, off + q.len()) == q,
    ensures
        holds_at(code, pos + off, q),
{
    assert forall|i: int| 0 <= i < q.len() implies code[pos + off + i] == #[trigger] q[i] by {
        assert(p.subrange(off, off + q.len())[i] == p[off + i]);
        assert(code[pos + (off + i)] == p[off + i]);
    }
}

proof fn lemma_name_end_at(code: Seq<u8>, pos: int, s: Seq<u8>)
    requires
        holds_at(code, pos, s),
        forall|i: int| 0 <= i < s.len() ==> !is_delim(#[trigger] s[i]),
        ends_name(code, pos + s.len()),
    ensures
        name_end(code, pos) == pos + s.len(),
    decreases s.len(),
{
    if s.len() > 0 {
        assert(code[pos + 0] == s[0]);
        let t = s.drop_first();
        assert forall|i: int| 0 <= i < t.len() implies code[pos + 1 + i] == #[trigger] t[i] by {
            assert(code[pos + (i + 1)] == s[i + 1]);
        }
        assert forall|i: int| 0 <= i < t.len() implies !is_delim(#[trigger] t[i]) by {
            assert(t[i] == s[i + 1]);
        }
        lemma_name_end_at(code, pos + 1, t);
    }
}

proof fn lemma_find_no_definition(ctx: Seq<(Seq<u8>, Option<TermV>)>, nam: Seq<u8>, i: int)
    requires
        i <= ctx.len(),
        forall|k: int| 0 <= k < ctx.len() ==> (#[trigger] ctx[k]).1 is None,
    ensures
        !(find_from(ctx, nam, i) matches Some(Some(_))),
    decreases i,
{
    if i > 0 {
        assert(ctx[i - 1].1 is None);
        lemma_find_no_definition(ctx, nam, i - 1);
    }
}

proof fn lemma_no_definition_push(ctx: Seq<(Seq<u8>, Option<TermV>)>, nam: Seq<u8>)
    requires
        forall|k: int| 0 <= k < ctx.len() ==> (#[trigger] ctx[k]).1 is None,
    ensures
        forall|k: int|
            0 <= k < ctx.push((nam, None)).len() ==> (#[trigger] ctx.push((nam, None))[k]).1 is None,
{
    assert forall|k: int| 0 <= k < ctx.push((nam, None)).len() implies (#[trigger] ctx.push(
        (nam, None),
    )[k]).1 is None by {
        if k < ctx.len() {
            assert(ctx.push((nam, None))[k] == ctx[k]);
        }
    }
}

/// Reading the printed form of a printable term, wherever it stands in a text
/// and whatever binders are in scope, gives the term back and stops at its end.
proof fn lemma_parse_printed(
    t: TermV,
    code: Seq<u8>,
    pos: int,
    ctx: Seq<(Seq<u8>, Option<TermV>)>,
    idx: nat,
)
    requires
        printable(t),
        holds_at(code, pos, print_of(t)),
        ends_name(code, pos + print_of(t).len()),
        forall|k: int| 0 <= k < ctx.len() ==> (#[trigger] ctx[k]).1 is None,
    ensures
        parse_spec(code, pos, ctx, idx, 0) == Ok::<(int, TermV, nat), ParseError>(
            (pos + print_of(t).len(), t, idx),
        ),
    decreases t, 1int,
{
    match t {
        TermV::Lam { .. } => lemma_printed_lam(t, code, pos, ctx, idx),
        TermV::App { .. } => lemma_printed_app(t, code, pos, ctx, idx),
        TermV::Par { .. } => lemma_printed_par(t, code, pos, ctx, idx),
        TermV::Dup { .. } => lemma_printed_dup(t, code, pos, ctx, idx),
        TermV::Var { .. } => lemma_printed_var(t, code, pos, ctx, idx),
        TermV::Unit => lemma_printed_unit(t, code, pos, ctx, idx),
    }
}

#[verifier::rlimit(40)]
proof fn lemma_printed_lam(
    t: TermV,
    code: Seq<u8>,
    pos: int,
    ctx: Seq<(Seq<u8>, Option<TermV>)>,
    idx: nat,
)
    requires
        printable(t),
        t is Lam,
        holds_at(code, pos, print_of(t)),
        ends_name(code, pos + print_of(t).len()),
        forall|k: int| 0 <= k < ctx.len() ==> (#[trigger] ctx[k]).1 is None,
    ensures
        parse_spec(code, pos, ctx, idx, 0) == Ok::<(int, TermV, nat), ParseError>(
            (pos + print_of(t).len(), t, idx),
        ),
    decreases t, 0int,
{
    let p = print_of(t);
    let n = p.len() as int;
    match t {
        TermV::Lam { nam, bod } => {
            let pb = print_of(*bod);
            assert(p == seq![92u8] + nam + seq![32u8] + pb);
            assert(code[pos + 0] == p[0]);
            assert(code[pos + 1] == p[1]);
            let e = pos + 1 + (nam.len() as int);
            assert(code[pos + (1 + (nam.len() as int))] == p[1 + (nam.len() as int)]);
            assert(p.subrange(1, 1 + (nam.len() as int)) =~= nam);
            lemma_holds_part(code, pos, p, 1, nam);
            lemma_name_end_at(code, pos + 1, nam);
            assert(skip_ws(code, pos + 1) == pos + 1);
            assert(p.subrange(2 + (nam.len() as int), n) =~= pb);
            lemma_holds_part(code, pos, p, 2 + (nam.len() as int), pb);
            lemma_no_definition_push(ctx, nam);
            lemma_parse_printed(*bod, code, e + 1, ctx.push((nam, None)), idx);
            assert(parse_spec(code, e, ctx.push((nam, None)), idx, 0) == parse_spec(
                code,
                e + 1,
                ctx.push((nam, None)),
                idx,
                0,
            ));
            assert(code.subrange(pos + 1, e) =~= nam);
        },
        _ => {},
    }
}

#[verifier::rlimit(40)]
proof fn lemma_printed_app(
    t: TermV,
    code: Seq<u8>,
    pos: int,
    ctx: Seq<(Seq<u8>, Option<TermV>)>,
    idx: nat,
)
    requires
        printable(t),
        t is App,
        holds_at(code, pos, print_of(t)),
        ends_name(code, pos + print_of(t).len()),
        forall|k: int| 0 <= k < ctx.len() ==> (#[trigger] ctx[k]).1 is None,
    ensures
        parse_spec(code, pos, ctx, idx, 0) == Ok::<(int, TermV, nat), ParseError>(
            (pos + print_of(t).len(), t, idx),
        ),
    decreases t, 0int,
{
    let p = print_of(t);
    let n = p.len() as int;
    match t {
        TermV::App { fun, arg } => {
            let pf = print_of(*fun);
            let pa = print_of(*arg);
            assert(p == seq![47u8] + pf + seq![32u8] + pa);
            assert(code[pos + 0] == p[0]);
            assert(p.subrange(1, 1 + (pf.len() as int)) =~= pf);
            lemma_holds_part(code, pos, p, 1, pf);
            assert(code[pos + (1 + (pf.len() as int))] == p[1 + (pf.len() as int)]);
            lemma_parse_printed(*fun, code, pos + 1, ctx, idx);
            let p1 = pos + 1 + (pf.len() as int);
            assert(p.subrange(2 + (pf.len() as int), n) =~= pa);
            lemma_holds_part(code, pos, p, 2 + (pf.len() as int), pa);
            lemma_parse_printed(*arg, code, p1 + 1, ctx, idx);
            assert(parse_spec(code, p1, ctx, idx, 0) == parse_spec(code, p1 + 1, ctx, idx, 0));
        },
        _ => {},
    }
}

#[verifier::rlimit(40)]
proof fn lemma_printed_par(
    t: TermV,
    code: Seq<u8>,
    pos: int,
    ctx: Seq<(Seq<u8>, Option<TermV>)>,
    idx: nat,
)
    requires
        printable(t),
        t is Par,
        holds_at(code, pos, print_of(t)),
        ends_name(code, pos + print_of(t).len()),
        forall|k: int| 0 <= k < ctx.len() ==> (#[trigger] ctx[k]).1 is None,
    ensures
        parse_spec(code, pos, ctx, idx, 0) == Ok::<(int, TermV, nat), ParseError>(
            (pos + print_of(t).len(), t, idx),
        ),
    decreases t, 0int,
{
    let p = print_of(t);
    let n = p.len() as int;
    match t {
        TermV::Par { fst, snd } => {
            let pf = print_of(*fst);
            let ps = print_of(*snd);
            assert(p == seq![124u8, 32u8] + pf + seq![32u8] + ps);
            assert(code[pos + 0] == p[0]);
            assert(code[pos + 1] == p[1]);
            assert(p.subrange(2, 2 + (pf.len() as int)) =~= pf);
            lemma_holds_part(code, pos, p, 2, pf);
            assert(code[pos + (2 + (pf.len() as int))] == p[2 + (pf.len() as int)]);
            lemma_parse_printed(*fst, code, pos + 2, ctx, idx);
            assert(parse_spec(code, pos + 1, ctx, idx, 0) == parse_spec(code, pos + 2, ctx, idx, 0));
            let p1 = pos + 2 + (pf.len() as int);
            assert(p.subrange(3 + (pf.len() as int), n) =~= ps);
            lemma_holds_part(code, pos, p, 3 + (pf.len() as int), ps);
            lemma_parse_printed(*snd, code, p1 + 1, ctx, idx);
            assert(parse_spec(code, p1, ctx, idx, 0) == parse_spec(code, p1 + 1, ctx, idx, 0));
        },
        _ => {},
    }
}

#[verifier::rlimit(40)]
proof fn lemma_printed_dup(
    t: TermV,
    code: Seq<u8>,
    pos: int,
    ctx: Seq<(Seq<u8>, Option<TermV>)>,
    idx: nat,
)
    requires
        printable(t),
        t is Dup,
        holds_at(code, pos, print_of(t)),
        ends_name(code, pos + print_of(t).len()),
        forall|k: int| 0 <= k < ctx.len() ==> (#[trigger] ctx[k]).1 is None,
    ensures
        parse_spec(code, pos, ctx, idx, 0) == Ok::<(int, TermV, nat), ParseError>(
            (pos + print_of(t).len(), t, idx),
        ),
    decreases t, 0int,
{
    let p = print_of(t);
    let n = p.len() as int;
    match t {
        TermV::Dup { fst, snd, val, nxt } => {
            let pv = print_of(*val);
            let pn = print_of(*nxt);
            let a = fst.len() as int;
            let b = snd.len() as int;
            assert(p == seq![61u8, 32u8] + fst + seq![32u8] + snd + seq![32u8] + pv + seq![10u8]
                + pn);
            assert(code[pos + 0] == p[0]);
            assert(code[pos + 1] == p[1]);
            assert(code[pos + 2] == p[2]);
            assert(p.subrange(2, 2 + a) =~= fst);
            lemma_holds_part(code, pos, p, 2, fst);
            let e1 = pos + 2 + a;
            assert(code[pos + (2 + a)] == p[2 + a]);
            lemma_name_end_at(code, pos + 2, fst);
            assert(skip_ws(code, pos + 2) == pos + 2);
            assert(skip_ws(code, pos + 1) == pos + 2);
            assert(code[pos + (3 + a)] == p[3 + a]);
            assert(p.subrange(3 + a, 3 + a + b) =~= snd);
            lemma_holds_part(code, pos, p, 3 + a, snd);
            let e2 = pos + 3 + a + b;
            assert(code[pos + (3 + a + b)] == p[3 + a + b]);
            lemma_name_end_at(code, pos + 3 + a, snd);
            assert(skip_ws(code, e1 + 1) == e1 + 1);
            let inner = ctx.push((snd, None)).push((fst, None));
            lemma_no_definition_push(ctx, snd);
            lemma_no_definition_push(ctx.push((snd, None)), fst);
            assert(p.subrange(4 + a + b, 4 + a + b + (pv.len() as int)) =~= pv);
            lemma_holds_part(code, pos, p, 4 + a + b, pv);
            assert(code[pos + (4 + a + b + (pv.len() as int))] == p[4 + a + b + (pv.len() as int)]);
            lemma_parse_printed(*val, code, e2 + 1, inner, idx);
            assert(parse_spec(code, e2, inner, idx, 0) == parse_spec(code, e2 + 1, inner, idx, 0));
            let p1 = e2 + 1 + (pv.len() as int);
            assert(p.subrange(5 + a + b + (pv.len() as int), n) =~= pn);
            lemma_holds_part(code, pos, p, 5 + a + b + (pv.len() as int), pn);
            lemma_parse_printed(*nxt, code, p1 + 1, inner, idx);
            assert(parse_spec(code, p1, inner, idx, 0) == parse_spec(code, p1 + 1, inner, idx, 0));
            assert(code.subrange(pos + 2, e1) =~= fst);
            assert(code.subrange(e1 + 1, e2) =~= snd);
        },
        _ => {},
    }
}

#[verifier::rlimit(40)]
proof fn lemma_printed_var(
    t: TermV,
    code: Seq<u8>,
    pos: int,
    ctx: Seq<(Seq<u8>, Option<TermV>)>,
    idx: nat,
)
    requires
        printable(t),
        t is Var,
        holds_at(code, pos, print_of(t)),
        ends_name(code, pos + print_of(t).len()),
        forall|k: int| 0 <= k < ctx.len() ==> (#[trigger] ctx[k]).1 is None,
    ensures
        parse_spec(code, pos, ctx, idx, 0) == Ok::<(int, TermV, nat), ParseError>(
            (pos + print_of(t).len(), t, idx),
        ),
    decreases t, 0int,
{
    let p = print_of(t);
    let n = p.len() as int;
    match t {
        TermV::Var { nam } => {
            assert(p == nam);
            assert(code[pos + 0] == nam[0]);
            assert(!is_delim(nam[0]));
            lemma_name_end_at(code, pos, nam);
            assert(code.subrange(pos, pos + (nam.len() as int)) =~= nam);
            lemma_find_no_definition(ctx, nam, ctx.len() as int);
        },
        _ => {},
    }
}

#[verifier::rlimit(40)]
proof fn lemma_printed_unit(
    t: TermV,
    code: Seq<u8>,
    pos: int,
    ctx: Seq<(Seq<u8>, Option<TermV>)>,
    idx: nat,
)
    requires
        printable(t),
        t is Unit,
        holds_at(code, pos, print_of(t)),
        ends_name(code, pos + print_of(t).len()),
        forall|k: int| 0 <= k < ctx.len() ==> (#[trigger] ctx[k]).1 is None,
    ensures
        parse_spec(code, pos, ctx, idx, 0) == Ok::<(int, TermV, nat), ParseError>(
            (pos + print_of(t).len(), t, idx),
        ),
    decreases t, 0int,
{
    assert(code[pos + 0] == print_of(t)[0]);
}

/// Reading back the printed form of a term gives the term, for every term whose
/// names are non-empty, hold no delimiter byte, and (for variables) do not start
/// with `(` or `:`.
pub proof fn lemma_parse_print_round_trip(t: TermV)
    requires
        printable(t),
    ensures
        parse_of(print_of(t)) == Ok::<TermV, ParseError>(t),
{
    let code = print_of(t);
    assert forall|i: int| 0 <= i < code.len() implies code[0 + i] == #[trigger] code[i] by {}
    lemma_parse_printed(t, code, 0, seq![], 0);
}

} // verus!
