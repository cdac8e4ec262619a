use vstd::prelude::*;
use crate::decode::from_net;
use crate::encode::{EncodeError, to_net};
use crate::net::{Stats, reduce};
use crate::parse::{ParseError, from_string, parse_of};
use crate::encode::net_of;
use crate::term::{lemma_first_block, normal_form, print_of, to_string};

verus! {

/// Why a source text could not be evaluated.
#[derive(Debug)]
pub enum EvalError {
    /// The text is too long for the parser's counters.
    TooLong,
    /// The text is not a term.
    Parse(ParseError),
    /// The term is not an affine, closed term, or too large.
    Encode(EncodeError),
    /// The reduced net holds no term.
    Decode,
}

/// The source text `code` followed by a newline, the definition
/// `:main <expr>`, and a use of `main`.
pub open spec fn with_main_of(code: Seq<u8>, expr: Seq<u8>) -> Seq<u8> {
    code + seq![10u8, 58u8, 109u8, 97u8, 105u8, 110u8, 32u8] + expr + seq![
        10u8,
        109u8,
        97u8,
        105u8,
        110u8,
    ]
}

/// Appends to a source text the definition of `main` as `expr`, and a use of it.
pub fn with_main(code: &[u8], expr: &[u8]) -> (r: Vec<u8>)
    ensures
        r@ == with_main_of(code@, expr@),
{
    let mut out: Vec<u8> = Vec::new();
    let mut i: usize = 0;
    while i < code.len()
        invariant
            i <= code@.len(),
            out@ == code@.subrange(0, i as int),
        decreases code@.len() - i,
    {
        out.push(code[i]);
        i = i + 1;
        proof {
            assert(out@ =~= code@.subrange(0, i as int));
        }
    }
    let ghost head = out@;
    out.push(10u8);
    out.push(58u8);
    out.push(109u8);
    out.push(97u8);
    out.push(105u8);
    out.push(110u8);
    out.push(32u8);
    let ghost mid = out@;
    let mut j: usize = 0;
    while j < expr.len()
        invariant
            j <= expr@.len(),
            out@ == mid + expr@.subrange(0, j as int),
        decreases expr@.len() - j,
    {
        out.push(expr[j]);
        j = j + 1;
        proof {
            assert(out@ =~= mid + expr@.subrange(0, j as int));
        }
    }
    out.push(10u8);
    out.push(109u8);
    out.push(97u8);
    out.push(105u8);
    out.push(110u8);
    proof {
        assert(code@.subrange(0, code@.len() as int) =~= code@);
        assert(expr@.subrange(0, expr@.len() as int) =~= expr@);
        assert(out@ =~= with_main_of(code@, expr@));
    }
    out
}

/// Evaluates a source text: parse, encode, reduce, decode and print. Returns
/// the printed normal form and the counters of the reduction.
pub fn run(code: &[u8]) -> (r: Result<(Vec<u8>, Stats), EvalError>)
    ensures
        code@.len() > u32::MAX ==> r matches Err(EvalError::TooLong),
        code@.len() <= u32::MAX ==> (parse_of(code@) matches Err(e) <==> r matches Err(
            EvalError::Parse(_),
        )),
        code@.len() <= u32::MAX ==> (parse_of(code@) matches Err(e) ==> r == Err::<
            (Vec<u8>, Stats),
            EvalError,
        >(EvalError::Parse(e))),
        r matches Ok((_, stats)) ==> stats.rules == stats.annis + stats.dupls && stats.betas
            <= stats.annis,
        code@.len() <= u32::MAX ==> match parse_of(code@) {
            Err(_) => true,
            Ok(t) => match normal_form(t) {
                Some(nf) => r matches Ok((out, _)) && out@ == print_of(nf),
                None => if net_of(t) is Err {
                    r matches Err(EvalError::Encode(_))
                } else {
                    r matches Err(EvalError::Decode)
                },
            },
        },
{
    if code.len() > 0xFFFF_FFFF {
        return Err(EvalError::TooLong);
    }
    let term = match from_string(code) {
        Ok(t) => t,
        Err(e) => {
            return Err(EvalError::Parse(e));
        },
    };
    let mut net = match to_net(&term) {
        Ok(net) => net,
        Err(e) => {
            return Err(EvalError::Encode(e));
        },
    };
    let ghost c = net.nodes@;
    let ghost f = net.reuse@;
    let stats = reduce(&mut net);
    proof {
        lemma_first_block(c, f, stats.loops as nat);
    }
    match from_net(&net) {
        Some(norm) => Ok((to_string(&norm), stats)),
        None => Err(EvalError::Decode),
    }
}

} // verus!
