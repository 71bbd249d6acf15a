use vstd::prelude::*;
use vstd::string::{StringExecFns, StringSliceAdditionalSpecFns};
use vstd::utf8::{decode_utf8, valid_utf8};
use crate::sexp::{Expr, Sexp, model_of, model_of_seq, lemma_model_of_seq};

verus! {

/// Why a text could not be read as an expression.
#[derive(Debug, PartialEq, Eq, Structural)]
pub enum SexpError {
    /// No expression could be read: the input is blank or a list is not closed.
    ParseError,
    /// An atom's bytes are not valid UTF-8.
    TextDecodeError,
}

pub open spec fn is_space(c: u8) -> bool {
    c == 0x20 || c == 0x09 || c == 0x0a || c == 0x0b || c == 0x0c || c == 0x0d
}

pub open spec fn is_atom_byte(c: u8) -> bool {
    !is_space(c) && c != 0x28 && c != 0x29
}

/// Number of whitespace bytes starting at `i`.
pub open spec fn space_run(b: Seq<u8>, i: int) -> nat
    decreases b.len() - i,
{
    if 0 <= i < b.len() && is_space(b[i]) {
        1 + space_run(b, i + 1)
    } else {
        0
    }
}

/// Number of atom bytes starting at `i`.
pub open spec fn atom_run(b: Seq<u8>, i: int) -> nat
    decreases b.len() - i,
{
    if 0 <= i < b.len() && is_atom_byte(b[i]) {
        1 + atom_run(b, i + 1)
    } else {
        0
    }
}

/// The marker put in front of a tree read from a stray closing parenthesis.
pub open spec fn error_marker() -> Seq<char> {
    seq!['E', 'R', 'R', 'O', 'R']
}

/// Reads one expression at or after `i`: the expression and the position
/// just past it.
pub open spec fn read_expr_at(b: Seq<u8>, i: int) -> Result<(Expr, int), SexpError>
    decreases b.len() - i, 0int,
{
    let k = i + space_run(b, i);
    if !(0 <= k < b.len()) {
        Err(SexpError::ParseError)
    } else if b[k] == 0x28 {
        read_items_at(b, k + 1, Seq::empty())
    } else if b[k] == 0x29 {
        Ok((Expr::List(seq![Expr::Atom(error_marker()), Expr::Nil]), k + 1))
    } else {
        let text = b.subrange(k, k + atom_run(b, k));
        if valid_utf8(text) {
            Ok((Expr::Atom(decode_utf8(text)), k + atom_run(b, k)))
        } else {
            Err(SexpError::TextDecodeError)
        }
    }
}

/// Reads the remaining items of a list whose items so far are `acc`, up to and
/// including its closing parenthesis.
pub open spec fn read_items_at(b: Seq<u8>, j: int, acc: Seq<Expr>) -> Result<(Expr, int), SexpError>
    decreases b.len() - j, 1int,
{
    let k = j + space_run(b, j);
    if !(0 <= k < b.len()) {
        Err(SexpError::ParseError)
    } else if b[k] == 0x29 {
        Ok((Expr::List(acc), k + 1))
    } else {
        match read_expr_at(b, k) {
            Err(e) => Err(e),
            Ok((e, k2)) => {
                if k2 <= k || k2 > b.len() {
                    Err(SexpError::ParseError)
                } else {
                    read_items_at(b, k2, acc.push(e))
                }
            },
        }
    }
}

/// The expression that a text reads as: its first expression.
pub open spec fn read_spec(b: Seq<u8>) -> Result<Expr, SexpError> {
    match read_expr_at(b, 0) {
        Ok((e, _)) => Ok(e),
        Err(x) => Err(x),
    }
}

/// Relies on std::str::from_utf8, which accepts exactly the valid UTF-8 byte
/// sequences, and on str::to_string, which copies the decoded text.
#[verifier::external_body]
fn decode_text(bytes: &[u8]) -> (r: Option<String>)
    ensures
        r is Some <==> valid_utf8(bytes@),
        r is Some ==> r->Some_0@ == decode_utf8(bytes@),
{
    match std::str::from_utf8(bytes) {
        Ok(s) => Some(s.to_string()),
        Err(_) => None,
    }
}

fn space_end(bytes: &[u8], i: usize) -> (r: usize)
    requires
        i <= bytes@.len(),
    ensures
        r == i + space_run(bytes@, i as int),
        r <= bytes@.len(),
{
    let mut k: usize = i;
    while k < bytes.len() && (bytes[k] == 0x20 || bytes[k] == 0x09 || bytes[k] == 0x0a
        || bytes[k] == 0x0b || bytes[k] == 0x0c || bytes[k] == 0x0d)
        invariant
            i <= k <= bytes@.len(),
            i + space_run(bytes@, i as int) == k + space_run(bytes@, k as int),
        decreases bytes@.len() - k,
    {
        k = k + 1;
    }
    k
}

fn atom_end(bytes: &[u8], i: usize) -> (r: usize)
    requires
        i <= bytes@.len(),
    ensures
        r == i + atom_run(bytes@, i as int),
        r <= bytes@.len(),
{
    let mut k: usize = i;
    while k < bytes.len() && !(bytes[k] == 0x20 || bytes[k] == 0x09 || bytes[k] == 0x0a
        || bytes[k] == 0x0b || bytes[k] == 0x0c || bytes[k] == 0x0d || bytes[k] == 0x28
        || bytes[k] == 0x29)
        invariant
            i <= k <= bytes@.len(),
            i + atom_run(bytes@, i as int) == k + atom_run(bytes@, k as int),
        decreases bytes@.len() - k,
    {
        k = k + 1;
    }
    k
}

spec fn agrees(r: Result<(Sexp, usize), SexpError>, s: Result<(Expr, int), SexpError>) -> bool {
    match r {
        Ok((e, k)) => s == Ok::<(Expr, int), SexpError>((e@, k as int)),
        Err(x) => s == Err::<(Expr, int), SexpError>(x),
    }
}

fn read_expr(bytes: &[u8], i: usize) -> (r: Result<(Sexp, usize), SexpError>)
    requires
        i <= bytes@.len(),
    ensures
        agrees(r, read_expr_at(bytes@, i as int)),
        r is Ok ==> i < r->Ok_0.1 <= bytes@.len(),
    decreases bytes@.len() - i,
{
    let k = space_end(bytes, i);
    if k >= bytes.len() {
        return Err(SexpError::ParseError);
    }
    if bytes[k] == 0x28 {
        let mut items: Vec<Sexp> = Vec::new();
        let mut j: usize = k + 1;
        proof {
            assert(model_of_seq(items@) =~= Seq::<Expr>::empty());
        }
        loop
            invariant
                k + 1 <= j <= bytes@.len(),
                i <= k,
                read_items_at(bytes@, j as int, model_of_seq(items@)) == read_expr_at(bytes@, i as int),
            decreases bytes@.len() - j,
        {
            let p = space_end(bytes, j);
            if p >= bytes.len() {
                return Err(SexpError::ParseError);
            }
            if bytes[p] == 0x29 {
                return Ok((Sexp::List(items), p + 1));
            }
            match read_expr(bytes, p) {
                Err(e) => {
                    return Err(e);
                },
                Ok((e, q)) => {
                    proof {
                        assert(items@.push(e).drop_last() =~= items@);
                    }
                    items.push(e);
                    j = q;
                },
            }
        }
    } else if bytes[k] == 0x29 {
        proof {
            reveal_strlit("ERROR");
        }
        let mut items: Vec<Sexp> = Vec::new();
        let marker = String::from_str("ERROR");
        assert(marker@ == error_marker());
        items.push(Sexp::Atom(marker));
        items.push(Sexp::Nil);
        proof {
            lemma_model_of_seq(items@);
            assert(model_of(items@[0]) == Expr::Atom(error_marker()));
            assert(model_of(items@[1]) == Expr::Nil);
            assert(model_of_seq(items@) =~= seq![Expr::Atom(error_marker()), Expr::Nil]);
        }
        Ok((Sexp::List(items), k + 1))
    } else {
        let n = atom_end(bytes, k);
        let text = vstd::slice::slice_subrange(bytes, k, n);
        match decode_text(text) {
            Some(s) => Ok((Sexp::Atom(s), n)),
            None => Err(SexpError::TextDecodeError),
        }
    }
}

impl Sexp {
    /// Reads the first expression of `input`.
    pub fn of_str(input: &str) -> (r: Result<Sexp, SexpError>)
        ensures
            match r {
                Ok(e) => read_spec(input.spec_bytes()) == Ok::<Expr, SexpError>(e@),
                Err(x) => read_spec(input.spec_bytes()) == Err::<Expr, SexpError>(x),
            },
    {
        Sexp::of_bytes(input.as_bytes())
    }

    /// Reads the first expression of a byte buffer.
    pub fn of_bytes(bytes: &[u8]) -> (r: Result<Sexp, SexpError>)
        ensures
            match r {
                Ok(e) => read_spec(bytes@) == Ok::<Expr, SexpError>(e@),
                Err(x) => read_spec(bytes@) == Err::<Expr, SexpError>(x),
            },
    {
        match read_expr(bytes, 0) {
            Ok((e, _)) => Ok(e),
            Err(x) => Err(x),
        }
    }
}

} // verus!
