use vstd::prelude::*;
use vstd::utf8::{encode_utf8, decode_utf8_encode_utf8};
use crate::sexp::{Expr, size_of, size_of_seq, clamp_u32};
use crate::printer::{Cursor, render, render_rest, sat, padding};
use crate::reader::{SexpError, read_spec, read_expr_at, read_items_at, space_run, atom_run, error_marker};

verus! {

/// Size is additive: a list weighs exactly the sum of its children, and the
/// sum over a concatenation is the sum of the sums.
pub proof fn lemma_size_additive(a: Seq<Expr>, b: Seq<Expr>)
    ensures
        size_of(Expr::List(a + b)) == size_of_seq(a) + size_of_seq(b),
        size_of_seq(a + b) == size_of_seq(a) + size_of_seq(b),
    decreases b.len(),
{
    if b.len() > 0 {
        assert((a + b).drop_last() =~= a + b.drop_last());
        lemma_size_additive(a, b.drop_last());
    } else {
        assert(a + b =~= a);
    }
}

/// Reading is a function of the bytes alone: the same text reads as the same
/// tree, of the same size.
pub proof fn lemma_size_stable_under_reread(b1: Seq<u8>, b2: Seq<u8>)
    requires
        b1 == b2,
    ensures
        read_spec(b1) == read_spec(b2),
        read_spec(b1) is Ok ==> size_of(read_spec(b1)->Ok_0) == size_of(read_spec(b2)->Ok_0),
{
}

proof fn lemma_items_read_as_list(b: Seq<u8>, j: int, acc: Seq<Expr>)
    ensures
        read_items_at(b, j, acc) is Ok ==> read_items_at(b, j, acc)->Ok_0.0 is List,
    decreases b.len() - j,
{
    let k = j + space_run(b, j);
    if 0 <= k < b.len() && b[k] != 0x29 {
        if let Ok((e, k2)) = read_expr_at(b, k) {
            if k2 > k && k2 <= b.len() {
                lemma_items_read_as_list(b, k2, acc.push(e));
            }
        }
    }
}

/// An atom read at any position is exactly the text of its source slice: its
/// UTF-8 encoding is the bytes between the skipped whitespace and the end
/// position.
pub proof fn lemma_atom_read_fidelity(b: Seq<u8>, i: int, s: Seq<char>, j: int)
    requires
        read_expr_at(b, i) == Ok::<(Expr, int), SexpError>((Expr::Atom(s), j)),
    ensures
        encode_utf8(s) == b.subrange(i + space_run(b, i), j),
{
    let k = i + space_run(b, i);
    lemma_items_read_as_list(b, k + 1, Seq::empty());
    let text = b.subrange(k, k + atom_run(b, k));
    decode_utf8_encode_utf8(text);
}

/// An atom is laid out as exactly its text, whatever the layout state.
pub proof fn lemma_atom_render_fidelity(s: Seq<char>, c: Cursor)
    ensures
        render(Expr::Atom(s), c).0 == s,
{
}

/// A text whose first expression starts with a stray closing parenthesis
/// reads as a tree that carries the error marker, and lays out as
/// `(ERROR)` whatever the layout state.
pub proof fn lemma_error_visible(b: Seq<u8>, c: Cursor)
    requires
        space_run(b, 0) < b.len(),
        b[space_run(b, 0) as int] == 0x29,
    ensures
        read_spec(b) == Ok::<Expr, SexpError>(Expr::List(seq![Expr::Atom(error_marker()), Expr::Nil])),
        render(read_spec(b)->Ok_0, c).0 == seq!['(', 'E', 'R', 'R', 'O', 'R', ')'],
{
    let parts = seq![Expr::Atom(error_marker()), Expr::Nil];
    let e = Expr::List(parts);
    let inner = Cursor { depth: sat(c.depth, 1), ..c };
    let pad = padding(inner);
    let ntw = sat(sat(c.width, pad), clamp_u32(size_of(e)));
    let start = if ntw > c.max_width / 2 && inner.depth > 1 {
        Cursor { width: pad, ..inner }
    } else {
        inner
    };
    let first = render(parts[0], start);
    assert(first.0 == error_marker());
    let tail = parts.subrange(1, 2);
    assert(tail =~= seq![Expr::Nil]);
    assert(tail.drop_last() =~= Seq::<Expr>::empty());
    assert(tail.last() == Expr::Nil);
    let before = render_rest(tail.drop_last(), ntw, first.1);
    assert(before.0 == Seq::<char>::empty());
    assert(render(Expr::Nil, before.1).0 == Seq::<char>::empty());
    let rest = render_rest(tail, ntw, first.1);
    assert(rest.0 =~= Seq::<char>::empty());
    assert(render(e, c).0 == seq!['('] + first.0 + rest.0 + seq![')']);
    assert(render(e, c).0 =~= seq!['(', 'E', 'R', 'R', 'O', 'R', ')']);
}

} // verus!
