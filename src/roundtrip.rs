use vstd::prelude::*;
use vstd::utf8::{
    encode_utf8, encode_scalar, has_width_1_encoding, is_ascii_chars, is_ascii_chars_encode_utf8,
    encode_utf8_decode_utf8, encode_utf8_valid_utf8,
};
use crate::sexp::{Expr, size_of, clamp_u32};
use crate::printer::{Cursor, render, render_rest, sat, padding, spaces};
use crate::reader::{SexpError, read_spec, read_expr_at, read_items_at, space_run, atom_run, is_space, is_atom_byte};

verus! {

/// A character that may stand in an atom of a plain tree: neither ASCII
/// whitespace nor a parenthesis.
pub open spec fn is_atom_char(ch: char) -> bool {
    ch > '\u{7f}' || is_atom_byte(ch as u8)
}

/// A tree without `Nil` whose atoms are non-empty runs of atom characters.
pub open spec fn plain(e: Expr) -> bool
    decreases e,
{
    match e {
        Expr::Atom(s) => s.len() > 0 && forall|j: int| 0 <= j < s.len() ==> is_atom_char(#[trigger] s[j]),
        Expr::List(parts) => plain_seq(parts),
        Expr::Nil => false,
    }
}

pub open spec fn plain_seq(parts: Seq<Expr>) -> bool
    decreases parts,
{
    if parts.len() == 0 {
        true
    } else {
        plain_seq(parts.drop_last()) && plain(parts.last())
    }
}

/// The UTF-8 encoding of `t` stands in `b` from position `i` on.
pub open spec fn laid_at(b: Seq<u8>, i: int, t: Seq<char>) -> bool {
    &&& 0 <= i
    &&& i + encode_utf8(t).len() <= b.len()
    &&& b.subrange(i, i + encode_utf8(t).len()) == encode_utf8(t)
}

proof fn lemma_char_range(c: char)
    ensures
        '\0' <= c,
        c <= '\u{7f}' <==> (c as u32) <= 0x7f,
{
}

proof fn lemma_encode_concat(a: Seq<char>, t: Seq<char>)
    ensures
        encode_utf8(a + t) == encode_utf8(a) + encode_utf8(t),
    decreases a.len(),
{
    if a.len() == 0 {
        assert(a + t =~= t);
    } else {
        assert((a + t).drop_first() =~= a.drop_first() + t);
        assert((a + t)[0] == a[0]);
        lemma_encode_concat(a.drop_first(), t);
    }
}

/// A text that starts with an ASCII character encodes to bytes that start
/// with that character's code.
proof fn lemma_encode_first_ascii(t: Seq<char>)
    requires
        t.len() > 0,
        t[0] <= '\u{7f}',
    ensures
        encode_utf8(t).len() > 0,
        encode_utf8(t)[0] == t[0] as u8,
{
    let one = seq![t[0]];
    assert(t =~= one + t.drop_first());
    lemma_encode_concat(one, t.drop_first());
    assert(one[0] == t[0]);
    lemma_char_range(t[0]);
    assert(is_ascii_chars(one));
    is_ascii_chars_encode_utf8(one);
    assert(one[0] == t[0]);
}

proof fn lemma_encode_single(ch: char)
    requires
        ch <= '\u{7f}',
    ensures
        encode_utf8(seq![ch]) == seq![ch as u8],
{
    let one = seq![ch];
    lemma_char_range(ch);
    assert(is_ascii_chars(one));
    is_ascii_chars_encode_utf8(one);
    assert(encode_utf8(one) =~= seq![ch as u8]);
}

proof fn lemma_scalar_high_bytes(v: u32)
    requires
        !has_width_1_encoding(v),
    ensures
        encode_scalar(v).len() > 0,
        forall|j: int| 0 <= j < encode_scalar(v).len() ==> #[trigger] encode_scalar(v)[j] >= 0x80,
{
    assert(forall|x: u8| #![auto] (0xC0u8 | x) >= 0x80u8) by (bit_vector);
    assert(forall|x: u8| #![auto] (0xE0u8 | x) >= 0x80u8) by (bit_vector);
    assert(forall|x: u8| #![auto] (0xF0u8 | x) >= 0x80u8) by (bit_vector);
    assert(forall|x: u8| #![auto] (0x80u8 | x) >= 0x80u8) by (bit_vector);
}

/// Every byte of the encoding of atom characters is an atom byte.
proof fn lemma_encode_atom_bytes(s: Seq<char>)
    requires
        forall|j: int| 0 <= j < s.len() ==> is_atom_char(#[trigger] s[j]),
    ensures
        s.len() > 0 ==> encode_utf8(s).len() > 0,
        forall|j: int| 0 <= j < encode_utf8(s).len() ==> is_atom_byte(#[trigger] encode_utf8(s)[j]),
    decreases s.len(),
{
    if s.len() > 0 {
        let c = s[0];
        assert(is_atom_char(s[0]));
        let rest = s.drop_first();
        assert forall|j: int| 0 <= j < rest.len() implies is_atom_char(#[trigger] rest[j]) by {
            assert(rest[j] == s[j + 1]);
        }
        lemma_encode_atom_bytes(rest);
        let head = encode_scalar(c as u32);
        assert(encode_utf8(s) == head + encode_utf8(rest));
        if c <= '\u{7f}' {
            let one = seq![c];
            assert(one[0] == c);
            lemma_char_range(c);
            assert(is_ascii_chars(one));
            is_ascii_chars_encode_utf8(one);
            assert(one.drop_first() =~= Seq::<char>::empty());
            assert(encode_utf8(one) =~= head);
            assert(head.len() == 1);
            assert(head[0] == c as u8);
        } else {
            lemma_char_range(c);
            assert(!has_width_1_encoding(c as u32));
            lemma_scalar_high_bytes(c as u32);
        }
        assert forall|j: int| 0 <= j < encode_utf8(s).len() implies is_atom_byte(#[trigger] encode_utf8(s)[j]) by {
            if j < head.len() {
                assert(encode_utf8(s)[j] == head[j]);
            } else {
                assert(encode_utf8(s)[j] == encode_utf8(rest)[j - head.len()]);
            }
        }
    }
}

/// Nothing that could continue an atom follows position `k`.
pub open spec fn ends_token(b: Seq<u8>, k: int) -> bool {
    k == b.len() || (0 <= k < b.len() && !is_atom_byte(b[k]))
}

proof fn lemma_plain_seq(parts: Seq<Expr>)
    requires
        plain_seq(parts),
    ensures
        forall|k: int| 0 <= k < parts.len() ==> plain(#[trigger] parts[k]),
    decreases parts.len(),
{
    if parts.len() > 0 {
        lemma_plain_seq(parts.drop_last());
        assert forall|k: int| 0 <= k < parts.len() implies plain(#[trigger] parts[k]) by {
            if k < parts.len() - 1 {
                assert(parts[k] == parts.drop_last()[k]);
            }
        }
    }
}

proof fn lemma_space_run(b: Seq<u8>, i: int, n: int)
    requires
        0 <= i,
        0 <= n,
        i + n <= b.len(),
        forall|j: int| i <= j < i + n ==> is_space(#[trigger] b[j]),
        i + n == b.len() || !is_space(b[i + n]),
    ensures
        space_run(b, i) == n,
    decreases n,
{
    if n > 0 {
        lemma_space_run(b, i + 1, n - 1);
    }
}

proof fn lemma_atom_run(b: Seq<u8>, i: int, n: int)
    requires
        0 <= i,
        0 <= n,
        i + n <= b.len(),
        forall|j: int| i <= j < i + n ==> is_atom_byte(#[trigger] b[j]),
        ends_token(b, i + n),
    ensures
        atom_run(b, i) == n,
    decreases n,
{
    if n > 0 {
        lemma_atom_run(b, i + 1, n - 1);
    }
}

/// The layout of a plain tree is non-empty, and its first byte is neither
/// whitespace nor a closing parenthesis: `(` for a list, an atom byte for an atom.
proof fn lemma_render_first(e: Expr, c: Cursor)
    requires
        plain(e),
    ensures
        render(e, c).0.len() > 0,
        encode_utf8(render(e, c).0).len() > 0,
        !is_space(encode_utf8(render(e, c).0)[0]),
        encode_utf8(render(e, c).0)[0] != 0x29,
        e is List ==> encode_utf8(render(e, c).0)[0] == 0x28,
{
    match e {
        Expr::Atom(s) => {
            lemma_encode_atom_bytes(s);
        },
        _ => {
            lemma_encode_first_ascii(render(e, c).0);
        },
    }
}

proof fn lemma_laid_split(b: Seq<u8>, i: int, a: Seq<char>, t: Seq<char>)
    requires
        laid_at(b, i, a + t),
    ensures
        laid_at(b, i, a),
        laid_at(b, i + encode_utf8(a).len(), t),
        encode_utf8(a + t).len() == encode_utf8(a).len() + encode_utf8(t).len(),
{
    lemma_encode_concat(a, t);
    let ea = encode_utf8(a);
    let et = encode_utf8(t);
    let whole = b.subrange(i, i + ea.len() + et.len());
    assert(whole == ea + et);
    assert(b.subrange(i, i + ea.len()) =~= whole.subrange(0, ea.len() as int));
    assert(whole.subrange(0, ea.len() as int) =~= ea);
    assert(b.subrange(i + ea.len(), i + ea.len() + et.len()) =~= whole.subrange(ea.len() as int, whole.len() as int));
    assert(whole.subrange(ea.len() as int, whole.len() as int) =~= et);
}

proof fn lemma_laid_prefix(b: Seq<u8>, x: int, a: Seq<char>, whole: Seq<char>)
    requires
        laid_at(b, x, whole),
        a.len() <= whole.len(),
        whole.take(a.len() as int) == a,
    ensures
        laid_at(b, x, a),
        laid_at(b, x + encode_utf8(a).len(), whole.skip(a.len() as int)),
{
    assert(whole =~= a + whole.skip(a.len() as int));
    lemma_laid_split(b, x, a, whole.skip(a.len() as int));
}

/// The byte at the start of a laid text is the first byte of its encoding.
proof fn lemma_laid_first(b: Seq<u8>, i: int, t: Seq<char>)
    requires
        laid_at(b, i, t),
        encode_utf8(t).len() > 0,
    ensures
        b[i] == encode_utf8(t)[0],
{
    assert(b.subrange(i, i + encode_utf8(t).len())[0] == b[i]);
}

/// A separator encodes to one whitespace byte per character.
proof fn lemma_sep_bytes(sep: Seq<char>)
    requires
        forall|j: int| 0 <= j < sep.len() ==> #[trigger] sep[j] == ' ' || sep[j] == '\n',
    ensures
        encode_utf8(sep).len() == sep.len(),
        forall|j: int| 0 <= j < sep.len() ==> is_space(#[trigger] encode_utf8(sep)[j]),
{
    assert(is_ascii_chars(sep)) by {
        assert forall|j: int| 0 <= j < sep.len() implies '\0' <= #[trigger] sep[j] <= '\u{7f}' by {
            lemma_char_range(sep[j]);
        }
    }
    is_ascii_chars_encode_utf8(sep);
    assert forall|j: int| 0 <= j < sep.len() implies is_space(#[trigger] encode_utf8(sep)[j]) by {
        assert(encode_utf8(sep)[j] == sep[j] as u8);
    }
}

/// Output and state after the children `1..n` of a list.
pub open spec fn rest_at(parts: Seq<Expr>, ntw: u32, c1: Cursor, n: int) -> (Seq<char>, Cursor) {
    render_rest(parts.subrange(1, n), ntw, c1)
}

/// What separates child `n` from the one before it.
pub open spec fn sep_of(parts: Seq<Expr>, ntw: u32, c1: Cursor, n: int) -> Seq<char> {
    let c = rest_at(parts, ntw, c1, n).1;
    if sat(sat(ntw, padding(c)), clamp_u32(size_of(parts[n]))) > c.max_width {
        seq!['\n'] + spaces(sat(padding(c), c.indent_size) as nat)
    } else {
        seq![' ']
    }
}

proof fn lemma_rest_step(parts: Seq<Expr>, ntw: u32, c1: Cursor, n: int)
    requires
        1 <= n < parts.len(),
        !(parts[n] is Nil),
    ensures
        rest_at(parts, ntw, c1, n + 1).0 == rest_at(parts, ntw, c1, n).0 + sep_of(parts, ntw, c1, n)
            + render(parts[n], rest_at(parts, ntw, c1, n).1).0,
        rest_at(parts, ntw, c1, n + 1).1 == render(parts[n], rest_at(parts, ntw, c1, n).1).1,
        sep_of(parts, ntw, c1, n).len() > 0,
        sep_of(parts, ntw, c1, n)[0] == ' ' || sep_of(parts, ntw, c1, n)[0] == '\n',
        forall|j: int| 0 <= j < sep_of(parts, ntw, c1, n).len() ==>
            #[trigger] sep_of(parts, ntw, c1, n)[j] == ' ' || sep_of(parts, ntw, c1, n)[j] == '\n',
{
    let rest = parts.subrange(1, n + 1);
    assert(rest.drop_last() =~= parts.subrange(1, n));
    assert(rest.last() == parts[n]);
    let sep = sep_of(parts, ntw, c1, n);
    assert forall|j: int| 0 <= j < sep.len() implies #[trigger] sep[j] == ' ' || sep[j] == '\n' by {
        if j > 0 && sep.len() > 1 {
            assert(sep[j] == ' ');
        }
    }
}

proof fn lemma_rest_prefix(parts: Seq<Expr>, ntw: u32, c1: Cursor, n: int, m: int)
    requires
        1 <= n <= m <= parts.len(),
        forall|k: int| 0 <= k < parts.len() ==> plain(#[trigger] parts[k]),
    ensures
        rest_at(parts, ntw, c1, n).0.len() <= rest_at(parts, ntw, c1, m).0.len(),
        rest_at(parts, ntw, c1, m).0.take(rest_at(parts, ntw, c1, n).0.len() as int) == rest_at(parts, ntw, c1, n).0,
    decreases m - n,
{
    if n < m {
        lemma_rest_prefix(parts, ntw, c1, n, m - 1);
        assert(plain(parts[m - 1]));
        lemma_rest_step(parts, ntw, c1, m - 1);
        let a = rest_at(parts, ntw, c1, n).0;
        let b = rest_at(parts, ntw, c1, m - 1).0;
        let d = rest_at(parts, ntw, c1, m).0;
        assert(d.take(b.len() as int) =~= b);
        assert(d.take(a.len() as int) =~= b.take(a.len() as int));
    }
}

proof fn lemma_read_rendered(b: Seq<u8>, i: int, e: Expr, c: Cursor)
    requires
        plain(e),
        laid_at(b, i, render(e, c).0),
        ends_token(b, i + encode_utf8(render(e, c).0).len()),
    ensures
        read_expr_at(b, i) == Ok::<(Expr, int), SexpError>((e, i + encode_utf8(render(e, c).0).len())),
    decreases e, 1int,
{
    let t = render(e, c).0;
    lemma_render_first(e, c);
    lemma_laid_first(b, i, t);
    lemma_space_run(b, i, 0);
    match e {
        Expr::Atom(s) => {
            assert(t == s);
            let n = encode_utf8(s).len() as int;
            lemma_encode_atom_bytes(s);
            assert forall|j: int| i <= j < i + n implies is_atom_byte(#[trigger] b[j]) by {
                assert(b.subrange(i, i + n)[j - i] == b[j]);
            }
            lemma_atom_run(b, i, n);
            encode_utf8_valid_utf8(s);
            encode_utf8_decode_utf8(s);
            assert(b.subrange(i, i + n) == encode_utf8(s));
        },
        Expr::List(parts) => {
            if parts.len() == 0 {
                let open = seq!['('];
                let close = seq![')'];
                assert(t =~= open + close);
                lemma_laid_split(b, i, open, close);
                lemma_encode_single('(');
                lemma_encode_single(')');
                lemma_laid_first(b, i + 1, close);
                lemma_space_run(b, i + 1, 0);
                assert(parts =~= Seq::<Expr>::empty());
            } else {
                lemma_read_list(b, i, e, c);
            }
        },
        Expr::Nil => {},
    }
}

#[verifier::rlimit(50)]
proof fn lemma_read_list(b: Seq<u8>, i: int, e: Expr, c: Cursor)
    requires
        plain(e),
        e is List,
        e->List_0.len() > 0,
        laid_at(b, i, render(e, c).0),
        b[i] == 0x28,
        !is_space(b[i]),
    ensures
        read_expr_at(b, i) == Ok::<(Expr, int), SexpError>((e, i + encode_utf8(render(e, c).0).len())),
    decreases e, 0int,
{
    let parts = e->List_0;
    assert(decreases_to!(e => e->List_0));
    lemma_plain_seq(parts);
    lemma_space_run(b, i, 0);
    let t = render(e, c).0;
    let inner = Cursor { depth: sat(c.depth, 1), ..c };
    let pad = padding(inner);
    let ntw = sat(sat(c.width, pad), clamp_u32(size_of(e)));
    let start = if ntw > c.max_width / 2 && inner.depth > 1 {
        Cursor { width: pad, ..inner }
    } else {
        inner
    };
    let first = render(parts[0], start);
    let big = parts.len() as int;
    let rl = rest_at(parts, ntw, first.1, big);
    let open = seq!['('];
    let close = seq![')'];
    assert(t == open + first.0 + rl.0 + close);
    assert(open + first.0 + rl.0 + close == open + (first.0 + (rl.0 + close)));
    lemma_laid_split(b, i, open, first.0 + (rl.0 + close));
    lemma_encode_single('(');
    lemma_laid_split(b, i + 1, first.0, rl.0 + close);
    let x = i + 1 + encode_utf8(first.0).len();
    lemma_laid_split(b, x, rl.0, close);
    let y = x + encode_utf8(rl.0).len();
    lemma_encode_single(')');
    lemma_laid_first(b, y, close);
    lemma_render_first(parts[0], start);
    lemma_laid_first(b, i + 1, first.0);
    lemma_space_run(b, i + 1, 0);
    if big > 1 {
        lemma_rest_step(parts, ntw, first.1, 1);
        lemma_rest_prefix(parts, ntw, first.1, 2, big);
        assert(parts.subrange(1, 1) =~= Seq::<Expr>::empty());
        let r2 = rest_at(parts, ntw, first.1, 2).0;
        let sep = sep_of(parts, ntw, first.1, 1);
        lemma_laid_prefix(b, x, r2, rl.0);
        assert(r2[0] == sep[0]);
        lemma_char_range(r2[0]);
        lemma_encode_first_ascii(r2);
        lemma_laid_first(b, x, r2);
    } else {
        assert(rl.0 =~= Seq::<char>::empty());
    }
    assert(decreases_to!(parts => parts[0]));
    lemma_read_rendered(b, i + 1, parts[0], start);
    assert(Seq::<Expr>::empty().push(parts[0]) =~= parts.take(1));
    assert(parts.subrange(1, 1) =~= Seq::<Expr>::empty());
    lemma_read_rest(b, parts, ntw, first.1, x, 1);
}

proof fn lemma_read_rest(b: Seq<u8>, parts: Seq<Expr>, ntw: u32, c1: Cursor, x: int, n: int)
    requires
        1 <= n <= parts.len(),
        forall|k: int| 0 <= k < parts.len() ==> plain(#[trigger] parts[k]),
        laid_at(b, x, rest_at(parts, ntw, c1, parts.len() as int).0),
        x + encode_utf8(rest_at(parts, ntw, c1, parts.len() as int).0).len() < b.len(),
        b[x + encode_utf8(rest_at(parts, ntw, c1, parts.len() as int).0).len()] == 0x29,
    ensures
        read_items_at(b, x + encode_utf8(rest_at(parts, ntw, c1, n).0).len(), parts.take(n)) == Ok::<
            (Expr, int),
            SexpError,
        >((Expr::List(parts), x + encode_utf8(rest_at(parts, ntw, c1, parts.len() as int).0).len() + 1)),
    decreases parts, parts.len() - n,
{
    let big = parts.len() as int;
    let rl = rest_at(parts, ntw, c1, big).0;
    let rn = rest_at(parts, ntw, c1, n);
    let p = x + encode_utf8(rn.0).len();
    if n == big {
        lemma_space_run(b, p, 0);
        assert(parts.take(n) =~= parts);
    } else {
        assert(plain(parts[n]));
        lemma_rest_step(parts, ntw, c1, n);
        lemma_rest_prefix(parts, ntw, c1, n + 1, big);
        let sep = sep_of(parts, ntw, c1, n);
        let cc = render(parts[n], rn.1);
        let r1 = rest_at(parts, ntw, c1, n + 1).0;
        lemma_laid_prefix(b, x, r1, rl);
        lemma_laid_split(b, x, rn.0 + sep, cc.0);
        lemma_laid_split(b, x, rn.0, sep);
        lemma_sep_bytes(sep);
        let k = p + sep.len();
        lemma_render_first(parts[n], rn.1);
        lemma_laid_first(b, k, cc.0);
        assert forall|j: int| p <= j < p + sep.len() implies is_space(#[trigger] b[j]) by {
            assert(b.subrange(p, p + sep.len())[j - p] == b[j]);
            assert(encode_utf8(sep)[j - p] == b[j]);
        }
        lemma_space_run(b, p, sep.len() as int);
        let q = x + encode_utf8(r1).len();
        if n + 1 < big {
            lemma_rest_step(parts, ntw, c1, n + 1);
            lemma_rest_prefix(parts, ntw, c1, n + 2, big);
            let r2 = rest_at(parts, ntw, c1, n + 2).0;
            let sep2 = sep_of(parts, ntw, c1, n + 1);
            let tail = sep2 + render(parts[n + 1], rest_at(parts, ntw, c1, n + 1).1).0;
            assert(r2 == r1 + tail);
            lemma_laid_prefix(b, x, r2, rl);
            lemma_laid_split(b, x, r1, tail);
            assert(tail[0] == sep2[0]);
            lemma_char_range(tail[0]);
            lemma_encode_first_ascii(tail);
            lemma_laid_first(b, q, tail);
        }
        assert(decreases_to!(parts => parts[n]));
        lemma_read_rendered(b, k, parts[n], rn.1);
        assert(parts.take(n).push(parts[n]) =~= parts.take(n + 1));
        lemma_read_rest(b, parts, ntw, c1, x, n + 1);
    }
}

/// Reading back the layout of a tree gives the tree again, so laying out,
/// reading back and laying out again gives the same text, for any two layout
/// states. This holds for trees without `Nil` whose atoms are non-empty and
/// hold no ASCII whitespace and no parenthesis.
pub proof fn lemma_round_trip(e: Expr, c: Cursor, d: Cursor)
    requires
        plain(e),
    ensures
        read_spec(encode_utf8(render(e, c).0)) == Ok::<Expr, SexpError>(e),
        render(read_spec(encode_utf8(render(e, c).0))->Ok_0, d).0 == render(e, d).0,
{
    let t = render(e, c).0;
    let b = encode_utf8(t);
    assert(b.subrange(0, b.len() as int) =~= b);
    lemma_read_rendered(b, 0, e, c);
}

} // verus!
