use vstd::prelude::*;
use vstd::string::{StringExecFns, StringSliceAdditionalSpecFns};
use crate::reader::{SexpError, read_spec};
use crate::sexp::{Expr, Sexp, byte_len, clamp_u32, size_of, model_of, model_of_seq, lemma_model_of_seq};

verus! {

/// Layout state: the two parameters and the two running counters.
pub struct Cursor {
    pub max_width: u32,
    pub indent_size: u32,
    pub width: u32,
    pub depth: u32,
}

/// Sum of two counters, clamped to `u32::MAX`.
pub open spec fn sat(a: u32, b: u32) -> u32 {
    clamp_u32(a as nat + b as nat)
}

/// Column at which continuation lines of the current depth begin.
pub open spec fn padding(c: Cursor) -> u32 {
    if c.depth == 0 {
        0
    } else {
        clamp_u32(((c.depth - 1) as nat) * (c.indent_size as nat))
    }
}

pub open spec fn spaces(n: nat) -> Seq<char> {
    Seq::new(n, |i: int| ' ')
}

/// Output and final state of laying out one tree from state `c`.
///
/// The counters are `u32` and saturate. `Nil` lowers the depth by one, never
/// below zero; a list raises the depth for its children and restores it when
/// it closes. A non-empty list projects its width once, from the width before
/// it and its size; a child other than `Nil` goes on a new, indented line when
/// that projection plus the current padding and the child's size exceeds the
/// target width.
pub open spec fn render(e: Expr, c: Cursor) -> (Seq<char>, Cursor)
    decreases e,
{
    match e {
        Expr::Atom(s) => (s, Cursor { width: sat(c.width, clamp_u32(byte_len(s))), ..c }),
        Expr::Nil => (
            Seq::empty(),
            Cursor { depth: if c.depth == 0 { 0 } else { (c.depth - 1) as u32 }, ..c },
        ),
        Expr::List(parts) => {
            if parts.len() == 0 {
                (seq!['(', ')'], c)
            } else {
                let inner = Cursor { depth: sat(c.depth, 1), ..c };
                let pad = padding(inner);
                let ntw = sat(sat(c.width, pad), clamp_u32(size_of(e)));
                let start = if ntw > c.max_width / 2 && inner.depth > 1 {
                    Cursor { width: pad, ..inner }
                } else {
                    inner
                };
                let first = render(parts[0], start);
                let rest = render_rest(parts.subrange(1, parts.len() as int), ntw, first.1);
                (seq!['('] + first.0 + rest.0 + seq![')'], Cursor { depth: c.depth, ..rest.1 })
            }
        },
    }
}

/// Output and final state of laying out the children after the first of a
/// list whose projected width is `ntw`.
pub open spec fn render_rest(rest: Seq<Expr>, ntw: u32, c: Cursor) -> (Seq<char>, Cursor)
    decreases rest,
{
    if rest.len() == 0 {
        (Seq::empty(), c)
    } else {
        let before = render_rest(rest.drop_last(), ntw, c);
        let p = rest.last();
        let c1 = before.1;
        let r = render(p, c1);
        if p is Nil {
            (before.0 + r.0, r.1)
        } else if sat(sat(ntw, padding(c1)), clamp_u32(size_of(p))) > c1.max_width {
            (before.0 + seq!['\n'] + spaces(sat(padding(c1), c1.indent_size) as nat) + r.0, r.1)
        } else {
            (before.0 + seq![' '] + r.0, r.1)
        }
    }
}

/// Renders expression trees to text within a target line width.
#[derive(Debug)]
pub struct PrettyPrinter {
    max_width: u32,
    current_width: u32,
    indent_size: u32,
    current_depth: u32,
}

impl View for PrettyPrinter {
    type V = Cursor;

    closed spec fn view(&self) -> Cursor {
        Cursor {
            max_width: self.max_width,
            indent_size: self.indent_size,
            width: self.current_width,
            depth: self.current_depth,
        }
    }
}

/// State of a fresh printer with the given parameters.
pub open spec fn fresh(max_width: u32, indent_size: u32) -> Cursor {
    Cursor { max_width, indent_size, width: 0, depth: 0 }
}

impl PrettyPrinter {
    /// A printer with width 150 and indent 1.
    pub fn new() -> (r: PrettyPrinter)
        ensures
            r@ == fresh(150, 1),
    {
        PrettyPrinter { current_depth: 0, max_width: 150, current_width: 0, indent_size: 1 }
    }

    /// A printer with the given target width and indent.
    pub fn with_limits(max_width: u32, indent_size: u32) -> (r: PrettyPrinter)
        ensures
            r@ == fresh(max_width, indent_size),
    {
        PrettyPrinter { current_depth: 0, max_width, current_width: 0, indent_size }
    }

    fn padding(&self) -> (r: u32)
        ensures
            r == padding(self@),
    {
        if self.current_depth == 0 {
            0
        } else {
            let d = (self.current_depth - 1) as u64;
            let k = self.indent_size as u64;
            proof {
                assert(d * k <= u32::MAX as u64 * u32::MAX as u64) by (nonlinear_arith)
                    requires
                        d <= u32::MAX,
                        k <= u32::MAX,
                ;
            }
            let v = d * k;
            if v > u32::MAX as u64 {
                u32::MAX
            } else {
                v as u32
            }
        }
    }

    fn push_str(out: &mut String, piece: &str)
        ensures
            final(out)@ == old(out)@ + piece@,
    {
        out.append(piece);
    }

    /// Appends the layout of `sexp` to `out`, advancing the running counters.
    pub fn pp(&mut self, sexp: &Sexp, out: &mut String)
        ensures
            final(out)@ == old(out)@ + render(sexp@, old(self)@).0,
            final(self)@ == render(sexp@, old(self)@).1,
        decreases sexp@,
    {
        match sexp {
            Sexp::Atom(atom) => {
                let n = atom.as_str().as_bytes().len();
                let w = if n > u32::MAX as usize {
                    u32::MAX
                } else {
                    n as u32
                };
                let ghost c = self@;
                assert(sexp@ == Expr::Atom(atom@));
                assert(w == clamp_u32(byte_len(atom@)));
                self.current_width = self.current_width.saturating_add(w);
                Self::push_str(out, atom.as_str());
                assert(self@ == render(sexp@, c).1);
            },
            Sexp::Nil => {
                if self.current_depth > 0 {
                    self.current_depth = self.current_depth - 1;
                }
            },
            Sexp::List(parts) => {
                let ghost m = model_of_seq(parts@);
                proof {
                    lemma_model_of_seq(parts@);
                }
                if parts.len() == 0 {
                    proof {
                        reveal_strlit("()");
                    }
                    Self::push_str(out, "()");
                } else {
                    let ghost c = self@;
                    let ghost out0 = out@;
                    let d0 = self.current_depth;
                    self.current_depth = self.current_depth.saturating_add(1);
                    let pad = self.padding();
                    let ntw = self.current_width.saturating_add(pad).saturating_add(
                        sexp.saturated_size(),
                    );
                    if ntw > self.max_width / 2 && self.current_depth > 1 {
                        self.current_width = pad;
                    }
                    let ghost start = self@;
                    proof {
                        reveal_strlit("(");
                    }
                    Self::push_str(out, "(");
                    proof {
                        assert(decreases_to!(sexp@ => sexp@->List_0));
                        assert(decreases_to!(m => m[0]));
                    }
                    self.pp(&parts[0], out);
                    let ghost first = render(m[0], start);
                    let mut i: usize = 1;
                    proof {
                        assert(m.subrange(1, 1) =~= Seq::<Expr>::empty());
                    }
                    while i < parts.len()
                        invariant
                            *sexp == Sexp::List(*parts),
                            sexp@ == Expr::List(m),
                            m == model_of_seq(parts@),
                            m.len() == parts@.len(),
                            forall|j: int| 0 <= j < parts.len() ==> #[trigger] m[j] == model_of(parts@[j]),
                            1 <= i <= parts.len(),
                            out@ == out0 + seq!['('] + first.0 + render_rest(m.subrange(1, i as int), ntw, first.1).0,
                            self@ == render_rest(m.subrange(1, i as int), ntw, first.1).1,
                        decreases parts.len() - i,
                    {
                        let p = &parts[i];
                        let ghost before = render_rest(m.subrange(1, i as int), ntw, first.1);
                        proof {
                            assert(p@ == m[i as int]);
                            assert(sexp@->List_0 == m);
                            assert(decreases_to!(sexp@ => sexp@->List_0));
                            assert(decreases_to!(m => m[i as int]));
                            assert(m.subrange(1, i + 1).drop_last() =~= m.subrange(1, i as int));
                            assert(m.subrange(1, i + 1).last() == m[i as int]);
                        }
                        match p {
                            Sexp::Nil => {
                                self.pp(p, out);
                            },
                            _ => {
                                let pad = self.padding();
                                let part = ntw.saturating_add(pad).saturating_add(p.saturated_size());
                                if part > self.max_width {
                                    proof {
                                        reveal_strlit("\n");
                                    }
                                    Self::push_str(out, "\n");
                                    let n = pad.saturating_add(self.indent_size);
                                    let ghost line = out@;
                                    let mut k: u32 = 0;
                                    while k < n
                                        invariant
                                            k <= n,
                                            out@ == line + spaces(k as nat),
                                        decreases n - k,
                                    {
                                        proof {
                                            reveal_strlit(" ");
                                            assert(spaces((k + 1) as nat) =~= spaces(k as nat).push(' '));
                                        }
                                        Self::push_str(out, " ");
                                        k = k + 1;
                                    }
                                    self.pp(p, out);
                                } else {
                                    proof {
                                        reveal_strlit(" ");
                                    }
                                    Self::push_str(out, " ");
                                    self.pp(p, out);
                                }
                            },
                        }
                        i = i + 1;
                        proof {
                            assert(out@ =~= out0 + seq!['('] + first.0 + render_rest(m.subrange(1, i as int), ntw, first.1).0);
                        }
                    }
                    proof {
                        reveal_strlit(")");
                        assert(m.subrange(1, i as int) =~= m.subrange(1, m.len() as int));
                    }
                    Self::push_str(out, ")");
                    self.current_depth = d0;
                    proof {
                        assert(out@ =~= out0 + render(sexp@, c).0);
                    }
                }
            },
        }
    }
} // impl PrettyPrinter

/// Lays out `sexp` with a fresh printer of the given parameters.
pub fn format(sexp: &Sexp, max_width: u32, indent_size: u32) -> (r: String)
    ensures
        r@ == render(sexp@, fresh(max_width, indent_size)).0,
{
    let mut printer = PrettyPrinter::with_limits(max_width, indent_size);
    let mut out = String::new();
    printer.pp(sexp, &mut out);
    assert(out@ =~= render(sexp@, fresh(max_width, indent_size)).0);
    out
}

/// Reads the first expression of `input` and lays it out.
pub fn parse_and_format(input: &str, max_width: u32, indent_size: u32) -> (r: Result<String, SexpError>)
    ensures
        match read_spec(input.spec_bytes()) {
            Ok(e) => r is Ok && r->Ok_0@ == render(e, fresh(max_width, indent_size)).0,
            Err(x) => r == Err::<String, SexpError>(x),
        },
{
    match Sexp::of_str(input) {
        Ok(e) => Ok(format(&e, max_width, indent_size)),
        Err(x) => Err(x),
    }
}

impl Sexp {
    /// The layout of the tree with the default width 150 and indent 1.
    pub fn to_string(&self) -> (r: String)
        ensures
            r@ == render(self@, fresh(150, 1)).0,
    {
        format(self, 150, 1)
    }
}

} // verus!
