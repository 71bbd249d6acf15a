use vstd::prelude::*;

verus! {

/// Mathematical model of an expression tree.
pub enum Expr {
    Atom(Seq<char>),
    List(Seq<Expr>),
    Nil,
}

/// An owned s-expression tree.
#[derive(Debug)]
pub enum Sexp {
    Atom(String),
    List(Vec<Sexp>),
    Nil,
}

/// Number of bytes in the UTF-8 encoding of a text.
pub open spec fn byte_len(s: Seq<char>) -> nat {
    vstd::utf8::encode_utf8(s).len()
}

pub open spec fn model_of(e: Sexp) -> Expr
    decreases e,
{
    match e {
        Sexp::Atom(s) => Expr::Atom(s@),
        Sexp::List(parts) => Expr::List(model_of_seq(parts@)),
        Sexp::Nil => Expr::Nil,
    }
}

pub open spec fn model_of_seq(parts: Seq<Sexp>) -> Seq<Expr>
    decreases parts,
{
    if parts.len() == 0 {
        Seq::empty()
    } else {
        model_of_seq(parts.drop_last()).push(model_of(parts.last()))
    }
}

impl View for Sexp {
    type V = Expr;

    open spec fn view(&self) -> Expr {
        model_of(*self)
    }
}

/// Total number of text bytes held by the atoms of a tree.
pub open spec fn size_of(e: Expr) -> nat
    decreases e,
{
    match e {
        Expr::Atom(s) => byte_len(s),
        Expr::List(parts) => size_of_seq(parts),
        Expr::Nil => 0,
    }
}

/// Sum of `size_of` over a sequence of trees.
pub open spec fn size_of_seq(parts: Seq<Expr>) -> nat
    decreases parts,
{
    if parts.len() == 0 {
        0
    } else {
        size_of_seq(parts.drop_last()) + size_of(parts.last())
    }
}

/// A size clamped to what a `u32` holds.
pub open spec fn clamp_u32(n: nat) -> u32 {
    if n > u32::MAX {
        u32::MAX
    } else {
        n as u32
    }
}

pub proof fn lemma_model_of_seq(parts: Seq<Sexp>)
    ensures
        model_of_seq(parts).len() == parts.len(),
        forall|i: int| 0 <= i < parts.len() ==> #[trigger] model_of_seq(parts)[i] == model_of(parts[i]),
    decreases parts.len(),
{
    if parts.len() > 0 {
        lemma_model_of_seq(parts.drop_last());
    }
}

/// Adding one more child adds exactly that child's size.
pub proof fn lemma_size_of_seq_take_step(parts: Seq<Expr>, i: int)
    requires
        0 <= i < parts.len(),
    ensures
        size_of_seq(parts.take(i + 1)) == size_of_seq(parts.take(i)) + size_of(parts[i]),
{
    assert(parts.take(i + 1).drop_last() =~= parts.take(i));
}

impl Sexp {
    /// Size of the tree, clamped to `u32::MAX`.
    pub fn saturated_size(&self) -> (r: u32)
        ensures
            r == clamp_u32(size_of(self@)),
        decreases self@,
    {
        match self {
            Sexp::Nil => 0,
            Sexp::Atom(s) => {
                let n = s.as_str().as_bytes().len();
                if n > u32::MAX as usize {
                    u32::MAX
                } else {
                    n as u32
                }
            },
            Sexp::List(parts) => {
                let ghost m = model_of_seq(parts@);
                proof {
                    lemma_model_of_seq(parts@);
                }
                let mut s: u32 = 0;
                let mut i: usize = 0;
                while i < parts.len()
                    invariant
                        *self == Sexp::List(*parts),
                        self@ == Expr::List(m),
                        i <= parts.len(),
                        m == model_of_seq(parts@),
                        m.len() == parts@.len(),
                        forall|j: int| 0 <= j < parts.len() ==> #[trigger] m[j] == model_of(parts@[j]),
                        s == clamp_u32(size_of_seq(m.take(i as int))),
                    decreases parts.len() - i,
                {
                    let child = &parts[i];
                    proof {
                        assert(child@ == m[i as int]);
                        assert(self@->List_0 == m);
                        assert(decreases_to!(self@ => self@->List_0));
                        assert(decreases_to!(m => m[i as int]));
                    }
                    let c = child.saturated_size();
                    proof {
                        lemma_size_of_seq_take_step(m, i as int);
                    }
                    s = s.saturating_add(c);
                    i = i + 1;
                }
                proof {
                    assert(m.take(i as int) =~= m);
                }
                s
            },
        }
    }

    /// Total number of text bytes held by the atoms of the tree.
    pub fn size(&self) -> (r: u32)
        requires
            size_of(self@) <= u32::MAX,
        ensures
            r == size_of(self@),
    {
        self.saturated_size()
    }
}

} // verus!
