use vstd::prelude::*;

verus! {

/// A propositional variable, identified by its index in a dense range.
#[derive(Copy, Clone, Eq, PartialEq, Hash, Debug, Structural)]
pub struct VarRef {
    pub id: usize,
}

/// A literal: a variable together with a polarity.
#[derive(Debug, Eq, PartialEq, Hash, Copy, Clone, Structural)]
pub struct Atom {
    pub var: VarRef,
    pub polarity: bool,
}

/// The decimal digits of `n`, most significant first.
pub open spec fn decimal(n: nat) -> Seq<u8>
    decreases n,
{
    if n < 10 {
        seq![(48 + n) as u8]
    } else {
        decimal(n / 10).push((48 + n % 10) as u8)
    }
}

/// Write `n` in decimal digits.
pub fn write_decimal(n: usize) -> (out: Vec<u8>)
    ensures
        out@ == decimal(n as nat),
    decreases n,
{
    if n < 10 {
        let mut out: Vec<u8> = Vec::new();
        out.push((48 + n) as u8);
        assert(out@ =~= decimal(n as nat));
        out
    } else {
        let mut out = write_decimal(n / 10);
        out.push((48 + n % 10) as u8);
        out
    }
}

impl VarRef {
    /// The variable as text: its index in decimal digits.
    pub open spec fn text(self) -> Seq<u8> {
        decimal(self.id as nat)
    }

    /// Write the variable as text.
    pub fn to_text(&self) -> (out: Vec<u8>)
        ensures
            out@ == self.text(),
    {
        write_decimal(self.id)
    }

    /// The literal over this variable with the given polarity.
    pub fn as_atom(self, polarity: bool) -> (a: Atom)
        ensures
            a == (Atom { var: self, polarity }),
    {
        Atom { var: self, polarity }
    }
}

impl Atom {
    /// The complementary literal, as a mathematical value.
    pub open spec fn complement(self) -> Atom {
        Atom { var: self.var, polarity: !self.polarity }
    }

    /// The index of the literal's variable.
    pub open spec fn index(self) -> int {
        self.var.id as int
    }

    /// The literal as text: its variable, after a `!` if it is negative.
    pub open spec fn text(self) -> Seq<u8> {
        if self.polarity {
            self.var.text()
        } else {
            seq![33u8] + self.var.text()
        }
    }

    /// Write the literal as text.
    pub fn to_text(&self) -> (out: Vec<u8>)
        ensures
            out@ == self.text(),
    {
        let mut out: Vec<u8> = Vec::new();
        if !self.polarity {
            out.push(33);
        }
        let ghost head = out@;
        let digits = self.var.to_text();
        let mut i: usize = 0;
        while i < digits.len()
            invariant
                0 <= i <= digits@.len(),
                out@ == head + digits@.take(i as int),
            decreases digits@.len() - i,
        {
            out.push(digits[i]);
            proof {
                assert(out@ =~= head + digits@.take(i + 1));
            }
            i += 1;
        }
        proof {
            assert(digits@.take(digits@.len() as int) =~= digits@);
            assert(out@ =~= self.text());
        }
        out
    }

    /// The complementary literal: same variable, opposite polarity.
    pub fn negated(&self) -> (a: Atom)
        ensures
            a == self.complement(),
    {
        Atom { var: self.var, polarity: !self.polarity }
    }

    /// Whether the literal is positive.
    pub fn polarity(&self) -> (p: bool)
        ensures
            p == self.polarity,
    {
        self.polarity
    }

    /// The variable of the literal.
    pub fn get_var(&self) -> (v: VarRef)
        ensures
            v == self.var,
    {
        self.var
    }
}

} // verus!
