//! Polynomials and numbers as text.
//!
//! A number is written in decimal, with as many fractional digits as it has,
//! at most six. A polynomial is written term by term from the highest power
//! down, each term as its signed coefficient, `x^` and the power in braces.

use crate::fixed::{Fixed, SCALE};
use crate::model::{coeff, rank};
use crate::polynomial::{
    lemma_terms_map_coeff, lemma_terms_map_degree, lemma_terms_map_entry, lemma_terms_map_gap,
    Polynomial, Term,
};
use vstd::prelude::*;
use vstd::string::StringExecFns;

verus! {

/// The character of the decimal digit `d`.
pub open spec fn digit(d: int) -> char {
    if d == 0 {
        '0'
    } else if d == 1 {
        '1'
    } else if d == 2 {
        '2'
    } else if d == 3 {
        '3'
    } else if d == 4 {
        '4'
    } else if d == 5 {
        '5'
    } else if d == 6 {
        '6'
    } else if d == 7 {
        '7'
    } else if d == 8 {
        '8'
    } else {
        '9'
    }
}

/// The decimal digits of `n`, without leading zeros.
pub open spec fn digits(n: nat) -> Seq<char>
    decreases n,
{
    if n < 10 {
        seq![digit(n as int)]
    } else {
        digits(n / 10).push(digit((n % 10) as int))
    }
}

/// The digits after the decimal point of `part / unit`, where `unit` is a
/// power of ten above `part`: as many as are needed, none for zero.
pub open spec fn fraction_digits(part: nat, unit: nat) -> Seq<char>
    decreases unit,
{
    if part == 0 || unit < 10 {
        Seq::empty()
    } else {
        seq![digit((part / (unit / 10)) as int)] + fraction_digits(part % (unit / 10), unit / 10)
    }
}

/// `unit` is a power of ten.
pub open spec fn power_of_ten(unit: nat) -> bool
    decreases unit,
{
    unit == 1 || (unit >= 10 && unit % 10 == 0 && power_of_ten(unit / 10))
}

/// The size of `v`.
pub open spec fn magnitude(v: int) -> nat {
    if v < 0 {
        (-v) as nat
    } else {
        v as nat
    }
}

/// The number with the raw value `raw`, in decimal.
pub open spec fn number_text(raw: int) -> Seq<char> {
    let sign = if raw < 0 {
        seq!['-']
    } else {
        Seq::empty()
    };
    let whole = digits(magnitude(raw) / (SCALE as nat));
    let part = magnitude(raw) % (SCALE as nat);
    let fraction = if part == 0 {
        Seq::empty()
    } else {
        seq!['.'] + fraction_digits(part, SCALE as nat)
    };
    sign + whole + fraction
}

/// One term: the coefficient, with a plus sign before it unless it is
/// negative, then `x^{`, the power and `}`.
pub open spec fn term_text(power: nat, raw: int) -> Seq<char> {
    let plus = if raw < 0 {
        Seq::empty()
    } else {
        seq!['+']
    };
    plus + number_text(raw) + seq!['x', '^', '{'] + digits(power) + seq!['}']
}

/// The terms of `m` below `x^n`, from the highest power down.
pub open spec fn text_below(m: Map<nat, int>, n: nat) -> Seq<char>
    decreases n,
{
    if n == 0 {
        Seq::empty()
    } else {
        let k = (n - 1) as nat;
        let term = if m.contains_key(k) {
            term_text(k, m[k])
        } else {
            Seq::empty()
        };
        term + text_below(m, k)
    }
}

/// The polynomial `m` as text: its terms from the highest power down.
pub open spec fn polynomial_text(m: Map<nat, int>) -> Seq<char> {
    text_below(m, rank(m))
}

/// Powers that `m` does not hold add nothing to the text.
pub proof fn lemma_text_below_skip(m: Map<nat, int>, lo: nat, hi: nat)
    requires
        lo <= hi,
        forall|k: nat| lo <= k < hi ==> !m.contains_key(k),
    ensures
        text_below(m, hi) == text_below(m, lo),
    decreases hi - lo,
{
    if lo < hi {
        lemma_text_below_skip(m, lo, (hi - 1) as nat);
        assert(!m.contains_key((hi - 1) as nat));
        assert(Seq::<char>::empty() + text_below(m, (hi - 1) as nat) =~= text_below(
            m,
            (hi - 1) as nat,
        ));
    }
}

/// The text of one decimal digit.
fn digit_text(d: u64) -> (s: &'static str)
    requires
        d < 10,
    ensures
        s@ == seq![digit(d as int)],
{
    proof {
        reveal_strlit("0");
        reveal_strlit("1");
        reveal_strlit("2");
        reveal_strlit("3");
        reveal_strlit("4");
        reveal_strlit("5");
        reveal_strlit("6");
        reveal_strlit("7");
        reveal_strlit("8");
        reveal_strlit("9");
    }
    let s = if d == 0 {
        "0"
    } else if d == 1 {
        "1"
    } else if d == 2 {
        "2"
    } else if d == 3 {
        "3"
    } else if d == 4 {
        "4"
    } else if d == 5 {
        "5"
    } else if d == 6 {
        "6"
    } else if d == 7 {
        "7"
    } else if d == 8 {
        "8"
    } else {
        "9"
    };
    assert(s@ =~= seq![digit(d as int)]);
    s
}

/// Appends the decimal digits of `n` to `out`.
pub(crate) fn push_digits(out: &mut String, n: u64)
    ensures
        final(out)@ == old(out)@ + digits(n as nat),
    decreases n,
{
    if n >= 10 {
        push_digits(out, n / 10);
    }
    let ghost before = out@;
    out.append(digit_text(n % 10));
    proof {
        if n >= 10 {
            assert(out@ =~= old(out)@ + digits(n as nat));
        } else {
            assert(out@ =~= old(out)@ + digits(n as nat));
        }
    }
}

/// Appends the fractional digits of `part / unit` to `out`.
fn push_fraction(out: &mut String, part: u64, unit: u64)
    requires
        part < unit,
        power_of_ten(unit as nat),
    ensures
        final(out)@ == old(out)@ + fraction_digits(part as nat, unit as nat),
    decreases unit,
{
    if part == 0 || unit < 10 {
        proof {
            assert(out@ + Seq::<char>::empty() =~= out@);
        }
    } else {
        let tenth: u64 = unit / 10;
        let lead: u64 = part / tenth;
        proof {
            assert(part / tenth < 10) by (nonlinear_arith)
                requires
                    part < unit,
                    unit == 10 * tenth,
                    tenth > 0,
            ;
        }
        out.append(digit_text(lead));
        push_fraction(out, part % tenth, tenth);
        proof {
            assert(out@ =~= old(out)@ + fraction_digits(part as nat, unit as nat));
        }
    }
}

impl Fixed {
    /// Appends this number, in decimal, to `out`.
    pub(crate) fn write_to(self, out: &mut String)
        ensures
            final(out)@ == old(out)@ + number_text(self@),
    {
        proof {
            reveal_strlit("-");
            reveal_strlit(".");
        }
        proof {
            use_type_invariant(self);
        }
        let size: u64 = if self.raw < 0 {
            out.append("-");
            (-self.raw) as u64
        } else {
            self.raw as u64
        };
        let ghost signed = out@;
        push_digits(out, size / (SCALE as u64));
        let part: u64 = size % (SCALE as u64);
        if part != 0 {
            out.append(".");
            proof {
                reveal_with_fuel(power_of_ten, 8);
                assert(power_of_ten(SCALE as nat));
            }
            push_fraction(out, part, SCALE as u64);
        }
        proof {
            assert(size as nat == magnitude(self@));
            assert(out@ =~= old(out)@ + number_text(self@));
        }
    }

    /// This number in decimal.
    pub fn render(self) -> (s: String)
        ensures
            s@ == number_text(self@),
    {
        let mut out = String::new();
        self.write_to(&mut out);
        proof {
            assert(Seq::<char>::empty() + number_text(self@) =~= number_text(self@));
        }
        out
    }
}

impl Polynomial {
    /// This polynomial as text, its terms from the highest power down.
    pub fn render(&self) -> (s: String)
        ensures
            s@ == polynomial_text(self@),
    {
        proof {
            use_type_invariant(self);
            lemma_terms_map_degree(self.terms@);
        }
        let ghost ts = self.terms@;
        let mut out = String::new();
        let mut i: usize = self.terms.len();
        let ghost mut left: nat = rank(self@);
        proof {
            assert(out@ + text_below(self@, left) =~= polynomial_text(self@));
        }
        while i > 0
            invariant
                i <= ts.len(),
                ts == self.terms@,
                self.wf(),
                out@ + text_below(self@, left) == polynomial_text(self@),
                i == 0 ==> (ts.len() == 0 ==> left == 0) && (ts.len() > 0 ==> left <= ts[0].power),
                i > 0 ==> left == ts[i - 1].power + 1,
            decreases i,
        {
            i = i - 1;
            let term: Term = self.terms[i];
            let ghost before = out@;
            proof {
                lemma_terms_map_entry(ts, i as int);
                reveal_strlit("+");
                reveal_strlit("x^{");
                reveal_strlit("}");
            }
            if !term.coeff.is_negative() {
                out.append("+");
            }
            term.coeff.write_to(&mut out);
            out.append("x^{");
            push_digits(&mut out, term.power as u64);
            out.append("}");
            proof {
                let k = term.power as nat;
                assert(out@ =~= before + term_text(k, self@[k]));
                assert(text_below(self@, left) == term_text(k, self@[k]) + text_below(self@, k));
                let lower: nat = if i > 0 {
                    (ts[i - 1].power + 1) as nat
                } else {
                    0
                };
                if i > 0 {
                    assert(ts[i - 1].power < ts[i as int].power);
                }
                assert forall|j: nat| lower <= j < k implies !self@.contains_key(j) by {
                    lemma_terms_map_gap(ts, i as int, j);
                    lemma_terms_map_coeff(ts, j);
                }
                lemma_text_below_skip(self@, lower, k);
                assert((before + term_text(k, self@[k])) + text_below(self@, k) =~= before + (
                term_text(k, self@[k]) + text_below(self@, k)));
                left = lower;
            }
        }
        proof {
            if ts.len() > 0 {
                assert forall|j: nat| 0 <= j < left implies !self@.contains_key(j) by {
                    lemma_terms_map_gap(ts, 0, j);
                    lemma_terms_map_coeff(ts, j);
                }
                lemma_text_below_skip(self@, 0, left);
            }
            assert(out@ + Seq::<char>::empty() =~= out@);
        }
        out
    }
}

} // verus!
