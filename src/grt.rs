//! Token amounts: a decimal number of whole tokens.
use vstd::prelude::*;
use vstd::string::StringExecFns;
use crate::decimal::{
    Decimal, DecView, can_div, can_mul, can_sub, cut_to_three, dec_div, dec_lt, dec_mul, dec_sub,
    decimal_value, difference_of, display_of, div_ok, exact_difference, exact_quotient,
    is_decimal_text, lemma_decimal_scale, mul_ok, nat_of, short_text, parse_decimal, product_of, quotient_of, same_value, sub_ok,
    two_dec,
};

verus! {

/// The smallest units in one token, as a decimal value.
pub open spec fn wei_per_token() -> DecView {
    (1000000000000000000int, 0int)
}

/// Characters in the text of `wei_per_token`.
pub open spec fn wei_per_token_len() -> int {
    19
}

/// A count of smallest units as tokens, where the division can be made.
pub open spec fn tokens_of_wei(wei: DecView) -> Option<DecView> {
    if div_ok(wei, wei_per_token(), wei_per_token_len()) {
        Some(quotient_of(wei, wei_per_token()))
    } else {
        None
    }
}

/// `10^18` as a decimal, as parsed from its digits.
pub fn wei_per_token_decimal() -> (r: Decimal)
    ensures
        r.wf(),
        r@ == wei_per_token(),
        r.digits@.len() == wei_per_token_len(),
{
    let digits = String::from_str("1000000000000000000");
    proof {
        reveal_strlit("1000000000000000000");
        reveal_with_fuel(nat_of, 20);
    }
    Decimal { digits, scale: 0 }
}

/// An amount of tokens.
#[derive(Debug, Clone)]
pub struct GRT(pub Decimal);

impl GRT {
    pub open spec fn wf(&self) -> bool {
        self.0.wf()
    }

    pub fn zero() -> (r: GRT)
        ensures
            r.wf(),
            r.0@ == (0int, 0int),
    {
        let digits = String::from_str("0");
        proof {
            reveal_strlit("0");
            reveal_with_fuel(nat_of, 2);
        }
        GRT(Decimal { digits, scale: 0 })
    }

    /// Reads a count of smallest units and divides it by `10^18`; `None`
    /// where the text does not parse or the scale would leave `i64`.
    pub fn from_wei_text(s: &str) -> (r: Option<GRT>)
        ensures
            r is Some ==> r->Some_0.wf(),
            is_decimal_text(s@) ==> match tokens_of_wei(decimal_value(s@)) {
                Some(v) => r is Some && r->Some_0.0@ == v,
                None => r is None,
            },
            is_decimal_text(s@) && short_text(s@) ==> r is Some && 0 <= r->Some_0.0@.1 < s@.len()
                + 120,
            is_decimal_text(s@) && r is Some && exact_quotient(decimal_value(s@), wei_per_token())
                ==> same_value(
                (r->Some_0.0@.0 * wei_per_token().0, r->Some_0.0@.1),
                decimal_value(s@),
            ),
    {
        match parse_decimal(s) {
            Some(wei) => {
                proof {
                    if is_decimal_text(s@) {
                        lemma_decimal_scale(s@);
                    }
                }
                let factor = wei_per_token_decimal();
                if can_div(&wei, &factor) {
                    Some(GRT(dec_div(&wei, &factor)))
                } else {
                    None
                }
            },
            None => None,
        }
    }

    /// The amount times a plain decimal; `None` where the scales of the two
    /// cannot be added in an `i64`.
    pub fn mul(&self, rhs: &Decimal) -> (r: Option<GRT>)
        requires
            self.wf(),
            rhs.wf(),
        ensures
            r is Some <==> mul_ok(self.0@, rhs@),
            r is Some ==> r->Some_0.wf() && r->Some_0.0@ == product_of(self.0@, rhs@),
            r is Some ==> same_value(r->Some_0.0@, (self.0@.0 * rhs@.0, self.0@.1 + rhs@.1)),
            r is Some ==> r->Some_0.0@.1 == self.0@.1 || r->Some_0.0@.1 == rhs@.1
                || r->Some_0.0@.1 == self.0@.1 + rhs@.1,
    {
        if can_mul(&self.0, rhs) {
            Some(GRT(dec_mul(&self.0, rhs)))
        } else {
            None
        }
    }

    /// The amount divided by a plain decimal; `None` where the divisor is
    /// zero or the scale could leave `i64`.
    pub fn div(&self, rhs: &Decimal) -> (r: Option<GRT>)
        requires
            self.wf(),
            rhs.wf(),
        ensures
            r is Some <==> div_ok(self.0@, rhs@, rhs.digits@.len() as int),
            r is Some ==> r->Some_0.wf() && r->Some_0.0@ == quotient_of(self.0@, rhs@),
            r is Some ==> r->Some_0.0@ == self.0@ || (self.0@.1 - rhs@.1 <= r->Some_0.0@.1
                && r->Some_0.0@.1 <= self.0@.1 - rhs@.1 + rhs.digits@.len() + 100),
            r is Some && exact_quotient(self.0@, rhs@) ==> same_value(
                (r->Some_0.0@.0 * rhs@.0, r->Some_0.0@.1 + rhs@.1),
                self.0@,
            ),
    {
        if can_div(&self.0, rhs) {
            Some(GRT(dec_div(&self.0, rhs)))
        } else {
            None
        }
    }

    /// The difference of two amounts; `None` where their scales differ by
    /// more than an `i64` holds.
    pub fn sub(&self, rhs: &GRT) -> (r: Option<GRT>)
        requires
            self.wf(),
            rhs.wf(),
        ensures
            r is Some <==> sub_ok(self.0@, rhs.0@),
            r is Some ==> r->Some_0.wf() && r->Some_0.0@ == difference_of(self.0@, rhs.0@),
            r is Some ==> same_value(r->Some_0.0@, exact_difference(self.0@, rhs.0@)),
    {
        if can_sub(&self.0, &rhs.0) {
            Some(GRT(dec_sub(&self.0, &rhs.0)))
        } else {
            None
        }
    }

    pub fn lt(&self, rhs: &GRT) -> (r: bool)
        requires
            self.wf(),
            rhs.wf(),
        ensures
            r == crate::decimal::value_lt(self.0@, rhs.0@),
    {
        dec_lt(&self.0, &rhs.0)
    }

    /// The amount written with at most three digits after the point.
    pub fn to_text(&self) -> (r: String)
        requires
            self.wf(),
        ensures
            r@ == cut_to_three(display_of(self.0@)),
    {
        two_dec(&self.0)
    }
}

} // verus!
