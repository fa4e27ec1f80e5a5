//! One data stream's metadata and formatting, and the rate calculator that
//! turns a cumulative counter into a per-second rate.
//!
//! Values are carried in thousandths of the stream's unit. Sampling itself
//! happens outside: the core receives plain optional values.

use vstd::prelude::*;

use crate::format::{format_quantity, spec_format_quantity, Quantity};
use crate::text::{marker_free, printed_width, visible};
use crate::theme::Theme;

verus! {

/// Largest magnitude a sample value may take, in thousandths of a unit.
pub const VALUE_LIMIT: i64 = 1000000000000000000;

/// A value a stream may report: present and within the representable range.
pub open spec fn value_ok(v: int) -> bool {
    -VALUE_LIMIT <= v <= VALUE_LIMIT
}

/// One data stream: identity, declared bounds, and formatting parameters.
/// The sampler that produces its values lives outside the core.
pub struct Stream {
    pub name: String,
    pub description: String,
    pub min: Option<i64>,
    pub max: Option<i64>,
    pub unit: String,
    pub digits_before_decimal: Option<usize>,
    pub precision: usize,
    pub signed: bool,
    pub format_width: usize,
}

impl Stream {
    /// Prefixed formatting is used exactly when no fixed digit count was
    /// declared.
    pub open spec fn spec_use_prefix(self) -> bool {
        self.digits_before_decimal is None
    }

    /// The analytic width bound: sign slot, integer digits, decimal part,
    /// prefix slot, and the unit's printed width.
    pub open spec fn spec_format_width(self) -> int {
        (if self.signed {
            1int
        } else {
            0int
        }) + (match self.digits_before_decimal {
            Some(d) => d as int,
            None => 3int,
        }) + (if self.precision > 0 {
            1 + self.precision as int
        } else {
            0int
        }) + (if self.spec_use_prefix() {
            1int
        } else {
            0int
        }) + visible(self.unit@).len()
    }

    /// Bounds are ordered and representable, the formatting parameters are
    /// within machine limits, and the stored width matches the formula.
    pub open spec fn wf(self) -> bool {
        &&& self.precision <= 12
        &&& (match self.digits_before_decimal {
            Some(d) => d <= 1000,
            None => true,
        })
        &&& marker_free(self.name@)
        &&& self.name@.len() <= 1000
        &&& marker_free(self.description@)
        &&& marker_free(self.unit@)
        &&& self.unit@.len() <= 1000
        &&& (self.min matches Some(mn) ==> value_ok(mn as int))
        &&& (self.max matches Some(mx) ==> value_ok(mx as int))
        &&& (match (self.min, self.max) {
            (Some(mn), Some(mx)) => mn <= mx,
            _ => true,
        })
        &&& self.format_width == self.spec_format_width()
    }

    /// Whether `v` respects this stream's declared bounds.
    pub open spec fn in_bounds(self, v: int) -> bool {
        &&& (self.min matches Some(mn) ==> mn <= v)
        &&& (self.max matches Some(mx) ==> v <= mx)
    }

    /// Builds a stream description. The sampler stays with the caller; the
    /// width is computed once, analytically, from the parameters.
    #[verifier::spinoff_prover]
    pub fn new(
        name: String,
        description: String,
        min: Option<i64>,
        max: Option<i64>,
        unit: String,
        digits_before_decimal: Option<usize>,
        precision: usize,
        signed: bool,
    ) -> (s: Stream)
        requires
            precision <= 12,
            (digits_before_decimal matches Some(d) ==> d <= 1000),
            marker_free(name@),
            name@.len() <= 1000,
            marker_free(description@),
            marker_free(unit@),
            unit@.len() <= 1000,
            (min matches Some(mn) ==> value_ok(mn as int)),
            (max matches Some(mx) ==> value_ok(mx as int)),
            (match (min, max) {
                (Some(mn), Some(mx)) => mn <= mx,
                _ => true,
            }),
        ensures
            s.wf(),
            s.name == name,
            s.description == description,
            s.min == min,
            s.max == max,
            s.unit == unit,
            s.digits_before_decimal == digits_before_decimal,
            s.precision == precision,
            s.signed == signed,
            s.format_width == s.spec_format_width(),
    {
        let use_prefix = digits_before_decimal.is_none();
        proof {
            crate::text::lemma_visible_plain(unit@);
        }
        let unit_width = printed_width(unit.as_str());
        let sign_part: usize = if signed {
            1
        } else {
            0
        };
        let int_part: usize = match digits_before_decimal {
            Some(d) => d,
            None => 3,
        };
        let dec_part: usize = if precision > 0 {
            1 + precision
        } else {
            0
        };
        let prefix_part: usize = if use_prefix {
            1
        } else {
            0
        };
        let format_width = sign_part + int_part + dec_part + prefix_part + unit_width;
        Stream {
            name,
            description,
            min,
            max,
            unit,
            digits_before_decimal,
            precision,
            signed,
            format_width,
        }
    }

    pub fn name(&self) -> (r: String)
        ensures
            r@ == self.name@,
    {
        self.name.clone()
    }

    pub fn description(&self) -> (r: String)
        ensures
            r@ == self.description@,
    {
        self.description.clone()
    }

    pub fn min(&self) -> (r: Option<i64>)
        ensures
            r == self.min,
    {
        self.min
    }

    pub fn max(&self) -> (r: Option<i64>)
        ensures
            r == self.max,
    {
        self.max
    }

    pub fn format_width(&self) -> (r: usize)
        ensures
            r == self.format_width,
    {
        self.format_width
    }

    /// What `format` returns for `value`.
    pub open spec fn spec_format(self, value: int, theme: Theme) -> Seq<char> {
        spec_format_quantity(
            Quantity::spec_from_millis(value),
            self.unit@,
            self.spec_use_prefix(),
            self.precision as nat,
            theme.stream_number_color.fg@,
            theme.stream_unit_color.fg@,
        )
    }

    /// `value`, in thousandths of this stream's unit, as a styled string.
    #[verifier::spinoff_prover]
    pub fn format(&self, value: i64, theme: &Theme) -> (r: String)
        requires
            self.wf(),
            value_ok(value as int),
        ensures
            r@ == self.spec_format(value as int, *theme),
    {
        let q = Quantity::from_millis(value);
        proof {
            crate::format::lemma_pow10_literals();
            crate::format::lemma_num_digits_le(q.mantissa as nat, 20);
        }
        format_quantity(
            q,
            self.unit.as_str(),
            self.digits_before_decimal.is_none(),
            self.precision,
            theme.stream_number_color.fg.as_str(),
            theme.stream_unit_color.fg.as_str(),
        )
    }
}

/// What feeding `input` after `prev` over `elapsed_ms` milliseconds yields:
/// the positive counter delta per second, a non-positive delta clamped to
/// zero, and the result capped at the representable limit.
pub open spec fn spec_rate(prev: int, input: int, elapsed_ms: int) -> int {
    if input > prev {
        let r = (input - prev) * 1000 / elapsed_ms;
        if r > VALUE_LIMIT {
            VALUE_LIMIT as int
        } else {
            r
        }
    } else {
        0
    }
}

/// Derives a per-second rate from a cumulative counter: the explicit
/// "previous measurement" state of a rate-computing sampler, with unknown
/// as its own variant.
pub struct RateCalculator {
    pub last_input: Option<i64>,
}

impl RateCalculator {
    pub open spec fn wf(self) -> bool {
        self.last_input matches Some(v) ==> value_ok(v as int)
    }

    pub fn new() -> (s: RateCalculator)
        ensures
            s.last_input is None,
            s.wf(),
    {
        RateCalculator { last_input: None }
    }

    /// Feed one reading of the underlying counter and the milliseconds
    /// elapsed since the previous reading. A missing reading resets the
    /// state, so a rate resumes only after two consecutive valid readings.
    #[verifier::spinoff_prover]
    pub fn update(&mut self, input: Option<i64>, elapsed_ms: u64) -> (rate: Option<i64>)
        requires
            old(self).wf(),
            elapsed_ms >= 1,
            (input matches Some(v) ==> value_ok(v as int)),
        ensures
            final(self).wf(),
            final(self).last_input == input,
            rate == (match input {
                None => None::<i64>,
                Some(v) => match old(self).last_input {
                    None => None::<i64>,
                    Some(prev) => Some(
                        spec_rate(prev as int, v as int, elapsed_ms as int) as i64,
                    ),
                },
            }),
            (rate matches Some(r) ==> 0 <= r <= VALUE_LIMIT),
    {
        match input {
            Some(v) => {
                let prev = self.last_input;
                self.last_input = Some(v);
                match prev {
                    Some(p) => {
                        if v > p {
                            let diff = (v as i128) - (p as i128);
                            let scaled = diff * 1000;
                            let r = scaled / (elapsed_ms as i128);
                            proof {
                                assert(scaled / (elapsed_ms as i128) == (v - p) * 1000 / (
                                elapsed_ms as int));
                                assert(r >= 0) by (nonlinear_arith)
                                    requires
                                        r == scaled / (elapsed_ms as i128),
                                        scaled >= 0,
                                        elapsed_ms >= 1,
                                ;
                            }
                            if r > VALUE_LIMIT as i128 {
                                Some(VALUE_LIMIT)
                            } else {
                                Some(r as i64)
                            }
                        } else {
                            Some(0)
                        }
                    },
                    None => None,
                }
            },
            None => {
                self.last_input = None;
                None
            },
        }
    }
}

} // verus!
