//! The render engine: turns the application state into a grid of styled
//! lines — time-axis top bar, per-stream rows, and menu bottom bar. Layout
//! arithmetic works on printed widths, so style markers never shift a
//! column.

use vstd::prelude::*;

use crate::format::{num_digits, spec_duration, spec_number_chars, spec_prefix_chars, Quantity};
use crate::model::{Application, Interval, MenuItem, Screen, ScrollAnchor, StreamWrapper};
use crate::stream::{value_ok, Stream};
use crate::text::{
    closed, is_marker, lemma_closed_append, lemma_m_pos_bounds, lemma_visible_append,
    lemma_visible_marker, lemma_visible_plain, m_pos, marker_free, printed_width, spaces, visible,
    MARK_START,
};
use crate::theme::{Color, Theme};

verus! {

broadcast use vstd::string::axiom_str_literal_len, vstd::string::axiom_str_literal_get_char;

/// The number part of a formatted quantity is plain text.
#[verifier::spinoff_prover]
proof fn lemma_number_chars_plain(q: Quantity, m: int, p: nat)
    ensures
        marker_free(spec_number_chars(q, m, p)),
{
    let s = spec_number_chars(q, m, p);
    crate::text::lemma_digits_marker_free(0);
    assert forall|i: int| 0 <= i < s.len() implies s[i] != MARK_START by {
        let r = crate::format::spec_scaled(q, m, p);
        let rp = crate::format::strip_zeros(r, p);
        crate::text::lemma_digits_marker_free(rp.0);
        crate::text::lemma_digits_marker_free(rp.0 / crate::format::pow10(rp.1));
        crate::text::lemma_digits_marker_free(rp.0 % crate::format::pow10(rp.1));
    }
}

/// The SI prefix is plain text.
proof fn lemma_prefix_chars_plain(m: int)
    ensures
        marker_free(spec_prefix_chars(m)),
{
}

/// A formatted quantity is closed: style markers from the theme, plain
/// text everywhere else.
pub proof fn lemma_spec_format_closed(s: Stream, v: int, theme: Theme)
    requires
        marker_free(s.unit@),
        theme.stream_number_color.wf(),
        theme.stream_unit_color.wf(),
    ensures
        closed(s.spec_format(v, theme)),
{
    let q = Quantity::spec_from_millis(v);
    let m = crate::format::spec_magnitude(q, s.spec_use_prefix(), s.precision as nat);
    let ns = theme.stream_number_color.fg@;
    let us = theme.stream_unit_color.fg@;
    let num = spec_number_chars(q, m, s.precision as nat);
    let pre = spec_prefix_chars(m);
    lemma_number_chars_plain(q, m, s.precision as nat);
    lemma_prefix_chars_plain(m);
    lemma_visible_plain(num);
    lemma_visible_plain(pre);
    lemma_visible_plain(s.unit@);
    lemma_closed_append(ns, num);
    lemma_closed_append(ns + num, us);
    lemma_closed_append(ns + num + us, pre);
    lemma_closed_append(ns + num + us + pre, s.unit@);
}

/// The printed quantity decomposes into its plain parts: the number, the
/// prefix, and the unit — the style markers take no columns.
#[verifier::spinoff_prover]
proof fn lemma_spec_format_visible(s: Stream, v: int, theme: Theme)
    requires
        marker_free(s.unit@),
        theme.stream_number_color.wf(),
        theme.stream_unit_color.wf(),
    ensures
        ({
            let q = Quantity::spec_from_millis(v);
            let m = crate::format::spec_magnitude(q, s.spec_use_prefix(), s.precision as nat);
            visible(s.spec_format(v, theme)) == spec_number_chars(q, m, s.precision as nat)
                + spec_prefix_chars(m) + s.unit@
        }),
{
    let q = Quantity::spec_from_millis(v);
    let m = crate::format::spec_magnitude(q, s.spec_use_prefix(), s.precision as nat);
    let ns = theme.stream_number_color.fg@;
    let us = theme.stream_unit_color.fg@;
    let num = spec_number_chars(q, m, s.precision as nat);
    let pre = spec_prefix_chars(m);
    lemma_number_chars_plain(q, m, s.precision as nat);
    lemma_prefix_chars_plain(m);
    lemma_visible_plain(num);
    lemma_visible_plain(pre);
    lemma_visible_plain(s.unit@);
    let i3 = pre + s.unit@;
    let i2 = us + i3;
    let i1 = num + i2;
    assert(s.spec_format(v, theme) =~= ns + i1);
    lemma_visible_append(ns, i1);
    lemma_visible_append(num, i2);
    lemma_visible_append(us, i3);
    lemma_visible_append(pre, s.unit@);
    assert(visible(s.spec_format(v, theme)) =~= num + pre + s.unit@);
}

/// The analytic width is a true bound on what `format` prints. With a
/// prefix it holds for every non-negative representable value; without
/// one it holds whenever the value's scaled and rounded integer part fits
/// the declared digit count — the obligation a provider's declared range
/// carries.
#[verifier::spinoff_prover]
pub proof fn lemma_format_width_bound(s: Stream, v: int, theme: Theme)
    requires
        s.wf(),
        value_ok(v),
        theme.stream_number_color.wf(),
        theme.stream_unit_color.wf(),
        s.spec_use_prefix() ==> v >= 0,
        v < 0 ==> s.signed,
        (match s.digits_before_decimal {
            Some(dd) => dd >= 1,
            None => true,
        }),
        !s.spec_use_prefix() ==> num_digits(
            (crate::format::spec_scaled(
                Quantity::spec_from_millis(v),
                0,
                s.precision as nat,
            ) as int / crate::format::pow10(s.precision as nat) as int) as nat,
        ) <= (match s.digits_before_decimal {
            Some(dd) => dd as nat,
            None => 3nat,
        }),
    ensures
        visible(s.spec_format(v, theme)).len() <= s.spec_format_width(),
{
    let q = Quantity::spec_from_millis(v);
    let p = s.precision as nat;
    let m = crate::format::spec_magnitude(q, s.spec_use_prefix(), p);
    let num = spec_number_chars(q, m, p);
    let pre = spec_prefix_chars(m);
    lemma_spec_format_visible(s, v, theme);
    lemma_visible_plain(s.unit@);
    let dd: nat = match s.digits_before_decimal {
        Some(x) => x as nat,
        None => 3nat,
    };
    assert(q.wf());
    assert(crate::format::quantity_formattable(q, s.spec_use_prefix(), p)) by {
        crate::format::lemma_pow10_literals();
        crate::format::lemma_num_digits_le(q.mantissa as nat, 20);
    }
    crate::format::lemma_number_chars_len(q, s.spec_use_prefix(), p, dd);
    assert(pre.len() <= (if s.spec_use_prefix() {
        1int
    } else {
        0int
    })) by {
        if !s.spec_use_prefix() {
            assert(m == 0);
        }
    }
}

/// A formatted duration is closed when its styles are pure markers.
#[verifier::spinoff_prover]
pub proof fn lemma_spec_duration_closed(ms: nat, ns: Seq<char>, us: Seq<char>)
    requires
        closed(ns),
        closed(us),
    ensures
        closed(spec_duration(ms, ns, us)),
{
    crate::text::lemma_digits_marker_free(0);
    if ms == 0 {
        lemma_visible_plain(seq!['0']);
        lemma_visible_plain(seq!['s']);
        lemma_closed_append(ns, seq!['0']);
        lemma_closed_append(ns + seq!['0'], us);
        lemma_closed_append(ns + seq!['0'] + us, seq!['s']);
    } else {
        let h = ms / 3600000;
        let rem_h = ms % 3600000;
        let m = rem_h / 60000;
        let rem_m = rem_h % 60000;
        let hp: Seq<char> = if h > 0 {
            ns + crate::text::spec_digits(h) + us + seq!['h']
        } else {
            Seq::empty()
        };
        let mp: Seq<char> = if m > 0 {
            ns + crate::text::spec_digits(m) + us + seq!['m']
        } else {
            Seq::empty()
        };
        let sp: Seq<char> = if rem_m > 0 {
            ns + crate::format::spec_seconds_chars(rem_m) + us + seq!['s']
        } else {
            Seq::empty()
        };
        if h > 0 {
            crate::text::lemma_digits_marker_free(h);
            lemma_visible_plain(crate::text::spec_digits(h));
            lemma_visible_plain(seq!['h']);
            lemma_closed_append(ns, crate::text::spec_digits(h));
            lemma_closed_append(ns + crate::text::spec_digits(h), us);
            lemma_closed_append(ns + crate::text::spec_digits(h) + us, seq!['h']);
        }
        if m > 0 {
            crate::text::lemma_digits_marker_free(m);
            lemma_visible_plain(crate::text::spec_digits(m));
            lemma_visible_plain(seq!['m']);
            lemma_closed_append(ns, crate::text::spec_digits(m));
            lemma_closed_append(ns + crate::text::spec_digits(m), us);
            lemma_closed_append(ns + crate::text::spec_digits(m) + us, seq!['m']);
        }
        if rem_m > 0 {
            let sec = crate::format::spec_seconds_chars(rem_m);
            assert(marker_free(sec)) by {
                crate::text::lemma_digits_marker_free(rem_m / 1000);
                assert forall|i: int| 0 <= i < sec.len() implies sec[i] != MARK_START by {}
            }
            lemma_visible_plain(sec);
            lemma_visible_plain(seq!['s']);
            lemma_closed_append(ns, sec);
            lemma_closed_append(ns + sec, us);
            lemma_closed_append(ns + sec + us, seq!['s']);
        }
        lemma_closed_append(hp, mp);
        lemma_closed_append(hp + mp, sp);
        assert(spec_duration(ms, ns, us) == hp + mp + sp);
    }
}

/// `s` cut to at most `width` characters.
pub open spec fn spec_cut(s: Seq<char>, width: int) -> Seq<char> {
    if s.len() <= width {
        s
    } else {
        s.take(width)
    }
}

/// The visible part of `string` cut to at most `width` columns, markers
/// kept complete; the printed width of the result is `min(width,
/// printed(string))`.
#[verifier::spinoff_prover]
pub fn fit_to_width(string: &str, width: usize) -> (r: String)
    requires
        closed(string@),
    ensures
        closed(r@),
        visible(r@) == spec_cut(visible(string@), width as int),
{
    let n = string.unicode_len();
    let mut i: usize = 0;
    let mut count: usize = 0;
    assert(string@.skip(0) =~= string@);
    assert(string@.take(0) =~= Seq::<char>::empty());
    while i < n && count < width
        invariant
            0 <= i <= n,
            n == string@.len(),
            count <= width,
            closed(string@),
            closed(string@.take(i as int)),
            visible(string@.take(i as int)).len() == count,
            visible(string@) == visible(string@.take(i as int)) + visible(
                string@.skip(i as int),
            ),
            closed(string@.skip(i as int)),
        decreases n - i,
    {
        let ghost pre = string@.take(i as int);
        let ghost tail = string@.skip(i as int);
        assert(tail.len() == n - i);
        assert(tail[0] == string@[i as int]);
        let c = string.get_char(i);
        if c == MARK_START {
            // closed: a complete marker follows.
            assert(tail[1] == string@[i as int + 1]);
            let mut j: usize = i + 2;
            assert(string@.skip(j as int) =~= tail.skip(2));
            proof {
                lemma_m_pos_bounds(tail.skip(2));
            }
            while j < n && string.get_char(j) != 'm'
                invariant
                    i + 2 <= j <= n,
                    n == string@.len(),
                    tail == string@.skip(i as int),
                    closed(tail),
                    tail[0] == MARK_START,
                    m_pos(tail.skip(2)) >= 0,
                    m_pos(tail.skip(2)) == (if m_pos(string@.skip(j as int)) < 0 {
                        -1int
                    } else {
                        j - i - 2 + m_pos(string@.skip(j as int))
                    }),
                    forall|q: int| i + 2 <= q < j ==> string@[q] != 'm' && string@[q] != '\n',
                decreases n - j,
            {
                let ghost tj = string@.skip(j as int);
                assert(tj[0] == string@[j as int]);
                assert(tj.skip(1) =~= string@.skip(j as int + 1));
                proof {
                    if string@[j as int] == '\n' {
                        assert(m_pos(tj) == -1);
                        assert(false);
                    }
                }
                j = j + 1;
            }
            proof {
                if j >= n {
                    assert(string@.skip(j as int) =~= Seq::<char>::empty());
                    assert(m_pos(string@.skip(j as int)) == -1);
                    assert(false);
                }
            }
            let ghost tj = string@.skip(j as int);
            assert(tj[0] == 'm');
            assert(m_pos(tj) == 0);
            let ghost p = j - i - 2;
            assert(m_pos(tail.skip(2)) == p as int);
            proof {
                let chunk = string@.subrange(i as int, j as int + 1);
                assert(chunk.len() == j + 1 - i);
                assert(chunk[0] == MARK_START);
                assert(chunk[1] == '[');
                assert(chunk[chunk.len() - 1] == 'm');
                assert forall|q: int| 2 <= q < chunk.len() - 1 implies (chunk[q] != 'm' && chunk[q]
                    != '\n') by {
                    assert(chunk[q] == string@[i + q]);
                }
                assert(is_marker(chunk));
                lemma_visible_marker(chunk);
                assert(string@.take(j as int + 1) =~= pre + chunk);
                lemma_closed_append(pre, chunk);
                lemma_visible_append(pre, chunk);
                assert(visible(string@.take(j as int + 1)) =~= visible(pre));
                assert(tail.skip(3 + p as int) =~= string@.skip(j as int + 1));
                assert(closed(tail) == closed(string@.skip(j as int + 1)));
                assert(visible(tail) == visible(string@.skip(j as int + 1)));
            }
            i = j + 1;
        } else {
            proof {
                let c1 = seq![tail[0]];
                assert(marker_free(c1));
                lemma_visible_plain(c1);
                assert(string@.take(i as int + 1) =~= pre + c1);
                lemma_closed_append(pre, c1);
                lemma_visible_append(pre, c1);
                assert(tail.skip(1) =~= string@.skip(i as int + 1));
                assert(closed(tail) == closed(tail.skip(1)));
                assert(visible(tail) == c1 + visible(tail.skip(1)));
            }
            count = count + 1;
            i = i + 1;
        }
    }
    let cut = string.substring_char(0, i);
    let mut r = String::new();
    r.append(cut);
    proof {
        assert(r@ =~= string@.take(i as int));
        if count < width {
            assert(i == n);
            assert(string@.take(i as int) =~= string@);
            assert(visible(string@.skip(i as int)) =~= Seq::<char>::empty());
        } else {
            assert(visible(r@) =~= visible(string@).take(width as int));
        }
    }
    r
}

/// What a left-padded column shows: spaces, then the cut visible text.
pub open spec fn spec_fit_left(s: Seq<char>, width: int) -> Seq<char> {
    Seq::new((width - spec_cut(s, width).len()) as nat, |i: int| ' ') + spec_cut(s, width)
}

/// What a right-padded column shows: the cut visible text, then spaces.
pub open spec fn spec_fit_right(s: Seq<char>, width: int) -> Seq<char> {
    spec_cut(s, width) + Seq::new((width - spec_cut(s, width).len()) as nat, |i: int| ' ')
}

/// `string` padded on the left with spaces to `width` columns, its visible
/// part cut to `width` columns first.
#[verifier::spinoff_prover]
pub fn fit_left(string: &str, width: usize) -> (r: String)
    requires
        closed(string@),
    ensures
        closed(r@),
        visible(r@).len() == width,
        visible(r@) == spec_fit_left(visible(string@), width as int),
{
    let t = fit_to_width(string, width);
    let w = printed_width(t.as_str());
    let pad = spaces(width - w);
    let mut r = String::new();
    r.append(pad.as_str());
    r.append(t.as_str());
    proof {
        assert(marker_free(pad@));
        lemma_visible_plain(pad@);
        assert(r@ =~= pad@ + t@);
        lemma_closed_append(pad@, t@);
        lemma_visible_append(pad@, t@);
    }
    r
}

/// `string` padded on the right with spaces to `width` columns, its
/// visible part cut to `width` columns first.
#[verifier::spinoff_prover]
pub fn fit_right(string: &str, width: usize) -> (r: String)
    requires
        closed(string@),
    ensures
        closed(r@),
        visible(r@).len() == width,
        visible(r@) == spec_fit_right(visible(string@), width as int),
{
    let t = fit_to_width(string, width);
    let w = printed_width(t.as_str());
    let pad = spaces(width - w);
    let mut r = String::new();
    r.append(t.as_str());
    r.append(pad.as_str());
    proof {
        assert(marker_free(pad@));
        lemma_visible_plain(pad@);
        assert(r@ =~= t@ + pad@);
        lemma_closed_append(t@, pad@);
        lemma_visible_append(t@, pad@);
    }
    r
}

/// Which of the eight fill levels a value selects within `[lo, hi]`: the
/// level is the ceiling of the value's relative position times eight, and
/// a value exactly at `lo` still selects the lowest glyph, never an empty
/// column; a degenerate range always selects the lowest glyph.
pub open spec fn spec_bar_index(v: int, lo: int, hi: int) -> int {
    if lo < hi {
        let bucket = ((v - lo) * 8 + (hi - lo) - 1) / (hi - lo);
        if bucket == 0 {
            0
        } else {
            bucket - 1
        }
    } else {
        0
    }
}

#[verifier::spinoff_prover]
pub fn bar_index(value: i64, lo: i64, hi: i64) -> (idx: usize)
    requires
        value_ok(lo as int),
        value_ok(hi as int),
        lo <= value <= hi,
    ensures
        idx == spec_bar_index(value as int, lo as int, hi as int),
        idx < 8,
{
    if lo < hi {
        let num = (value as i128 - lo as i128) as u128 * 8;
        let den = (hi as i128 - lo as i128) as u128;
        let bucket = (num + den - 1) / den;
        proof {
            assert(num <= 8 * den) by (nonlinear_arith)
                requires
                    num == (value - lo) * 8,
                    den == hi - lo,
                    value <= hi,
                    lo <= value,
            ;
            assert(bucket <= 8) by (nonlinear_arith)
                requires
                    bucket as int == (num as int + den - 1) / (den as int),
                    num <= 8 * den,
                    den >= 1,
            ;
            assert(bucket as int == ((value - lo) * 8 + (hi - lo) - 1) / (hi - lo));
        }
        if bucket == 0 {
            0
        } else {
            (bucket - 1) as usize
        }
    } else {
        0
    }
}

/// Bucketizing the exact lower bound yields the lowest glyph, the exact
/// upper bound the highest, and a degenerate range always the lowest.
#[verifier::spinoff_prover]
pub proof fn lemma_bar_index_extremes(lo: int, hi: int)
    ensures
        lo < hi ==> spec_bar_index(lo, lo, hi) == 0,
        lo < hi ==> spec_bar_index(hi, lo, hi) == 7,
        spec_bar_index(lo, lo, lo) == 0,
{
    if lo < hi {
        let d = hi - lo;
        assert((0 * 8 + d - 1) / d == 0) by (nonlinear_arith)
            requires
                d >= 1,
        ;
        assert((d * 8 + d - 1) / d == 8) by (nonlinear_arith)
            requires
                d >= 1,
        ;
    }
}

/// The glyph for fill level `i`: the eight block elements from one-eighth
/// to full.
pub open spec fn spec_bar_glyph(i: int) -> char {
    if i <= 0 {
        '\u{2581}'
    } else if i == 1 {
        '\u{2582}'
    } else if i == 2 {
        '\u{2583}'
    } else if i == 3 {
        '\u{2584}'
    } else if i == 4 {
        '\u{2585}'
    } else if i == 5 {
        '\u{2586}'
    } else if i == 6 {
        '\u{2587}'
    } else {
        '\u{2588}'
    }
}

#[verifier::spinoff_prover]
fn bar_glyph(i: usize) -> (r: &'static str)
    requires
        i < 8,
    ensures
        r@ == seq![spec_bar_glyph(i as int)],
{
    proof {
        reveal_strlit("\u{2581}");
        reveal_strlit("\u{2582}");
        reveal_strlit("\u{2583}");
        reveal_strlit("\u{2584}");
        reveal_strlit("\u{2585}");
        reveal_strlit("\u{2586}");
        reveal_strlit("\u{2587}");
        reveal_strlit("\u{2588}");
    }
    let r = match i {
        0 => "\u{2581}",
        1 => "\u{2582}",
        2 => "\u{2583}",
        3 => "\u{2584}",
        4 => "\u{2585}",
        5 => "\u{2586}",
        6 => "\u{2587}",
        _ => "\u{2588}",
    };
    assert(r@ =~= seq![spec_bar_glyph(i as int)]);
    r
}

/// The marker drawn where a sample is absent.
#[verifier::spinoff_prover]
fn dot_str() -> (r: &'static str)
    ensures
        r@ == seq!['\u{2022}'],
{
    proof {
        reveal_strlit("\u{2022}");
    }
    let r = "\u{2022}";
    assert(r@ =~= seq!['\u{2022}']);
    r
}

/// The last `width` history entries, oldest first, absent entries filling
/// positions older than the history.
pub open spec fn spec_window(vs: Seq<Option<i64>>, width: int) -> Seq<Option<i64>> {
    Seq::new(
        width as nat,
        |i: int|
            if width - i <= vs.len() {
                vs[vs.len() - (width - i)]
            } else {
                None
            },
    )
}

#[verifier::spinoff_prover]
pub fn window(values: &Vec<Option<i64>>, width: usize) -> (r: Vec<Option<i64>>)
    ensures
        r@ == spec_window(values@, width as int),
{
    let mut r: Vec<Option<i64>> = Vec::new();
    let mut i: usize = 0;
    while i < width
        invariant
            i <= width,
            r@.len() == i,
            forall|q: int| 0 <= q < i ==> r@[q] == spec_window(values@, width as int)[q],
        decreases width - i,
    {
        if width - i <= values.len() {
            r.push(values[values.len() - (width - i)]);
        } else {
            r.push(None);
        }
        i = i + 1;
    }
    proof {
        assert(r@ =~= spec_window(values@, width as int));
    }
    r
}

/// How many samples in the window are present.
pub open spec fn spec_count_present(vs: Seq<Option<i64>>) -> nat
    decreases vs.len(),
{
    if vs.len() == 0 {
        0
    } else {
        spec_count_present(vs.drop_last()) + (if vs.last() is Some {
            1nat
        } else {
            0nat
        })
    }
}

/// The smallest present sample.
pub open spec fn spec_min_present(vs: Seq<Option<i64>>) -> Option<i64>
    decreases vs.len(),
{
    if vs.len() == 0 {
        None
    } else {
        let r = spec_min_present(vs.drop_last());
        match vs.last() {
            None => r,
            Some(v) => match r {
                None => Some(v),
                Some(m) => Some(
                    if v < m {
                        v
                    } else {
                        m
                    },
                ),
            },
        }
    }
}

/// The largest present sample.
pub open spec fn spec_max_present(vs: Seq<Option<i64>>) -> Option<i64>
    decreases vs.len(),
{
    if vs.len() == 0 {
        None
    } else {
        let r = spec_max_present(vs.drop_last());
        match vs.last() {
            None => r,
            Some(v) => match r {
                None => Some(v),
                Some(m) => Some(
                    if v > m {
                        v
                    } else {
                        m
                    },
                ),
            },
        }
    }
}

/// The sum of the present samples.
pub open spec fn spec_sum_present(vs: Seq<Option<i64>>) -> int
    decreases vs.len(),
{
    if vs.len() == 0 {
        0
    } else {
        spec_sum_present(vs.drop_last()) + (match vs.last() {
            Some(v) => v as int,
            None => 0int,
        })
    }
}

/// The most recent present sample.
pub open spec fn spec_last_present(vs: Seq<Option<i64>>) -> Option<i64>
    decreases vs.len(),
{
    if vs.len() == 0 {
        None
    } else {
        match vs.last() {
            Some(v) => Some(v),
            None => spec_last_present(vs.drop_last()),
        }
    }
}

/// The arithmetic mean of the present samples, rounded down.
pub open spec fn spec_avg_present(vs: Seq<Option<i64>>) -> int {
    spec_sum_present(vs) / (spec_count_present(vs) as int)
}

/// Minimum, maximum and mean of the present samples in the window, or
/// nothing when no sample is present.
#[verifier::spinoff_prover]
fn stats(values: &Vec<Option<i64>>) -> (r: Option<(i64, i64, i64)>)
    requires
        forall|q: int|
            0 <= q < values@.len() ==> ((#[trigger] values@[q]) matches Some(v) ==> value_ok(
                v as int,
            )),
    ensures
        r is Some <==> spec_count_present(values@) > 0,
        r is None ==> spec_min_present(values@) is None && spec_max_present(values@) is None,
        r matches Some(t) ==> spec_min_present(values@) == Some(t.0) && spec_max_present(values@)
            == Some(t.1) && t.2 == spec_avg_present(values@) && value_ok(t.0 as int) && value_ok(
            t.1 as int,
        ) && value_ok(t.2 as int) && t.0 <= t.1,
        forall|q: int|
            0 <= q < values@.len() ==> ((#[trigger] values@[q]) matches Some(v) ==> (r matches Some(
                t,
            ) && t.0 <= v <= t.1)),
    decreases values@.len(),
{
    let ghost vs = values@;
    let mut count: usize = 0;
    let mut mn: i64 = 0;
    let mut mx: i64 = 0;
    let mut sum: i128 = 0;
    let mut i: usize = 0;
    assert(vs.take(0) =~= Seq::<Option<i64>>::empty());
    while i < values.len()
        invariant
            vs == values@,
            i <= vs.len(),
            count <= i,
            forall|q: int|
                0 <= q < vs.len() ==> ((#[trigger] vs[q]) matches Some(v) ==> value_ok(v as int)),
            count == spec_count_present(vs.take(i as int)),
            sum == spec_sum_present(vs.take(i as int)),
            count > 0 ==> spec_min_present(vs.take(i as int)) == Some(mn) && spec_max_present(
                vs.take(i as int),
            ) == Some(mx) && value_ok(mn as int) && value_ok(mx as int) && mn <= mx,
            count == 0 ==> spec_min_present(vs.take(i as int)) is None && spec_max_present(
                vs.take(i as int),
            ) is None,
            -(count as int) * (crate::stream::VALUE_LIMIT as int) <= sum <= (count as int) * (
            crate::stream::VALUE_LIMIT as int),
            forall|q: int|
                0 <= q < i ==> ((#[trigger] vs[q]) matches Some(v) ==> (count > 0 && mn <= v
                    <= mx)),
        decreases vs.len() - i,
    {
        let ghost pre = vs.take(i as int);
        assert(vs.take(i as int + 1).drop_last() =~= pre);
        assert(vs.take(i as int + 1).last() == vs[i as int]);
        proof {
            assert((count as int + 1) * (crate::stream::VALUE_LIMIT as int) == count as int * (
            crate::stream::VALUE_LIMIT as int) + crate::stream::VALUE_LIMIT) by (nonlinear_arith);
        }
        match values[i] {
            Some(v) => {
                if count == 0 {
                    mn = v;
                    mx = v;
                } else {
                    if v < mn {
                        mn = v;
                    }
                    if v > mx {
                        mx = v;
                    }
                }
                sum = sum + v as i128;
                count = count + 1;
            },
            None => {},
        }
        i = i + 1;
    }
    assert(vs.take(i as int) =~= vs);
    if count == 0 {
        None
    } else {
        let avg: i64;
        proof {
            vstd::arithmetic::div_mod::lemma_fundamental_div_mod(sum as int, count as int);
        }
        if sum >= 0 {
            let q = (sum as u128) / (count as u128);
            proof {
                assert(q as int == (sum as int) / (count as int));
                assert(q as int * (count as int) <= sum) by (nonlinear_arith)
                    requires
                        q as int == (sum as int) / (count as int),
                        count >= 1,
                        sum >= 0,
                ;
                assert(q <= crate::stream::VALUE_LIMIT as u128) by (nonlinear_arith)
                    requires
                        q as int * (count as int) <= sum,
                        sum <= (count as int) * (crate::stream::VALUE_LIMIT as int),
                        count >= 1,
                        q >= 0,
                ;
            }
            avg = q as i64;
        } else {
            let neg = ((-sum) as u128 + (count as u128) - 1) / (count as u128);
            proof {
                let c = count as int;
                let qd = (sum as int) / c;
                let rem = (sum as int) % c;
                vstd::arithmetic::div_mod::lemma_fundamental_div_mod(sum as int, c);
                assert(sum as int == c * qd + rem);
                assert(0 <= rem < c);
                assert(qd < 0) by (nonlinear_arith)
                    requires
                        sum < 0,
                        c >= 1,
                        sum as int == c * qd + rem,
                        0 <= rem < c,
                ;
                if rem == 0 {
                    assert((-sum) as int + c - 1 == c * (-qd) + (c - 1)) by (nonlinear_arith)
                        requires
                            sum as int == c * qd + rem,
                            rem == 0,
                    ;
                    assert(((c * (-qd) + (c - 1)) / c) == -qd) by (nonlinear_arith)
                        requires
                            c >= 1,
                            qd <= 0,
                    ;
                } else {
                    assert((-sum) as int + c - 1 == c * (-qd) + (c - rem - 1)) by (nonlinear_arith)
                        requires
                            sum as int == c * qd + rem,
                    ;
                    assert(((c * (-qd) + (c - rem - 1)) / c) == -qd) by (nonlinear_arith)
                        requires
                            c >= 1,
                            0 <= c - rem - 1 < c,
                    ;
                }
                assert(neg as int == -qd);
                assert(qd >= -(crate::stream::VALUE_LIMIT as int)) by (nonlinear_arith)
                    requires
                        sum as int == c * qd + rem,
                        0 <= rem < c,
                        sum as int >= -c * (crate::stream::VALUE_LIMIT as int),
                        c >= 1,
                ;
            }
            avg = -(neg as i64);
        }
        Some((mn, mx, avg))
    }
}

/// The most recent present sample in the window.
#[verifier::spinoff_prover]
fn last_present(values: &Vec<Option<i64>>) -> (r: Option<i64>)
    ensures
        r == spec_last_present(values@),
{
    let ghost vs = values@;
    let mut i: usize = values.len();
    assert(vs.take(vs.len() as int) =~= vs);
    while i > 0
        invariant
            vs == values@,
            i <= vs.len(),
            spec_last_present(vs) == spec_last_present(vs.take(i as int)),
        decreases i,
    {
        i = i - 1;
        assert(vs.take(i as int + 1).drop_last() =~= vs.take(i as int));
        assert(vs.take(i as int + 1).last() == vs[i as int]);
        match values[i] {
            Some(v) => {
                return Some(v);
            },
            None => {},
        }
    }
    assert(vs.take(0) =~= Seq::<Option<i64>>::empty());
    None
}

/// What one graph column shows: the bar glyph its sample selects, or the
/// no-data marker when the sample is absent.
pub open spec fn spec_cell_char(v: Option<i64>, lo: int, hi: int) -> char {
    match v {
        Some(x) => spec_bar_glyph(spec_bar_index(x as int, lo, hi)),
        None => '\u{2022}',
    }
}

/// The graph columns from `i` on, exactly as drawn: a column whose
/// distance from the right edge is a multiple of the tick spacing carries
/// the tick-intersection styling around its glyph, every other column the
/// glyph alone.
pub open spec fn spec_graph_cells(
    values: Seq<Option<i64>>,
    i: int,
    lo: int,
    hi: int,
    tick_spacing: int,
    color: Color,
    tick_color: Color,
    theme_tick: Color,
    background: Color,
) -> Seq<char>
    decreases values.len() - i,
{
    if i < 0 || i >= values.len() {
        Seq::empty()
    } else {
        let sym = seq![spec_cell_char(values[i], lo, hi)];
        let cell = if (values.len() - 1 - i) % tick_spacing == 0 {
            tick_color.fg@ + theme_tick.bg@ + sym + color.fg@ + background.bg@
        } else {
            sym
        };
        cell + spec_graph_cells(
            values,
            i + 1,
            lo,
            hi,
            tick_spacing,
            color,
            tick_color,
            theme_tick,
            background,
        )
    }
}

/// One graph row: a column per window slot, tick-intersection columns
/// restyled, absent samples drawn as the no-data marker.
#[verifier::spinoff_prover]
fn graph_row(
    values: &Vec<Option<i64>>,
    lo: i64,
    hi: i64,
    tick_spacing: usize,
    color: &Color,
    tick_color: &Color,
    theme_tick: &Color,
    background: &Color,
) -> (r: String)
    requires
        value_ok(lo as int),
        value_ok(hi as int),
        tick_spacing >= 1,
        values@.len() >= 1,
        forall|q: int|
            0 <= q < values@.len() ==> ((#[trigger] values@[q]) matches Some(v) ==> lo <= v <= hi),
        color.wf(),
        tick_color.wf(),
        theme_tick.wf(),
        background.wf(),
    ensures
        closed(r@),
        visible(r@).len() == values@.len(),
        r@ == color.fg@ + background.bg@ + spec_graph_cells(
            values@,
            0,
            lo as int,
            hi as int,
            tick_spacing as int,
            *color,
            *tick_color,
            *theme_tick,
            *background,
        ),
        forall|q: int|
            0 <= q < values@.len() ==> visible(r@)[q] == spec_cell_char(
                values@[q],
                lo as int,
                hi as int,
            ),
{
    let ghost vs = values@;
    let width = values.len();
    let mut r = String::new();
    r.append(color.fg.as_str());
    r.append(background.bg.as_str());
    proof {
        lemma_closed_append(color.fg@, background.bg@);
        lemma_visible_append(color.fg@, background.bg@);
        assert(visible(r@).len() == 0);
        assert(r@ =~= color.fg@ + background.bg@ + Seq::<char>::empty());
    }
    let ghost full = color.fg@ + background.bg@ + spec_graph_cells(
        vs,
        0,
        lo as int,
        hi as int,
        tick_spacing as int,
        *color,
        *tick_color,
        *theme_tick,
        *background,
    );
    let mut i: usize = 0;
    while i < width
        invariant
            vs == values@,
            width == vs.len(),
            i <= width,
            value_ok(lo as int),
            value_ok(hi as int),
            tick_spacing >= 1,
            forall|q: int|
                0 <= q < vs.len() ==> ((#[trigger] vs[q]) matches Some(v) ==> lo <= v <= hi),
            color.wf(),
            tick_color.wf(),
            theme_tick.wf(),
            background.wf(),
            closed(r@),
            visible(r@).len() == i,
            forall|q: int|
                0 <= q < i ==> visible(r@)[q] == spec_cell_char(vs[q], lo as int, hi as int),
            full == color.fg@ + background.bg@ + spec_graph_cells(
                vs,
                0,
                lo as int,
                hi as int,
                tick_spacing as int,
                *color,
                *tick_color,
                *theme_tick,
                *background,
            ),
            full == r@ + spec_graph_cells(
                vs,
                i as int,
                lo as int,
                hi as int,
                tick_spacing as int,
                *color,
                *tick_color,
                *theme_tick,
                *background,
            ),
        decreases width - i,
    {
        let ghost rest = spec_graph_cells(
            vs,
            i as int,
            lo as int,
            hi as int,
            tick_spacing as int,
            *color,
            *tick_color,
            *theme_tick,
            *background,
        );
        let ghost rest_next = spec_graph_cells(
            vs,
            i as int + 1,
            lo as int,
            hi as int,
            tick_spacing as int,
            *color,
            *tick_color,
            *theme_tick,
            *background,
        );
        let sym = match values[i] {
            Some(v) => bar_glyph(bar_index(v, lo, hi)),
            None => dot_str(),
        };
        proof {
            assert(marker_free(sym@));
            lemma_visible_plain(sym@);
            assert(sym@ == seq![spec_cell_char(vs[i as int], lo as int, hi as int)]);
        }
        if ((width - 1) - i) % tick_spacing == 0 {
            let ghost r0 = r@;
            r.append(tick_color.fg.as_str());
            r.append(theme_tick.bg.as_str());
            r.append(sym);
            r.append(color.fg.as_str());
            r.append(background.bg.as_str());
            proof {
                lemma_closed_append(r0, tick_color.fg@);
                lemma_visible_append(r0, tick_color.fg@);
                lemma_closed_append(r0 + tick_color.fg@, theme_tick.bg@);
                lemma_visible_append(r0 + tick_color.fg@, theme_tick.bg@);
                lemma_closed_append(r0 + tick_color.fg@ + theme_tick.bg@, sym@);
                lemma_visible_append(r0 + tick_color.fg@ + theme_tick.bg@, sym@);
                lemma_closed_append(r0 + tick_color.fg@ + theme_tick.bg@ + sym@, color.fg@);
                lemma_visible_append(r0 + tick_color.fg@ + theme_tick.bg@ + sym@, color.fg@);
                lemma_closed_append(
                    r0 + tick_color.fg@ + theme_tick.bg@ + sym@ + color.fg@,
                    background.bg@,
                );
                lemma_visible_append(
                    r0 + tick_color.fg@ + theme_tick.bg@ + sym@ + color.fg@,
                    background.bg@,
                );
                assert(rest == (tick_color.fg@ + theme_tick.bg@ + sym@ + color.fg@
                    + background.bg@) + rest_next);
                assert(r@ + rest_next =~= r0 + rest);
            }
        } else {
            let ghost r0 = r@;
            r.append(sym);
            proof {
                lemma_closed_append(r0, sym@);
                lemma_visible_append(r0, sym@);
                assert(rest == sym@ + rest_next);
                assert(r@ + rest_next =~= r0 + rest);
            }
        }
        i = i + 1;
    }
    proof {
        assert(spec_graph_cells(
            vs,
            width as int,
            lo as int,
            hi as int,
            tick_spacing as int,
            *color,
            *tick_color,
            *theme_tick,
            *background,
        ) =~= Seq::<char>::empty());
        assert(r@ =~= full);
    }
    r
}

impl MenuItem {
    /// What `render` produces for this item.
    pub open spec fn spec_render(self, theme: Theme) -> Seq<char> {
        theme.bottom_bar_key_background_color.fg@ + theme.bottom_bar_color.bg@ + seq!['\u{2590}']
            + theme.bottom_bar_key_text_color.fg@ + theme.bottom_bar_key_background_color.bg@
            + self.keys@ + theme.bottom_bar_key_background_color.fg@ + theme.bottom_bar_color.bg@
            + seq!['\u{258C}'] + theme.bottom_bar_label_color.fg@ + self.label@
    }

    /// One styled key/label pair of the bottom bar.
    #[verifier::spinoff_prover]
    pub fn render(&self, theme: &Theme) -> (r: String)
        requires
            theme.bottom_bar_key_background_color.wf(),
            theme.bottom_bar_color.wf(),
            theme.bottom_bar_key_text_color.wf(),
            theme.bottom_bar_label_color.wf(),
        ensures
            r@ == self.spec_render(*theme),
            crate::text::marker_free(self.keys@) && crate::text::marker_free(self.label@)
                ==> closed(r@) && visible(r@).len() == 2 + self.keys@.len() + self.label@.len(),
    {
        proof {
            reveal_strlit("\u{2590}");
            reveal_strlit("\u{258C}");
        }
        let mut r = String::new();
        r.append(theme.bottom_bar_key_background_color.fg.as_str());
        r.append(theme.bottom_bar_color.bg.as_str());
        r.append("\u{2590}");
        r.append(theme.bottom_bar_key_text_color.fg.as_str());
        r.append(theme.bottom_bar_key_background_color.bg.as_str());
        r.append(self.keys.as_str());
        r.append(theme.bottom_bar_key_background_color.fg.as_str());
        r.append(theme.bottom_bar_color.bg.as_str());
        r.append("\u{258C}");
        r.append(theme.bottom_bar_label_color.fg.as_str());
        r.append(self.label.as_str());
        proof {
            assert(r@ =~= self.spec_render(*theme));
            if crate::text::marker_free(self.keys@) && crate::text::marker_free(self.label@) {
                let t = *theme;
                let p1 = t.bottom_bar_key_background_color.fg@;
                let p2 = t.bottom_bar_color.bg@;
                let g1 = seq!['\u{2590}'];
                let p3 = t.bottom_bar_key_text_color.fg@;
                let p4 = t.bottom_bar_key_background_color.bg@;
                let ks = self.keys@;
                let g2 = seq!['\u{258C}'];
                let p5 = t.bottom_bar_label_color.fg@;
                let lb = self.label@;
                assert(marker_free(g1));
                assert(marker_free(g2));
                lemma_visible_plain(g1);
                lemma_visible_plain(g2);
                lemma_visible_plain(ks);
                lemma_visible_plain(lb);
                lemma_closed_append(p1, p2);
                lemma_visible_append(p1, p2);
                lemma_closed_append(p1 + p2, g1);
                lemma_visible_append(p1 + p2, g1);
                lemma_closed_append(p1 + p2 + g1, p3);
                lemma_visible_append(p1 + p2 + g1, p3);
                lemma_closed_append(p1 + p2 + g1 + p3, p4);
                lemma_visible_append(p1 + p2 + g1 + p3, p4);
                lemma_closed_append(p1 + p2 + g1 + p3 + p4, ks);
                lemma_visible_append(p1 + p2 + g1 + p3 + p4, ks);
                lemma_closed_append(p1 + p2 + g1 + p3 + p4 + ks, p1);
                lemma_visible_append(p1 + p2 + g1 + p3 + p4 + ks, p1);
                lemma_closed_append(p1 + p2 + g1 + p3 + p4 + ks + p1, p2);
                lemma_visible_append(p1 + p2 + g1 + p3 + p4 + ks + p1, p2);
                lemma_closed_append(p1 + p2 + g1 + p3 + p4 + ks + p1 + p2, g2);
                lemma_visible_append(p1 + p2 + g1 + p3 + p4 + ks + p1 + p2, g2);
                lemma_closed_append(p1 + p2 + g1 + p3 + p4 + ks + p1 + p2 + g2, p5);
                lemma_visible_append(p1 + p2 + g1 + p3 + p4 + ks + p1 + p2 + g2, p5);
                lemma_closed_append(p1 + p2 + g1 + p3 + p4 + ks + p1 + p2 + g2 + p5, lb);
                lemma_visible_append(p1 + p2 + g1 + p3 + p4 + ks + p1 + p2 + g2 + p5, lb);
            }
        }
        r
    }
}

/// The most recent present sample occurs in the window.
#[verifier::spinoff_prover]
proof fn lemma_last_present_member(vs: Seq<Option<i64>>)
    ensures
        spec_last_present(vs) matches Some(v) ==> exists|q: int|
            0 <= q < vs.len() && #[trigger] vs[q] == Some(v),
    decreases vs.len(),
{
    if vs.len() > 0 {
        match vs.last() {
            Some(v) => {
                assert(vs[vs.len() - 1] == Some(v));
            },
            None => {
                lemma_last_present_member(vs.drop_last());
                match spec_last_present(vs.drop_last()) {
                    Some(v) => {
                        let qw = choose|q: int|
                            0 <= q < vs.drop_last().len() && #[trigger] vs.drop_last()[q] == Some(
                                v,
                            );
                        assert(vs[qw] == Some(v));
                    },
                    None => {},
                }
            },
        }
    }
}

/// The smallest present sample occurs in the window.
#[verifier::spinoff_prover]
proof fn lemma_min_present_member(vs: Seq<Option<i64>>)
    ensures
        spec_min_present(vs) matches Some(v) ==> exists|q: int|
            0 <= q < vs.len() && #[trigger] vs[q] == Some(v),
    decreases vs.len(),
{
    if vs.len() > 0 {
        lemma_min_present_member(vs.drop_last());
        match spec_min_present(vs.drop_last()) {
            Some(v) => {
                let qw = choose|q: int|
                    0 <= q < vs.drop_last().len() && #[trigger] vs.drop_last()[q] == Some(v);
                assert(vs[qw] == Some(v));
                match vs.last() {
                    Some(w) => {
                        assert(vs[vs.len() - 1] == Some(w));
                    },
                    None => {},
                }
            },
            None => {
                match vs.last() {
                    Some(w) => {
                        assert(vs[vs.len() - 1] == Some(w));
                    },
                    None => {},
                }
            },
        }
    }
}

/// The largest present sample occurs in the window.
#[verifier::spinoff_prover]
proof fn lemma_max_present_member(vs: Seq<Option<i64>>)
    ensures
        spec_max_present(vs) matches Some(v) ==> exists|q: int|
            0 <= q < vs.len() && #[trigger] vs[q] == Some(v),
    decreases vs.len(),
{
    if vs.len() > 0 {
        lemma_max_present_member(vs.drop_last());
        match spec_max_present(vs.drop_last()) {
            Some(v) => {
                let qw = choose|q: int|
                    0 <= q < vs.drop_last().len() && #[trigger] vs.drop_last()[q] == Some(v);
                assert(vs[qw] == Some(v));
                match vs.last() {
                    Some(w) => {
                        assert(vs[vs.len() - 1] == Some(w));
                    },
                    None => {},
                }
            },
            None => {
                match vs.last() {
                    Some(w) => {
                        assert(vs[vs.len() - 1] == Some(w));
                    },
                    None => {},
                }
            },
        }
    }
}

/// Appends a closed piece to a closed line, tracking the printed width.
#[verifier::spinoff_prover]
pub(crate) fn push_styled(line: &mut String, part: &str)
    requires
        closed(old(line)@),
        closed(part@),
    ensures
        closed(final(line)@),
        final(line)@ == old(line)@ + part@,
        visible(final(line)@) == visible(old(line)@) + visible(part@),
{
    let ghost l0 = line@;
    line.append(part);
    proof {
        lemma_closed_append(l0, part@);
        lemma_visible_append(l0, part@);
    }
}

/// Ellipsizing plain text yields plain text.
#[verifier::spinoff_prover]
pub(crate) proof fn lemma_ellipsize_plain(s: Seq<char>, w: int)
    requires
        marker_free(s),
        w >= 1,
    ensures
        marker_free(crate::text::spec_ellipsize(s, w)),
{
    let e = crate::text::spec_ellipsize(s, w);
    if s.len() > w {
        assert forall|i: int| 0 <= i < e.len() implies e[i] != MARK_START by {
            if i < w - 1 {
                assert(e[i] == s[i]);
            } else {
                assert(e[i] == '\u{2026}');
            }
        }
    }
}

impl StreamWrapper {
    /// The effective lower bound of the visible window: the declared
    /// minimum, else the smallest present sample.
    pub open spec fn spec_window_lo(self, gw: int) -> Option<i64> {
        match self.stream.min {
            Some(m) => Some(m),
            None => spec_min_present(spec_window(self.values@, gw)),
        }
    }

    /// The effective upper bound of the visible window: the declared
    /// maximum, else the largest present sample.
    pub open spec fn spec_window_hi(self, gw: int) -> Option<i64> {
        match self.stream.max {
            Some(m) => Some(m),
            None => spec_max_present(spec_window(self.values@, gw)),
        }
    }

    /// The range the collapsed graph buckets against; a missing bound
    /// falls back to zero, where no sample can be present anyway.
    pub open spec fn spec_collapsed_lo(self, gw: int) -> int {
        match self.spec_window_lo(gw) {
            Some(v) => v as int,
            None => 0,
        }
    }

    pub open spec fn spec_collapsed_hi(self, gw: int) -> int {
        match self.spec_window_hi(gw) {
            Some(v) => v as int,
            None => 0,
        }
    }

    /// What the latest-value column shows: the most recent present sample
    /// of the window, formatted, or nothing.
    pub open spec fn spec_value_vis(self, gw: int, theme: Theme) -> Seq<char> {
        match spec_last_present(spec_window(self.values@, gw)) {
            Some(v) => visible(self.stream.spec_format(v as int, theme)),
            None => Seq::<char>::empty(),
        }
    }

    /// The collapsed row's visible columns: the right-aligned name, a
    /// space, one bucketized glyph (or no-data marker) per window slot —
    /// column `q` showing the window entry `q`, newest at the right edge —
    /// a space, and the padded latest value.
    pub open spec fn spec_collapsed_visible(self, nw: int, gw: int, vw: int, theme: Theme) -> Seq<
        char,
    > {
        spec_fit_left(self.stream.name@, nw) + seq![' '] + Seq::new(
            gw as nat,
            |q: int|
                spec_cell_char(
                    spec_window(self.values@, gw)[q],
                    self.spec_collapsed_lo(gw),
                    self.spec_collapsed_hi(gw),
                ),
        ) + seq![' '] + spec_fit_right(self.spec_value_vis(gw, theme), vw)
    }

    /// Whether both effective bounds exist, so band rows and axis labels
    /// can be drawn.
    pub open spec fn spec_bounded(self, gw: int) -> bool {
        self.spec_window_lo(gw) is Some && self.spec_window_hi(gw) is Some
    }

    pub open spec fn spec_band_min(self, gw: int) -> int {
        if self.spec_bounded(gw) {
            self.spec_collapsed_lo(gw)
        } else {
            0
        }
    }

    pub open spec fn spec_band_max(self, gw: int) -> int {
        if self.spec_bounded(gw) {
            self.spec_collapsed_hi(gw)
        } else {
            0
        }
    }

    /// The height of one of the five equal value bands.
    pub open spec fn spec_band_height(self, gw: int) -> int {
        (self.spec_band_max(gw) - self.spec_band_min(gw)) / 5
    }

    /// The sub-range band row `y` covers (row 0 is the top band).
    pub open spec fn spec_row_lo(self, gw: int, y: int) -> int {
        self.spec_band_min(gw) + (4 - y) * self.spec_band_height(gw)
    }

    pub open spec fn spec_row_hi(self, gw: int, y: int) -> int {
        self.spec_row_lo(gw, y) + self.spec_band_height(gw)
    }

    /// The window clamped into band row `y`: values below the band vanish,
    /// values above it clamp to its top.
    pub open spec fn spec_band_values(self, gw: int, y: int) -> Seq<Option<i64>> {
        Seq::new(
            gw as nat,
            |q: int|
                match spec_window(self.values@, gw)[q] {
                    Some(v) => if v < self.spec_row_lo(gw, y) {
                        None
                    } else if v > self.spec_row_hi(gw, y) {
                        Some(self.spec_row_hi(gw, y) as i64)
                    } else {
                        Some(v)
                    },
                    None => None,
                },
        )
    }

    /// The left axis label of band row `y`: the formatted upper bound on
    /// the top row, the middle of the range on the middle row, the lower
    /// bound on the bottom row, nothing elsewhere or without bounds.
    pub open spec fn spec_left_axis_vis(self, gw: int, theme: Theme, y: int) -> Seq<char> {
        if !self.spec_bounded(gw) {
            Seq::<char>::empty()
        } else if y == 0 {
            visible(self.stream.spec_format(self.spec_band_max(gw), theme))
        } else if y == 2 {
            visible(
                self.stream.spec_format(
                    self.spec_band_min(gw) + (self.spec_band_max(gw) - self.spec_band_min(gw))
                        / 2,
                    theme,
                ),
            )
        } else if y == 4 {
            visible(self.stream.spec_format(self.spec_band_min(gw), theme))
        } else {
            Seq::<char>::empty()
        }
    }

    /// The right axis label of band row `y`: the statistics tag, then the
    /// minimum, maximum and mean of the present window samples on the
    /// bottom four rows — all empty when no sample is present.
    pub open spec fn spec_right_axis_vis(self, gw: int, theme: Theme, y: int) -> Seq<char> {
        let win = spec_window(self.values@, gw);
        if spec_count_present(win) == 0 {
            Seq::<char>::empty()
        } else if y == 1 {
            "lo/hi/avg"@
        } else if y == 2 {
            match spec_min_present(win) {
                Some(v) => visible(self.stream.spec_format(v as int, theme)),
                None => Seq::<char>::empty(),
            }
        } else if y == 3 {
            match spec_max_present(win) {
                Some(v) => visible(self.stream.spec_format(v as int, theme)),
                None => Seq::<char>::empty(),
            }
        } else if y == 4 {
            visible(self.stream.spec_format(spec_avg_present(win), theme))
        } else {
            Seq::<char>::empty()
        }
    }

    /// The expanded description line's visible columns: name, a space, the
    /// ellipsized description padded across the graph, a space, the padded
    /// latest value.
    pub open spec fn spec_expanded_desc_visible(
        self,
        nw: int,
        gw: int,
        vw: int,
        theme: Theme,
    ) -> Seq<char> {
        spec_fit_left(self.stream.name@, nw) + seq![' '] + spec_fit_right(
            crate::text::spec_ellipsize(self.stream.description@, gw),
            gw,
        ) + seq![' '] + spec_fit_right(self.spec_value_vis(gw, theme), vw)
    }

    /// Band row `y`'s visible columns: the left axis label, a space, the
    /// clamped window bucketized against the band's sub-range, a space,
    /// the right axis label.
    pub open spec fn spec_expanded_row_visible(
        self,
        nw: int,
        gw: int,
        vw: int,
        theme: Theme,
        y: int,
    ) -> Seq<char> {
        spec_fit_left(self.spec_left_axis_vis(gw, theme, y), nw) + seq![' '] + Seq::new(
            gw as nat,
            |q: int|
                spec_cell_char(
                    self.spec_band_values(gw, y)[q],
                    self.spec_row_lo(gw, y),
                    self.spec_row_hi(gw, y),
                ),
        ) + seq![' '] + spec_fit_right(self.spec_right_axis_vis(gw, theme, y), vw)
    }

    /// The rows this stream contributes: one collapsed bar-graph row, or a
    /// description line and five stacked band rows with axis labels and
    /// window statistics. Every row is closed and exactly
    /// `name_width + 2 + graph_width + value_width` printed columns wide,
    /// and shows exactly the columns the row specs above describe.
    #[verifier::rlimit(100)]
    #[verifier::spinoff_prover]
    pub fn render(
        &self,
        index: usize,
        selected: bool,
        name_width: usize,
        graph_width: usize,
        value_width: usize,
        tick_spacing: usize,
        theme: &Theme,
    ) -> (lines: Vec<String>)
        requires
            self.wf(),
            theme.wf(),
            tick_spacing >= 1,
            graph_width >= 1,
        ensures
            lines@.len() == self.spec_height(),
            forall|i: int|
                0 <= i < lines@.len() ==> closed((#[trigger] lines@[i])@) && visible(
                    lines@[i]@,
                ).len() == name_width + 2 + graph_width + value_width,
            !self.expanded ==> visible(lines@[0]@) == self.spec_collapsed_visible(
                name_width as int,
                graph_width as int,
                value_width as int,
                *theme,
            ),
            self.expanded ==> visible(lines@[0]@) == self.spec_expanded_desc_visible(
                name_width as int,
                graph_width as int,
                value_width as int,
                *theme,
            ),
            self.expanded ==> (forall|y: int|
                0 <= y < 5 ==> visible(lines@[y + 1]@) == self.spec_expanded_row_visible(
                    name_width as int,
                    graph_width as int,
                    value_width as int,
                    *theme,
                    y,
                )),
    {
        let gl = theme.stream_graph_colors.len();
        let graph_color = &theme.stream_graph_colors[index % gl];
        proof {
            assert(theme.stream_graph_colors@[(index % gl) as int].0.wf()
                && theme.stream_graph_colors@[(index % gl) as int].1.wf());
        }
        let background = if selected {
            &theme.stream_selected_background_color
        } else if index % 2 == 0 {
            &theme.stream_even_background_color
        } else {
            &theme.stream_odd_background_color
        };
        let win = window(&self.values, graph_width);
        proof {
            assert forall|q: int| 0 <= q < win@.len() implies ((#[trigger] win@[q]) matches Some(v)
                ==> value_ok(v as int) && self.stream.in_bounds(v as int)) by {
                if graph_width - q <= self.values@.len() {
                    assert(win@[q] == self.values@[self.values@.len() - (graph_width - q)]);
                }
            }
        }
        let st = stats(&win);
        let last = last_present(&win);
        let value_string: String = match last {
            Some(v) => {
                proof {
                    lemma_last_present_member(win@);
                    let q = choose|q: int|
                        0 <= q < win@.len() && #[trigger] win@[q] == Some::<i64>(v);
                    assert(win@[q] == Some(v));
                }
                self.stream.format(v, theme)
            },
            None => String::new(),
        };
        proof {
            match last {
                Some(v) => {
                    lemma_spec_format_closed(self.stream, v as int, *theme);
                },
                None => {},
            }
            assert(closed(value_string@));
            assert(visible(value_string@) =~= self.spec_value_vis(graph_width as int, *theme));
        }
        let lo_opt: Option<i64> = match self.stream.min {
            Some(m) => Some(m),
            None => match st {
                Some(t) => Some(t.0),
                None => None,
            },
        };
        let hi_opt: Option<i64> = match self.stream.max {
            Some(m) => Some(m),
            None => match st {
                Some(t) => Some(t.1),
                None => None,
            },
        };
        let mut lines: Vec<String> = Vec::new();
        let mut line = String::new();
        let name_fg = if selected {
            &theme.stream_name_selected_text_color
        } else {
            &theme.stream_name_color
        };
        let name_bg = if selected {
            &theme.stream_name_selected_background_color
        } else {
            background
        };
        push_styled(&mut line, name_fg.fg.as_str());
        push_styled(&mut line, name_bg.bg.as_str());
        proof {
            crate::text::lemma_visible_plain(self.stream.name@);
        }
        let padded_name = fit_left(self.stream.name.as_str(), name_width);
        push_styled(&mut line, padded_name.as_str());
        push_styled(&mut line, background.bg.as_str());
        proof {
            reveal_strlit(" ");
            assert(" "@ =~= seq![' ']);
            assert(marker_free(" "@));
            lemma_visible_plain(" "@);
        }
        push_styled(&mut line, " ");
        assert(visible(line@).len() == name_width + 1);
        if !self.expanded {
            let lo = match lo_opt {
                Some(v) => v,
                None => 0,
            };
            let hi = match hi_opt {
                Some(v) => v,
                None => 0,
            };
            proof {
                assert forall|q: int| 0 <= q < win@.len() implies ((#[trigger] win@[q]) matches Some(
                    v,
                ) ==> lo <= v <= hi) by {}
            }
            let row = graph_row(
                &win,
                lo,
                hi,
                tick_spacing,
                &graph_color.0,
                &graph_color.1,
                &theme.tick_color,
                background,
            );
            push_styled(&mut line, row.as_str());
            proof {
                reveal_strlit(" ");
            }
            push_styled(&mut line, " ");
            let padded_value = fit_right(value_string.as_str(), value_width);
            push_styled(&mut line, padded_value.as_str());
            assert(visible(line@).len() == name_width + 2 + graph_width + value_width);
            lines.push(line);
            proof {
                assert(lines@.len() == 1);
            }
            lines
        } else {
            // Description line
            push_styled(&mut line, theme.stream_description_color.fg.as_str());
            proof {
                lemma_ellipsize_plain(self.stream.description@, graph_width as int);
            }
            let desc = crate::text::ellipsize(self.stream.description.as_str(), graph_width);
            proof {
                crate::text::lemma_visible_plain(desc@);
            }
            let padded_desc = fit_right(desc.as_str(), graph_width);
            push_styled(&mut line, padded_desc.as_str());
            proof {
                reveal_strlit(" ");
            }
            push_styled(&mut line, " ");
            let padded_value = fit_right(value_string.as_str(), value_width);
            push_styled(&mut line, padded_value.as_str());
            assert(visible(line@).len() == name_width + 2 + graph_width + value_width);
            assert(visible(line@) =~= self.spec_expanded_desc_visible(
                name_width as int,
                graph_width as int,
                value_width as int,
                *theme,
            ));
            lines.push(line);
            // Axis label strings
            let bounded = lo_opt.is_some() && hi_opt.is_some();
            let bmin: i64;
            let bmax: i64;
            if bounded {
                bmin = match lo_opt {
                    Some(v) => v,
                    None => 0,
                };
                bmax = match hi_opt {
                    Some(v) => v,
                    None => 0,
                };
            } else {
                bmin = 0;
                bmax = 0;
            }
            proof {
                if bounded {
                    lemma_min_present_member(win@);
                    lemma_max_present_member(win@);
                    match st {
                        Some(t) => {
                            let q1 = choose|q: int|
                                0 <= q < win@.len() && #[trigger] win@[q] == Some::<i64>(t.0);
                            let q2 = choose|q: int|
                                0 <= q < win@.len() && #[trigger] win@[q] == Some::<i64>(t.1);
                            assert(win@[q1] == Some(t.0));
                            assert(win@[q2] == Some(t.1));
                        },
                        None => {},
                    }
                    assert(bmin <= bmax);
                    assert(value_ok(bmin as int) && value_ok(bmax as int));
                }
            }
            let min_string: String;
            let mid_string: String;
            let max_string: String;
            if bounded {
                let diff = ((bmax as i128) - (bmin as i128)) as u128;
                let mid = bmin + ((diff / 2) as i64);
                proof {
                    assert(diff / 2 <= diff);
                    assert(bmin + (diff / 2) <= bmax);
                    lemma_spec_format_closed(self.stream, bmin as int, *theme);
                    lemma_spec_format_closed(self.stream, mid as int, *theme);
                    lemma_spec_format_closed(self.stream, bmax as int, *theme);
                }
                min_string = self.stream.format(bmin, theme);
                mid_string = self.stream.format(mid, theme);
                max_string = self.stream.format(bmax, theme);
            } else {
                min_string = String::new();
                mid_string = String::new();
                max_string = String::new();
            }
            let stats_label: String;
            let low_string: String;
            let high_string: String;
            let avg_string: String;
            match st {
                Some(t) => {
                    proof {
                        lemma_spec_format_closed(self.stream, t.0 as int, *theme);
                        lemma_spec_format_closed(self.stream, t.1 as int, *theme);
                        lemma_spec_format_closed(self.stream, t.2 as int, *theme);
                        reveal_strlit("lo/hi/avg");
                        assert(marker_free("lo/hi/avg"@));
                        lemma_visible_plain("lo/hi/avg"@);
                    }
                    let mut sl = String::new();
                    sl.append("lo/hi/avg");
                    stats_label = sl;
                    low_string = self.stream.format(t.0, theme);
                    high_string = self.stream.format(t.1, theme);
                    avg_string = self.stream.format(t.2, theme);
                },
                None => {
                    stats_label = String::new();
                    low_string = String::new();
                    high_string = String::new();
                    avg_string = String::new();
                },
            }
            assert(closed(min_string@) && closed(mid_string@) && closed(max_string@));
            assert(closed(stats_label@) && closed(low_string@) && closed(high_string@) && closed(
                avg_string@,
            ));
            let ghost gwi = graph_width as int;
            proof {
                assert(bounded == self.spec_bounded(gwi));
                assert(bounded ==> bmin as int == self.spec_band_min(gwi) && bmax as int
                    == self.spec_band_max(gwi));
                assert(!bounded ==> self.spec_band_min(gwi) == 0 && self.spec_band_max(gwi) == 0);
                assert(visible(max_string@) =~= self.spec_left_axis_vis(gwi, *theme, 0));
                assert(visible(mid_string@) =~= self.spec_left_axis_vis(gwi, *theme, 2));
                assert(visible(min_string@) =~= self.spec_left_axis_vis(gwi, *theme, 4));
                assert(visible(stats_label@) =~= self.spec_right_axis_vis(gwi, *theme, 1));
                assert(visible(low_string@) =~= self.spec_right_axis_vis(gwi, *theme, 2));
                assert(visible(high_string@) =~= self.spec_right_axis_vis(gwi, *theme, 3));
                assert(visible(avg_string@) =~= self.spec_right_axis_vis(gwi, *theme, 4));
            }
            // Five band rows, top band first
            let rh: i64;
            if bounded {
                let diff = ((bmax as i128) - (bmin as i128)) as u128;
                rh = (diff / 5) as i64;
            } else {
                rh = 0;
            }
            proof {
                if bounded {
                    assert(0 <= rh);
                    assert(5 * (rh as int) <= bmax - bmin) by (nonlinear_arith)
                        requires
                            rh as int == (bmax - bmin) / 5,
                            bmin <= bmax,
                    ;
                } else {
                    assert(rh == 0);
                }
            }
            let mut y: usize = 0;
            while y < 5
                invariant
                    y <= 5,
                    lines@.len() == 1 + y,
                    forall|i: int|
                        0 <= i < lines@.len() ==> closed((#[trigger] lines@[i])@) && visible(
                            lines@[i]@,
                        ).len() == name_width + 2 + graph_width + value_width,
                    self.wf(),
                    theme.wf(),
                    tick_spacing >= 1,
                    graph_width >= 1,
                    win@.len() == graph_width,
                    forall|q: int|
                        0 <= q < win@.len() ==> ((#[trigger] win@[q]) matches Some(v) ==> value_ok(
                            v as int,
                        ) && self.stream.in_bounds(v as int)),
                    bounded ==> value_ok(bmin as int) && value_ok(bmax as int) && bmin <= bmax && 0
                        <= rh && 5 * (rh as int) <= bmax - bmin,
                    !bounded ==> rh == 0 && bmin == 0 && bmax == 0 && (forall|q: int|
                        0 <= q < win@.len() ==> (#[trigger] win@[q]) is None),
                    closed(min_string@),
                    closed(mid_string@),
                    closed(max_string@),
                    closed(stats_label@),
                    closed(low_string@),
                    closed(high_string@),
                    closed(avg_string@),
                    graph_color.0.wf() && graph_color.1.wf(),
                    background.wf(),
                    gwi == graph_width as int,
                    win@ == spec_window(self.values@, gwi),
                    bmin as int == self.spec_band_min(gwi),
                    bmax as int == self.spec_band_max(gwi),
                    rh as int == self.spec_band_height(gwi),
                    visible(max_string@) == self.spec_left_axis_vis(gwi, *theme, 0),
                    visible(mid_string@) == self.spec_left_axis_vis(gwi, *theme, 2),
                    visible(min_string@) == self.spec_left_axis_vis(gwi, *theme, 4),
                    visible(stats_label@) == self.spec_right_axis_vis(gwi, *theme, 1),
                    visible(low_string@) == self.spec_right_axis_vis(gwi, *theme, 2),
                    visible(high_string@) == self.spec_right_axis_vis(gwi, *theme, 3),
                    visible(avg_string@) == self.spec_right_axis_vis(gwi, *theme, 4),
                    visible(lines@[0]@) == self.spec_expanded_desc_visible(
                        name_width as int,
                        gwi,
                        value_width as int,
                        *theme,
                    ),
                    forall|j: int|
                        1 <= j < lines@.len() ==> visible((#[trigger] lines@[j])@)
                            == self.spec_expanded_row_visible(
                            name_width as int,
                            gwi,
                            value_width as int,
                            *theme,
                            j - 1,
                        ),
                decreases 5 - y,
            {
                let i: usize = 4 - y;
                proof {
                    assert((i as int) * (rh as int) <= 5 * (rh as int)) by (nonlinear_arith)
                        requires
                            0 <= i <= 5,
                            rh >= 0,
                    ;
                    assert(((i as int) + 1) * (rh as int) <= 5 * (rh as int)) by (nonlinear_arith)
                        requires
                            0 <= i + 1 <= 5,
                            rh >= 0,
                    ;
                    assert(((i as int) + 1) * (rh as int) == (i as int) * (rh as int) + rh)
                        by (nonlinear_arith);
                    assert((i as int) * (rh as int) >= 0) by (nonlinear_arith)
                        requires
                            i >= 0,
                            rh >= 0,
                    ;
                }
                let row_min = bmin + ((i as i64) * rh);
                let row_max = row_min + rh;
                proof {
                    assert(row_min as int == self.spec_row_lo(gwi, y as int));
                    assert(row_max as int == self.spec_row_hi(gwi, y as int));
                }
                let mut row_values: Vec<Option<i64>> = Vec::new();
                let mut q: usize = 0;
                while q < win.len()
                    invariant
                        q <= win@.len(),
                        row_values@.len() == q,
                        value_ok(row_min as int),
                        value_ok(row_max as int),
                        row_min <= row_max,
                        y < 5,
                        gwi == graph_width as int,
                        win@ == spec_window(self.values@, gwi),
                        win@.len() == graph_width,
                        row_min as int == self.spec_row_lo(gwi, y as int),
                        row_max as int == self.spec_row_hi(gwi, y as int),
                        forall|z: int|
                            0 <= z < q ==> ((#[trigger] row_values@[z]) matches Some(v) ==> row_min
                                <= v <= row_max),
                        forall|z: int|
                            0 <= z < q ==> #[trigger] row_values@[z] == self.spec_band_values(
                                gwi,
                                y as int,
                            )[z],
                    decreases win@.len() - q,
                {
                    match win[q] {
                        Some(v) => {
                            if v < row_min {
                                row_values.push(None);
                            } else if v > row_max {
                                row_values.push(Some(row_max));
                            } else {
                                row_values.push(Some(v));
                            }
                        },
                        None => {
                            row_values.push(None);
                        },
                    }
                    q = q + 1;
                }
                proof {
                    assert(row_values@ =~= self.spec_band_values(gwi, y as int));
                }
                let row = graph_row(
                    &row_values,
                    row_min,
                    row_max,
                    tick_spacing,
                    &graph_color.0,
                    &graph_color.1,
                    &theme.tick_color,
                    background,
                );
                proof {
                    assert(visible(row@) =~= Seq::new(
                        gwi as nat,
                        |z: int|
                            spec_cell_char(
                                self.spec_band_values(gwi, y as int)[z],
                                self.spec_row_lo(gwi, y as int),
                                self.spec_row_hi(gwi, y as int),
                            ),
                    ));
                }
                let mut gline = String::new();
                push_styled(&mut gline, background.bg.as_str());
                if y == 0 {
                    let p = fit_left(max_string.as_str(), name_width);
                    push_styled(&mut gline, p.as_str());
                } else if y == 2 {
                    let p = fit_left(mid_string.as_str(), name_width);
                    push_styled(&mut gline, p.as_str());
                } else if y == 4 {
                    let p = fit_left(min_string.as_str(), name_width);
                    push_styled(&mut gline, p.as_str());
                } else {
                    let p = crate::text::spaces(name_width);
                    proof {
                        assert(marker_free(p@));
                        lemma_visible_plain(p@);
                        assert(p@ =~= spec_fit_left(
                            self.spec_left_axis_vis(gwi, *theme, y as int),
                            name_width as int,
                        ));
                    }
                    push_styled(&mut gline, p.as_str());
                }
                proof {
                    reveal_strlit(" ");
                    assert(" "@ =~= seq![' ']);
                    assert(marker_free(" "@));
                    lemma_visible_plain(" "@);
                }
                push_styled(&mut gline, " ");
                push_styled(&mut gline, row.as_str());
                push_styled(&mut gline, " ");
                push_styled(&mut gline, theme.stream_description_color.fg.as_str());
                if y == 1 {
                    let p = fit_right(stats_label.as_str(), value_width);
                    push_styled(&mut gline, p.as_str());
                } else if y == 2 {
                    let p = fit_right(low_string.as_str(), value_width);
                    push_styled(&mut gline, p.as_str());
                } else if y == 3 {
                    let p = fit_right(high_string.as_str(), value_width);
                    push_styled(&mut gline, p.as_str());
                } else if y == 4 {
                    let p = fit_right(avg_string.as_str(), value_width);
                    push_styled(&mut gline, p.as_str());
                } else {
                    let p = crate::text::spaces(value_width);
                    proof {
                        assert(marker_free(p@));
                        lemma_visible_plain(p@);
                        assert(p@ =~= spec_fit_right(
                            self.spec_right_axis_vis(gwi, *theme, y as int),
                            value_width as int,
                        ));
                    }
                    push_styled(&mut gline, p.as_str());
                }
                assert(visible(gline@).len() == name_width + 2 + graph_width + value_width);
                assert(visible(gline@) =~= self.spec_expanded_row_visible(
                    name_width as int,
                    gwi,
                    value_width as int,
                    *theme,
                    y as int,
                ));
                lines.push(gline);
                y = y + 1;
            }
            lines
        }
    }
}

} // verus!
