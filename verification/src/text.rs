//! Styled text and its width: ANSI select-graphic-rendition (SGR) markers are
//! embedded in rendered strings but occupy no columns on screen. The spec
//! function `visible` strips them; `printed_width` counts what remains.

use vstd::prelude::*;

verus! {

broadcast use vstd::string::axiom_str_literal_len, vstd::string::axiom_str_literal_get_char;

/// The escape character that opens an ANSI style marker.
pub const MARK_START: char = '\u{1B}';

/// Index of the first 'm' in `s` that no newline precedes, or -1 when there
/// is none. A style marker opened just before `s` covers `s` up to and
/// including that 'm'.
pub open spec fn m_pos(s: Seq<char>) -> int
    decreases s.len(),
{
    if s.len() <= 0 {
        -1
    } else if s[0] == 'm' {
        0
    } else if s[0] == '\n' {
        -1
    } else {
        let r = m_pos(s.skip(1));
        if r < 0 {
            -1
        } else {
            1 + r
        }
    }
}

pub proof fn lemma_m_pos_bounds(s: Seq<char>)
    ensures
        -1 <= m_pos(s) < s.len(),
    decreases s.len(),
{
    if s.len() > 0 && s[0] != 'm' && s[0] != '\n' {
        lemma_m_pos_bounds(s.skip(1));
    }
}

/// The characters of `s` that reach the screen: every maximal span
/// `MARK_START '[' ... 'm'` is dropped, all other characters stay.
pub open spec fn visible(s: Seq<char>) -> Seq<char>
    decreases s.len(),
    via visible_decreases
{
    if s.len() == 0 {
        Seq::empty()
    } else if s[0] == MARK_START && s.len() >= 2 && s[1] == '[' && m_pos(s.skip(2)) >= 0 {
        visible(s.skip(3 + m_pos(s.skip(2))))
    } else {
        seq![s[0]] + visible(s.skip(1))
    }
}

#[via_fn]
#[verifier::spinoff_prover]
proof fn visible_decreases(s: Seq<char>) {
    if s.len() > 0 && s[0] == MARK_START && s.len() >= 2 && s[1] == '[' && m_pos(s.skip(2)) >= 0 {
        lemma_m_pos_bounds(s.skip(2));
    }
}

/// Every style marker opened in `s` is completed within `s`: concatenating
/// such strings never splits a marker, so `visible` distributes over `+`.
pub open spec fn closed(s: Seq<char>) -> bool
    decreases s.len(),
    via closed_decreases
{
    if s.len() == 0 {
        true
    } else if s[0] == MARK_START {
        s.len() >= 2 && s[1] == '[' && m_pos(s.skip(2)) >= 0 && closed(
            s.skip(3 + m_pos(s.skip(2))),
        )
    } else {
        closed(s.skip(1))
    }
}

#[via_fn]
#[verifier::spinoff_prover]
proof fn closed_decreases(s: Seq<char>) {
    if s.len() > 0 && s[0] == MARK_START && s.len() >= 2 && s[1] == '[' && m_pos(s.skip(2)) >= 0 {
        lemma_m_pos_bounds(s.skip(2));
    }
}

#[verifier::spinoff_prover]
proof fn lemma_m_pos_append(a: Seq<char>, b: Seq<char>)
    requires
        m_pos(a) >= 0,
    ensures
        m_pos(a + b) == m_pos(a),
    decreases a.len(),
{
    if a[0] == 'm' {
        assert((a + b)[0] == 'm');
    } else {
        assert((a + b)[0] == a[0]);
        assert((a + b).skip(1) =~= a.skip(1) + b);
        lemma_m_pos_append(a.skip(1), b);
    }
}

/// `visible` distributes over concatenation when the left part is closed.
#[verifier::spinoff_prover]
pub proof fn lemma_visible_append(a: Seq<char>, b: Seq<char>)
    requires
        closed(a),
    ensures
        visible(a + b) == visible(a) + visible(b),
    decreases a.len(),
{
    if a.len() == 0 {
        assert(a + b =~= b);
        assert(visible(a) + visible(b) =~= visible(b));
    } else if a[0] == MARK_START {
        let p = m_pos(a.skip(2));
        lemma_m_pos_bounds(a.skip(2));
        assert((a + b)[0] == a[0]);
        assert((a + b)[1] == a[1]);
        assert((a + b).skip(2) =~= a.skip(2) + b);
        lemma_m_pos_append(a.skip(2), b);
        assert((a + b).skip(3 + p) =~= a.skip(3 + p) + b);
        lemma_visible_append(a.skip(3 + p), b);
    } else {
        assert((a + b)[0] == a[0]);
        assert((a + b).skip(1) =~= a.skip(1) + b);
        lemma_visible_append(a.skip(1), b);
        assert(visible(a + b) =~= seq![a[0]] + (visible(a.skip(1)) + visible(b)));
        assert(visible(a) + visible(b) =~= seq![a[0]] + (visible(a.skip(1)) + visible(b)));
    }
}

#[verifier::spinoff_prover]
pub proof fn lemma_closed_append(a: Seq<char>, b: Seq<char>)
    requires
        closed(a),
        closed(b),
    ensures
        closed(a + b),
    decreases a.len(),
{
    if a.len() == 0 {
        assert(a + b =~= b);
    } else if a[0] == MARK_START {
        let p = m_pos(a.skip(2));
        lemma_m_pos_bounds(a.skip(2));
        assert((a + b)[0] == a[0]);
        assert((a + b)[1] == a[1]);
        assert((a + b).skip(2) =~= a.skip(2) + b);
        lemma_m_pos_append(a.skip(2), b);
        assert((a + b).skip(3 + p) =~= a.skip(3 + p) + b);
        lemma_closed_append(a.skip(3 + p), b);
    } else {
        assert((a + b)[0] == a[0]);
        assert((a + b).skip(1) =~= a.skip(1) + b);
        lemma_closed_append(a.skip(1), b);
    }
}

/// No style marker opens anywhere in `s`.
pub open spec fn marker_free(s: Seq<char>) -> bool {
    forall|i: int| 0 <= i < s.len() ==> s[i] != MARK_START
}

/// Marker-free text is fully visible.
#[verifier::spinoff_prover]
pub proof fn lemma_visible_plain(s: Seq<char>)
    requires
        marker_free(s),
    ensures
        visible(s) == s,
        closed(s),
    decreases s.len(),
{
    if s.len() > 0 {
        assert(forall|i: int| 0 <= i < s.skip(1).len() ==> s.skip(1)[i] != MARK_START);
        lemma_visible_plain(s.skip(1));
        assert(visible(s) =~= s);
    }
}

/// One complete style marker span: escape, '[', a body free of 'm' and
/// newline, then the 'm' that closes it.
pub open spec fn is_marker(s: Seq<char>) -> bool {
    &&& s.len() >= 3
    &&& s[0] == MARK_START
    &&& s[1] == '['
    &&& s[s.len() - 1] == 'm'
    &&& forall|i: int| 2 <= i < s.len() - 1 ==> (s[i] != 'm' && s[i] != '\n')
}

#[verifier::spinoff_prover]
proof fn lemma_m_pos_last(s: Seq<char>)
    requires
        s.len() >= 1,
        s[s.len() - 1] == 'm',
        forall|i: int| 0 <= i < s.len() - 1 ==> (s[i] != 'm' && s[i] != '\n'),
    ensures
        m_pos(s) == s.len() - 1,
    decreases s.len(),
{
    if s.len() > 1 {
        assert(s.skip(1)[s.skip(1).len() - 1] == 'm');
        assert(forall|i: int|
            0 <= i < s.skip(1).len() - 1 ==> (s.skip(1)[i] != 'm' && s.skip(1)[i] != '\n'));
        lemma_m_pos_last(s.skip(1));
    }
}

/// A complete style marker takes no columns on screen.
#[verifier::spinoff_prover]
pub proof fn lemma_visible_marker(s: Seq<char>)
    requires
        is_marker(s),
    ensures
        visible(s) == Seq::<char>::empty(),
        closed(s),
{
    let t = s.skip(2);
    assert(t[t.len() - 1] == 'm');
    assert(forall|i: int| 0 <= i < t.len() - 1 ==> (t[i] != 'm' && t[i] != '\n'));
    lemma_m_pos_last(t);
    assert(m_pos(s.skip(2)) == s.len() - 3);
    let rest = s.skip(3 + m_pos(s.skip(2)));
    assert(rest =~= Seq::<char>::empty());
    assert(visible(s) == visible(rest));
    assert(visible(rest) =~= Seq::<char>::empty());
    assert(closed(s) == closed(rest));
    assert(closed(rest));
}

/// Number of characters of `string` that reach the screen: style markers are
/// ignored, every other character counts as one column.
#[verifier::spinoff_prover]
pub fn printed_width(string: &str) -> (width: usize)
    ensures
        width == visible(string@).len(),
{
    let n = string.unicode_len();
    let mut i: usize = 0;
    let mut width: usize = 0;
    assert(string@.skip(0) =~= string@);
    while i < n
        invariant
            0 <= i <= n,
            n == string@.len(),
            width <= i,
            visible(string@).len() == width + visible(string@.skip(i as int)).len(),
        decreases n - i,
    {
        let ghost tail = string@.skip(i as int);
        assert(tail.len() == n - i);
        assert(tail[0] == string@[i as int]);
        let c = string.get_char(i);
        let mut stripped = false;
        if c == MARK_START && i + 1 < n {
            assert(tail[1] == string@[i as int + 1]);
            if string.get_char(i + 1) == '[' {
                // Look for the 'm' that closes the marker.
                let mut j: usize = i + 2;
                assert(string@.skip(j as int) =~= tail.skip(2));
                while j < n && string.get_char(j) != 'm' && string.get_char(j) != '\n'
                    invariant
                        i + 2 <= j <= n,
                        n == string@.len(),
                        tail == string@.skip(i as int),
                        m_pos(tail.skip(2)) == (if m_pos(string@.skip(j as int)) < 0 {
                            -1int
                        } else {
                            j - i - 2 + m_pos(string@.skip(j as int))
                        }),
                    decreases n - j,
                {
                    let ghost tj = string@.skip(j as int);
                    assert(tj[0] == string@[j as int]);
                    assert(tj.skip(1) =~= string@.skip(j as int + 1));
                    j = j + 1;
                }
                if j < n && string.get_char(j) == 'm' {
                    let ghost tj = string@.skip(j as int);
                    assert(tj[0] == 'm');
                    assert(m_pos(tj) == 0);
                    let p = j - i - 2;
                    assert(m_pos(tail.skip(2)) == p as int);
                    assert(tail.skip(3 + p as int) =~= string@.skip(j as int + 1));
                    assert(visible(tail) == visible(string@.skip(j as int + 1)));
                    i = j + 1;
                    stripped = true;
                } else {
                    proof {
                        if j < n {
                            let tj = string@.skip(j as int);
                            assert(tj[0] == '\n');
                            assert(m_pos(tj) == -1);
                        } else {
                            assert(string@.skip(j as int) =~= Seq::<char>::empty());
                        }
                        assert(m_pos(tail.skip(2)) == -1);
                    }
                }
            }
        }
        if !stripped {
            proof {
                if tail[0] == MARK_START && tail.len() >= 2 && tail[1] == '[' {
                    assert(tail.skip(2) =~= string@.skip(i as int + 2));
                }
                assert(visible(tail) == seq![tail[0]] + visible(tail.skip(1)));
                assert(tail.skip(1) =~= string@.skip(i as int + 1));
            }
            width = width + 1;
            i = i + 1;
        }
    }
    assert(string@.skip(n as int) =~= Seq::<char>::empty());
    width
}

/// Whether every style marker opened in `string` is completed in it.
#[verifier::spinoff_prover]
pub fn is_closed(string: &str) -> (r: bool)
    ensures
        r == closed(string@),
{
    let n = string.unicode_len();
    let mut i: usize = 0;
    assert(string@.skip(0) =~= string@);
    while i < n
        invariant
            0 <= i <= n,
            n == string@.len(),
            closed(string@) == closed(string@.skip(i as int)),
        decreases n - i,
    {
        let ghost tail = string@.skip(i as int);
        assert(tail.len() == n - i);
        assert(tail[0] == string@[i as int]);
        let c = string.get_char(i);
        if c == MARK_START {
            if i + 1 < n && {
                assert(tail[1] == string@[i as int + 1]);
                string.get_char(i + 1) == '['
            } {
                let mut j: usize = i + 2;
                assert(string@.skip(j as int) =~= tail.skip(2));
                while j < n && string.get_char(j) != 'm' && string.get_char(j) != '\n'
                    invariant
                        i + 2 <= j <= n,
                        n == string@.len(),
                        tail == string@.skip(i as int),
                        m_pos(tail.skip(2)) == (if m_pos(string@.skip(j as int)) < 0 {
                            -1int
                        } else {
                            j - i - 2 + m_pos(string@.skip(j as int))
                        }),
                    decreases n - j,
                {
                    let ghost tj = string@.skip(j as int);
                    assert(tj[0] == string@[j as int]);
                    assert(tj.skip(1) =~= string@.skip(j as int + 1));
                    j = j + 1;
                }
                if j < n && string.get_char(j) == 'm' {
                    let ghost tj = string@.skip(j as int);
                    assert(tj[0] == 'm');
                    assert(m_pos(tj) == 0);
                    let p = j - i - 2;
                    assert(m_pos(tail.skip(2)) == p as int);
                    assert(tail.skip(3 + p as int) =~= string@.skip(j as int + 1));
                    assert(closed(tail) == closed(string@.skip(j as int + 1)));
                    i = j + 1;
                } else {
                    proof {
                        if j < n {
                            let tj = string@.skip(j as int);
                            assert(tj[0] == '\n');
                            assert(m_pos(tj) == -1);
                        } else {
                            assert(string@.skip(j as int) =~= Seq::<char>::empty());
                        }
                        assert(m_pos(tail.skip(2)) == -1);
                        assert(!closed(tail));
                    }
                    return false;
                }
            } else {
                proof {
                    if tail.len() >= 2 && tail[1] == '[' {
                        assert(tail.skip(2) =~= string@.skip(i as int + 2));
                        assert(i + 2 <= n);
                    }
                    assert(!closed(tail));
                }
                return false;
            }
        } else {
            assert(tail.skip(1) =~= string@.skip(i as int + 1));
            assert(closed(tail) == closed(tail.skip(1)));
            i = i + 1;
        }
    }
    assert(string@.skip(n as int) =~= Seq::<char>::empty());
    true
}

/// Text that styles only: complete markers and nothing visible.
pub open spec fn style_only(s: Seq<char>) -> bool {
    closed(s) && visible(s) == Seq::<char>::empty()
}

/// Whether `string` is pure styling: complete markers, no visible columns.
#[verifier::spinoff_prover]
pub fn is_style_only(string: &str) -> (r: bool)
    ensures
        r == style_only(string@),
{
    let c = is_closed(string);
    if !c {
        return false;
    }
    let w = printed_width(string);
    if w == 0 {
        assert(visible(string@) =~= Seq::<char>::empty());
        true
    } else {
        false
    }
}

/// `n` spaces.
#[verifier::spinoff_prover]
pub fn spaces(n: usize) -> (r: String)
    ensures
        r@ == Seq::new(n as nat, |i: int| ' '),
{
    let mut r = String::new();
    let mut i: usize = 0;
    proof {
        reveal_strlit(" ");
        assert(" "@ =~= seq![' ']);
    }
    while i < n
        invariant
            i <= n,
            r@ =~= Seq::new(i as nat, |k: int| ' '),
        decreases n - i,
    {
        proof {
            reveal_strlit(" ");
            assert(" "@ =~= seq![' ']);
        }
        r.append(" ");
        i = i + 1;
        assert(r@ =~= Seq::new(i as nat, |k: int| ' '));
    }
    r
}

/// Left padding: spaces, then the text, so that `width` columns are filled.
#[verifier::spinoff_prover]
pub fn pad_left(string: &str, width: usize) -> (r: String)
    requires
        visible(string@).len() <= width,
    ensures
        r@ == Seq::new((width - visible(string@).len()) as nat, |i: int| ' ') + string@,
        closed(string@) ==> closed(r@) && visible(r@) == Seq::new(
            (width - visible(string@).len()) as nat,
            |i: int| ' ',
        ) + visible(string@),
{
    let w = printed_width(string);
    let mut r = spaces(width - w);
    let ghost pad = r@;
    r.append(string);
    proof {
        assert(marker_free(pad));
        lemma_visible_plain(pad);
        if closed(string@) {
            lemma_closed_append(pad, string@);
            lemma_visible_append(pad, string@);
        }
    }
    r
}

/// Right padding: the text, then spaces, so that `width` columns are filled.
#[verifier::spinoff_prover]
pub fn pad_right(string: &str, width: usize) -> (r: String)
    requires
        visible(string@).len() <= width,
    ensures
        r@ == string@ + Seq::new((width - visible(string@).len()) as nat, |i: int| ' '),
        closed(string@) ==> closed(r@) && visible(r@) == visible(string@) + Seq::new(
            (width - visible(string@).len()) as nat,
            |i: int| ' ',
        ),
{
    let w = printed_width(string);
    let pad = spaces(width - w);
    let mut r = String::new();
    r.append(string);
    r.append(pad.as_str());
    proof {
        assert(marker_free(pad@));
        lemma_visible_plain(pad@);
        assert(r@ =~= string@ + pad@);
        if closed(string@) {
            lemma_closed_append(string@, pad@);
            lemma_visible_append(string@, pad@);
        }
    }
    r
}

/// The text cut to `width` characters, the last one an ellipsis when the cut
/// removed anything. Character counts here are raw: style markers count.
pub open spec fn spec_ellipsize(s: Seq<char>, width: int) -> Seq<char> {
    if s.len() > width {
        s.take(width - 1) + seq!['\u{2026}']
    } else {
        s
    }
}

#[verifier::spinoff_prover]
pub fn ellipsize(string: &str, width: usize) -> (r: String)
    requires
        width >= 1,
    ensures
        r@ == spec_ellipsize(string@, width as int),
{
    let n = string.unicode_len();
    proof {
        reveal_strlit("\u{2026}");
    }
    if n > width {
        let t = string.substring_char(0, width - 1);
        let mut r = String::new();
        r.append(t);
        r.append("\u{2026}");
        assert(r@ =~= string@.take(width - 1) + seq!['\u{2026}']);
        r
    } else {
        let mut r = String::new();
        r.append(string);
        r
    }
}

/// The decimal digit `d` as a character.
pub open spec fn digit_char(d: nat) -> char {
    if d == 0 {
        '0'
    } else if d == 1 {
        '1'
    } else if d == 2 {
        '2'
    } else if d == 3 {
        '3'
    } else if d == 4 {
        '4'
    } else if d == 5 {
        '5'
    } else if d == 6 {
        '6'
    } else if d == 7 {
        '7'
    } else if d == 8 {
        '8'
    } else {
        '9'
    }
}

/// The decimal digits of `n`, most significant first, no sign and no padding.
pub open spec fn spec_digits(n: nat) -> Seq<char>
    decreases n,
{
    if n < 10 {
        seq![digit_char(n)]
    } else {
        spec_digits(n / 10) + seq![digit_char(n % 10)]
    }
}

pub proof fn lemma_digits_marker_free(n: nat)
    ensures
        marker_free(spec_digits(n)),
        spec_digits(n).len() >= 1,
        forall|i: int|
            0 <= i < spec_digits(n).len() ==> (spec_digits(n)[i] != 'm' && spec_digits(n)[i]
                != '\n'),
    decreases n,
{
    if n >= 10 {
        lemma_digits_marker_free(n / 10);
    }
}

#[verifier::spinoff_prover]
pub(crate) fn digit_str(d: u64) -> (r: &'static str)
    requires
        d < 10,
    ensures
        r@ == seq![digit_char(d as nat)],
{
    proof {
        reveal_strlit("0");
        reveal_strlit("1");
        reveal_strlit("2");
        reveal_strlit("3");
        reveal_strlit("4");
        reveal_strlit("5");
        reveal_strlit("6");
        reveal_strlit("7");
        reveal_strlit("8");
        reveal_strlit("9");
    }
    let r = match d {
        0 => "0",
        1 => "1",
        2 => "2",
        3 => "3",
        4 => "4",
        5 => "5",
        6 => "6",
        7 => "7",
        8 => "8",
        _ => "9",
    };
    assert(r@ =~= seq![digit_char(d as nat)]);
    r
}

/// The digit characters of `v` read back to front.
spec fn rev_digit_chars(v: Seq<u64>) -> Seq<char> {
    Seq::new(v.len(), |i: int| digit_char(v[v.len() - 1 - i] as nat))
}

/// `n` in decimal.
pub fn format_u64(n: u64) -> (r: String)
    ensures
        r@ == spec_digits(n as nat),
{
    format_u128(n as u128)
}

/// `n` in decimal.
#[verifier::spinoff_prover]
pub fn format_u128(n: u128) -> (r: String)
    ensures
        r@ == spec_digits(n as nat),
{
    let mut digits: Vec<u64> = Vec::new();
    let mut m = n;
    while m >= 10
        invariant
            spec_digits(n as nat) =~= spec_digits(m as nat) + rev_digit_chars(digits@),
            forall|k: int| 0 <= k < digits@.len() ==> digits@[k] < 10,
        decreases m,
    {
        let ghost old_digits = digits@;
        let ghost old_m = m;
        let d = (m % 10) as u64;
        digits.push(d);
        m = m / 10;
        proof {
            assert(spec_digits(old_m as nat) == spec_digits(old_m as nat / 10) + seq![
                digit_char(old_m as nat % 10),
            ]);
            assert(rev_digit_chars(digits@) =~= seq![digit_char(d as nat)] + rev_digit_chars(
                old_digits,
            ));
            assert(spec_digits(m as nat) + rev_digit_chars(digits@) =~= spec_digits(old_m as nat)
                + rev_digit_chars(old_digits));
        }
    }
    let mut r = String::new();
    r.append(digit_str(m as u64));
    let ghost rev = rev_digit_chars(digits@);
    let mut k = digits.len();
    assert(r@ =~= seq![digit_char(m as nat)] + rev.take(digits@.len() - k));
    while k > 0
        invariant
            k <= digits@.len(),
            rev == rev_digit_chars(digits@),
            forall|q: int| 0 <= q < digits@.len() ==> digits@[q] < 10,
            r@ =~= seq![digit_char(m as nat)] + rev.take(digits@.len() - k),
        decreases k,
    {
        k = k - 1;
        let d = digits[k];
        r.append(digit_str(d));
        proof {
            let len = digits@.len() as int;
            assert(rev[len - 1 - k] == digit_char(digits@[k as int] as nat));
            assert(rev.take(len - k) =~= rev.take(len - k - 1) + seq![rev[len - k - 1]]);
            assert(r@ =~= seq![digit_char(m as nat)] + rev.take(len - k));
        }
    }
    proof {
        assert(rev.take(digits@.len() as int) =~= rev);
        assert(r@ =~= spec_digits(n as nat));
    }
    r
}

/// Whether `needle` occurs contiguously in `hay`.
pub open spec fn contains_seq(hay: Seq<char>, needle: Seq<char>) -> bool {
    exists|k: int|
        0 <= k <= hay.len() - needle.len() && #[trigger] hay.subrange(k, k + needle.len())
            == needle
}

#[verifier::spinoff_prover]
fn match_at(hay: &str, needle: &str, k: usize) -> (r: bool)
    requires
        k + needle@.len() <= hay@.len(),
    ensures
        r == (hay@.subrange(k as int, k as int + needle@.len()) == needle@),
{
    let m = needle.unicode_len();
    let h = hay.unicode_len();
    let mut j: usize = 0;
    while j < m
        invariant
            j <= m,
            m == needle@.len(),
            h == hay@.len(),
            k + m <= hay@.len(),
            forall|q: int| 0 <= q < j ==> hay@[k + q] == needle@[q],
        decreases m - j,
    {
        if hay.get_char(k + j) != needle.get_char(j) {
            assert(hay@.subrange(k as int, k as int + needle@.len())[j as int] == hay@[k + j]);
            return false;
        }
        j = j + 1;
    }
    assert(hay@.subrange(k as int, k as int + needle@.len()) =~= needle@);
    true
}

#[verifier::spinoff_prover]
pub fn contains_str(hay: &str, needle: &str) -> (r: bool)
    ensures
        r == contains_seq(hay@, needle@),
{
    let n = hay.unicode_len();
    let m = needle.unicode_len();
    if m > n {
        assert(!contains_seq(hay@, needle@));
        return false;
    }
    if m == 0 {
        assert(hay@.subrange(0, 0 + needle@.len() as int) =~= needle@);
        return true;
    }
    let mut k: usize = 0;
    while k <= n - m
        invariant
            m <= n,
            n == hay@.len(),
            m == needle@.len(),
            k <= n - m + 1,
            1 <= m,
            forall|q: int| 0 <= q < k ==> #[trigger] hay@.subrange(q, q + needle@.len()) != needle@,
        decreases n - k,
    {
        if match_at(hay, needle, k) {
            return true;
        }
        k = k + 1;
    }
    assert(forall|q: int|
        0 <= q <= hay@.len() - needle@.len() ==> #[trigger] hay@.subrange(q, q + needle@.len()) != needle@);
    false
}

/// The lowercase form of a string, depending on its characters alone.
pub uninterp spec fn lower_of(s: Seq<char>) -> Seq<char>;

/// Relies on str::to_lowercase: a pure function of the character sequence.
#[verifier::external_body]
pub fn lowercase(s: &str) -> (r: String)
    ensures
        r@ == lower_of(s@),
{
    s.to_lowercase()
}

} // verus!
