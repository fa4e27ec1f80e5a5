//! The pure half of each stream provider: the descriptors a platform
//! source exposes, computed from plain values. Discovering and polling the
//! quantities is platform work that happens outside the core; only the
//! naming, description and formatting rules live here.

use vstd::prelude::*;

use crate::stream::{value_ok, Stream};
use crate::text::{
    contains_seq, contains_str, format_u64, lower_of, lowercase, marker_free, spec_digits,
};

verus! {

broadcast use vstd::string::axiom_str_literal_len, vstd::string::axiom_str_literal_get_char;

/// Plain text of a workable size, fit for a stream name or description.
pub open spec fn label_ok(s: Seq<char>) -> bool {
    marker_free(s) && s.len() <= 300
}

#[verifier::spinoff_prover]
proof fn lemma_label_append(a: Seq<char>, b: Seq<char>)
    requires
        marker_free(a),
        marker_free(b),
    ensures
        marker_free(a + b),
{
    assert forall|i: int| 0 <= i < (a + b).len() implies (a + b)[i] != crate::text::MARK_START by {
        if i < a.len() {
            assert((a + b)[i] == a[i]);
        } else {
            assert((a + b)[i] == b[i - a.len()]);
        }
    }
}

/// The aggregate and per-core processor utilization streams.
pub struct CPUStreamProvider {}

impl CPUStreamProvider {
    /// One aggregate stream named `CPU`, then one stream per core named
    /// `Core1`, `Core2`, ... — all percentages between 0 and 100 with one
    /// decimal and three integer digits.
    #[verifier::spinoff_prover]
    pub fn streams(&self, core_count: usize) -> (r: Vec<Stream>)
        requires
            core_count <= 4096,
        ensures
            r@.len() == 1 + core_count,
            forall|i: int| 0 <= i < r@.len() ==> (#[trigger] r@[i]).wf(),
            r@[0].name@ == "CPU"@,
            r@[0].description@ == "Average utilization of all CPU cores during the past interval"@,
            forall|i: int|
                1 <= i < r@.len() ==> (#[trigger] r@[i]).name@ == "Core"@ + spec_digits(i as nat),
            forall|i: int|
                1 <= i < r@.len() ==> (#[trigger] r@[i]).description@ == "Utilization of CPU core "@
                    + spec_digits(i as nat) + " during the past interval"@,
            forall|i: int|
                0 <= i < r@.len() ==> (#[trigger] r@[i]).min == Some(0i64) && r@[i].max == Some(
                    100000i64,
                ) && r@[i].unit@ == "%"@ && r@[i].digits_before_decimal == Some(3usize)
                    && r@[i].precision == 1 && !r@[i].signed,
    {
        proof {
            reveal_strlit("CPU");
            reveal_strlit("Average utilization of all CPU cores during the past interval");
            reveal_strlit("%");
            reveal_strlit("Core");
            reveal_strlit("Utilization of CPU core ");
            reveal_strlit(" during the past interval");
            assert(marker_free("CPU"@));
            assert(marker_free(
                "Average utilization of all CPU cores during the past interval"@,
            ));
            assert(marker_free("%"@));
            assert(marker_free("Core"@));
            assert(marker_free("Utilization of CPU core "@));
            assert(marker_free(" during the past interval"@));
        }
        let mut r: Vec<Stream> = Vec::new();
        let mut name = String::new();
        name.append("CPU");
        let mut desc = String::new();
        desc.append("Average utilization of all CPU cores during the past interval");
        let mut unit = String::new();
        unit.append("%");
        r.push(
            Stream::new(name, desc, Some(0), Some(100000), unit, Some(3), 1, false),
        );
        let mut i: usize = 0;
        while i < core_count
            invariant
                i <= core_count,
                core_count <= 4096,
                r@.len() == 1 + i,
                forall|q: int| 0 <= q < r@.len() ==> (#[trigger] r@[q]).wf(),
                r@[0].name@ == "CPU"@,
                r@[0].description@
                    == "Average utilization of all CPU cores during the past interval"@,
                forall|q: int|
                    1 <= q < r@.len() ==> (#[trigger] r@[q]).name@ == "Core"@ + spec_digits(
                        q as nat,
                    ),
                forall|q: int|
                    1 <= q < r@.len() ==> (#[trigger] r@[q]).description@
                        == "Utilization of CPU core "@ + spec_digits(q as nat)
                        + " during the past interval"@,
                forall|q: int|
                    0 <= q < r@.len() ==> (#[trigger] r@[q]).min == Some(0i64) && r@[q].max == Some(
                        100000i64,
                    ) && r@[q].unit@ == "%"@ && r@[q].digits_before_decimal == Some(3usize)
                        && r@[q].precision == 1 && !r@[q].signed,
            decreases core_count - i,
        {
            proof {
                reveal_strlit("Core");
                reveal_strlit("Utilization of CPU core ");
                reveal_strlit(" during the past interval");
                reveal_strlit("%");
                assert(marker_free("Core"@));
                assert(marker_free("Utilization of CPU core "@));
                assert(marker_free(" during the past interval"@));
                assert(marker_free("%"@));
            }
            let n = format_u64((i + 1) as u64);
            proof {
                crate::text::lemma_digits_marker_free((i + 1) as nat);
                crate::format::lemma_spec_digits_len((i + 1) as nat);
                crate::format::lemma_pow10_literals();
                crate::format::lemma_num_digits_le((i + 1) as nat, 20);
            }
            let mut name = String::new();
            name.append("Core");
            name.append(n.as_str());
            let mut desc = String::new();
            desc.append("Utilization of CPU core ");
            desc.append(n.as_str());
            desc.append(" during the past interval");
            let mut unit = String::new();
            unit.append("%");
            proof {
                lemma_label_append("Core"@, n@);
                lemma_label_append("Utilization of CPU core "@, n@);
                lemma_label_append("Utilization of CPU core "@ + n@, " during the past interval"@);
            }
            r.push(
                Stream::new(name, desc, Some(0), Some(100000), unit, Some(3), 1, false),
            );
            i = i + 1;
        }
        r
    }
}

/// The physical-memory and swap usage streams.
pub struct MemoryStreamProvider {}

impl MemoryStreamProvider {
    /// A `Mem` stream bounded by the machine's total memory, and a `Swap`
    /// stream bounded by the swap total where one is known. Totals are in
    /// thousandths of a byte.
    #[verifier::spinoff_prover]
    pub fn streams(&self, total_memory: i64, swap_total: Option<i64>) -> (r: Vec<Stream>)
        requires
            0 <= total_memory,
            value_ok(total_memory as int),
            (swap_total matches Some(t) ==> 0 <= t && value_ok(t as int)),
        ensures
            r@.len() == (if swap_total is Some {
                2int
            } else {
                1int
            }),
            forall|i: int| 0 <= i < r@.len() ==> (#[trigger] r@[i]).wf(),
            r@[0].name@ == "Mem"@,
            r@[0].description@ == "Amount of physical memory (RAM) in use"@,
            r@[0].min == Some(0i64) && r@[0].max == Some(total_memory),
            r@[0].unit@ == "B"@ && r@[0].digits_before_decimal is None && r@[0].precision == 1
                && !r@[0].signed,
            swap_total matches Some(t) ==> r@[1].name@ == "Swap"@ && r@[1].description@
                == "Amount of swap space in use"@ && r@[1].min == Some(0i64) && r@[1].max == Some(t)
                && r@[1].unit@ == "B"@ && r@[1].digits_before_decimal is None && r@[1].precision
                == 1 && !r@[1].signed,
    {
        proof {
            reveal_strlit("Mem");
            reveal_strlit("Amount of physical memory (RAM) in use");
            reveal_strlit("Swap");
            reveal_strlit("Amount of swap space in use");
            reveal_strlit("B");
            assert(marker_free("Mem"@));
            assert(marker_free("Amount of physical memory (RAM) in use"@));
            assert(marker_free("Swap"@));
            assert(marker_free("Amount of swap space in use"@));
            assert(marker_free("B"@));
        }
        let mut r: Vec<Stream> = Vec::new();
        let mut name = String::new();
        name.append("Mem");
        let mut desc = String::new();
        desc.append("Amount of physical memory (RAM) in use");
        let mut unit = String::new();
        unit.append("B");
        r.push(Stream::new(name, desc, Some(0), Some(total_memory), unit, None, 1, false));
        match swap_total {
            Some(t) => {
                let mut name = String::new();
                name.append("Swap");
                let mut desc = String::new();
                desc.append("Amount of swap space in use");
                let mut unit = String::new();
                unit.append("B");
                r.push(Stream::new(name, desc, Some(0), Some(t), unit, None, 1, false));
            },
            None => {},
        }
        r
    }
}

/// The per-interface ingress and egress bandwidth streams.
pub struct BandwidthStreamProvider {}

impl BandwidthStreamProvider {
    /// Two rate streams per network interface: received and transmitted
    /// bytes per second, computed outside from the cumulative counters.
    #[verifier::spinoff_prover]
    pub fn streams(&self, interfaces: &Vec<String>) -> (r: Vec<Stream>)
        requires
            interfaces@.len() <= 1000,
            forall|i: int| 0 <= i < interfaces@.len() ==> label_ok((#[trigger] interfaces@[i])@),
        ensures
            r@.len() == 2 * interfaces@.len(),
            forall|i: int| 0 <= i < r@.len() ==> (#[trigger] r@[i]).wf(),
            forall|i: int|
                0 <= i < interfaces@.len() ==> (#[trigger] r@[2 * i]).name@ == interfaces@[i]@
                    + "Rx"@ && r@[2 * i].description@ == "Ingress bandwidth on "@ + interfaces@[i]@
                    + " during the past interval"@,
            forall|i: int|
                0 <= i < interfaces@.len() ==> (#[trigger] r@[2 * i + 1]).name@ == interfaces@[i]@
                    + "Tx"@ && r@[2 * i + 1].description@ == "Egress bandwidth on "@
                    + interfaces@[i]@ + " during the past interval"@,
            forall|i: int|
                0 <= i < r@.len() ==> (#[trigger] r@[i]).min == Some(0i64) && r@[i].max is None
                    && r@[i].unit@ == "B"@ && r@[i].digits_before_decimal is None && r@[i].precision
                    == 1 && !r@[i].signed,
    {
        let mut r: Vec<Stream> = Vec::new();
        let mut i: usize = 0;
        while i < interfaces.len()
            invariant
                i <= interfaces@.len(),
                interfaces@.len() <= 1000,
                forall|q: int| 0 <= q < interfaces@.len() ==> label_ok((#[trigger] interfaces@[q])@),
                r@.len() == 2 * i,
                forall|q: int| 0 <= q < r@.len() ==> (#[trigger] r@[q]).wf(),
                forall|q: int|
                    0 <= q < i ==> (#[trigger] r@[2 * q]).name@ == interfaces@[q]@ + "Rx"@ && r@[2
                        * q].description@ == "Ingress bandwidth on "@ + interfaces@[q]@
                        + " during the past interval"@,
                forall|q: int|
                    0 <= q < i ==> (#[trigger] r@[2 * q + 1]).name@ == interfaces@[q]@ + "Tx"@ && r@[
                        2 * q + 1].description@ == "Egress bandwidth on "@ + interfaces@[q]@
                        + " during the past interval"@,
                forall|q: int|
                    0 <= q < r@.len() ==> (#[trigger] r@[q]).min == Some(0i64) && r@[q].max is None
                        && r@[q].unit@ == "B"@ && r@[q].digits_before_decimal is None
                        && r@[q].precision == 1 && !r@[q].signed,
            decreases interfaces@.len() - i,
        {
            proof {
                reveal_strlit("Rx");
                reveal_strlit("Tx");
                reveal_strlit("Ingress bandwidth on ");
                reveal_strlit("Egress bandwidth on ");
                reveal_strlit(" during the past interval");
                reveal_strlit("B");
                assert(marker_free("Rx"@));
                assert(marker_free("Tx"@));
                assert(marker_free("Ingress bandwidth on "@));
                assert(marker_free("Egress bandwidth on "@));
                assert(marker_free(" during the past interval"@));
                assert(marker_free("B"@));
            }
            let ifname = &interfaces[i];
            let mut rx_name = String::new();
            rx_name.append(ifname.as_str());
            rx_name.append("Rx");
            let mut rx_desc = String::new();
            rx_desc.append("Ingress bandwidth on ");
            rx_desc.append(ifname.as_str());
            rx_desc.append(" during the past interval");
            let mut unit = String::new();
            unit.append("B");
            proof {
                lemma_label_append(interfaces@[i as int]@, "Rx"@);
                lemma_label_append("Ingress bandwidth on "@, interfaces@[i as int]@);
                lemma_label_append(
                    "Ingress bandwidth on "@ + interfaces@[i as int]@,
                    " during the past interval"@,
                );
            }
            r.push(Stream::new(rx_name, rx_desc, Some(0), None, unit, None, 1, false));
            let mut tx_name = String::new();
            tx_name.append(ifname.as_str());
            tx_name.append("Tx");
            let mut tx_desc = String::new();
            tx_desc.append("Egress bandwidth on ");
            tx_desc.append(ifname.as_str());
            tx_desc.append(" during the past interval");
            let mut unit2 = String::new();
            unit2.append("B");
            proof {
                lemma_label_append(interfaces@[i as int]@, "Tx"@);
                lemma_label_append("Egress bandwidth on "@, interfaces@[i as int]@);
                lemma_label_append(
                    "Egress bandwidth on "@ + interfaces@[i as int]@,
                    " during the past interval"@,
                );
            }
            r.push(Stream::new(tx_name, tx_desc, Some(0), None, unit2, None, 1, false));
            i = i + 1;
        }
        r
    }
}

/// A case-insensitive `fan` occurrence starts at the head of `s`.
pub open spec fn is_fan_at(s: Seq<char>) -> bool {
    s.len() >= 3 && (s[0] == 'f' || s[0] == 'F') && (s[1] == 'a' || s[1] == 'A') && (s[2] == 'n'
        || s[2] == 'N')
}

/// `s` with every case-insensitive `fan` removed, left to right and
/// without overlap.
pub open spec fn spec_strip_fan(s: Seq<char>) -> Seq<char>
    decreases s.len(),
{
    if s.len() == 0 {
        Seq::empty()
    } else if is_fan_at(s) {
        spec_strip_fan(s.skip(3))
    } else {
        seq![s[0]] + spec_strip_fan(s.skip(1))
    }
}

/// `s` with every space removed.
pub open spec fn spec_strip_spaces(s: Seq<char>) -> Seq<char>
    decreases s.len(),
{
    if s.len() == 0 {
        Seq::empty()
    } else if s[0] == ' ' {
        spec_strip_spaces(s.skip(1))
    } else {
        seq![s[0]] + spec_strip_spaces(s.skip(1))
    }
}

#[verifier::spinoff_prover]
proof fn lemma_strip_fan_props(s: Seq<char>)
    ensures
        spec_strip_fan(s).len() <= s.len(),
        marker_free(s) ==> marker_free(spec_strip_fan(s)),
    decreases s.len(),
{
    if s.len() > 0 {
        if is_fan_at(s) {
            lemma_strip_fan_props(s.skip(3));
            if marker_free(s) {
                assert(forall|i: int|
                    0 <= i < s.skip(3).len() ==> s.skip(3)[i] != crate::text::MARK_START);
            }
        } else {
            lemma_strip_fan_props(s.skip(1));
            if marker_free(s) {
                assert(forall|i: int|
                    0 <= i < s.skip(1).len() ==> s.skip(1)[i] != crate::text::MARK_START);
            }
        }
    }
}

#[verifier::spinoff_prover]
proof fn lemma_strip_spaces_props(s: Seq<char>)
    ensures
        spec_strip_spaces(s).len() <= s.len(),
        marker_free(s) ==> marker_free(spec_strip_spaces(s)),
    decreases s.len(),
{
    if s.len() > 0 {
        lemma_strip_spaces_props(s.skip(1));
        if marker_free(s) {
            assert(forall|i: int|
                0 <= i < s.skip(1).len() ==> s.skip(1)[i] != crate::text::MARK_START);
        }
    }
}

/// A fan feature label with the redundant `fan` words and spaces removed.
#[verifier::spinoff_prover]
fn clean_fan_label(label: &str) -> (r: String)
    ensures
        r@ == spec_strip_spaces(spec_strip_fan(label@)),
{
    let n = label.unicode_len();
    let mut kept = String::new();
    let mut i: usize = 0;
    assert(label@.skip(0) =~= label@);
    while i < n
        invariant
            i <= n,
            n == label@.len(),
            spec_strip_fan(label@) == kept@ + spec_strip_fan(label@.skip(i as int)),
        decreases n - i,
    {
        let ghost tail = label@.skip(i as int);
        assert(tail[0] == label@[i as int]);
        let c = label.get_char(i);
        let mut fan = false;
        if (c == 'f' || c == 'F') && n - i > 2 {
            assert(tail[1] == label@[i as int + 1]);
            assert(tail[2] == label@[i as int + 2]);
            let c1 = label.get_char(i + 1);
            let c2 = label.get_char(i + 2);
            if (c1 == 'a' || c1 == 'A') && (c2 == 'n' || c2 == 'N') {
                fan = true;
            }
        }
        if fan {
            assert(is_fan_at(tail));
            assert(tail.skip(3) =~= label@.skip(i as int + 3));
            i = i + 3;
        } else {
            assert(!is_fan_at(tail));
            let ghost k0 = kept@;
            let piece = label.substring_char(i, i + 1);
            kept.append(piece);
            proof {
                assert(piece@ =~= seq![tail[0]]);
                assert(tail.skip(1) =~= label@.skip(i as int + 1));
                assert(kept@ + spec_strip_fan(label@.skip(i as int + 1)) =~= k0 + (seq![tail[0]]
                    + spec_strip_fan(tail.skip(1))));
            }
            i = i + 1;
        }
    }
    assert(label@.skip(n as int) =~= Seq::<char>::empty());
    assert(kept@ == spec_strip_fan(label@));
    let ghost mid = kept@;
    let m = kept.as_str().unicode_len();
    let mut out = String::new();
    let mut j: usize = 0;
    assert(mid.skip(0) =~= mid);
    while j < m
        invariant
            j <= m,
            m == mid.len(),
            kept@ == mid,
            spec_strip_spaces(mid) == out@ + spec_strip_spaces(mid.skip(j as int)),
        decreases m - j,
    {
        let ghost tail = mid.skip(j as int);
        assert(tail[0] == mid[j as int]);
        let c = kept.as_str().get_char(j);
        if c == ' ' {
            assert(tail.skip(1) =~= mid.skip(j as int + 1));
        } else {
            let ghost o0 = out@;
            let piece = kept.as_str().substring_char(j, j + 1);
            out.append(piece);
            proof {
                assert(piece@ =~= seq![tail[0]]);
                assert(tail.skip(1) =~= mid.skip(j as int + 1));
                assert(out@ + spec_strip_spaces(mid.skip(j as int + 1)) =~= o0 + (seq![tail[0]]
                    + spec_strip_spaces(tail.skip(1))));
            }
        }
        j = j + 1;
    }
    assert(mid.skip(m as int) =~= Seq::<char>::empty());
    out
}

/// The fan speed streams, one per fan tachometer input.
pub struct FanStreamProvider {}

impl FanStreamProvider {
    /// One stream per `(feature label, chip name)` input: the name is the
    /// label with the redundant `fan` words and spaces removed, plus `Fan`.
    #[verifier::spinoff_prover]
    pub fn streams(&self, inputs: &Vec<(String, String)>) -> (r: Vec<Stream>)
        requires
            inputs@.len() <= 1000,
            forall|i: int|
                0 <= i < inputs@.len() ==> label_ok((#[trigger] inputs@[i]).0@) && label_ok(
                    inputs@[i].1@,
                ),
        ensures
            r@.len() == inputs@.len(),
            forall|i: int| 0 <= i < r@.len() ==> (#[trigger] r@[i]).wf(),
            forall|i: int|
                0 <= i < r@.len() ==> (#[trigger] r@[i]).name@ == spec_strip_spaces(
                    spec_strip_fan(inputs@[i].0@),
                ) + "Fan"@,
            forall|i: int|
                0 <= i < r@.len() ==> (#[trigger] r@[i]).description@ == "Fan speed (feature "@
                    + inputs@[i].0@ + " on chip "@ + inputs@[i].1@ + ")"@,
            forall|i: int|
                0 <= i < r@.len() ==> (#[trigger] r@[i]).min is None && r@[i].max is None
                    && r@[i].unit@ == "RPM"@ && r@[i].digits_before_decimal == Some(4usize)
                    && r@[i].precision == 0 && !r@[i].signed,
    {
        let mut r: Vec<Stream> = Vec::new();
        let mut i: usize = 0;
        while i < inputs.len()
            invariant
                i <= inputs@.len(),
                inputs@.len() <= 1000,
                forall|q: int|
                    0 <= q < inputs@.len() ==> label_ok((#[trigger] inputs@[q]).0@) && label_ok(
                        inputs@[q].1@,
                    ),
                r@.len() == i,
                forall|q: int| 0 <= q < r@.len() ==> (#[trigger] r@[q]).wf(),
                forall|q: int|
                    0 <= q < r@.len() ==> (#[trigger] r@[q]).name@ == spec_strip_spaces(
                        spec_strip_fan(inputs@[q].0@),
                    ) + "Fan"@,
                forall|q: int|
                    0 <= q < r@.len() ==> (#[trigger] r@[q]).description@ == "Fan speed (feature "@
                        + inputs@[q].0@ + " on chip "@ + inputs@[q].1@ + ")"@,
                forall|q: int|
                    0 <= q < r@.len() ==> (#[trigger] r@[q]).min is None && r@[q].max is None
                        && r@[q].unit@ == "RPM"@ && r@[q].digits_before_decimal == Some(4usize)
                        && r@[q].precision == 0 && !r@[q].signed,
            decreases inputs@.len() - i,
        {
            proof {
                reveal_strlit("Fan");
                reveal_strlit("Fan speed (feature ");
                reveal_strlit(" on chip ");
                reveal_strlit(")");
                reveal_strlit("RPM");
                assert(marker_free("Fan"@));
                assert(marker_free("Fan speed (feature "@));
                assert(marker_free(" on chip "@));
                assert(marker_free(")"@));
                assert(marker_free("RPM"@));
            }
            let label = &inputs[i].0;
            let chip = &inputs[i].1;
            let cleaned = clean_fan_label(label.as_str());
            proof {
                lemma_strip_fan_props(inputs@[i as int].0@);
                lemma_strip_spaces_props(spec_strip_fan(inputs@[i as int].0@));
            }
            let mut name = String::new();
            name.append(cleaned.as_str());
            name.append("Fan");
            let mut desc = String::new();
            desc.append("Fan speed (feature ");
            desc.append(label.as_str());
            desc.append(" on chip ");
            desc.append(chip.as_str());
            desc.append(")");
            let mut unit = String::new();
            unit.append("RPM");
            proof {
                lemma_label_append(cleaned@, "Fan"@);
                lemma_label_append("Fan speed (feature "@, inputs@[i as int].0@);
                lemma_label_append("Fan speed (feature "@ + inputs@[i as int].0@, " on chip "@);
                lemma_label_append(
                    "Fan speed (feature "@ + inputs@[i as int].0@ + " on chip "@,
                    inputs@[i as int].1@,
                );
                lemma_label_append(
                    "Fan speed (feature "@ + inputs@[i as int].0@ + " on chip "@
                        + inputs@[i as int].1@,
                    ")"@,
                );
            }
            r.push(Stream::new(name, desc, None, None, unit, Some(4), 0, false));
            i = i + 1;
        }
        r
    }
}

/// Which temperature input a sensor label denotes: 1 for the CPU itself,
/// 2 for a core, 3 for a package, 0 for anything else. Matching is done on
/// the lowercase form of the label.
pub open spec fn temp_kind(lw: Seq<char>) -> int {
    if lw == "cpu"@ {
        1
    } else if contains_seq(lw, "core"@) {
        2
    } else if contains_seq(lw, "package id"@) {
        3
    } else {
        0
    }
}

/// The `(name, description)` pairs the temperature provider produces for
/// the given `(label, chip)` inputs, with running core and package
/// numbers starting after `ci` and `pi`.
pub open spec fn spec_temp_list(inputs: Seq<(Seq<char>, Seq<char>)>, ci: nat, pi: nat) -> Seq<
    (Seq<char>, Seq<char>),
>
    decreases inputs.len(),
{
    if inputs.len() == 0 {
        Seq::empty()
    } else {
        let label = inputs[0].0;
        let chip = inputs[0].1;
        let k = temp_kind(lower_of(label));
        let tail = inputs.drop_first();
        let suffix = " (feature "@ + label + " on chip "@ + chip + ")"@;
        if k == 1 {
            seq![(("CPUTemp"@), ("Temperature of CPU"@ + suffix))] + spec_temp_list(tail, ci, pi)
        } else if k == 2 {
            seq![
                (
                ("Core"@ + spec_digits(ci + 1) + "Temp"@),
                ("Temperature of CPU core "@ + spec_digits(ci + 1) + suffix),
                ),
            ] + spec_temp_list(tail, ci + 1, pi)
        } else if k == 3 {
            seq![
                (
                ("Package "@ + spec_digits(pi + 1) + "Temp"@),
                ("Temperature of CPU package "@ + spec_digits(pi + 1) + suffix),
                ),
            ] + spec_temp_list(tail, ci, pi + 1)
        } else {
            spec_temp_list(tail, ci, pi)
        }
    }
}

/// The `(label, chip)` views of the inputs.
pub open spec fn views_of(inputs: Seq<(String, String)>) -> Seq<(Seq<char>, Seq<char>)> {
    Seq::new(inputs.len(), |i: int| (inputs[i].0@, inputs[i].1@))
}

/// The CPU, core and package temperature streams.
pub struct TemperatureStreamProvider {}

impl TemperatureStreamProvider {
    /// One signed celsius stream per recognized temperature input: `cpu`
    /// labels name the CPU, labels containing `core` number the cores, and
    /// labels containing `package id` number the packages; unrecognized
    /// inputs are dropped.
    #[verifier::spinoff_prover]
    pub fn streams(&self, inputs: &Vec<(String, String)>) -> (r: Vec<Stream>)
        requires
            inputs@.len() <= 1000,
            forall|i: int|
                0 <= i < inputs@.len() ==> label_ok((#[trigger] inputs@[i]).0@) && label_ok(
                    inputs@[i].1@,
                ),
        ensures
            ({
                let out = spec_temp_list(views_of(inputs@), 0, 0);
                &&& r@.len() == out.len()
                &&& forall|j: int|
                    0 <= j < r@.len() ==> (#[trigger] r@[j]).name@ == out[j].0 && r@[j].description@
                        == out[j].1
                &&& forall|j: int|
                    0 <= j < r@.len() ==> (#[trigger] r@[j]).wf() && r@[j].min is None
                        && r@[j].max is None && r@[j].unit@ == "\u{B0}C"@
                        && r@[j].digits_before_decimal == Some(3usize) && r@[j].precision == 1
                        && r@[j].signed
            }),
    {
        let ghost views = views_of(inputs@);
        let mut r: Vec<Stream> = Vec::new();
        let mut core_index: usize = 0;
        let mut package_index: usize = 0;
        let mut i: usize = 0;
        assert(views.skip(0) =~= views);
        while i < inputs.len()
            invariant
                i <= inputs@.len(),
                inputs@.len() <= 1000,
                views == views_of(inputs@),
                forall|q: int|
                    0 <= q < inputs@.len() ==> label_ok((#[trigger] inputs@[q]).0@) && label_ok(
                        inputs@[q].1@,
                    ),
                core_index <= i,
                package_index <= i,
                spec_temp_list(views, 0, 0) == Seq::new(
                    r@.len(),
                    |j: int| ((r@[j].name@), (r@[j].description@)),
                ) + spec_temp_list(views.skip(i as int), core_index as nat, package_index as nat),
                forall|j: int|
                    0 <= j < r@.len() ==> (#[trigger] r@[j]).wf() && r@[j].min is None
                        && r@[j].max is None && r@[j].unit@ == "\u{B0}C"@
                        && r@[j].digits_before_decimal == Some(3usize) && r@[j].precision == 1
                        && r@[j].signed,
            decreases inputs@.len() - i,
        {
            proof {
                reveal_strlit("cpu");
                reveal_strlit("core");
                reveal_strlit("package id");
                reveal_strlit("CPUTemp");
                reveal_strlit("Temperature of CPU");
                reveal_strlit("Core");
                reveal_strlit("Temp");
                reveal_strlit("Temperature of CPU core ");
                reveal_strlit("Package ");
                reveal_strlit("Temperature of CPU package ");
                reveal_strlit(" (feature ");
                reveal_strlit(" on chip ");
                reveal_strlit(")");
                reveal_strlit("\u{B0}C");
                assert(marker_free("CPUTemp"@));
                assert(marker_free("Temperature of CPU"@));
                assert(marker_free("Core"@));
                assert(marker_free("Temp"@));
                assert(marker_free("Temperature of CPU core "@));
                assert(marker_free("Package "@));
                assert(marker_free("Temperature of CPU package "@));
                assert(marker_free(" (feature "@));
                assert(marker_free(" on chip "@));
                assert(marker_free(")"@));
                assert(marker_free("\u{B0}C"@));
            }
            let ghost tail = views.skip(i as int);
            let ghost rpairs = Seq::new(r@.len(), |j: int| ((r@[j].name@), (r@[j].description@)));
            proof {
                assert(tail[0] == views[i as int]);
                assert(tail.drop_first() =~= views.skip(i as int + 1));
            }
            let label = &inputs[i].0;
            let chip = &inputs[i].1;
            let lw = lowercase(label.as_str());
            let mut cpu_lit = String::new();
            cpu_lit.append("cpu");
            let is_cpu = lw == cpu_lit;
            let has_core = contains_str(lw.as_str(), "core");
            let has_package = contains_str(lw.as_str(), "package id");
            let ghost k = temp_kind(lower_of(inputs@[i as int].0@));
            let ghost lab = inputs@[i as int].0@;
            let ghost ch = inputs@[i as int].1@;
            let ghost suffix = " (feature "@ + lab + " on chip "@ + ch + ")"@;
            let ghost ci0 = core_index as nat;
            let ghost pi0 = package_index as nat;
            proof {
                assert(tail[0].0 == lab && tail[0].1 == ch);
            }
            let matched: bool;
            let mut name = String::new();
            let mut base = String::new();
            if is_cpu {
                assert(k == 1);
                name.append("CPUTemp");
                base.append("Temperature of CPU");
                matched = true;
            } else if has_core {
                assert(k == 2);
                core_index = core_index + 1;
                let n = format_u64(core_index as u64);
                proof {
                    crate::text::lemma_digits_marker_free(core_index as nat);
                    crate::format::lemma_spec_digits_len(core_index as nat);
                    crate::format::lemma_pow10_literals();
                    crate::format::lemma_num_digits_le(core_index as nat, 20);
                }
                name.append("Core");
                name.append(n.as_str());
                name.append("Temp");
                base.append("Temperature of CPU core ");
                base.append(n.as_str());
                matched = true;
            } else if has_package {
                assert(k == 3);
                package_index = package_index + 1;
                let n = format_u64(package_index as u64);
                proof {
                    crate::text::lemma_digits_marker_free(package_index as nat);
                    crate::format::lemma_spec_digits_len(package_index as nat);
                    crate::format::lemma_pow10_literals();
                    crate::format::lemma_num_digits_le(package_index as nat, 20);
                }
                name.append("Package ");
                name.append(n.as_str());
                name.append("Temp");
                base.append("Temperature of CPU package ");
                base.append(n.as_str());
                matched = true;
            } else {
                assert(k == 0);
                matched = false;
            }
            if matched {
                let mut desc = String::new();
                desc.append(base.as_str());
                desc.append(" (feature ");
                desc.append(label.as_str());
                desc.append(" on chip ");
                desc.append(chip.as_str());
                desc.append(")");
                let mut unit = String::new();
                unit.append("\u{B0}C");
                let ghost name_v = name@;
                let ghost desc_v = desc@;
                proof {
                    crate::text::lemma_digits_marker_free(core_index as nat);
                    crate::text::lemma_digits_marker_free(package_index as nat);
                    lemma_label_append("Core"@, spec_digits(core_index as nat));
                    lemma_label_append("Core"@ + spec_digits(core_index as nat), "Temp"@);
                    lemma_label_append("Package "@, spec_digits(package_index as nat));
                    lemma_label_append("Package "@ + spec_digits(package_index as nat), "Temp"@);
                    lemma_label_append(base@, " (feature "@);
                    lemma_label_append(base@ + " (feature "@, lab);
                    lemma_label_append(base@ + " (feature "@ + lab, " on chip "@);
                    lemma_label_append(base@ + " (feature "@ + lab + " on chip "@, ch);
                    lemma_label_append(base@ + " (feature "@ + lab + " on chip "@ + ch, ")"@);
                    if k == 1 {
                        assert(name_v =~= "CPUTemp"@);
                        assert(desc_v =~= "Temperature of CPU"@ + suffix);
                    } else if k == 2 {
                        assert(name_v =~= "Core"@ + spec_digits(ci0 + 1) + "Temp"@);
                        assert(desc_v =~= ("Temperature of CPU core "@ + spec_digits(ci0 + 1))
                            + suffix);
                        assert(desc_v =~= "Temperature of CPU core "@ + spec_digits(ci0 + 1)
                            + suffix);
                    } else {
                        assert(name_v =~= "Package "@ + spec_digits(pi0 + 1) + "Temp"@);
                        assert(desc_v =~= "Temperature of CPU package "@ + spec_digits(pi0 + 1)
                            + suffix);
                    }
                }
                r.push(Stream::new(name, desc, None, None, unit, Some(3), 1, true));
                proof {
                    assert(r@[r@.len() - 1].name@ == name_v);
                    assert(r@[r@.len() - 1].description@ == desc_v);
                    assert(spec_temp_list(tail, ci0, pi0) == seq![((name_v), (desc_v))]
                        + spec_temp_list(
                        views.skip(i as int + 1),
                        core_index as nat,
                        package_index as nat,
                    ));
                    assert(Seq::new(r@.len(), |j: int| ((r@[j].name@), (r@[j].description@))) =~= (
                    rpairs + seq![((name_v), (desc_v))]));
                    assert(rpairs + (seq![((name_v), (desc_v))] + spec_temp_list(
                        views.skip(i as int + 1),
                        core_index as nat,
                        package_index as nat,
                    )) =~= (rpairs + seq![((name_v), (desc_v))]) + spec_temp_list(
                        views.skip(i as int + 1),
                        core_index as nat,
                        package_index as nat,
                    ));
                }
            } else {
                proof {
                    assert(spec_temp_list(tail, ci0, pi0) == spec_temp_list(
                        views.skip(i as int + 1),
                        core_index as nat,
                        package_index as nat,
                    ));
                }
            }
            i = i + 1;
            proof {
                assert(spec_temp_list(views, 0, 0) == Seq::new(
                    r@.len(),
                    |j: int| ((r@[j].name@), (r@[j].description@)),
                ) + spec_temp_list(
                    views.skip(i as int),
                    core_index as nat,
                    package_index as nat,
                ));
            }
        }
        assert(views.skip(inputs@.len() as int) =~= Seq::<(Seq<char>, Seq<char>)>::empty());
        proof {
            assert(spec_temp_list(views, 0, 0) =~= Seq::new(
                r@.len(),
                |j: int| ((r@[j].name@), (r@[j].description@)),
            ));
        }
        r
    }
}

} // verus!
