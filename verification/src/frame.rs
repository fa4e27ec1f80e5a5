//! The frame renderer: column widths, the time-axis top bar, empty body
//! rows, the menu bottom bar, and the assembly of the full screen frame
//! from the per-stream rows.

use vstd::prelude::*;

use crate::format::spec_duration;
use crate::model::{Application, Interval, MenuItem, Screen, ScrollAnchor, StreamWrapper};
use crate::render::{
    fit_right, lemma_ellipsize_plain, lemma_spec_duration_closed, push_styled,
};
use crate::text::{
    closed, is_marker, lemma_closed_append, lemma_visible_append, lemma_visible_marker,
    lemma_visible_plain, marker_free, printed_width, spaces, visible,
};
use crate::theme::Theme;

verus! {

broadcast use vstd::string::axiom_str_literal_len, vstd::string::axiom_str_literal_get_char;

/// The printed width of a joined menu row from item `i` on: two columns
/// of block glyphs around each item's keys and label, two columns between
/// items.
pub open spec fn spec_menu_row_len(items: Seq<MenuItem>, i: int) -> int
    decreases items.len() - i,
{
    if i < 0 || i >= items.len() {
        0
    } else {
        (if i > 0 {
            2int
        } else {
            0int
        }) + 2 + items[i].keys@.len() + items[i].label@.len() + spec_menu_row_len(items, i + 1)
    }
}

/// The widest active stream name column: every name and every value must
/// fit, because the name column also shows axis labels in expanded view.
pub open spec fn spec_names_width(a: Seq<StreamWrapper>, i: int) -> int
    decreases i,
{
    if i <= 0 {
        0
    } else {
        let prev = spec_names_width(a, i - 1);
        let name_w = visible(a[i - 1].stream.name@).len() as int;
        let cur = if name_w > a[i - 1].stream.format_width {
            name_w
        } else {
            a[i - 1].stream.format_width as int
        };
        if cur > prev {
            cur
        } else {
            prev
        }
    }
}

/// The widest active stream value column before the statistics label is
/// taken into account.
pub open spec fn spec_values_width(a: Seq<StreamWrapper>, i: int) -> int
    decreases i,
{
    if i <= 0 {
        0
    } else {
        let prev = spec_values_width(a, i - 1);
        if a[i - 1].stream.format_width > prev {
            a[i - 1].stream.format_width as int
        } else {
            prev
        }
    }
}

/// The tick-label cells of the top bar from cell `idx` on: the label `i`
/// cells from the right shows the elapsed time `i * tick_spacing *
/// duration`, styled with the given markers and fitted to one tick
/// spacing of columns.
#[verifier::opaque]
pub open spec fn spec_tick_cells(
    duration_ms: nat,
    ts: int,
    full: int,
    idx: int,
    ns: Seq<char>,
    us: Seq<char>,
) -> Seq<char>
    decreases full - idx,
{
    if idx < 0 || idx >= full {
        Seq::empty()
    } else {
        let i = full - idx;
        crate::render::spec_fit_right(
            visible(spec_duration(((duration_ms as int) * (i * ts)) as nat, ns, us)),
            ts,
        ) + spec_tick_cells(duration_ms, ts, full, idx + 1, ns, us)
    }
}

/// The top bar's visible columns for an interval and the three column
/// widths: left padding that aligns the ticks with the rows' tick
/// columns, the right-aligned tick labels, `Now` at the graph's right
/// edge, and the value column's padding.
pub open spec fn spec_top_bar_of(
    interval: Interval,
    nw: int,
    gw: int,
    vw: int,
    ns: Seq<char>,
    us: Seq<char>,
) -> Seq<char> {
    let ts = interval.tick_spacing as int;
    let full = (gw - 1) / ts;
    let ftp = nw + 1 + (gw - 1 - full * ts);
    Seq::new(ftp as nat, |z: int| ' ') + spec_tick_cells(
        interval.duration as nat,
        ts,
        full,
        0,
        ns,
        us,
    ) + "Now"@ + Seq::new((vw - 1) as nat, |z: int| ' ')
}

impl Application {
    /// The printed width of the bottom bar's content: the left menu, on
    /// the main screen a space and the interval label, the two-column gap,
    /// the right menu and the trailing space.
    pub open spec fn spec_bottom_width(self, theme: Theme) -> int {
        let left = if self.screen == Screen::Main {
            self.main_menu.0@
        } else {
            self.streams_menu.0@
        };
        let right = if self.screen == Screen::Main {
            self.main_menu.1@
        } else {
            self.streams_menu.1@
        };
        spec_menu_row_len(left, 0) + (if self.screen == Screen::Main {
            1 + visible(
                spec_duration(
                    self.spec_interval().duration as nat,
                    theme.bottom_bar_number_color.fg@,
                    theme.bottom_bar_unit_color.fg@,
                ),
            ).len() as int
        } else {
            0int
        }) + 2 + spec_menu_row_len(right, 0) + 1
    }

    /// The top bar this state draws: the current interval's tick labels
    /// laid over the grid's column split.
    pub open spec fn spec_top_bar_visible(self, theme: Theme) -> Seq<char> {
        let a = self.spec_active();
        let nw = spec_names_width(a, a.len() as int);
        let vwr = spec_values_width(a, a.len() as int);
        let vw: int = if vwr > 9 {
            vwr
        } else {
            9
        };
        let gw = self.spec_grid_width() - nw - vw - 2;
        spec_top_bar_of(
            self.spec_interval(),
            nw,
            gw,
            vw,
            theme.top_bar_number_color.fg@,
            theme.top_bar_unit_color.fg@,
        )
    }

    /// The full grid width: the terminal's, or what the columns need.
    pub open spec fn spec_grid_width(self) -> int {
        let a = self.spec_active();
        let nw = spec_names_width(a, a.len() as int);
        let vwr = spec_values_width(a, a.len() as int);
        let vw = if vwr > 9 {
            vwr
        } else {
            9
        };
        if self.width >= nw + 3 + vw {
            self.width as int
        } else {
            nw + 3 + vw
        }
    }

    /// Name column width over the active streams.
    #[verifier::spinoff_prover]
    fn name_width(&self) -> (r: usize)
        requires
            self.wf(),
        ensures
            r == spec_names_width(self.spec_active(), self.spec_active().len() as int),
            r <= 2015,
    {
        let ghost a = self.spec_active();
        proof {
            crate::model::lemma_active_view_member(self.streams@, self.streams@.len() as int);
        }
        let act = self.active_streams();
        let mut r: usize = 0;
        let mut i: usize = 0;
        while i < act.len()
            invariant
                act@.len() == a.len(),
                forall|q: int| 0 <= q < a.len() ==> *(#[trigger] act@[q]) == a[q],
                forall|q: int|
                    0 <= q < a.len() ==> exists|k: int|
                        0 <= k < self.streams@.len() && #[trigger] a[q] == self.streams@[k],
                forall|k: int| 0 <= k < self.streams@.len() ==> (#[trigger] self.streams@[k]).wf(),
                i <= a.len(),
                r == spec_names_width(a, i as int),
                r <= 2015,
            decreases a.len() - i,
        {
            proof {
                let kw = choose|k: int|
                    0 <= k < self.streams@.len() && #[trigger] a[i as int] == self.streams@[k];
                assert(a[i as int].wf());
                crate::text::lemma_visible_plain(a[i as int].stream.name@);
                crate::text::lemma_visible_plain(a[i as int].stream.unit@);
            }
            let nw = printed_width(act[i].stream.name.as_str());
            let fw = act[i].stream.format_width;
            let cur = if nw > fw {
                nw
            } else {
                fw
            };
            if cur > r {
                r = cur;
            }
            i = i + 1;
        }
        r
    }

    /// Value column width over the active streams: any value and the
    /// statistics label must fit.
    #[verifier::spinoff_prover]
    fn value_width(&self) -> (r: usize)
        requires
            self.wf(),
        ensures
            ({
                let a = self.spec_active();
                let vwr = spec_values_width(a, a.len() as int);
                r == (if vwr > 9 {
                    vwr
                } else {
                    9int
                })
            }),
            9 <= r <= 2015,
    {
        let ghost a = self.spec_active();
        proof {
            crate::model::lemma_active_view_member(self.streams@, self.streams@.len() as int);
        }
        let act = self.active_streams();
        let mut r: usize = 0;
        let mut i: usize = 0;
        while i < act.len()
            invariant
                act@.len() == a.len(),
                forall|q: int| 0 <= q < a.len() ==> *(#[trigger] act@[q]) == a[q],
                forall|q: int|
                    0 <= q < a.len() ==> exists|k: int|
                        0 <= k < self.streams@.len() && #[trigger] a[q] == self.streams@[k],
                forall|k: int| 0 <= k < self.streams@.len() ==> (#[trigger] self.streams@[k]).wf(),
                i <= a.len(),
                r == spec_values_width(a, i as int),
                r <= 2015,
            decreases a.len() - i,
        {
            proof {
                let kw = choose|k: int|
                    0 <= k < self.streams@.len() && #[trigger] a[i as int] == self.streams@[k];
                assert(a[i as int].wf());
                crate::text::lemma_visible_plain(a[i as int].stream.unit@);
            }
            let fw = act[i].stream.format_width;
            if fw > r {
                r = fw;
            }
            i = i + 1;
        }
        if r < 9 {
            9
        } else {
            r
        }
    }

    /// One tick label cell: the elapsed time `i` ticks back, styled and
    /// fitted to one tick spacing of columns.
    #[verifier::rlimit(100)]
    #[verifier::spinoff_prover]
    fn tick_cell(duration: u64, i: usize, ts: usize, theme: &Theme) -> (r: String)
        requires
            theme.top_bar_number_color.wf(),
            theme.top_bar_unit_color.wf(),
            duration <= 300000000000,
            1 <= i,
            ts >= 1,
            i * ts <= 65535,
        ensures
            closed(r@),
            visible(r@).len() == ts,
            visible(r@) == crate::render::spec_fit_right(
                visible(
                    spec_duration(
                        ((duration as int) * ((i as int) * (ts as int))) as nat,
                        theme.top_bar_number_color.fg@,
                        theme.top_bar_unit_color.fg@,
                    ),
                ),
                ts as int,
            ),
    {
        proof {
            assert(duration as int * ((i * ts) as int) <= 300000000000int * 65535int)
                by (nonlinear_arith)
                requires
                    duration <= 300000000000,
                    (i * ts) as int <= 65535,
            ;
        }
        let time = duration * ((i * ts) as u64);
        let label = crate::format::format_duration(
            time,
            theme.top_bar_number_color.fg.as_str(),
            theme.top_bar_unit_color.fg.as_str(),
        );
        proof {
            lemma_spec_duration_closed(
                time as nat,
                theme.top_bar_number_color.fg@,
                theme.top_bar_unit_color.fg@,
            );
            assert(time as nat == ((duration as int) * ((i as int) * (ts as int))) as nat);
        }
        fit_right(label.as_str(), ts)
    }

    /// The tick label cells from `idx` on, drawn left to right.
    #[verifier::rlimit(100)]
    #[verifier::spinoff_prover]
    fn tick_cells(duration: u64, ts: usize, full: usize, idx: usize, theme: &Theme) -> (r: String)
        requires
            theme.top_bar_number_color.wf(),
            theme.top_bar_unit_color.wf(),
            duration <= 300000000000,
            ts >= 1,
            full * ts <= 65535,
        ensures
            closed(r@),
            visible(r@) == spec_tick_cells(
                duration as nat,
                ts as int,
                full as int,
                idx as int,
                theme.top_bar_number_color.fg@,
                theme.top_bar_unit_color.fg@,
            ),
            visible(r@).len() == (if idx < full {
                (full - idx) * ts
            } else {
                0int
            }),
        decreases full - idx,
    {
        proof {
            reveal(spec_tick_cells);
        }
        if idx >= full {
            let r = String::new();
            assert(visible(r@) =~= Seq::<char>::empty());
            r
        } else {
            let i = full - idx;
            proof {
                assert((i as int) * (ts as int) <= (full as int) * (ts as int))
                    by (nonlinear_arith)
                    requires
                        i <= full,
                        ts >= 1,
                ;
            }
            let cell = Self::tick_cell(duration, i, ts, theme);
            let rest = Self::tick_cells(duration, ts, full, idx + 1, theme);
            let mut r = cell;
            let ghost c0 = r@;
            r.append(rest.as_str());
            proof {
                lemma_closed_append(c0, rest@);
                lemma_visible_append(c0, rest@);
                assert(((full - idx) * ts) as int == ts + (if idx + 1 < full {
                    ((full - idx - 1) * ts) as int
                } else {
                    0int
                })) by (nonlinear_arith)
                    requires
                        idx < full,
                        ts >= 1,
                ;
            }
            r
        }
    }

    /// The full top-bar line for one interval: the leading background
    /// marker, the aligning padding, the tick labels, `Now`, and the value
    /// column's padding.
    #[verifier::rlimit(100)]
    #[verifier::spinoff_prover]
    fn top_bar_line(
        interval: Interval,
        name_width: usize,
        graph_width: usize,
        value_width: usize,
        theme: &Theme,
    ) -> (r: String)
        requires
            theme.top_bar_color.wf(),
            theme.top_bar_number_color.wf(),
            theme.top_bar_unit_color.wf(),
            interval.duration <= 300000000000,
            interval.tick_spacing >= 1,
            1 <= graph_width <= 65535,
            1 <= value_width <= 4000,
            name_width <= 4000,
        ensures
            closed(r@),
            visible(r@).len() == name_width + 2 + graph_width + value_width,
            visible(r@) == spec_top_bar_of(
                interval,
                name_width as int,
                graph_width as int,
                value_width as int,
                theme.top_bar_number_color.fg@,
                theme.top_bar_unit_color.fg@,
            ),
    {
        let ts = interval.tick_spacing;
        let duration = interval.duration;
        let full = (graph_width - 1) / ts;
        proof {
            assert(full * ts <= graph_width - 1) by (nonlinear_arith)
                requires
                    full as int == ((graph_width - 1) as int) / (ts as int),
                    ts >= 1,
                    graph_width >= 1,
            ;
        }
        let ftp = name_width + 1 + (graph_width - 1 - full * ts);
        let mut r = String::new();
        push_styled(&mut r, theme.top_bar_color.bg.as_str());
        let pad = spaces(ftp);
        proof {
            assert(marker_free(pad@));
            lemma_visible_plain(pad@);
        }
        push_styled(&mut r, pad.as_str());
        let cells = Self::tick_cells(duration, ts, full, 0, theme);
        proof {
            assert(visible(cells@).len() == (if 0 < full {
                ((full - 0) * ts) as int
            } else {
                0int
            }));
            if full > 0 {
                assert((full - 0) as int == full as int);
                assert(((full - 0) * ts) as int == (full * ts) as int) by (nonlinear_arith)
                    requires
                        full >= 1,
                        ts >= 1,
                ;
            }
            assert(visible(cells@).len() == full * ts);
        }
        push_styled(&mut r, cells.as_str());
        push_styled(&mut r, theme.top_bar_unit_color.fg.as_str());
        proof {
            reveal_strlit("Now");
            assert(marker_free("Now"@));
            lemma_visible_plain("Now"@);
        }
        push_styled(&mut r, "Now");
        let pad2 = spaces(value_width - 1);
        proof {
            assert(marker_free(pad2@));
            lemma_visible_plain(pad2@);
        }
        push_styled(&mut r, pad2.as_str());
        proof {
            assert(visible(r@) =~= spec_top_bar_of(
                interval,
                name_width as int,
                graph_width as int,
                value_width as int,
                theme.top_bar_number_color.fg@,
                theme.top_bar_unit_color.fg@,
            ));
        }
        r
    }

    /// The top bar: right-aligned tick labels spaced a tick apart,
    /// counting back from `Now` at the graph's right edge.
    fn top_bar(&self, name_width: usize, graph_width: usize, value_width: usize, theme: &Theme) -> (r:
        String)
        requires
            self.wf(),
            theme.wf(),
            1 <= graph_width <= 65535,
            1 <= value_width <= 4000,
            name_width <= 4000,
        ensures
            closed(r@),
            visible(r@).len() == name_width + 2 + graph_width + value_width,
            visible(r@) == spec_top_bar_of(
                self.spec_interval(),
                name_width as int,
                graph_width as int,
                value_width as int,
                theme.top_bar_number_color.fg@,
                theme.top_bar_unit_color.fg@,
            ),
    {
        let interval = self.interval();
        Self::top_bar_line(interval, name_width, graph_width, value_width, theme)
    }

    /// One empty body row below the data streams: background, tick columns
    /// and spacing only.
    #[verifier::spinoff_prover]
    fn empty_line(
        &self,
        name_width: usize,
        graph_width: usize,
        value_width: usize,
        parity_even: bool,
        theme: &Theme,
    ) -> (r: String)
        requires
            self.wf(),
            theme.wf(),
            1 <= graph_width <= 65535,
            value_width <= 4000,
            name_width <= 4000,
        ensures
            closed(r@),
            visible(r@).len() == name_width + 2 + graph_width + value_width,
    {
        let interval = self.interval();
        let ts = interval.tick_spacing;
        let full = (graph_width - 1) / ts;
        proof {
            assert(full * ts <= graph_width - 1) by (nonlinear_arith)
                requires
                    full as int == ((graph_width - 1) as int) / (ts as int),
                    ts >= 1,
                    graph_width >= 1,
            ;
        }
        let ftp = name_width + 1 + (graph_width - 1 - full * ts);
        let background = if parity_even {
            &theme.stream_even_background_color
        } else {
            &theme.stream_odd_background_color
        };
        proof {
            reveal_strlit(" ");
            assert(" "@ =~= seq![' ']);
            assert(marker_free(" "@));
            lemma_visible_plain(" "@);
        }
        let mut r = String::new();
        push_styled(&mut r, background.bg.as_str());
        let pad = spaces(ftp);
        proof {
            assert(marker_free(pad@));
            lemma_visible_plain(pad@);
        }
        push_styled(&mut r, pad.as_str());
        let gap = spaces(ts - 1);
        proof {
            assert(marker_free(gap@));
            lemma_visible_plain(gap@);
        }
        let mut idx: usize = 0;
        while idx < full
            invariant
                idx <= full,
                ts >= 1,
                1 <= graph_width <= 65535,
                full * ts <= graph_width - 1,
                theme.wf(),
                background.wf(),
                gap@ == Seq::new((ts - 1) as nat, |z: int| ' '),
                marker_free(gap@),
                visible(gap@) == gap@,
                closed(gap@),
                closed(r@),
                visible(r@).len() == ftp + idx * ts,
            decreases full - idx,
        {
            push_styled(&mut r, theme.tick_color.bg.as_str());
            proof {
                reveal_strlit(" ");
                assert(" "@ =~= seq![' ']);
                assert(marker_free(" "@));
                lemma_visible_plain(" "@);
            }
            push_styled(&mut r, " ");
            push_styled(&mut r, background.bg.as_str());
            push_styled(&mut r, gap.as_str());
            idx = idx + 1;
            proof {
                assert((idx * ts) as int == (idx - 1) * ts + ts) by (nonlinear_arith);
            }
        }
        push_styled(&mut r, theme.tick_color.bg.as_str());
        push_styled(&mut r, " ");
        push_styled(&mut r, background.bg.as_str());
        let pad2 = spaces(1 + value_width);
        proof {
            assert(marker_free(pad2@));
            lemma_visible_plain(pad2@);
        }
        push_styled(&mut r, pad2.as_str());
        r
    }

    /// One joined menu row.
    #[verifier::spinoff_prover]
    fn menu_row(items: &Vec<MenuItem>, theme: &Theme) -> (r: String)
        requires
            theme.bottom_bar_key_background_color.wf(),
            theme.bottom_bar_color.wf(),
            theme.bottom_bar_key_text_color.wf(),
            theme.bottom_bar_label_color.wf(),
            crate::model::menu_plain(items@),
        ensures
            closed(r@),
            visible(r@).len() == spec_menu_row_len(items@, 0),
    {
        proof {
            reveal_strlit("  ");
        }
        let mut r = String::new();
        let mut i: usize = 0;
        while i < items.len()
            invariant
                i <= items@.len(),
                theme.bottom_bar_key_background_color.wf(),
                theme.bottom_bar_color.wf(),
                theme.bottom_bar_key_text_color.wf(),
                theme.bottom_bar_label_color.wf(),
                crate::model::menu_plain(items@),
                closed(r@),
                spec_menu_row_len(items@, 0) == visible(r@).len() + spec_menu_row_len(
                    items@,
                    i as int,
                ),
            decreases items@.len() - i,
        {
            if i > 0 {
                proof {
                    reveal_strlit("  ");
                    assert(marker_free("  "@));
                    lemma_visible_plain("  "@);
                }
                push_styled(&mut r, "  ");
            }
            proof {
                assert(crate::text::marker_free(items@[i as int].keys@) && crate::text::marker_free(
                    items@[i as int].label@,
                ));
            }
            let item = items[i].render(theme);
            push_styled(&mut r, item.as_str());
            i = i + 1;
        }
        r
    }

    /// The current interval's duration as a styled label.
    #[verifier::spinoff_prover]
    fn interval_label(interval: Interval, theme: &Theme) -> (r: String)
        requires
            theme.bottom_bar_number_color.wf(),
            theme.bottom_bar_unit_color.wf(),
        ensures
            closed(r@),
            r@ == spec_duration(
                interval.duration as nat,
                theme.bottom_bar_number_color.fg@,
                theme.bottom_bar_unit_color.fg@,
            ),
    {
        let label = crate::format::format_duration(
            interval.duration,
            theme.bottom_bar_number_color.fg.as_str(),
            theme.bottom_bar_unit_color.fg.as_str(),
        );
        proof {
            lemma_spec_duration_closed(
                interval.duration as nat,
                theme.bottom_bar_number_color.fg@,
                theme.bottom_bar_unit_color.fg@,
            );
        }
        label
    }

    /// The bottom bar's content left of the padding: the left menu, on the
    /// main screen a space and the interval label, then the two-column gap.
    #[verifier::rlimit(100)]
    #[verifier::spinoff_prover]
    fn bottom_head(&self, interval: Interval, theme: &Theme) -> (r: String)
        requires
            crate::model::menu_plain(self.main_menu.0@),
            crate::model::menu_plain(self.streams_menu.0@),
            theme.bottom_bar_key_background_color.wf(),
            theme.bottom_bar_color.wf(),
            theme.bottom_bar_key_text_color.wf(),
            theme.bottom_bar_label_color.wf(),
            theme.bottom_bar_number_color.wf(),
            theme.bottom_bar_unit_color.wf(),
        ensures
            closed(r@),
            visible(r@).len() == (if self.screen == Screen::Main {
                spec_menu_row_len(self.main_menu.0@, 0) + 1 + visible(
                    spec_duration(
                        interval.duration as nat,
                        theme.bottom_bar_number_color.fg@,
                        theme.bottom_bar_unit_color.fg@,
                    ),
                ).len() as int + 2
            } else {
                spec_menu_row_len(self.streams_menu.0@, 0) + 2
            }),
    {
        let items = if self.screen == Screen::Main {
            &self.main_menu.0
        } else {
            &self.streams_menu.0
        };
        let left_string = Self::menu_row(items, theme);
        let mut r = String::new();
        push_styled(&mut r, left_string.as_str());
        if self.screen == Screen::Main {
            let interval_string = Self::interval_label(interval, theme);
            proof {
                reveal_strlit(" ");
                assert(" "@ =~= seq![' ']);
                assert(marker_free(" "@));
                lemma_visible_plain(" "@);
            }
            push_styled(&mut r, " ");
            push_styled(&mut r, interval_string.as_str());
        }
        proof {
            reveal_strlit("  ");
            assert(marker_free("  "@));
            lemma_visible_plain("  "@);
        }
        push_styled(&mut r, "  ");
        r
    }

    /// The bottom bar's content right of the padding: the right menu, a
    /// trailing space, and the closing style reset.
    #[verifier::rlimit(100)]
    #[verifier::spinoff_prover]
    fn bottom_tail(&self, theme: &Theme) -> (r: String)
        requires
            crate::model::menu_plain(self.main_menu.1@),
            crate::model::menu_plain(self.streams_menu.1@),
            theme.bottom_bar_key_background_color.wf(),
            theme.bottom_bar_color.wf(),
            theme.bottom_bar_key_text_color.wf(),
            theme.bottom_bar_label_color.wf(),
        ensures
            closed(r@),
            visible(r@).len() == (if self.screen == Screen::Main {
                spec_menu_row_len(self.main_menu.1@, 0) + 1
            } else {
                spec_menu_row_len(self.streams_menu.1@, 0) + 1
            }),
    {
        let items = if self.screen == Screen::Main {
            &self.main_menu.1
        } else {
            &self.streams_menu.1
        };
        let right_string = Self::menu_row(items, theme);
        let mut r = String::new();
        push_styled(&mut r, right_string.as_str());
        proof {
            reveal_strlit(" ");
            assert(" "@ =~= seq![' ']);
            assert(marker_free(" "@));
            lemma_visible_plain(" "@);
        }
        push_styled(&mut r, " ");
        proof {
            reveal_strlit("\u{1B}[m");
            assert(is_marker("\u{1B}[m"@));
            lemma_visible_marker("\u{1B}[m"@);
        }
        push_styled(&mut r, "\u{1B}[m");
        r
    }

    /// The bottom bar: left menu, on the main screen the current interval,
    /// padding to the terminal width, then the right menu — exactly the
    /// terminal width when the content fits, the content's width when not.
    #[verifier::rlimit(100)]
    #[verifier::spinoff_prover]
    fn bottom_bar(&self, theme: &Theme) -> (r: String)
        requires
            self.wf(),
            theme.wf(),
        ensures
            closed(r@),
            visible(r@).len() >= self.width,
            visible(r@).len() == (if self.spec_bottom_width(*theme) > self.width {
                self.spec_bottom_width(*theme)
            } else {
                self.width as int
            }),
    {
        let interval = self.interval();
        let head = self.bottom_head(interval, theme);
        let tail = self.bottom_tail(theme);
        let hw = printed_width(head.as_str());
        let tw = printed_width(tail.as_str());
        let menu_width: u128 = hw as u128 + tw as u128;
        let mut r = String::new();
        push_styled(&mut r, head.as_str());
        if menu_width < self.width as u128 {
            let pad = spaces(self.width - (menu_width as usize));
            proof {
                assert(marker_free(pad@));
                lemma_visible_plain(pad@);
            }
            push_styled(&mut r, pad.as_str());
        }
        push_styled(&mut r, tail.as_str());
        r
    }
}

/// The frame lines from `i` on, joined: every line after the first is
/// preceded by a newline and carriage return.
pub open spec fn spec_join_from(lines: Seq<Seq<char>>, i: int) -> Seq<char>
    decreases lines.len() - i,
{
    if i < 0 || i >= lines.len() {
        Seq::empty()
    } else {
        (if i > 0 {
            seq!['\n', '\r']
        } else {
            Seq::empty()
        }) + lines[i] + spec_join_from(lines, i + 1)
    }
}

impl Application {
    /// A well-formed frame for this state: the grid height's worth of
    /// lines, all closed; every line but the last exactly the grid width
    /// (the terminal width on the stream-manager screen); the main
    /// screen's first line exactly the interval's tick-label bar; the
    /// bottom bar exactly the terminal width, or its content's width where
    /// the menus do not fit.
    pub open spec fn frame_ok(self, theme: Theme, lines: Seq<Seq<char>>) -> bool {
        &&& lines.len() >= 1
        &&& (self.screen == Screen::Main ==> lines.len() == (if self.height >= 3 {
            self.height as int
        } else {
            3int
        }))
        &&& (self.screen == Screen::Streams ==> lines.len() == (if self.height >= 2 {
            self.height as int
        } else {
            2int
        }))
        &&& forall|i: int| 0 <= i < lines.len() ==> closed(#[trigger] lines[i])
        &&& (self.screen == Screen::Main ==> (forall|i: int|
            0 <= i < lines.len() - 1 ==> visible(#[trigger] lines[i]).len()
                == self.spec_grid_width()))
        &&& (self.screen == Screen::Main ==> visible(lines[0]) == self.spec_top_bar_visible(
            theme,
        ))

        &&& (self.screen == Screen::Streams ==> (forall|i: int|
            0 <= i < lines.len() - 1 ==> visible(#[trigger] lines[i]).len() == self.width))
        &&& visible(lines[lines.len() - 1]).len() == (if self.spec_bottom_width(theme)
            > self.width {
            self.spec_bottom_width(theme)
        } else {
            self.width as int
        })
    }

    /// The main screen's frame lines.
    #[verifier::rlimit(100)]
    #[verifier::spinoff_prover]
    fn render_lines_main(&self, theme: &Theme) -> (lines: Vec<String>)
        requires
            self.wf(),
            theme.wf(),
            self.screen == Screen::Main,
        ensures
            lines@.len() == (if self.height >= 3 {
                self.height as int
            } else {
                3int
            }),
            forall|i: int| 0 <= i < lines@.len() ==> closed((#[trigger] lines@[i])@),
            forall|i: int|
                0 <= i < lines@.len() - 1 ==> visible((#[trigger] lines@[i])@).len()
                    == self.spec_grid_width(),
            visible(lines@[lines@.len() - 1]@).len() >= self.width,
            visible(lines@[lines@.len() - 1]@).len() == (if self.spec_bottom_width(*theme)
                > self.width {
                self.spec_bottom_width(*theme)
            } else {
                self.width as int
            }),
            self.frame_ok(*theme, Seq::new(lines@.len(), |i: int| lines@[i]@)),
    {
        let nw = self.name_width();
        let vw = self.value_width();
        let grid_w = if self.width >= nw + 3 + vw {
            self.width
        } else {
            nw + 3 + vw
        };
        let grid_h = if self.height >= 3 {
            self.height
        } else {
            3
        };
        let graph_width = grid_w - nw - vw - 2;
        assert(nw + 2 + graph_width + vw == self.spec_grid_width());
        assert(1 <= graph_width <= 65535);
        let max_lines = grid_h - 2;
        let ts = self.interval().tick_spacing;
        let mut lines: Vec<String> = Vec::new();
        let tb = self.top_bar(nw, graph_width, vw, theme);
        lines.push(tb);
        let ghost a = self.spec_active();
        proof {
            crate::model::lemma_active_view_member(
                self.streams@,
                self.streams@.len() as int,
            );
        }
        let act = self.active_streams();
        let mut body: Vec<String> = Vec::new();
        match self.scroll_anchor {
            ScrollAnchor::Top => {
                let mut i = self.scroll_index;
                while i < act.len() && body.len() < max_lines
                    invariant
                        self.wf(),
                        theme.wf(),
                        a == self.spec_active(),
                        act@.len() == a.len(),
                        forall|q: int| 0 <= q < a.len() ==> *(#[trigger] act@[q]) == a[q],
                        forall|q: int|
                            0 <= q < a.len() ==> exists|k: int|
                                0 <= k < self.streams@.len() && #[trigger] a[q]
                                    == self.streams@[k],
                        ts == self.spec_interval().tick_spacing,
                        1 <= graph_width <= 65535,
                        body@.len() <= max_lines,
                        forall|q: int|
                            0 <= q < body@.len() ==> closed((#[trigger] body@[q])@)
                                && visible(body@[q]@).len() == nw + 2 + graph_width + vw,
                    decreases act@.len() - i,
                {
                    proof {
                        let kw = choose|k: int|
                            0 <= k < self.streams@.len() && #[trigger] a[i as int]
                                == self.streams@[k];
                        assert(a[i as int].wf());
                    }
                    let sl = act[i].render(
                        i,
                        i == self.selection_index,
                        nw,
                        graph_width,
                        vw,
                        ts,
                        theme,
                    );
                    let mut k: usize = 0;
                    while k < sl.len() && body.len() < max_lines
                        invariant
                            k <= sl@.len(),
                            body@.len() <= max_lines,
                            forall|q: int|
                                0 <= q < sl@.len() ==> closed((#[trigger] sl@[q])@)
                                    && visible(sl@[q]@).len() == nw + 2 + graph_width
                                    + vw,
                            forall|q: int|
                                0 <= q < body@.len() ==> closed((#[trigger] body@[q])@)
                                    && visible(body@[q]@).len() == nw + 2 + graph_width
                                    + vw,
                        decreases sl@.len() - k,
                    {
                        body.push(sl[k].clone());
                        k = k + 1;
                    }
                    i = i + 1;
                }
            },
            ScrollAnchor::Bottom => {
                let mut steps: usize = 0;
                while steps <= self.scroll_index && body.len() < max_lines
                    invariant
                        self.wf(),
                        theme.wf(),
                        a == self.spec_active(),
                        act@.len() == a.len(),
                        forall|q: int| 0 <= q < a.len() ==> *(#[trigger] act@[q]) == a[q],
                        forall|q: int|
                            0 <= q < a.len() ==> exists|k: int|
                                0 <= k < self.streams@.len() && #[trigger] a[q]
                                    == self.streams@[k],
                        steps <= self.scroll_index + 1,
                        (self.scroll_index as int) < a.len(),
                        ts == self.spec_interval().tick_spacing,
                        1 <= graph_width <= 65535,
                        body@.len() <= max_lines,
                        forall|q: int|
                            0 <= q < body@.len() ==> closed((#[trigger] body@[q])@)
                                && visible(body@[q]@).len() == nw + 2 + graph_width + vw,
                    decreases self.scroll_index + 1 - steps,
                {
                    let i = self.scroll_index - steps;
                    proof {
                        let kw = choose|k: int|
                            0 <= k < self.streams@.len() && #[trigger] a[i as int]
                                == self.streams@[k];
                        assert(a[i as int].wf());
                    }
                    let sl = act[i].render(
                        i,
                        i == self.selection_index,
                        nw,
                        graph_width,
                        vw,
                        ts,
                        theme,
                    );
                    let mut k = sl.len();
                    while k > 0 && body.len() < max_lines
                        invariant
                            k <= sl@.len(),
                            body@.len() <= max_lines,
                            forall|q: int|
                                0 <= q < sl@.len() ==> closed((#[trigger] sl@[q])@)
                                    && visible(sl@[q]@).len() == nw + 2 + graph_width
                                    + vw,
                            forall|q: int|
                                0 <= q < body@.len() ==> closed((#[trigger] body@[q])@)
                                    && visible(body@[q]@).len() == nw + 2 + graph_width
                                    + vw,
                        decreases k,
                    {
                        k = k - 1;
                        let ghost body0 = body@;
                        let ln = sl[k].clone();
                        body.insert(0, ln);
                        proof {
                            assert(body@ == body0.insert(0, sl@[k as int]));
                            body0.insert_ensures(0, sl@[k as int]);
                            assert forall|q: int| 0 <= q < body@.len() implies closed((
                            #[trigger] body@[q])@) && visible(body@[q]@).len() == nw + 2
                                + graph_width + vw by {
                                if q == 0 {
                                    assert(body@[0] == sl@[k as int]);
                                } else {
                                    assert(body@[q] == body0[q - 1]);
                                }
                            }
                        }
                    }
                    steps = steps + 1;
                }
            },
        }
        let parity_even = act.len() % 2 == 0;
        while body.len() < max_lines
            invariant
                self.wf(),
                theme.wf(),
                1 <= graph_width <= 65535,
                nw <= 4000,
                vw <= 4000,
                body@.len() <= max_lines,
                forall|q: int|
                    0 <= q < body@.len() ==> closed((#[trigger] body@[q])@) && visible(
                        body@[q]@,
                    ).len() == nw + 2 + graph_width + vw,
            decreases max_lines - body@.len(),
        {
            let el = self.empty_line(nw, graph_width, vw, parity_even, theme);
            body.push(el);
        }
        let ghost body_final = body@;
        lines.append(&mut body);
        let bb = self.bottom_bar(theme);
        lines.push(bb);
        proof {
            assert(lines@.len() == 2 + body_final.len());
            assert forall|q: int| 0 <= q < lines@.len() implies closed((
            #[trigger] lines@[q])@) by {
                if 1 <= q < lines@.len() - 1 {
                    assert(lines@[q] == body_final[q - 1]);
                }
            }
            assert forall|q: int| 0 <= q < lines@.len() - 1 implies visible((
            #[trigger] lines@[q])@).len() == self.spec_grid_width() by {
                if 1 <= q {
                    assert(lines@[q] == body_final[q - 1]);
                }
            }
            assert(visible(lines@[lines@.len() - 1]@).len() >= self.width);
            assert(visible(lines@[0]@) =~= self.spec_top_bar_visible(*theme));
            let lv = Seq::new(lines@.len(), |q: int| lines@[q]@);
            assert forall|q: int| 0 <= q < lv.len() implies closed(#[trigger] lv[q]) by {
                assert(lv[q] == lines@[q]@);
            }
            assert forall|q: int| 0 <= q < lv.len() - 1 implies visible(
                #[trigger] lv[q],
            ).len() == self.spec_grid_width() by {
                assert(lv[q] == lines@[q]@);
            }
            assert(lv[lv.len() - 1] == lines@[lines@.len() - 1]@);
        }
        lines
    }

    /// The stream-manager screen's frame lines: the placeholder notice,
    /// blank body rows, and the bottom bar.
    #[verifier::rlimit(100)]
    #[verifier::spinoff_prover]
    fn render_lines_manager(&self, theme: &Theme) -> (lines: Vec<String>)
        requires
            self.wf(),
            theme.wf(),
            self.screen == Screen::Streams,
        ensures
            lines@.len() == (if self.height >= 2 {
                self.height as int
            } else {
                2int
            }),
            forall|i: int| 0 <= i < lines@.len() ==> closed((#[trigger] lines@[i])@),
            forall|i: int|
                0 <= i < lines@.len() - 1 ==> visible((#[trigger] lines@[i])@).len() == self.width,
            visible(lines@[lines@.len() - 1]@).len() >= self.width,
            visible(lines@[lines@.len() - 1]@).len() == (if self.spec_bottom_width(*theme)
                > self.width {
                self.spec_bottom_width(*theme)
            } else {
                self.width as int
            }),
            self.frame_ok(*theme, Seq::new(lines@.len(), |i: int| lines@[i]@)),
    {
        let mut lines: Vec<String> = Vec::new();
        proof {
            reveal_strlit("Stream selection is not implemented yet");
            assert(marker_free("Stream selection is not implemented yet"@));
        }
        let msg = crate::text::ellipsize(
            "Stream selection is not implemented yet",
            self.width,
        );
        proof {
            lemma_ellipsize_plain(
                "Stream selection is not implemented yet"@,
                self.width as int,
            );
            lemma_visible_plain(msg@);
        }
        let mut first = String::new();
        push_styled(&mut first, theme.stream_name_color.fg.as_str());
        push_styled(&mut first, theme.stream_odd_background_color.bg.as_str());
        let pm = fit_right(msg.as_str(), self.width);
        push_styled(&mut first, pm.as_str());
        lines.push(first);
        let blanks = if self.height >= 2 {
            self.height - 2
        } else {
            0
        };
        let mut z: usize = 0;
        while z < blanks
            invariant
                z <= blanks,
                self.wf(),
                lines@.len() == 1 + z,
                forall|q: int|
                    0 <= q < lines@.len() ==> closed((#[trigger] lines@[q])@) && visible(
                        lines@[q]@,
                    ).len() == self.width,
            decreases blanks - z,
        {
            let sp = spaces(self.width);
            proof {
                assert(marker_free(sp@));
                lemma_visible_plain(sp@);
            }
            lines.push(sp);
            z = z + 1;
        }
        let bb = self.bottom_bar(theme);
        lines.push(bb);
        proof {
            let lv = Seq::new(lines@.len(), |q: int| lines@[q]@);
            assert forall|q: int| 0 <= q < lv.len() implies closed(#[trigger] lv[q]) by {
                assert(lv[q] == lines@[q]@);
            }
            assert forall|q: int| 0 <= q < lv.len() - 1 implies visible(
                #[trigger] lv[q],
            ).len() == self.width by {
                assert(lv[q] == lines@[q]@);
            }
            assert(lv[lv.len() - 1] == lines@[lines@.len() - 1]@);
        }
        lines
    }

    /// The full frame as styled lines: top bar, the visible stream rows
    /// with empty rows below them, and the bottom bar; or the placeholder
    /// stream-manager screen. Every line is closed; every line but the
    /// last is exactly the grid width; the bottom bar fills exactly the
    /// terminal width, or its content's width where the menus do not fit.
    pub fn render_lines(&self, theme: &Theme) -> (lines: Vec<String>)
        requires
            self.wf(),
            theme.wf(),
        ensures
            self.screen == Screen::Main ==> lines@.len() == (if self.height >= 3 {
                self.height as int
            } else {
                3int
            }),
            self.screen == Screen::Streams ==> lines@.len() == (if self.height >= 2 {
                self.height as int
            } else {
                2int
            }),
            forall|i: int| 0 <= i < lines@.len() ==> closed((#[trigger] lines@[i])@),
            self.screen == Screen::Main ==> (forall|i: int|
                0 <= i < lines@.len() - 1 ==> visible((#[trigger] lines@[i])@).len()
                    == self.spec_grid_width()),
            self.screen == Screen::Streams ==> (forall|i: int|
                0 <= i < lines@.len() - 1 ==> visible((#[trigger] lines@[i])@).len()
                    == self.width),
            visible(lines@[lines@.len() - 1]@).len() >= self.width,
            visible(lines@[lines@.len() - 1]@).len() == (if self.spec_bottom_width(*theme)
                > self.width {
                self.spec_bottom_width(*theme)
            } else {
                self.width as int
            }),
            self.frame_ok(*theme, Seq::new(lines@.len(), |i: int| lines@[i]@)),
    {
        match self.screen {
            Screen::Main => self.render_lines_main(theme),
            Screen::Streams => self.render_lines_manager(theme),
        }
    }

    /// The full frame as one string: cursor home, style reset, and the
    /// lines of a well-formed frame for this state, joined by newline and
    /// carriage return.
    #[verifier::spinoff_prover]
    pub fn render(&self, theme: &Theme) -> (r: String)
        requires
            self.wf(),
            theme.wf(),
        ensures
            closed(r@),
            r@.len() >= 9,
            r@.take(9) == "\u{1B}[1;1H\u{1B}[m"@,
            exists|lv: Seq<Seq<char>>|
                #![auto]
                self.frame_ok(*theme, lv) && r@ == "\u{1B}[1;1H\u{1B}[m"@ + spec_join_from(
                    lv,
                    0,
                ),
    {
        let lines = self.render_lines(theme);
        let ghost lv = Seq::new(lines@.len(), |q: int| lines@[q]@);
        let mut r = String::new();
        proof {
            reveal_strlit("\u{1B}[1;1H\u{1B}[m");
            assert(is_marker("\u{1B}[1;1H\u{1B}[m"@));
            lemma_visible_marker("\u{1B}[1;1H\u{1B}[m"@);
        }
        push_styled(&mut r, "\u{1B}[1;1H\u{1B}[m");
        proof {
            assert(r@.take(9) =~= "\u{1B}[1;1H\u{1B}[m"@);
            assert(r@ =~= "\u{1B}[1;1H\u{1B}[m"@);
        }
        let ghost prefix = r@;
        let mut i: usize = 0;
        while i < lines.len()
            invariant
                i <= lines@.len(),
                lv == Seq::new(lines@.len(), |q: int| lines@[q]@),
                closed(r@),
                r@.len() >= 9,
                r@.take(9) == "\u{1B}[1;1H\u{1B}[m"@,
                prefix == "\u{1B}[1;1H\u{1B}[m"@,
                forall|q: int| 0 <= q < lines@.len() ==> closed((#[trigger] lines@[q])@),
                prefix + spec_join_from(lv, 0) == r@ + spec_join_from(lv, i as int),
            decreases lines@.len() - i,
        {
            let ghost r_before = r@;
            let ghost sep: Seq<char> = if i > 0 {
                seq!['\n', '\r']
            } else {
                Seq::<char>::empty()
            };
            if i > 0 {
                proof {
                    reveal_strlit("\n\r");
                    assert(marker_free("\n\r"@));
                    lemma_visible_plain("\n\r"@);
                    assert("\n\r"@ =~= sep);
                }
                push_styled(&mut r, "\n\r");
            } else {
                assert(r@ =~= r_before + sep);
            }
            let ghost r_mid = r@;
            push_styled(&mut r, lines[i].as_str());
            proof {
                assert(lv[i as int] == lines@[i as int]@);
                assert(spec_join_from(lv, i as int) == sep + lv[i as int] + spec_join_from(
                    lv,
                    i as int + 1,
                ));
                assert(r_mid =~= r_before + sep);
                assert(r@ =~= r_before + sep + lv[i as int]);
                assert(r@ + spec_join_from(lv, i as int + 1) =~= r_before + spec_join_from(
                    lv,
                    i as int,
                ));
            }
            i = i + 1;
            assert(r@.take(9) =~= r_before.take(9));
        }
        proof {
            assert(spec_join_from(lv, lines@.len() as int) =~= Seq::<char>::empty());
            assert(r@ =~= prefix + spec_join_from(lv, 0));
        }
        r
    }
}

} // verus!

