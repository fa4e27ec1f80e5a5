//! The application state machine: the full set of streams with their
//! display state, the current screen, selection, scroll and interval state,
//! and the interpretation of input events into state transitions.

use vstd::prelude::*;

use crate::stream::{value_ok, Stream};

verus! {

/// Which screen is active.
#[derive(Clone, Copy, Debug, PartialEq, Eq, Structural)]
pub enum Screen {
    Main,
    Streams,
}

/// Whether the scroll position is pinned to the top or bottom of the
/// active-stream list.
#[derive(Clone, Copy, Debug, PartialEq, Eq, Structural)]
pub enum ScrollAnchor {
    Top,
    Bottom,
}

/// A decoded key press.
#[derive(Clone, Copy, Debug, PartialEq, Eq, Structural)]
pub enum Key {
    Up,
    Down,
    Char(char),
    Esc,
    Other,
}

/// A decoded mouse button press.
#[derive(Clone, Copy, Debug, PartialEq, Eq, Structural)]
pub enum MouseButton {
    WheelUp,
    WheelDown,
    Other,
}

/// One decoded input event.
#[derive(Clone, Copy, Debug, PartialEq, Eq, Structural)]
pub enum Event {
    Key(Key),
    Mouse(MouseButton),
    Other,
}

/// One sampling cadence: its duration in milliseconds and the number of
/// graph columns between vertical time-axis ticks.
#[derive(Clone, Copy, Debug, PartialEq, Eq, Structural)]
pub struct Interval {
    pub duration: u64,
    pub tick_spacing: usize,
}

impl Interval {
    pub fn new(seconds: u64, tick_spacing: usize) -> (r: Interval)
        requires
            seconds <= 300000000,
            tick_spacing >= 1,
        ensures
            r.duration == seconds * 1000,
            r.tick_spacing == tick_spacing,
    {
        Interval { duration: seconds * 1000, tick_spacing }
    }
}

/// One key/label hint in a menu bar.
#[derive(Clone, Debug)]
pub struct MenuItem {
    pub keys: String,
    pub label: String,
}

impl MenuItem {
    pub fn new(keys: &str, label: &str) -> (r: MenuItem)
        ensures
            r.keys@ == keys@,
            r.label@ == label@,
    {
        MenuItem { keys: keys.to_owned(), label: label.to_owned() }
    }
}

/// One stream plus its mutable display state: the sample history for the
/// current interval epoch, and the active/expanded flags.
pub struct StreamWrapper {
    pub stream: Stream,
    pub values: Vec<Option<i64>>,
    pub active: bool,
    pub expanded: bool,
}

impl StreamWrapper {
    /// The stream is well formed and every present sample respects its
    /// declared bounds.
    pub open spec fn wf(self) -> bool {
        &&& self.stream.wf()
        &&& forall|i: int|
            0 <= i < self.values@.len() ==> (#[trigger] self.values@[i] matches Some(v)
                ==> value_ok(v as int) && self.stream.in_bounds(v as int))
    }

    pub fn new(stream: Stream) -> (r: StreamWrapper)
        ensures
            r.stream == stream,
            r.values@ == Seq::<Option<i64>>::empty(),
            r.active,
            !r.expanded,
    {
        StreamWrapper { stream, values: Vec::new(), active: true, expanded: false }
    }

    /// Rows this stream occupies in the layout.
    pub open spec fn spec_height(self) -> int {
        if self.expanded {
            6
        } else {
            1
        }
    }

    /// One collapsed row, or a description line plus five graph rows.
    pub fn height(&self) -> (r: usize)
        ensures
            r == self.spec_height(),
    {
        if self.expanded {
            6
        } else {
            1
        }
    }
}

/// The active members of the first `i` entries, in order.
pub open spec fn active_view(s: Seq<StreamWrapper>, i: int) -> Seq<StreamWrapper>
    decreases i,
{
    if i <= 0 {
        Seq::empty()
    } else if s[i - 1].active {
        active_view(s, i - 1) + seq![s[i - 1]]
    } else {
        active_view(s, i - 1)
    }
}

/// The underlying index of the `n`-th active entry at or after `i`, or the
/// length when there is none.
pub open spec fn nth_active_from(s: Seq<StreamWrapper>, i: int, n: int) -> int
    decreases s.len() - i,
{
    if i < 0 || i >= s.len() {
        s.len() as int
    } else if s[i].active {
        if n == 0 {
            i
        } else {
            nth_active_from(s, i + 1, n - 1)
        }
    } else {
        nth_active_from(s, i + 1, n)
    }
}

/// The underlying index of the `n`-th active entry.
pub open spec fn nth_active_index(s: Seq<StreamWrapper>, n: int) -> int {
    nth_active_from(s, 0, n)
}

/// A shorter active prefix is a prefix of a longer one.
#[verifier::spinoff_prover]
pub proof fn lemma_active_view_take(s: Seq<StreamWrapper>, i: int, j: int)
    requires
        0 <= i <= j,
    ensures
        active_view(s, i) == active_view(s, j).take(active_view(s, i).len() as int),
        active_view(s, i).len() <= active_view(s, j).len(),
    decreases j - i,
{
    if i < j {
        lemma_active_view_take(s, i, j - 1);
        if s[j - 1].active {
            assert(active_view(s, j).take(active_view(s, i).len() as int) =~= active_view(
                s,
                j - 1,
            ).take(active_view(s, i).len() as int));
        }
    } else {
        assert(active_view(s, i).take(active_view(s, i).len() as int) =~= active_view(s, i));
    }
}

/// Replacing an entry without changing its active flag keeps every active
/// prefix the same length, and replaces exactly one element of the view.
#[verifier::spinoff_prover]
pub proof fn lemma_active_view_update(s: Seq<StreamWrapper>, k: int, w: StreamWrapper, i: int)
    requires
        0 <= k < s.len(),
        w.active == s[k].active,
        0 <= i <= s.len(),
    ensures
        active_view(s.update(k, w), i).len() == active_view(s, i).len(),
        i <= k ==> active_view(s.update(k, w), i) == active_view(s, i),
        i > k && s[k].active ==> active_view(s.update(k, w), i) == active_view(s, i).update(
            active_view(s, k).len() as int,
            w,
        ),
        i > k && !s[k].active ==> active_view(s.update(k, w), i) == active_view(s, i),
    decreases i,
{
    let t = s.update(k, w);
    if i <= 0 {
        assert(active_view(t, i) =~= active_view(s, i));
    } else {
        lemma_active_view_update(s, k, w, i - 1);
        if i - 1 == k {
            lemma_active_view_take(s, k, s.len() as int);
            if s[k].active {
                assert(t[i - 1] == w);
                assert(active_view(t, i) =~= active_view(s, i).update(
                    active_view(s, k).len() as int,
                    w,
                ));
            } else {
                assert(active_view(t, i) =~= active_view(s, i));
            }
        } else {
            assert(t[i - 1] == s[i - 1]);
            if i - 1 > k && s[k].active {
                lemma_active_view_take(s, k + 1, i - 1);
                assert(active_view(s, k + 1) == active_view(s, k) + seq![s[k]]);
                assert(active_view(s, k).len() < active_view(s, i - 1).len());
                if s[i - 1].active {
                    assert(active_view(t, i) =~= active_view(s, i).update(
                        active_view(s, k).len() as int,
                        w,
                    ));
                } else {
                    assert(active_view(t, i) =~= active_view(s, i).update(
                        active_view(s, k).len() as int,
                        w,
                    ));
                }
            } else {
                assert(active_view(t, i) =~= active_view(s, i));
            }
        }
    }
}

/// How many entries of the active list, walking forward from `i`, fit
/// whole into `avail` rows; the walk stops at the first that does not fit.
pub open spec fn fit_from(a: Seq<StreamWrapper>, i: int, avail: int) -> nat
    decreases a.len() - i,
{
    if i < 0 || i >= a.len() {
        0
    } else if a[i].spec_height() > avail {
        0
    } else {
        (1 + fit_from(a, i + 1, avail - a[i].spec_height())) as nat
    }
}

/// The same walk backward from `i`.
pub open spec fn fit_back(a: Seq<StreamWrapper>, i: int, avail: int) -> nat
    decreases i + 1,
{
    if i < 0 || i >= a.len() {
        0
    } else if a[i].spec_height() > avail {
        0
    } else {
        (1 + fit_back(a, i - 1, avail - a[i].spec_height())) as nat
    }
}

pub proof fn lemma_fit_from_bound(a: Seq<StreamWrapper>, i: int, avail: int)
    requires
        0 <= i <= a.len(),
    ensures
        fit_from(a, i, avail) <= a.len() - i,
    decreases a.len() - i,
{
    if i < a.len() && a[i].spec_height() <= avail {
        lemma_fit_from_bound(a, i + 1, avail - a[i].spec_height());
    }
}

pub proof fn lemma_fit_back_bound(a: Seq<StreamWrapper>, i: int, avail: int)
    requires
        -1 <= i < a.len(),
    ensures
        fit_back(a, i, avail) <= i + 1,
    decreases i + 1,
{
    if 0 <= i && a[i].spec_height() <= avail {
        lemma_fit_back_bound(a, i - 1, avail - a[i].spec_height());
    }
}

/// The first and last index of the active list that are completely visible:
/// the countable run starts after the anchored entry, which always counts.
pub open spec fn range_of(a: Seq<StreamWrapper>, anchor: ScrollAnchor, scroll: int, height: int) -> (
    int,
    int,
) {
    match anchor {
        ScrollAnchor::Top => {
            let c = fit_from(a, scroll, height - 2);
            let sc: int = if c > 0 {
                c - 1
            } else {
                0
            };
            (scroll, scroll + sc)
        },
        ScrollAnchor::Bottom => {
            let c = fit_back(a, scroll, height - 2);
            let sc: int = if c > 0 {
                c - 1
            } else {
                0
            };
            (scroll - sc, scroll)
        },
    }
}

/// Where the scroll lands after bringing `index` into view: below the range
/// it becomes a top anchor at `index`, above it a bottom anchor, inside it
/// nothing moves.
pub open spec fn scrolled_pos(
    a: Seq<StreamWrapper>,
    anchor: ScrollAnchor,
    scroll: int,
    height: int,
    index: int,
) -> (int, ScrollAnchor) {
    let r = range_of(a, anchor, scroll, height);
    if index < r.0 {
        (index, ScrollAnchor::Top)
    } else if index > r.1 {
        (index, ScrollAnchor::Bottom)
    } else {
        (scroll, anchor)
    }
}

/// The application: every stream with its display state, the screen,
/// selection, scroll, interval and menu state.
pub struct Application {
    pub running: bool,
    pub width: usize,
    pub height: usize,
    pub screen: Screen,
    pub streams: Vec<StreamWrapper>,
    pub selection_index: usize,
    pub scroll_index: usize,
    pub scroll_anchor: ScrollAnchor,
    pub intervals: Vec<Interval>,
    pub interval_index: usize,
    pub main_menu: (Vec<MenuItem>, Vec<MenuItem>),
    pub streams_menu: (Vec<MenuItem>, Vec<MenuItem>),
}

impl Application {
    /// The active streams, in order.
    pub open spec fn spec_active(self) -> Seq<StreamWrapper> {
        active_view(self.streams@, self.streams@.len() as int)
    }

    pub open spec fn active_count(self) -> nat {
        self.spec_active().len()
    }

    pub open spec fn spec_interval(self) -> Interval {
        self.intervals@[self.interval_index as int]
    }

    /// Selection and scroll address an active stream, indices are in range,
    /// every stream is well formed, and the sizes fit a terminal.
    pub open spec fn wf(self) -> bool {
        &&& 1 <= self.width <= 65535
        &&& 1 <= self.height <= 65535
        &&& forall|i: int| 0 <= i < self.streams@.len() ==> (#[trigger] self.streams@[i]).wf()
        &&& self.active_count() >= 1
        &&& (self.selection_index as int) < self.active_count()
        &&& (self.scroll_index as int) < self.active_count()
        &&& 1 <= self.intervals@.len()
        &&& (self.interval_index as int) < self.intervals@.len()
        &&& forall|i: int|
            0 <= i < self.intervals@.len() ==> (#[trigger] self.intervals@[i]).tick_spacing >= 1
                && self.intervals@[i].duration <= 300000000000
        &&& menu_plain(self.main_menu.0@)
        &&& menu_plain(self.main_menu.1@)
        &&& menu_plain(self.streams_menu.0@)
        &&& menu_plain(self.streams_menu.1@)
    }

    /// The visible range of the current state.
    pub open spec fn spec_visible_range(self) -> (int, int) {
        range_of(self.spec_active(), self.scroll_anchor, self.scroll_index as int, self.height as int)
    }

    /// The selected stream's rows are fully contained in the viewport.
    pub open spec fn selection_visible(self) -> bool {
        self.spec_visible_range().0 <= self.selection_index <= self.spec_visible_range().1
    }
}

/// The transition for one key press on the main screen: how `post` and the
/// reported change relate to `pre`.
pub open spec fn key_main_spec(pre: Application, post: Application, key: Key, changed: bool) -> bool {
    match key {
        Key::Up => if pre.selection_index > 0 {
            changed && moved_spec(pre, post, pre.selection_index - 1)
        } else {
            post == pre && !changed
        },
        Key::Down => if pre.selection_index + 1 < pre.active_count() {
            changed && moved_spec(pre, post, pre.selection_index + 1)
        } else {
            post == pre && !changed
        },
        Key::Char(c) => if c == ' ' {
            changed && toggled_spec(pre, post)
        } else if c == 's' {
            changed && post == (Application { screen: Screen::Streams, ..pre })
        } else if c == '+' {
            if pre.interval_index + 1 < pre.intervals@.len() {
                changed && post == (Application {
                    interval_index: (pre.interval_index + 1) as usize,
                    ..pre
                })
            } else {
                post == pre && !changed
            }
        } else if c == '-' {
            if pre.interval_index > 0 {
                changed && post == (Application {
                    interval_index: (pre.interval_index - 1) as usize,
                    ..pre
                })
            } else {
                post == pre && !changed
            }
        } else if c == 'q' {
            changed && post == (Application { running: false, ..pre })
        } else {
            post == pre && !changed
        },
        _ => post == pre && !changed,
    }
}

/// Selection moves to `sel` and the scroll reflows to keep it visible.
pub open spec fn moved_spec(pre: Application, post: Application, sel: int) -> bool {
    let sp = scrolled_pos(
        pre.spec_active(),
        pre.scroll_anchor,
        pre.scroll_index as int,
        pre.height as int,
        sel,
    );
    post == (Application {
        selection_index: sel as usize,
        scroll_index: sp.0 as usize,
        scroll_anchor: sp.1,
        ..pre
    })
}

/// The selected active stream's expanded flag flips, then the scroll
/// reflows against the new heights.
pub open spec fn toggled_spec(pre: Application, post: Application) -> bool {
    let k = nth_active_index(pre.streams@, pre.selection_index as int);
    let w = pre.streams@[k];
    let w2 = StreamWrapper { expanded: !w.expanded, ..w };
    let a2 = pre.spec_active().update(active_view(pre.streams@, k).len() as int, w2);
    let sp = scrolled_pos(
        a2,
        pre.scroll_anchor,
        pre.scroll_index as int,
        pre.height as int,
        pre.selection_index as int,
    );
    &&& post.streams@ == pre.streams@.update(k, w2)
    &&& post.selection_index == pre.selection_index
    &&& post.scroll_index == sp.0
    &&& post.scroll_anchor == sp.1
    &&& post.running == pre.running
    &&& post.width == pre.width
    &&& post.height == pre.height
    &&& post.screen == pre.screen
    &&& post.intervals == pre.intervals
    &&& post.interval_index == pre.interval_index
    &&& post.main_menu == pre.main_menu
    &&& post.streams_menu == pre.streams_menu
}

/// The full transition relation of `handle`: wheel presses alias the arrow
/// keys (inverted, as the existing behavior has it), the stream-manager
/// screen answers only escape, everything else reports no change.
pub open spec fn handle_spec(pre: Application, post: Application, event: Event, changed: bool) -> bool {
    match pre.screen {
        Screen::Main => match event {
            Event::Key(k) => key_main_spec(pre, post, k, changed),
            Event::Mouse(b) => match b {
                MouseButton::WheelUp => key_main_spec(pre, post, Key::Down, changed),
                MouseButton::WheelDown => key_main_spec(pre, post, Key::Up, changed),
                MouseButton::Other => post == pre && !changed,
            },
            Event::Other => post == pre && !changed,
        },
        Screen::Streams => match event {
            Event::Key(k) => match k {
                Key::Esc => changed && post == (Application { screen: Screen::Main, ..pre }),
                _ => post == pre && !changed,
            },
            _ => post == pre && !changed,
        },
    }
}

/// All entries of the first `i` are active.
#[verifier::spinoff_prover]
pub proof fn lemma_active_view_all(s: Seq<StreamWrapper>, i: int)
    requires
        0 <= i <= s.len(),
        forall|j: int| 0 <= j < s.len() ==> (#[trigger] s[j]).active,
    ensures
        active_view(s, i) == s.take(i),
    decreases i,
{
    if i > 0 {
        lemma_active_view_all(s, i - 1);
        assert(active_view(s, i) =~= s.take(i));
    } else {
        assert(active_view(s, i) =~= s.take(i));
    }
}

/// Menu hints are plain text: their printed widths are their lengths.
pub open spec fn menu_plain(v: Seq<MenuItem>) -> bool {
    forall|i: int|
        0 <= i < v.len() ==> crate::text::marker_free((#[trigger] v[i]).keys@)
            && crate::text::marker_free(v[i].label@)
}

/// Two menus read the same.
pub open spec fn menu_like(a: Seq<MenuItem>, b: Seq<MenuItem>) -> bool {
    a.len() == b.len() && forall|i: int|
        0 <= i < a.len() ==> (#[trigger] a[i]).keys@ == b[i].keys@ && a[i].label@ == b[i].label@
}

#[verifier::spinoff_prover]
fn clone_menu(v: &Vec<MenuItem>) -> (r: Vec<MenuItem>)
    ensures
        menu_like(r@, v@),
{
    let mut r: Vec<MenuItem> = Vec::new();
    let mut i: usize = 0;
    while i < v.len()
        invariant
            i <= v@.len(),
            r@.len() == i,
            forall|q: int|
                0 <= q < i ==> (#[trigger] r@[q]).keys@ == v@[q].keys@ && r@[q].label@
                    == v@[q].label@,
        decreases v@.len() - i,
    {
        let item = MenuItem { keys: v[i].keys.clone(), label: v[i].label.clone() };
        r.push(item);
        i = i + 1;
    }
    r
}

impl Application {
    /// Builds the initial state: every stream wrapped, active and collapsed
    /// with an empty history, the default interval catalog with the third
    /// entry selected, and the two menu bars.
    #[verifier::spinoff_prover]
    pub fn new(width: usize, height: usize, streams: Vec<Stream>) -> (r: Application)
        requires
            1 <= width <= 65535,
            1 <= height <= 65535,
            forall|i: int| 0 <= i < streams@.len() ==> (#[trigger] streams@[i]).wf(),
        ensures
            r.running,
            r.width == width,
            r.height == height,
            r.screen == Screen::Main,
            r.streams@.len() == streams@.len(),
            forall|i: int|
                0 <= i < streams@.len() ==> (#[trigger] r.streams@[i]).stream == streams@[i]
                    && r.streams@[i].values@.len() == 0 && r.streams@[i].active
                    && !r.streams@[i].expanded,
            r.selection_index == 0,
            r.scroll_index == 0,
            r.scroll_anchor == ScrollAnchor::Top,
            r.intervals@.len() == 8,
            r.intervals@[0] == (Interval { duration: 1000, tick_spacing: 10 }),
            r.intervals@[1] == (Interval { duration: 2000, tick_spacing: 10 }),
            r.intervals@[2] == (Interval { duration: 3000, tick_spacing: 10 }),
            r.intervals@[3] == (Interval { duration: 5000, tick_spacing: 12 }),
            r.intervals@[4] == (Interval { duration: 10000, tick_spacing: 12 }),
            r.intervals@[5] == (Interval { duration: 30000, tick_spacing: 10 }),
            r.intervals@[6] == (Interval { duration: 60000, tick_spacing: 10 }),
            r.intervals@[7] == (Interval { duration: 300000, tick_spacing: 12 }),
            r.interval_index == 2,
            r.main_menu.0@.len() == 4,
            r.main_menu.0@[0].keys@ == "\u{1F805}\u{1F807}"@,
            r.main_menu.0@[0].label@ == "Select"@,
            r.main_menu.0@[1].keys@ == "Space"@,
            r.main_menu.0@[1].label@ == "Expand"@,
            r.main_menu.0@[2].keys@ == "S"@,
            r.main_menu.0@[2].label@ == "Streams"@,
            r.main_menu.0@[3].keys@ == "+-"@,
            r.main_menu.0@[3].label@ == "Interval"@,
            r.main_menu.1@.len() == 1,
            r.main_menu.1@[0].keys@ == "Q"@,
            r.main_menu.1@[0].label@ == "Quit"@,
            r.streams_menu.0@.len() == 3,
            r.streams_menu.0@[0].keys@ == "\u{1F805}\u{1F807}"@,
            r.streams_menu.0@[0].label@ == "Select"@,
            r.streams_menu.0@[1].keys@ == "Space"@,
            r.streams_menu.0@[1].label@ == "Toggle"@,
            r.streams_menu.0@[2].keys@ == "+-"@,
            r.streams_menu.0@[2].label@ == "Reorder"@,
            r.streams_menu.1@.len() == 1,
            r.streams_menu.1@[0].keys@ == "Esc"@,
            r.streams_menu.1@[0].label@ == "Done"@,
            streams@.len() >= 1 ==> r.wf(),
            r.active_count() == streams@.len(),
    {
        let ghost orig = streams@;
        let mut streams = streams;
        let mut wrapped: Vec<StreamWrapper> = Vec::new();
        while streams.len() > 0
            invariant
                wrapped@.len() + streams@.len() == orig.len(),
                streams@ == orig.skip(wrapped@.len() as int),
                forall|q: int|
                    0 <= q < wrapped@.len() ==> (#[trigger] wrapped@[q]).stream == orig[q]
                        && wrapped@[q].values@.len() == 0 && wrapped@[q].active
                        && !wrapped@[q].expanded,
            decreases streams@.len(),
        {
            let st = streams.remove(0);
            assert(st == orig[wrapped@.len() as int]);
            wrapped.push(StreamWrapper::new(st));
            assert(streams@ =~= orig.skip(wrapped@.len() as int));
        }
        let mut intervals: Vec<Interval> = Vec::new();
        intervals.push(Interval::new(1, 10));
        intervals.push(Interval::new(2, 10));
        intervals.push(Interval::new(3, 10));
        intervals.push(Interval::new(5, 12));
        intervals.push(Interval::new(10, 12));
        intervals.push(Interval::new(30, 10));
        intervals.push(Interval::new(60, 10));
        intervals.push(Interval::new(300, 12));
        let mut main_left: Vec<MenuItem> = Vec::new();
        main_left.push(MenuItem::new("\u{1F805}\u{1F807}", "Select"));
        main_left.push(MenuItem::new("Space", "Expand"));
        main_left.push(MenuItem::new("S", "Streams"));
        main_left.push(MenuItem::new("+-", "Interval"));
        let mut main_right: Vec<MenuItem> = Vec::new();
        main_right.push(MenuItem::new("Q", "Quit"));
        let mut streams_left: Vec<MenuItem> = Vec::new();
        streams_left.push(MenuItem::new("\u{1F805}\u{1F807}", "Select"));
        streams_left.push(MenuItem::new("Space", "Toggle"));
        streams_left.push(MenuItem::new("+-", "Reorder"));
        let mut streams_right: Vec<MenuItem> = Vec::new();
        streams_right.push(MenuItem::new("Esc", "Done"));
        let r = Application {
            running: true,
            width,
            height,
            screen: Screen::Main,
            streams: wrapped,
            selection_index: 0,
            scroll_index: 0,
            scroll_anchor: ScrollAnchor::Top,
            intervals,
            interval_index: 2,
            main_menu: (main_left, main_right),
            streams_menu: (streams_left, streams_right),
        };
        proof {
            lemma_active_view_all(r.streams@, r.streams@.len() as int);
            assert(r.streams@.take(r.streams@.len() as int) =~= r.streams@);
            reveal_strlit("\u{1F805}\u{1F807}");
            reveal_strlit("Select");
            reveal_strlit("Space");
            reveal_strlit("Expand");
            reveal_strlit("S");
            reveal_strlit("Streams");
            reveal_strlit("+-");
            reveal_strlit("Interval");
            reveal_strlit("Q");
            reveal_strlit("Quit");
            reveal_strlit("Toggle");
            reveal_strlit("Reorder");
            reveal_strlit("Esc");
            reveal_strlit("Done");
            assert(menu_plain(r.main_menu.0@));
            assert(menu_plain(r.main_menu.1@));
            assert(menu_plain(r.streams_menu.0@));
            assert(menu_plain(r.streams_menu.1@));
        }
        r
    }

    /// The currently selected sampling cadence.
    pub fn interval(&self) -> (r: Interval)
        requires
            self.wf(),
        ensures
            r == self.spec_interval(),
    {
        self.intervals[self.interval_index]
    }

    /// The menu of the current screen: left-aligned and right-aligned items.
    pub fn menu(&self) -> (r: (Vec<MenuItem>, Vec<MenuItem>))
        ensures
            self.screen == Screen::Main ==> menu_like(r.0@, self.main_menu.0@) && menu_like(
                r.1@,
                self.main_menu.1@,
            ),
            self.screen == Screen::Streams ==> menu_like(r.0@, self.streams_menu.0@) && menu_like(
                r.1@,
                self.streams_menu.1@,
            ),
    {
        match self.screen {
            Screen::Main => (clone_menu(&self.main_menu.0), clone_menu(&self.main_menu.1)),
            Screen::Streams => (clone_menu(&self.streams_menu.0), clone_menu(&self.streams_menu.1)),
        }
    }

    /// The active streams, in order.
    #[verifier::spinoff_prover]
    pub fn active_streams(&self) -> (r: Vec<&StreamWrapper>)
        ensures
            r@.len() == self.active_count(),
            forall|q: int| 0 <= q < r@.len() ==> *(#[trigger] r@[q]) == self.spec_active()[q],
    {
        let ghost s = self.streams@;
        let mut r: Vec<&StreamWrapper> = Vec::new();
        let mut j: usize = 0;
        while j < self.streams.len()
            invariant
                s == self.streams@,
                j <= s.len(),
                r@.len() == active_view(s, j as int).len(),
                forall|q: int| 0 <= q < r@.len() ==> *(#[trigger] r@[q]) == active_view(s, j as int)[q],
            decreases s.len() - j,
        {
            let ghost prev = active_view(s, j as int);
            if self.streams[j].active {
                r.push(&self.streams[j]);
            }
            j = j + 1;
            proof {
                if s[j - 1].active {
                    assert(active_view(s, j as int) =~= prev + seq![s[j - 1]]);
                }
            }
        }
        r
    }

    /// The underlying index of the `n`-th active stream.
    #[verifier::spinoff_prover]
    fn active_index(&self, n: usize) -> (r: usize)
        requires
            (n as int) < self.active_count(),
        ensures
            r < self.streams@.len(),
            self.streams@[r as int].active,
            r as int == nth_active_index(self.streams@, n as int),
            active_view(self.streams@, r as int).len() == n,
    {
        let ghost s = self.streams@;
        let mut j: usize = 0;
        let mut c: usize = 0;
        while j < self.streams.len()
            invariant
                s == self.streams@,
                j <= s.len(),
                c == active_view(s, j as int).len(),
                c <= n,
                (n as int) < active_view(s, s.len() as int).len(),
                nth_active_index(s, n as int) == nth_active_from(s, j as int, n - c),
            decreases s.len() - j,
        {
            if self.streams[j].active {
                if c == n {
                    return j;
                }
                c = c + 1;
            }
            j = j + 1;
        }
        proof {
            lemma_active_view_take(s, j as int, s.len() as int);
            assert(false);
        }
        0
    }

    /// Reflows the scroll so that the stream at `index` of the active list
    /// is fully visible, moving the anchor only when it lies outside the
    /// currently visible range.
    #[verifier::spinoff_prover]
    fn scroll_to_stream(&mut self, index: usize)
        requires
            old(self).wf(),
            old(self).height >= 2,
            (index as int) < old(self).active_count(),
        ensures
            final(self).wf(),
            ({
                let sp = scrolled_pos(
                    old(self).spec_active(),
                    old(self).scroll_anchor,
                    old(self).scroll_index as int,
                    old(self).height as int,
                    index as int,
                );
                *final(self) == (Application {
                    scroll_index: sp.0 as usize,
                    scroll_anchor: sp.1,
                    ..*old(self)
                })
            }),
    {
        let ghost a = self.spec_active();
        let act = self.active_streams();
        let avail0 = self.height - 2;
        let mut stream_count: usize = 0;
        let mut available_height = avail0;
        match self.scroll_anchor {
            ScrollAnchor::Top => {
                let mut i = self.scroll_index;
                while i < act.len() && act[i].height() <= available_height
                    invariant
                        act@.len() == a.len(),
                        forall|q: int| 0 <= q < a.len() ==> *(#[trigger] act@[q]) == a[q],
                        self.scroll_index <= i <= act@.len(),
                        stream_count == i - self.scroll_index,
                        fit_from(a, self.scroll_index as int, avail0 as int) == stream_count
                            + fit_from(a, i as int, available_height as int),
                    decreases act@.len() - i,
                {
                    let h = act[i].height();
                    proof {
                        assert(a[i as int].spec_height() == h);
                    }
                    stream_count = stream_count + 1;
                    available_height = available_height - h;
                    i = i + 1;
                }
                proof {
                    if i < act@.len() {
                        assert(fit_from(a, i as int, available_height as int) == 0);
                    }
                    assert(fit_from(a, self.scroll_index as int, avail0 as int) == stream_count);
                }
            },
            ScrollAnchor::Bottom => {
                let n = act.len();
                let mut j: usize = 0;
                while j <= self.scroll_index && act[self.scroll_index - j].height()
                    <= available_height
                    invariant
                        act@.len() == a.len(),
                        n == a.len(),
                        forall|q: int| 0 <= q < a.len() ==> *(#[trigger] act@[q]) == a[q],
                        self.scroll_index < n,
                        (self.scroll_index as int) < a.len(),
                        j <= self.scroll_index + 1,
                        stream_count == j,
                        fit_back(a, self.scroll_index as int, avail0 as int) == stream_count
                            + fit_back(
                            a,
                            self.scroll_index as int - j as int,
                            available_height as int,
                        ),
                    decreases self.scroll_index + 1 - j,
                {
                    let h = act[self.scroll_index - j].height();
                    proof {
                        assert(a[self.scroll_index as int - j as int].spec_height() == h);
                    }
                    stream_count = stream_count + 1;
                    available_height = available_height - h;
                    j = j + 1;
                }
                proof {
                    if j <= self.scroll_index {
                        assert(fit_back(
                            a,
                            self.scroll_index as int - j as int,
                            available_height as int,
                        ) == 0);
                    }
                    assert(fit_back(a, self.scroll_index as int, avail0 as int) == stream_count);
                }
            },
        }
        proof {
            lemma_fit_from_bound(a, self.scroll_index as int, avail0 as int);
            lemma_fit_back_bound(a, self.scroll_index as int, avail0 as int);
        }
        if stream_count > 0 {
            stream_count = stream_count - 1;
        }
        let top_index: usize;
        let bottom_index: usize;
        match self.scroll_anchor {
            ScrollAnchor::Top => {
                top_index = self.scroll_index;
                bottom_index = self.scroll_index + stream_count;
            },
            ScrollAnchor::Bottom => {
                top_index = self.scroll_index - stream_count;
                bottom_index = self.scroll_index;
            },
        }
        proof {
            let r = range_of(a, self.scroll_anchor, self.scroll_index as int, self.height as int);
            assert(r.0 == top_index as int && r.1 == bottom_index as int);
        }
        if index < top_index {
            self.scroll_index = index;
            self.scroll_anchor = ScrollAnchor::Top;
        } else if index > bottom_index {
            self.scroll_index = index;
            self.scroll_anchor = ScrollAnchor::Bottom;
        }
    }

    /// Interprets one key press on the main screen, reporting whether the
    /// state changed in an observable way.
    #[verifier::spinoff_prover]
    fn handle_key(&mut self, key: Key) -> (r: bool)
        requires
            old(self).wf(),
            old(self).height >= 2,
            old(self).screen == Screen::Main,
        ensures
            final(self).wf(),
            key_main_spec(*old(self), *final(self), key, r),
    {
        match key {
            Key::Up => {
                if self.selection_index > 0 {
                    self.selection_index = self.selection_index - 1;
                    let sel = self.selection_index;
                    self.scroll_to_stream(sel);
                    true
                } else {
                    false
                }
            },
            Key::Down => {
                let n = self.active_streams().len();
                if self.selection_index < n - 1 {
                    self.selection_index = self.selection_index + 1;
                    let sel = self.selection_index;
                    self.scroll_to_stream(sel);
                    true
                } else {
                    false
                }
            },
            Key::Char(c) => {
                if c == ' ' {
                    let ghost pre = *self;
                    let k = self.active_index(self.selection_index);
                    let ghost w = self.streams@[k as int];
                    let entry = vstd::std_specs::vec::vec_index_mut(&mut self.streams, k);
                    entry.expanded = !entry.expanded;
                    proof {
                        let w2 = StreamWrapper { expanded: !w.expanded, ..w };
                        assert(self.streams@ == pre.streams@.update(k as int, w2));
                        lemma_active_view_update(
                            pre.streams@,
                            k as int,
                            w2,
                            pre.streams@.len() as int,
                        );
                    }
                    let sel = self.selection_index;
                    self.scroll_to_stream(sel);
                    true
                } else if c == 's' {
                    self.screen = Screen::Streams;
                    true
                } else if c == '+' {
                    if self.interval_index < self.intervals.len() - 1 {
                        self.interval_index = self.interval_index + 1;
                        true
                    } else {
                        false
                    }
                } else if c == '-' {
                    if self.interval_index > 0 {
                        self.interval_index = self.interval_index - 1;
                        true
                    } else {
                        false
                    }
                } else if c == 'q' {
                    self.running = false;
                    true
                } else {
                    false
                }
            },
            Key::Esc => false,
            Key::Other => false,
        }
    }

    /// Interprets one decoded input event, reporting whether it produced an
    /// observable change; an unrecognized or inapplicable event reports
    /// none, which the caller turns into an alert.
    pub fn handle(&mut self, event: &Event) -> (r: bool)
        requires
            old(self).wf(),
            old(self).height >= 2,
        ensures
            final(self).wf(),
            handle_spec(*old(self), *final(self), *event, r),
    {
        match self.screen {
            Screen::Main => match event {
                Event::Key(k) => self.handle_key(*k),
                Event::Mouse(b) => match b {
                    MouseButton::WheelUp => self.handle_key(Key::Down),
                    MouseButton::WheelDown => self.handle_key(Key::Up),
                    MouseButton::Other => false,
                },
                Event::Other => false,
            },
            Screen::Streams => match event {
                Event::Key(k) => match k {
                    Key::Esc => {
                        self.screen = Screen::Main;
                        true
                    },
                    _ => false,
                },
                _ => false,
            },
        }
    }

    /// Stores the new terminal size; nothing else changes, in particular
    /// no history is touched.
    pub fn resize(&mut self, width: usize, height: usize)
        requires
            1 <= width <= 65535,
            1 <= height <= 65535,
        ensures
            *final(self) == (Application { width, height, ..*old(self) }),
            old(self).wf() ==> final(self).wf(),
    {
        self.width = width;
        self.height = height;
    }
}

/// An active prefix is never longer than the prefix itself.
pub proof fn lemma_active_view_le(s: Seq<StreamWrapper>, i: int)
    requires
        0 <= i,
    ensures
        active_view(s, i).len() <= i,
    decreases i,
{
    if i > 0 {
        lemma_active_view_le(s, i - 1);
    }
}

/// Every member of an active prefix is one of the underlying entries.
#[verifier::spinoff_prover]
pub proof fn lemma_active_view_member(s: Seq<StreamWrapper>, i: int)
    requires
        0 <= i <= s.len(),
    ensures
        forall|j: int|
            0 <= j < active_view(s, i).len() ==> exists|k: int|
                0 <= k < i && #[trigger] active_view(s, i)[j] == s[k],
    decreases i,
{
    if i > 0 {
        lemma_active_view_member(s, i - 1);
        assert forall|j: int| 0 <= j < active_view(s, i).len() implies exists|k: int|
            0 <= k < i && #[trigger] active_view(s, i)[j] == s[k] by {
            if j < active_view(s, i - 1).len() {
                let kw = choose|k: int| 0 <= k < i - 1 && active_view(s, i - 1)[j] == s[k];
                assert(active_view(s, i)[j] == s[kw]);
            } else {
                assert(active_view(s, i)[j] == s[i - 1]);
            }
        }
    }
}

/// Entry-wise equal active flags give equally long active prefixes.
pub proof fn lemma_active_view_len_eq(s: Seq<StreamWrapper>, t: Seq<StreamWrapper>, i: int)
    requires
        s.len() == t.len(),
        forall|j: int| 0 <= j < s.len() ==> (#[trigger] s[j]).active == t[j].active,
        0 <= i <= s.len(),
    ensures
        active_view(t, i).len() == active_view(s, i).len(),
    decreases i,
{
    if i > 0 {
        lemma_active_view_len_eq(s, t, i - 1);
    }
}

/// The `n`-th active entry exists, is active, and has exactly `n` active
/// entries before it.
#[verifier::spinoff_prover]
pub proof fn lemma_nth_active_from(s: Seq<StreamWrapper>, i: int, n: int)
    requires
        0 <= i <= s.len(),
        0 <= n,
        active_view(s, i).len() + n < active_view(s, s.len() as int).len(),
    ensures
        ({
            let k = nth_active_from(s, i, n);
            &&& i <= k < s.len()
            &&& s[k].active
            &&& active_view(s, k).len() == active_view(s, i).len() + n
        }),
    decreases s.len() - i,
{
    lemma_active_view_take(s, i, s.len() as int);
    if i < s.len() {
        if s[i].active {
            if n == 0 {
            } else {
                lemma_nth_active_from(s, i + 1, n - 1);
            }
        } else {
            lemma_nth_active_from(s, i + 1, n);
        }
    }
}

/// A sample an active stream may receive: absent, or present within the
/// representable range and the stream's declared bounds.
pub open spec fn sample_conforms(w: StreamWrapper, s: Option<i64>) -> bool {
    s matches Some(v) ==> (w.active ==> value_ok(v as int) && w.stream.in_bounds(v as int))
}

/// How one resampling pass changes the state: each active stream's history
/// grows by its sample, inactive streams and all other state stay as they
/// were.
pub open spec fn update_rel(pre: Application, samples: Seq<Option<i64>>, post: Application) -> bool {
    &&& post.streams@.len() == pre.streams@.len()
    &&& forall|i: int|
        #![trigger pre.streams@[i]]
        #![trigger post.streams@[i]]
        0 <= i < pre.streams@.len() ==> {
            let w = pre.streams@[i];
            let w2 = post.streams@[i];
            if w.active {
                w2.stream == w.stream && w2.active == w.active && w2.expanded == w.expanded
                    && w2.values@ == w.values@.push(samples[i])
            } else {
                w2 == w
            }
        }
    &&& post.running == pre.running
    &&& post.width == pre.width
    &&& post.height == pre.height
    &&& post.screen == pre.screen
    &&& post.selection_index == pre.selection_index
    &&& post.scroll_index == pre.scroll_index
    &&& post.scroll_anchor == pre.scroll_anchor
    &&& post.intervals == pre.intervals
    &&& post.interval_index == pre.interval_index
    &&& post.main_menu == pre.main_menu
    &&& post.streams_menu == pre.streams_menu
}

/// How a history reset changes the state: every stream's history becomes
/// empty, everything else stays as it was.
pub open spec fn reset_rel(pre: Application, post: Application) -> bool {
    &&& post.streams@.len() == pre.streams@.len()
    &&& forall|i: int|
        #![trigger pre.streams@[i]]
        #![trigger post.streams@[i]]
        0 <= i < pre.streams@.len() ==> {
            let w = pre.streams@[i];
            let w2 = post.streams@[i];
            w2.stream == w.stream && w2.active == w.active && w2.expanded == w.expanded
                && w2.values@.len() == 0
        }
    &&& post.running == pre.running
    &&& post.width == pre.width
    &&& post.height == pre.height
    &&& post.screen == pre.screen
    &&& post.selection_index == pre.selection_index
    &&& post.scroll_index == pre.scroll_index
    &&& post.scroll_anchor == pre.scroll_anchor
    &&& post.intervals == pre.intervals
    &&& post.interval_index == pre.interval_index
    &&& post.main_menu == pre.main_menu
    &&& post.streams_menu == pre.streams_menu
}

impl Application {
    /// Appends one sample to every active stream's history,
    /// unconditionally, once per interval tick. The caller has already
    /// checked each present sample against the stream's declared bounds: a
    /// violation is a broken provider and stops the process before the call.
    #[verifier::spinoff_prover]
    pub fn update_streams(&mut self, samples: &Vec<Option<i64>>)
        requires
            old(self).wf(),
            samples@.len() == old(self).streams@.len(),
            forall|i: int|
                0 <= i < samples@.len() ==> sample_conforms(
                    old(self).streams@[i],
                    #[trigger] samples@[i],
                ),
        ensures
            final(self).wf(),
            update_rel(*old(self), samples@, *final(self)),
    {
        let ghost pre = *self;
        let mut i: usize = 0;
        while i < self.streams.len()
            invariant
                self.streams@.len() == pre.streams@.len(),
                samples@.len() == pre.streams@.len(),
                i <= pre.streams@.len(),
                forall|q: int|
                    0 <= q < i ==> {
                        let w = #[trigger] pre.streams@[q];
                        let w2 = self.streams@[q];
                        if w.active {
                            w2.stream == w.stream && w2.active == w.active && w2.expanded
                                == w.expanded && w2.values@ == w.values@.push(samples@[q])
                        } else {
                            w2 == w
                        }
                    },
                forall|q: int| i <= q < pre.streams@.len() ==> self.streams@[q] == pre.streams@[q],
                self.running == pre.running,
                self.width == pre.width,
                self.height == pre.height,
                self.screen == pre.screen,
                self.selection_index == pre.selection_index,
                self.scroll_index == pre.scroll_index,
                self.scroll_anchor == pre.scroll_anchor,
                self.intervals == pre.intervals,
                self.interval_index == pre.interval_index,
                self.main_menu == pre.main_menu,
                self.streams_menu == pre.streams_menu,
            decreases pre.streams@.len() - i,
        {
            if self.streams[i].active {
                let sample = samples[i];
                let entry = vstd::std_specs::vec::vec_index_mut(&mut self.streams, i);
                entry.values.push(sample);
            }
            i = i + 1;
        }
        proof {
            lemma_active_view_len_eq(
                pre.streams@,
                self.streams@,
                pre.streams@.len() as int,
            );
            assert forall|q: int| 0 <= q < self.streams@.len() implies (
            #[trigger] self.streams@[q]).wf() by {
                let w = pre.streams@[q];
                if w.active {
                    assert(self.streams@[q].values@ == w.values@.push(samples@[q]));
                    assert forall|z: int|
                        0 <= z < self.streams@[q].values@.len() implies (
                    #[trigger] self.streams@[q].values@[z] matches Some(v) ==> value_ok(v as int)
                        && self.streams@[q].stream.in_bounds(v as int)) by {
                        if z < w.values@.len() {
                            assert(self.streams@[q].values@[z] == w.values@[z]);
                        } else {
                            assert(self.streams@[q].values@[z] == samples@[q]);
                        }
                    }
                }
            }
        }
    }

    /// Clears every stream's history: the old samples are not comparable at
    /// a new cadence.
    #[verifier::spinoff_prover]
    pub fn reset_streams(&mut self)
        requires
            old(self).wf(),
        ensures
            final(self).wf(),
            reset_rel(*old(self), *final(self)),
    {
        let ghost pre = *self;
        let mut i: usize = 0;
        while i < self.streams.len()
            invariant
                self.streams@.len() == pre.streams@.len(),
                i <= pre.streams@.len(),
                forall|q: int|
                    0 <= q < i ==> {
                        let w = #[trigger] pre.streams@[q];
                        let w2 = self.streams@[q];
                        w2.stream == w.stream && w2.active == w.active && w2.expanded == w.expanded
                            && w2.values@.len() == 0
                    },
                forall|q: int| i <= q < pre.streams@.len() ==> self.streams@[q] == pre.streams@[q],
                self.running == pre.running,
                self.width == pre.width,
                self.height == pre.height,
                self.screen == pre.screen,
                self.selection_index == pre.selection_index,
                self.scroll_index == pre.scroll_index,
                self.scroll_anchor == pre.scroll_anchor,
                self.intervals == pre.intervals,
                self.interval_index == pre.interval_index,
                self.main_menu == pre.main_menu,
                self.streams_menu == pre.streams_menu,
            decreases pre.streams@.len() - i,
        {
            let entry = vstd::std_specs::vec::vec_index_mut(&mut self.streams, i);
            entry.values.clear();
            i = i + 1;
        }
        proof {
            lemma_active_view_len_eq(
                pre.streams@,
                self.streams@,
                pre.streams@.len() as int,
            );
            assert forall|q: int| 0 <= q < self.streams@.len() implies (
            #[trigger] self.streams@[q]).wf() by {
                assert(pre.streams@[q].wf());
                assert(self.streams@[q].stream == pre.streams@[q].stream);
                assert(self.streams@[q].values@.len() == 0);
            }
        }
    }
}

/// After any Up, Down or expand-toggle transition that reports a change,
/// the selected stream lies inside the visible range that the anchor
/// algorithm computes for the new state. A resize deliberately reflows
/// nothing — it stores the new size only — so after a shrinking resize the
/// invariant resumes with the next navigation step.
#[verifier::spinoff_prover]
pub proof fn lemma_selection_visible_after_navigation(
    pre: Application,
    post: Application,
    key: Key,
    changed: bool,
)
    requires
        pre.wf(),
        key_main_spec(pre, post, key, changed),
        changed,
        key == Key::Up || key == Key::Down || key == (Key::Char(' ')),
    ensures
        post.selection_visible(),
{
    lemma_active_view_le(pre.streams@, pre.streams@.len() as int);
    assert(pre.streams.len() == pre.streams@.len());
    if key == Key::Up || key == Key::Down {
        let sel: int = if key == Key::Up {
            pre.selection_index - 1
        } else {
            pre.selection_index + 1
        };
        assert(0 <= sel <= usize::MAX);
        let a = pre.spec_active();
        let sp = scrolled_pos(a, pre.scroll_anchor, pre.scroll_index as int, pre.height as int, sel);
        assert(post.spec_active() == a);
        let r = range_of(a, pre.scroll_anchor, pre.scroll_index as int, pre.height as int);
        if sel < r.0 {
            assert(post.spec_visible_range().0 == sel);
        } else if sel > r.1 {
            assert(post.spec_visible_range().1 == sel);
        } else {
            assert(post.spec_visible_range() == r);
        }
    } else {
        let k = nth_active_index(pre.streams@, pre.selection_index as int);
        let w = pre.streams@[k];
        let w2 = StreamWrapper { expanded: !w.expanded, ..w };
        lemma_nth_active_from(pre.streams@, 0, pre.selection_index as int);
        lemma_active_view_update(pre.streams@, k, w2, pre.streams@.len() as int);
        let a2 = pre.spec_active().update(active_view(pre.streams@, k).len() as int, w2);
        assert(post.spec_active() == a2);
        let sel = pre.selection_index as int;
        let r = range_of(a2, pre.scroll_anchor, pre.scroll_index as int, pre.height as int);
        if sel < r.0 {
            assert(post.spec_visible_range().0 == sel);
        } else if sel > r.1 {
            assert(post.spec_visible_range().1 == sel);
        } else {
            assert(post.spec_visible_range() == r);
        }
    }
}

/// No input transition touches any stream's sample history: histories
/// change only through an explicit resample or an explicit reset.
#[verifier::spinoff_prover]
pub proof fn lemma_handle_keeps_history(
    pre: Application,
    post: Application,
    event: Event,
    changed: bool,
)
    requires
        pre.wf(),
        handle_spec(pre, post, event, changed),
    ensures
        post.streams@.len() == pre.streams@.len(),
        forall|i: int|
            0 <= i < pre.streams@.len() ==> (#[trigger] post.streams@[i]).values
                == pre.streams@[i].values,
{
    match pre.screen {
        Screen::Main => {
            let key: Key = match event {
                Event::Key(k) => k,
                Event::Mouse(MouseButton::WheelUp) => Key::Down,
                Event::Mouse(MouseButton::WheelDown) => Key::Up,
                _ => Key::Other,
            };
            if key == (Key::Char(' ')) && changed {
                let k = nth_active_index(pre.streams@, pre.selection_index as int);
                lemma_nth_active_from(pre.streams@, 0, pre.selection_index as int);
                let w2 = StreamWrapper { expanded: !pre.streams@[k].expanded, ..pre.streams@[k] };
                assert(post.streams@ == pre.streams@.update(k, w2));
            }
        },
        Screen::Streams => {},
    }
}

/// Changing the sampling interval invalidates all history: after the reset
/// every stream's history is empty, and after the immediate resample every
/// active stream's history holds exactly the one fresh sample.
#[verifier::spinoff_prover]
pub proof fn lemma_interval_change_resample(
    s0: Application,
    s1: Application,
    s2: Application,
    samples: Seq<Option<i64>>,
)
    requires
        reset_rel(s0, s1),
        update_rel(s1, samples, s2),
    ensures
        forall|i: int|
            0 <= i < s1.streams@.len() ==> (#[trigger] s1.streams@[i]).values@.len() == 0,
        forall|i: int|
            0 <= i < s2.streams@.len() ==> ((#[trigger] s2.streams@[i]).active
                ==> s2.streams@[i].values@ == seq![samples[i]]),
        forall|i: int|
            0 <= i < s2.streams@.len() ==> (!(#[trigger] s2.streams@[i]).active
                ==> s2.streams@[i].values@.len() == 0),
{
    assert forall|i: int| 0 <= i < s1.streams@.len() implies (
    #[trigger] s1.streams@[i]).values@.len() == 0 by {
        assert(s0.streams@[i].active == s0.streams@[i].active);
    }
    assert forall|i: int| 0 <= i < s2.streams@.len() implies ((#[trigger] s2.streams@[i]).active
        ==> s2.streams@[i].values@ == seq![samples[i]]) by {
        assert(s1.streams@[i].active == s1.streams@[i].active);
        assert(s0.streams@[i].active == s0.streams@[i].active);
        if s1.streams@[i].active {
            assert(s2.streams@[i].values@ == s1.streams@[i].values@.push(samples[i]));
            assert(s1.streams@[i].values@.push(samples[i]) =~= seq![samples[i]]);
        } else {
            assert(s2.streams@[i] == s1.streams@[i]);
        }
    }
    assert forall|i: int| 0 <= i < s2.streams@.len() implies (!(
    #[trigger] s2.streams@[i]).active ==> s2.streams@[i].values@.len() == 0) by {
        assert(s1.streams@[i].active == s1.streams@[i].active);
        assert(s0.streams@[i].active == s0.streams@[i].active);
    }
}

} // verus!
