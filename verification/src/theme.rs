//! The color theme, held as ready-made ANSI style markers. Each color knows
//! its foreground and background marker; the palette itself is configuration
//! built outside and validated here.

use vstd::prelude::*;

use crate::text::{is_style_only, style_only};

verus! {

/// One palette color: its foreground and background style markers.
pub struct Color {
    pub fg: String,
    pub bg: String,
}

impl Color {
    /// Both markers are pure styling: complete, and zero columns wide.
    pub open spec fn wf(self) -> bool {
        style_only(self.fg@) && style_only(self.bg@)
    }

    pub fn check(&self) -> (r: bool)
        ensures
            r == self.wf(),
    {
        is_style_only(self.fg.as_str()) && is_style_only(self.bg.as_str())
    }
}

/// The colors every rendered element draws with.
pub struct Theme {
    /// Background color of the main screen's top bar
    pub top_bar_color: Color,
    /// Color of numbers in the top bar's interval tick labels
    pub top_bar_number_color: Color,
    /// Color of units in the top bar's interval tick labels
    pub top_bar_unit_color: Color,
    /// Color of vertical lines intersecting the graphs
    pub tick_color: Color,
    /// Background color of even-numbered streams (count starts at zero)
    pub stream_even_background_color: Color,
    /// Background color of odd-numbered streams (count starts at zero)
    pub stream_odd_background_color: Color,
    /// Background color of the selected stream
    pub stream_selected_background_color: Color,
    /// Color of stream names in unselected streams
    pub stream_name_color: Color,
    /// Foreground color of the selected stream's name
    pub stream_name_selected_text_color: Color,
    /// Background color of the selected stream's name
    pub stream_name_selected_background_color: Color,
    /// Color of stream descriptions
    pub stream_description_color: Color,
    /// Color of numbers in stream values
    pub stream_number_color: Color,
    /// Color of units in stream values
    pub stream_unit_color: Color,
    /// Colors of stream graphs, to be repeated cyclically.
    /// The first element in each pair is the regular color,
    /// the second the color for tick intersections.
    pub stream_graph_colors: Vec<(Color, Color)>,
    /// Background color of the bottom bar
    pub bottom_bar_color: Color,
    /// Foreground color of key labels in the bottom bar's menu items
    pub bottom_bar_key_text_color: Color,
    /// Background color of key labels in the bottom bar's menu items
    pub bottom_bar_key_background_color: Color,
    /// Color of labels in the bottom bar's menu items
    pub bottom_bar_label_color: Color,
    /// Color of numbers in the bottom bar's interval label
    pub bottom_bar_number_color: Color,
    /// Color of units in the bottom bar's interval label
    pub bottom_bar_unit_color: Color,
}

impl Theme {
    /// Every marker is pure styling and at least one graph color exists.
    pub open spec fn wf(self) -> bool {
        &&& self.top_bar_color.wf()
        &&& self.top_bar_number_color.wf()
        &&& self.top_bar_unit_color.wf()
        &&& self.tick_color.wf()
        &&& self.stream_even_background_color.wf()
        &&& self.stream_odd_background_color.wf()
        &&& self.stream_selected_background_color.wf()
        &&& self.stream_name_color.wf()
        &&& self.stream_name_selected_text_color.wf()
        &&& self.stream_name_selected_background_color.wf()
        &&& self.stream_description_color.wf()
        &&& self.stream_number_color.wf()
        &&& self.stream_unit_color.wf()
        &&& self.stream_graph_colors@.len() >= 1
        &&& forall|i: int|
            0 <= i < self.stream_graph_colors@.len() ==> (
            #[trigger] self.stream_graph_colors@[i].0.wf() && self.stream_graph_colors@[i].1.wf())
        &&& self.bottom_bar_color.wf()
        &&& self.bottom_bar_key_text_color.wf()
        &&& self.bottom_bar_key_background_color.wf()
        &&& self.bottom_bar_label_color.wf()
        &&& self.bottom_bar_number_color.wf()
        &&& self.bottom_bar_unit_color.wf()
    }

    /// Runtime validation of `wf`, for callers that assemble a palette from
    /// configuration.
    #[verifier::spinoff_prover]
    pub fn check(&self) -> (r: bool)
        ensures
            r == self.wf(),
    {
        let mut i: usize = 0;
        let mut all = true;
        while i < self.stream_graph_colors.len()
            invariant
                i <= self.stream_graph_colors@.len(),
                all ==> forall|q: int|
                    0 <= q < i ==> (#[trigger] self.stream_graph_colors@[q].0.wf()
                        && self.stream_graph_colors@[q].1.wf()),
                !all ==> !self.wf(),
            decreases self.stream_graph_colors@.len() - i,
        {
            let pair = &self.stream_graph_colors[i];
            assert(*pair == self.stream_graph_colors@[i as int]);
            let ok = pair.0.check() && pair.1.check();
            proof {
                if ok {
                    assert(self.stream_graph_colors@[i as int].0.wf()
                        && self.stream_graph_colors@[i as int].1.wf());
                } else {
                    assert(!(self.stream_graph_colors@[i as int].0.wf()
                        && self.stream_graph_colors@[i as int].1.wf()));
                }
            }
            let ghost old_all = all;
            let ghost old_i = i as int;
            all = all && ok;
            i = i + 1;
            proof {
                if all {
                    assert forall|q: int| 0 <= q < i implies (
                    #[trigger] self.stream_graph_colors@[q].0.wf()
                        && self.stream_graph_colors@[q].1.wf()) by {
                        if q < old_i {
                            assert(self.stream_graph_colors@[q].0.wf()
                                && self.stream_graph_colors@[q].1.wf());
                        } else {
                            assert(q == old_i);
                        }
                    }
                }
            }
        }
        if !all {
            return false;
        }
        if self.stream_graph_colors.len() == 0 {
            return false;
        }
        self.top_bar_color.check() && self.top_bar_number_color.check()
            && self.top_bar_unit_color.check() && self.tick_color.check()
            && self.stream_even_background_color.check()
            && self.stream_odd_background_color.check()
            && self.stream_selected_background_color.check() && self.stream_name_color.check()
            && self.stream_name_selected_text_color.check()
            && self.stream_name_selected_background_color.check()
            && self.stream_description_color.check() && self.stream_number_color.check()
            && self.stream_unit_color.check() && self.bottom_bar_color.check()
            && self.bottom_bar_key_text_color.check()
            && self.bottom_bar_key_background_color.check() && self.bottom_bar_label_color.check()
            && self.bottom_bar_number_color.check() && self.bottom_bar_unit_color.check()
    }
}

} // verus!
