//! Application core: the view, where the profile came from, and the small
//! pieces of UI state whose rules are worth checking (transient messages,
//! the search-input mode, the manual-pattern rule that a failed compile
//! changes nothing).
use vstd::prelude::*;

use crate::flame::{display_short_name, FlameGraph, ROOT_ID};
use crate::pattern::{effective_pattern, regex_valid, SearchPattern};
use crate::state::{FlameGraphState, ViewKind};
use crate::view::{view_wf, FlameGraphView};

verus! {

/// Where the displayed profile comes from.
pub enum FlameGraphInput {
    File(String),
    Pid(u64, Option<String>),
}

/// The application: one view plus session flags.
pub struct App {
    /// The main loop keeps going while this is set.
    pub running: bool,
    pub flamegraph_view: FlameGraphView,
    pub flamegraph_input: FlameGraphInput,
    /// Whether the search input line is being edited; the edit buffer
    /// itself lives with the terminal front end.
    pub input_active: bool,
    pub transient_message: Option<String>,
    pub debug: bool,
}

pub open spec fn app_wf(a: App) -> bool {
    view_wf(a.flamegraph_view)
}

impl App {
    pub fn with_flamegraph(filename: &str, flamegraph: FlameGraph) -> (r: App)
        requires
            flamegraph.well_formed(),
        ensures
            app_wf(r),
            r.running,
            r.flamegraph_view.flamegraph == flamegraph,
            r.flamegraph_view.state.selected == ROOT_ID,
            r.flamegraph_input matches FlameGraphInput::File(f) && f@ == filename@,
            !r.input_active,
            r.transient_message is None,
            !r.debug,
    {
        App {
            running: true,
            flamegraph_view: FlameGraphView::new(flamegraph),
            flamegraph_input: FlameGraphInput::File(String::from_str(filename)),
            input_active: false,
            transient_message: None,
            debug: false,
        }
    }

    pub fn quit(&mut self)
        ensures
            *final(self) == (App { running: false, ..*old(self) }),
    {
        self.running = false;
    }

    pub fn flamegraph(&self) -> (r: &FlameGraph)
        ensures
            r == &self.flamegraph_view.flamegraph,
    {
        &self.flamegraph_view.flamegraph
    }

    pub fn flamegraph_state(&self) -> (r: &FlameGraphState)
        ensures
            r == &self.flamegraph_view.state,
    {
        &self.flamegraph_view.state
    }

    pub fn set_transient_message(&mut self, message: &str)
        ensures
            final(self).transient_message matches Some(m) && m@ == message@,
            *final(self) == (App {
                transient_message: final(self).transient_message,
                ..*old(self)
            }),
    {
        self.transient_message = Some(String::from_str(message));
    }

    pub fn clear_transient_message(&mut self)
        ensures
            *final(self) == (App { transient_message: None, ..*old(self) }),
    {
        self.transient_message = None;
    }

    pub fn toggle_debug(&mut self)
        ensures
            *final(self) == (App { debug: !old(self).debug, ..*old(self) }),
    {
        self.debug = !self.debug;
    }

    /// Installs a user-entered pattern. A pattern that does not compile
    /// changes nothing about the view or the previously active pattern;
    /// only a message is shown.
    pub fn set_manual_search_pattern(&mut self, pattern: &str, is_regex: bool)
        requires
            app_wf(*old(self)),
        ensures
            app_wf(*final(self)),
            final(self).running == old(self).running,
            final(self).input_active == old(self).input_active,
            final(self).debug == old(self).debug,
            final(self).flamegraph_view.state.view_kind == old(
                self,
            ).flamegraph_view.state.view_kind,
            final(self).flamegraph_view.state.selected == old(
                self,
            ).flamegraph_view.state.selected,
            final(self).flamegraph_view.state.table_state == old(
                self,
            ).flamegraph_view.state.table_state,
            regex_valid(effective_pattern(pattern@, is_regex)) ==> {
                &&& final(self).flamegraph_view.state.search_pattern matches Some(p)
                &&& p.pattern@ == pattern@
                &&& p.is_regex == is_regex
                &&& p.is_manual
                &&& final(self).flamegraph_view.flamegraph.hits is Some
                &&& forall|i: int|
                    0 <= i < final(self).flamegraph_view.flamegraph.stacks@.len() ==> (
                    #[trigger] final(self).flamegraph_view.flamegraph.stacks@[i]).hit
                        == p.matches(
                        old(self).flamegraph_view.flamegraph.stacks@[i].short_name@,
                    )
                &&& final(self).transient_message == old(self).transient_message
            },
            !regex_valid(effective_pattern(pattern@, is_regex)) ==> {
                &&& final(self).flamegraph_view == old(self).flamegraph_view
                &&& final(self).transient_message matches Some(m) && m@ == "Invalid regex: "@
                    + pattern@
            },
    {
        match SearchPattern::new(pattern, is_regex, true) {
            Ok(p) => {
                self.flamegraph_view.set_search_pattern(p);
            },
            Err(_) => {
                let msg = String::from_str("Invalid regex: ").concat(pattern);
                self.set_transient_message(msg.as_str());
            },
        }
    }

    /// Searches for the selected frame's name, exactly. Nothing happens at
    /// the root.
    pub fn search_selected(&mut self)
        requires
            app_wf(*old(self)),
        ensures
            app_wf(*final(self)),
            old(self).flamegraph_view.state.selected == ROOT_ID ==> *final(self) == *old(self),
            old(self).flamegraph_view.state.selected != ROOT_ID && regex_valid(
                effective_pattern(
                    display_short_name(
                        old(self).flamegraph_view.flamegraph.stacks@,
                        old(self).flamegraph_view.state.selected as int,
                    ),
                    false,
                ),
            ) ==> {
                &&& final(self).flamegraph_view.state.search_pattern matches Some(p)
                &&& p.pattern@ == display_short_name(
                    old(self).flamegraph_view.flamegraph.stacks@,
                    old(self).flamegraph_view.state.selected as int,
                )
                &&& p.is_manual
                &&& !p.is_regex
            },
    {
        if self.flamegraph_view.is_root_selected() {
            return ;
        }
        let sel = self.flamegraph_view.state.selected;
        let name = String::from_str(
            self.flamegraph_view.flamegraph.get_stack_short_name_from_info(
                &self.flamegraph_view.flamegraph.stacks[sel],
            ),
        );
        self.set_manual_search_pattern(name.as_str(), false);
    }

    /// Searches for the table row under the cursor, exactly, and switches
    /// back to the flamegraph view.
    pub fn search_selected_row(&mut self)
        requires
            app_wf(*old(self)),
        ensures
            app_wf(*final(self)),
            final(self).flamegraph_view.state.view_kind == (if old(
                self,
            ).flamegraph_view.state.view_kind is FlameGraph {
                ViewKind::Table
            } else {
                ViewKind::FlameGraph
            }),
            // A row under the cursor becomes the exact manual pattern.
            (old(self).flamegraph_view.state.table_state.selected as int) < old(
                self,
            ).flamegraph_view.flamegraph.ordered_stacks.entries@.len() && regex_valid(
                effective_pattern(
                    old(self).flamegraph_view.flamegraph.ordered_stacks.entries@[old(
                        self,
                    ).flamegraph_view.state.table_state.selected as int].name@,
                    false,
                ),
            ) ==> {
                &&& final(self).flamegraph_view.state.search_pattern matches Some(p)
                &&& p.pattern@ == old(self).flamegraph_view.flamegraph.ordered_stacks.entries@[
                    old(self).flamegraph_view.state.table_state.selected as int].name@
                &&& p.is_manual
                &&& !p.is_regex
            },
    {
        let name: Option<String> = match self.flamegraph_view.get_selected_row_name() {
            Some(n) => Some(String::from_str(n)),
            None => None,
        };
        match name {
            Some(n) => {
                self.set_manual_search_pattern(n.as_str(), false);
            },
            None => {},
        }
        self.flamegraph_view.state.toggle_view_kind();
    }
}

} // verus!
