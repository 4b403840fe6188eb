//! Key handling as a pure decision layer: the terminal front end turns its
//! events into [`InputKey`] values and invokes these functions; no other
//! path mutates the application.
use vstd::prelude::*;

use crate::app::{app_wf, App};
use crate::state::ViewKind;

verus! {

/// A key press, reduced to what the command tables care about.
#[derive(Clone, Copy, PartialEq, Eq, Structural)]
pub enum InputKey {
    Char(char),
    Up,
    Down,
    Left,
    Right,
    Enter,
    Esc,
    Tab,
    Other,
}

/// Commands available in every view.
pub fn handle_command_generic(app: &mut App, key: InputKey, ctrl: bool) -> (handled: bool)
    requires
        app_wf(*old(app)),
    ensures
        app_wf(*final(app)),
        handled == (key == InputKey::Char('q') || key == InputKey::Char('c') || key
            == InputKey::Char('C') || key == InputKey::Char('z') || key == InputKey::Tab || key
            == InputKey::Char('/') || key == InputKey::Char('?')),
        key == InputKey::Char('q') ==> !final(app).running,
        (key == InputKey::Char('c') || key == InputKey::Char('C')) && ctrl ==> !final(app).running,
        key == InputKey::Char('z') ==> final(app).flamegraph_view.state.freeze == !old(app).flamegraph_view.state.freeze,
        key == InputKey::Tab ==> final(app).flamegraph_view.state.view_kind == (if old(app).flamegraph_view.state.view_kind is FlameGraph {
            ViewKind::Table
        } else {
            ViewKind::FlameGraph
        }),
        key == InputKey::Char('/') ==> final(app).input_active,
        key == InputKey::Char('?') ==> final(app).debug == !old(app).debug,
        !handled ==> *final(app) == *old(app),
    {
    let mut handled = true;
    match key {
        InputKey::Char('q') => {
            app.quit();
        },
        InputKey::Char('c') | InputKey::Char('C') => {
            if ctrl {
                app.quit();
            }
        },
        InputKey::Char('z') => {
            app.flamegraph_view.state.toggle_freeze();
        },
        InputKey::Tab => {
            app.flamegraph_view.state.toggle_view_kind();
        },
        InputKey::Char('/') => {
            app.input_active = true;
        },
        InputKey::Char('?') => {
            app.toggle_debug();
        },
        _ => {
            handled = false;
        },
    }
    handled
}

/// Commands of the flamegraph view.
pub fn handle_command_flamegraph(app: &mut App, key: InputKey) -> (handled: bool)
    requires
        app_wf(*old(app)),
    ensures
        app_wf(*final(app)),
        !handled ==> *final(app) == *old(app),
{
    let mut handled = true;
    match key {
        InputKey::Right | InputKey::Char('l') => {
            app.flamegraph_view.to_next_sibling();
        },
        InputKey::Left | InputKey::Char('h') => {
            app.flamegraph_view.to_previous_sibling();
        },
        InputKey::Down | InputKey::Char('j') => {
            app.flamegraph_view.to_child_stack();
        },
        InputKey::Up | InputKey::Char('k') => {
            app.flamegraph_view.to_parent_stack();
        },
        InputKey::Char('G') => {
            app.flamegraph_view.scroll_bottom();
        },
        InputKey::Char('g') => {
            app.flamegraph_view.scroll_top();
        },
        InputKey::Char('f') => {
            app.flamegraph_view.page_down();
        },
        InputKey::Char('b') => {
            app.flamegraph_view.page_up();
        },
        InputKey::Char('n') => {
            app.flamegraph_view.to_next_search_result();
        },
        InputKey::Char('N') => {
            app.flamegraph_view.to_previous_search_result();
        },
        InputKey::Enter => {
            app.flamegraph_view.set_zoom();
        },
        InputKey::Esc => {
            app.flamegraph_view.unset_zoom();
        },
        InputKey::Char('r') => {
            app.flamegraph_view.reset();
        },
        InputKey::Char('#') => {
            app.search_selected();
        },
        _ => {
            handled = false;
        },
    }
    handled
}

/// Commands of the ranked-table view.
pub fn handle_command_table(app: &mut App, key: InputKey) -> (handled: bool)
    requires
        app_wf(*old(app)),
    ensures
        app_wf(*final(app)),
        !handled ==> *final(app) == *old(app),
{
    let mut handled = true;
    match key {
        InputKey::Down | InputKey::Char('j') => {
            app.flamegraph_view.to_next_row();
        },
        InputKey::Up | InputKey::Char('k') => {
            app.flamegraph_view.to_previous_row();
        },
        InputKey::Char('f') => {
            app.flamegraph_view.scroll_next_rows();
        },
        InputKey::Char('b') => {
            app.flamegraph_view.scroll_previous_rows();
        },
        InputKey::Char('1') => {
            app.flamegraph_view.set_sort_by_total();
        },
        InputKey::Char('2') => {
            app.flamegraph_view.set_sort_by_own();
        },
        InputKey::Char('r') => {
            app.flamegraph_view.reset();
        },
        InputKey::Enter => {
            app.search_selected_row();
        },
        _ => {
            handled = false;
        },
    }
    handled
}

/// One key outside the search-input mode: generic commands first, then the
/// active view's; a handled key clears any transient message.
pub fn handle_command(app: &mut App, key: InputKey, ctrl: bool)
    requires
        app_wf(*old(app)),
    ensures
        app_wf(*final(app)),
{
    let mut handled = handle_command_generic(app, key, ctrl);
    if !handled {
        let in_graph = match app.flamegraph_view.state.view_kind {
            ViewKind::FlameGraph => true,
            ViewKind::Table => false,
        };
        if in_graph {
            handled = handle_command_flamegraph(app, key);
        } else {
            handled = handle_command_table(app, key);
        }
    }
    let has_message = match &app.transient_message {
        Some(_) => true,
        None => false,
    };
    if handled && has_message {
        app.clear_transient_message();
    }
}

/// The search-input line was submitted: an empty line drops a manual
/// pattern, anything else becomes a manual regex pattern; the input mode
/// ends either way.
pub fn handle_search_input_submit(app: &mut App, text: &str)
    requires
        app_wf(*old(app)),
    ensures
        app_wf(*final(app)),
        !final(app).input_active,
        text@.len() == 0 && (old(app).flamegraph_view.state.search_pattern matches Some(p)
            && p.is_manual) ==> final(app).flamegraph_view.state.search_pattern is None,
        text@.len() > 0 && crate::pattern::regex_valid(
            crate::pattern::effective_pattern(text@, true),
        ) ==> {
            &&& final(app).flamegraph_view.state.search_pattern matches Some(p)
            &&& p.pattern@ == text@
            &&& p.is_manual
            &&& p.is_regex
        },
        text@.len() > 0 && !crate::pattern::regex_valid(
            crate::pattern::effective_pattern(text@, true),
        ) ==> final(app).flamegraph_view == old(app).flamegraph_view,
{
    if text.unicode_len() == 0 {
        app.flamegraph_view.unset_manual_search_pattern();
    } else {
        app.set_manual_search_pattern(text, true);
    }
    app.input_active = false;
}

/// The search-input line was dismissed.
pub fn handle_search_input_cancel(app: &mut App)
    requires
        app_wf(*old(app)),
    ensures
        app_wf(*final(app)),
        *final(app) == (App { input_active: false, ..*old(app) }),
{
    app.input_active = false;
}

} // verus!
