//! The view couples one tree with the navigation state and owns every
//! transition: selection, zoom, scrolling, search stepping, table motion,
//! and the reconciliation used when a live tree is swapped in.
use vstd::prelude::*;

use crate::flame::{
    display_full_name, display_short_name, in_subtree, levels_consistent, FlameGraph,
    SortColumn, StackIdentifier, StackInfo, ROOT_ID,
};
use crate::pattern::{effective_pattern, regex_valid, SearchPattern};
use crate::state::{zoom_consistent, FlameGraphState, ZoomState};

verus! {

/// One flamegraph plus the navigation state over it.
pub struct FlameGraphView {
    pub flamegraph: FlameGraph,
    pub state: FlameGraphState,
}

/// Selection and pattern are usable against the current tree.
pub open spec fn state_core_consistent(s: FlameGraphState, g: FlameGraph) -> bool {
    &&& (s.selected as int) < g.stacks@.len()
    &&& (s.search_pattern matches Some(p) ==> p.wf())
}

/// Global invariant of a view.
pub open spec fn view_wf(v: FlameGraphView) -> bool {
    &&& v.flamegraph.well_formed()
    &&& state_core_consistent(v.state, v.flamegraph)
    &&& (v.state.zoom matches Some(z) ==> zoom_consistent(z, v.flamegraph.stacks@))
}

/// The "visibly wide" predicate: the node's exact share of the viewport
/// width, magnified by an active zoom, spans at least one cell. Off the
/// zoomed path nothing is visible. Without a known width everything is.
pub open spec fn visibly_wide(g: FlameGraph, s: FlameGraphState, i: int) -> bool {
    match s.frame_width {
        None => true,
        Some(w) => match s.zoom {
            None => g.stacks@[i].total_count * w >= g.stacks@[0].total_count,
            Some(z) => {
                &&& g.stacks@[i].total_count * w >= g.stacks@[z.stack_id as int].total_count
                &&& (z.ancestors@.contains(i as StackIdentifier) || z.descendants@.contains(
                    i as StackIdentifier,
                ))
            },
        },
    }
}

/// Width test against an explicit reference node, used when counting
/// visible depths: the zoomed subtree is measured against the zoom target.
pub open spec fn visibly_wide_rel(g: FlameGraph, w: Option<u16>, i: int, base: int) -> bool {
    match w {
        None => true,
        Some(w) => g.stacks@[i].total_count * w >= g.stacks@[base].total_count,
    }
}

/// Whether a depth lies inside the viewport.
pub open spec fn level_in_view_port(s: FlameGraphState, level: int) -> bool {
    match s.frame_height {
        None => true,
        Some(h) => s.level_offset <= level < s.level_offset + h,
    }
}

/// The row position of node `i` within its depth row.
pub open spec fn row_position(g: FlameGraph, i: int) -> int {
    choose|k: int|
        0 <= k < g.levels@[g.stacks@[i].level as int]@.len()
            && g.levels@[g.stacks@[i].level as int]@[k] == i as StackIdentifier
}

/// Under a well-formed graph every node has a row position.
pub proof fn lemma_row_position(g: FlameGraph, i: int)
    requires
        g.well_formed(),
        0 <= i < g.stacks@.len(),
    ensures
        0 <= row_position(g, i) < g.levels@[g.stacks@[i].level as int]@.len(),
        g.levels@[g.stacks@[i].level as int]@[row_position(g, i)] == i as StackIdentifier,
        forall|k: int|
            0 <= k < g.levels@[g.stacks@[i].level as int]@.len() && g.levels@[g.stacks@[i].level as int]@[k]
                == i as StackIdentifier ==> k == row_position(g, i),
{
    let row = g.levels@[g.stacks@[i].level as int]@;
    assert(row.contains(i as StackIdentifier));
    let k = choose|k: int| 0 <= k < row.len() && row[k] == i as StackIdentifier;
    assert(row[row_position(g, i)] == i as StackIdentifier);
}

/// A node that counts towards the number of visible depths: inside the
/// zoomed subtree (the whole tree without zoom) and wide enough relative to
/// the subtree's base.
pub open spec fn depth_candidate(g: FlameGraph, s: FlameGraphState, x: int) -> bool {
    let start = match s.zoom {
        Some(z) => z.stack_id as int,
        None => 0,
    };
    &&& in_subtree(g.stacks@, start, x)
    &&& visibly_wide_rel(g, s.frame_width, x, start)
}

/// Where the cursor lands after the viewport moved: unchanged when its
/// depth is still on screen; otherwise the first visibly wide node on the
/// viewport's top row, or unchanged when that row has none.
pub open spec fn reselected_after_scroll(
    g: FlameGraph,
    s_eff: FlameGraphState,
    old_sel: StackIdentifier,
    new_sel: StackIdentifier,
) -> bool {
    let sel_level = g.stacks@[old_sel as int].level as int;
    if level_in_view_port(s_eff, sel_level) {
        new_sel == old_sel
    } else {
        let off = s_eff.level_offset as int;
        if off < g.levels@.len() && (exists|k: int|
            0 <= k < g.levels@[off]@.len() && visibly_wide(
                g,
                s_eff,
                #[trigger] g.levels@[off]@[k] as int,
            )) {
            exists|k: int|
                {
                    &&& 0 <= k < g.levels@[off]@.len()
                    &&& new_sel == g.levels@[off]@[k]
                    &&& visibly_wide(g, s_eff, g.levels@[off]@[k] as int)
                    &&& forall|m: int|
                        0 <= m < k ==> !visibly_wide(
                            g,
                            s_eff,
                            #[trigger] g.levels@[off]@[m] as int,
                        )
                }
        } else {
            new_sel == old_sel
        }
    }
}

impl FlameGraphView {
    pub fn new(flamegraph: FlameGraph) -> (r: FlameGraphView)
        requires
            flamegraph.well_formed(),
        ensures
            view_wf(r),
            r.flamegraph == flamegraph,
            r.state.selected == ROOT_ID,
            r.state.level_offset == 0,
            r.state.zoom is None,
            r.state.search_pattern is None,
            !r.state.freeze,
            r.state.view_kind is FlameGraph,
            r.state.table_state.selected == 0,
    {
        FlameGraphView { flamegraph, state: FlameGraphState::default() }
    }

    /// Exec form of [`visibly_wide`].
    fn is_stack_visibly_wide(&self, stack_id: StackIdentifier) -> (r: bool)
        requires
            view_wf(*self),
            stack_id < self.flamegraph.stacks@.len(),
        ensures
            r == visibly_wide(self.flamegraph, self.state, stack_id as int),
    {
        match self.state.frame_width {
            None => true,
            Some(w) => {
                let total = self.flamegraph.stacks[stack_id].total_count;
                match &self.state.zoom {
                    None => {
                        let root_total = self.flamegraph.stacks[0].total_count;
                        proof {
                            vstd::arithmetic::mul::lemma_mul_upper_bound(
                                total as int,
                                u64::MAX as int,
                                w as int,
                                u16::MAX as int,
                            );
                        }
                        (total as u128) * (w as u128) >= (root_total as u128)
                    },
                    Some(z) => {
                        let zoom_total = self.flamegraph.stacks[z.stack_id].total_count;
                        proof {
                            vstd::arithmetic::mul::lemma_mul_upper_bound(
                                total as int,
                                u64::MAX as int,
                                w as int,
                                u16::MAX as int,
                            );
                        }
                        // The cheap width test short-circuits before the
                        // costlier set membership test.
                        (total as u128) * (w as u128) >= (zoom_total as u128)
                            && z.is_ancestor_or_descendant(&stack_id)
                    },
                }
            },
        }
    }

    /// Exec form of [`visibly_wide_rel`].
    fn is_stack_visibly_wide_rel(&self, stack_id: StackIdentifier, base: StackIdentifier) -> (r:
        bool)
        requires
            view_wf(*self),
            stack_id < self.flamegraph.stacks@.len(),
            base < self.flamegraph.stacks@.len(),
        ensures
            r == visibly_wide_rel(
                self.flamegraph,
                self.state.frame_width,
                stack_id as int,
                base as int,
            ),
    {
        match self.state.frame_width {
            None => true,
            Some(w) => {
                let total = self.flamegraph.stacks[stack_id].total_count;
                let base_total = self.flamegraph.stacks[base].total_count;
                proof {
                    vstd::arithmetic::mul::lemma_mul_upper_bound(
                        total as int,
                        u64::MAX as int,
                        w as int,
                        u16::MAX as int,
                    );
                }
                (total as u128) * (w as u128) >= (base_total as u128)
            },
        }
    }

    /// Exec form of [`level_in_view_port`].
    fn is_level_in_view_port(&self, level: usize) -> (r: bool)
        ensures
            r == level_in_view_port(self.state, level as int),
    {
        match self.state.frame_height {
            None => true,
            Some(h) => self.state.level_offset <= level && (level - self.state.level_offset)
                < (h as usize),
        }
    }

    pub fn get_selected_stack(&self) -> (r: Option<&StackInfo>)
        ensures
            (self.state.selected as int) < self.flamegraph.stacks@.len() ==> r == Some(
                &self.flamegraph.stacks@[self.state.selected as int],
            ),
            (self.state.selected as int) >= self.flamegraph.stacks@.len() ==> r is None,
    {
        self.flamegraph.get_stack(&self.state.selected)
    }

    pub fn is_root_selected(&self) -> (r: bool)
        ensures
            r == (self.state.selected == ROOT_ID),
    {
        self.state.selected == ROOT_ID
    }

    /// Installs a pattern: marks hits on the tree and records it in the
    /// state.
    pub fn set_search_pattern(&mut self, search_pattern: SearchPattern)
        requires
            view_wf(*old(self)),
            search_pattern.wf(),
        ensures
            view_wf(*final(self)),
            final(self).state == (FlameGraphState {
                search_pattern: final(self).state.search_pattern,
                ..old(self).state
            }),
            final(self).state.search_pattern == Some(search_pattern),
            final(self).flamegraph.stacks@.len() == old(self).flamegraph.stacks@.len(),
            forall|i: int|
                0 <= i < final(self).flamegraph.stacks@.len() ==> (#[trigger] final(self).flamegraph.stacks@[i]).hit == search_pattern.matches(
                    old(self).flamegraph.stacks@[i].short_name@,
                ),
            final(self).flamegraph.hits is Some,
            final(self).flamegraph.levels == old(self).flamegraph.levels,
            forall|i: int|
                0 <= i < final(self).flamegraph.stacks@.len() ==> {
                    let a = #[trigger] final(self).flamegraph.stacks@[i];
                    let b = old(self).flamegraph.stacks@[i];
                    &&& a.short_name == b.short_name
                    &&& a.full_name == b.full_name
                    &&& a.total_count == b.total_count
                    &&& a.self_count == b.self_count
                    &&& a.parent == b.parent
                    &&& a.children == b.children
                    &&& a.level == b.level
                },
    {
        let ghost sa = self.flamegraph.stacks@;
        self.flamegraph.set_hits(&search_pattern);
        self.state.set_search_pattern(search_pattern);
        proof {
            crate::flame::lemma_hit_only_preserves_chains(sa, self.flamegraph.stacks@);
            if self.state.zoom is Some {
                let z = self.state.zoom->Some_0;
                assert(zoom_consistent(z, self.flamegraph.stacks@)) by {
                    assert(zoom_consistent(z, sa));
                    assert forall|x: StackIdentifier|
                        z.ancestors@.contains(x) <==> in_subtree(
                            self.flamegraph.stacks@,
                            x as int,
                            z.stack_id as int,
                        ) by {
                        assert(in_subtree(sa, x as int, z.stack_id as int) == in_subtree(
                            self.flamegraph.stacks@,
                            x as int,
                            z.stack_id as int,
                        ));
                    }
                    assert forall|x: StackIdentifier|
                        z.descendants@.contains(x) <==> in_subtree(
                            self.flamegraph.stacks@,
                            z.stack_id as int,
                            x as int,
                        ) by {
                        assert(in_subtree(sa, z.stack_id as int, x as int) == in_subtree(
                            self.flamegraph.stacks@,
                            z.stack_id as int,
                            x as int,
                        ));
                    }
                }
            }
        }
    }

    /// Clears the active pattern and every hit flag.
    pub fn unset_search_pattern(&mut self)
        requires
            view_wf(*old(self)),
        ensures
            view_wf(*final(self)),
            final(self).state == (FlameGraphState {
                search_pattern: None,
                ..old(self).state
            }),
            final(self).flamegraph.hits is None,
            forall|i: int|
                0 <= i < final(self).flamegraph.stacks@.len() ==> !(#[trigger] final(self).flamegraph.stacks@[i]).hit,
            final(self).flamegraph.stacks@.len() == old(self).flamegraph.stacks@.len(),
            final(self).flamegraph.levels == old(self).flamegraph.levels,
            forall|i: int|
                0 <= i < final(self).flamegraph.stacks@.len() ==> {
                    let a = #[trigger] final(self).flamegraph.stacks@[i];
                    let b = old(self).flamegraph.stacks@[i];
                    &&& a.short_name == b.short_name
                    &&& a.full_name == b.full_name
                    &&& a.total_count == b.total_count
                    &&& a.self_count == b.self_count
                    &&& a.parent == b.parent
                    &&& a.children == b.children
                    &&& a.level == b.level
                },
            crate::flame::ordered_cleared(
                old(self).flamegraph.ordered_stacks,
                final(self).flamegraph.ordered_stacks,
            ),
            final(self).flamegraph.sorted == old(self).flamegraph.sorted,
    {
        let ghost sa = self.flamegraph.stacks@;
        self.flamegraph.clear_hits();
        self.state.unset_search_pattern();
        proof {
            crate::flame::lemma_hit_only_preserves_chains(sa, self.flamegraph.stacks@);
            if self.state.zoom is Some {
                let z = self.state.zoom->Some_0;
                assert(zoom_consistent(z, self.flamegraph.stacks@)) by {
                    assert(zoom_consistent(z, sa));
                    assert forall|x: StackIdentifier|
                        z.ancestors@.contains(x) <==> in_subtree(
                            self.flamegraph.stacks@,
                            x as int,
                            z.stack_id as int,
                        ) by {
                        assert(in_subtree(sa, x as int, z.stack_id as int) == in_subtree(
                            self.flamegraph.stacks@,
                            x as int,
                            z.stack_id as int,
                        ));
                    }
                    assert forall|x: StackIdentifier|
                        z.descendants@.contains(x) <==> in_subtree(
                            self.flamegraph.stacks@,
                            z.stack_id as int,
                            x as int,
                        ) by {
                        assert(in_subtree(sa, z.stack_id as int, x as int) == in_subtree(
                            self.flamegraph.stacks@,
                            z.stack_id as int,
                            x as int,
                        ));
                    }
                }
            }
        }
    }

    /// Drops the pattern only when it was entered manually.
    pub fn unset_manual_search_pattern(&mut self)
        requires
            view_wf(*old(self)),
        ensures
            view_wf(*final(self)),
            (old(self).state.search_pattern matches Some(p) && p.is_manual) ==> {
                &&& final(self).state == (FlameGraphState {
                    search_pattern: None,
                    ..old(self).state
                })
                &&& final(self).flamegraph.hits is None
            },
            !(old(self).state.search_pattern matches Some(p) && p.is_manual) ==> *final(self)
                == *old(self),
    {
        let manual = match &self.state.search_pattern {
            Some(p) => p.is_manual,
            None => false,
        };
        if manual {
            self.unset_search_pattern();
        }
    }

    /// Moves the cursor. Unless a manual pattern is active, an automatic
    /// exact-match pattern on the node's displayed name is installed, so
    /// same-named frames highlight across the tree.
    pub fn select_id(&mut self, stack_id: &StackIdentifier)
        requires
            view_wf(*old(self)),
            (*stack_id as int) < old(self).flamegraph.stacks@.len(),
        ensures
            view_wf(*final(self)),
            final(self).state.selected == *stack_id,
            final(self).state.level_offset == old(self).state.level_offset,
            final(self).state.frame_height == old(self).state.frame_height,
            final(self).state.frame_width == old(self).state.frame_width,
            final(self).state.zoom == old(self).state.zoom,
            final(self).state.freeze == old(self).state.freeze,
            final(self).state.view_kind == old(self).state.view_kind,
            final(self).state.table_state == old(self).state.table_state,
            (old(self).state.search_pattern matches Some(p) && p.is_manual) ==> {
                &&& final(self).flamegraph == old(self).flamegraph
                &&& final(self).state.search_pattern == old(self).state.search_pattern
            },
            !(old(self).state.search_pattern matches Some(p) && p.is_manual) && regex_valid(
                effective_pattern(
                    display_short_name(old(self).flamegraph.stacks@, *stack_id as int),
                    false,
                ),
            ) ==> {
                &&& final(self).state.search_pattern matches Some(p)
                &&& p.pattern@ == display_short_name(
                    old(self).flamegraph.stacks@,
                    *stack_id as int,
                )
                &&& !p.is_manual
                &&& !p.is_regex
                &&& final(self).flamegraph.hits is Some
                &&& forall|i: int|
                    0 <= i < final(self).flamegraph.stacks@.len() ==> (#[trigger] final(self).flamegraph.stacks@[i]).hit == p.matches(
                        old(self).flamegraph.stacks@[i].short_name@,
                    )
            },
            final(self).flamegraph.stacks@.len() == old(self).flamegraph.stacks@.len(),
            forall|i: int|
                0 <= i < final(self).flamegraph.stacks@.len() ==> {
                    let a = #[trigger] final(self).flamegraph.stacks@[i];
                    let b = old(self).flamegraph.stacks@[i];
                    &&& a.short_name == b.short_name
                    &&& a.full_name == b.full_name
                    &&& a.total_count == b.total_count
                    &&& a.self_count == b.self_count
                    &&& a.parent == b.parent
                    &&& a.children == b.children
                    &&& a.level == b.level
                },
            final(self).flamegraph.levels == old(self).flamegraph.levels,
    {
        self.state.select_id(stack_id);
        let manual = match &self.state.search_pattern {
            Some(p) => p.is_manual,
            None => false,
        };
        if manual {
            return ;
        }
        let name = String::from_str(
            self.flamegraph.get_stack_short_name_from_info(&self.flamegraph.stacks[*stack_id]),
        );
        match SearchPattern::new(name.as_str(), false, false) {
            Ok(p) => {
                self.set_search_pattern(p);
            },
            Err(_) => {},
        }
    }

    pub fn set_frame_width(&mut self, frame_width: u16)
        ensures
            final(self).flamegraph == old(self).flamegraph,
            final(self).state == (FlameGraphState {
                frame_width: Some(frame_width),
                ..old(self).state
            }),
    {
        self.state.frame_width = Some(frame_width);
    }

    pub fn set_frame_height(&mut self, frame_height: u16)
        requires
            view_wf(*old(self)),
        ensures
            view_wf(*final(self)),
            final(self).flamegraph == old(self).flamegraph,
            final(self).state.frame_height == Some(frame_height),
            final(self).state == (FlameGraphState {
                frame_height: Some(frame_height),
                selected: final(self).state.selected,
                ..old(self).state
            }),
            reselected_after_scroll(
                old(self).flamegraph,
                (FlameGraphState { frame_height: Some(frame_height), ..old(self).state }),
                old(self).state.selected,
                final(self).state.selected,
            ),
    {
        self.state.frame_height = Some(frame_height);
        self.keep_selected_stack_in_view_port();
    }

    /// First visibly wide node on the viewport's top row, if any.
    fn select_stack_in_view_port(&mut self)
        requires
            view_wf(*old(self)),
        ensures
            view_wf(*final(self)),
            final(self).flamegraph == old(self).flamegraph,
            final(self).state == (FlameGraphState {
                selected: final(self).state.selected,
                ..old(self).state
            }),
            ({
                let g = old(self).flamegraph;
                let off = old(self).state.level_offset as int;
                if (off < g.levels@.len()) && (exists|k: int|
                    0 <= k < g.levels@[off]@.len() && visibly_wide(
                        g,
                        old(self).state,
                        #[trigger] g.levels@[off]@[k] as int,
                    )) {
                    exists|k: int|
                        {
                            &&& 0 <= k < g.levels@[off]@.len()
                            &&& final(self).state.selected == g.levels@[off]@[k]
                            &&& visibly_wide(g, old(self).state, g.levels@[off]@[k] as int)
                            &&& forall|m: int|
                                0 <= m < k ==> !visibly_wide(
                                    g,
                                    old(self).state,
                                    #[trigger] g.levels@[off]@[m] as int,
                                )
                        }
                } else {
                    final(self).state.selected == old(self).state.selected
                }
            }),
    {
        let off = self.state.level_offset;
        if off >= self.flamegraph.levels.len() {
            return ;
        }
        let n = self.flamegraph.levels[off].len();
        let mut k: usize = 0;
        while k < n
            invariant
                view_wf(*self),
                *self == *old(self),
                off == old(self).state.level_offset,
                (off as int) < self.flamegraph.levels@.len(),
                n == self.flamegraph.levels@[off as int]@.len(),
                k <= n,
                forall|m: int|
                    0 <= m < k ==> !visibly_wide(
                        self.flamegraph,
                        self.state,
                        #[trigger] self.flamegraph.levels@[off as int]@[m] as int,
                    ),
            decreases n - k,
        {
            let id = self.flamegraph.levels[off][k];
            proof {
                assert(levels_consistent(self.flamegraph.stacks@, self.flamegraph.levels@));
            }
            if self.is_stack_visibly_wide(id) {
                self.state.select_id(&id);
                return ;
            }
            k += 1;
        }
    }

    /// When the cursor left the viewport, reselect on the viewport's top
    /// row.
    fn keep_selected_stack_in_view_port(&mut self)
        requires
            view_wf(*old(self)),
        ensures
            view_wf(*final(self)),
            final(self).flamegraph == old(self).flamegraph,
            final(self).state == (FlameGraphState {
                selected: final(self).state.selected,
                ..old(self).state
            }),
            reselected_after_scroll(
                old(self).flamegraph,
                old(self).state,
                old(self).state.selected,
                final(self).state.selected,
            ),
    {
        let level = self.flamegraph.stacks[self.state.selected].level;
        if !self.is_level_in_view_port(level) {
            self.select_stack_in_view_port();
        }
    }

    /// Clamps the scroll offset so the viewport never starts below the
    /// last tree depth reachable with the current height.
    pub fn set_level_offset(&mut self, level_offset: usize)
        requires
            view_wf(*old(self)),
        ensures
            view_wf(*final(self)),
            final(self).flamegraph == old(self).flamegraph,
            final(self).state == (FlameGraphState {
                level_offset: final(self).state.level_offset,
                ..old(self).state
            }),
            ({
                let h = match old(self).state.frame_height {
                    Some(h) => h as int,
                    None => 1,
                };
                let max_off = if old(self).flamegraph.levels@.len() - h >= 0 {
                    old(self).flamegraph.levels@.len() - h
                } else {
                    0
                };
                final(self).state.level_offset == (if level_offset <= max_off {
                    level_offset as int
                } else {
                    max_off
                })
            }),
    {
        let h: usize = match self.state.frame_height {
            Some(h) => h as usize,
            None => 1,
        };
        let levels = self.flamegraph.get_num_levels();
        let max_level_offset = if levels >= h {
            levels - h
        } else {
            0
        };
        self.state.level_offset = if level_offset < max_level_offset {
            level_offset
        } else {
            max_level_offset
        };
    }

    pub fn scroll_top(&mut self)
        requires
            view_wf(*old(self)),
        ensures
            view_wf(*final(self)),
            final(self).flamegraph == old(self).flamegraph,
            final(self).state.level_offset == 0,
            final(self).state == (FlameGraphState {
                level_offset: 0,
                selected: final(self).state.selected,
                ..old(self).state
            }),
            reselected_after_scroll(
                old(self).flamegraph,
                (FlameGraphState { level_offset: 0, ..old(self).state }),
                old(self).state.selected,
                final(self).state.selected,
            ),
    {
        self.state.level_offset = 0;
        self.keep_selected_stack_in_view_port();
    }

    /// Scrolls the cursor's depth into the viewport when it left it.
    pub fn scroll_to_selected(&mut self)
        requires
            view_wf(*old(self)),
        ensures
            view_wf(*final(self)),
            final(self).flamegraph == old(self).flamegraph,
            final(self).state == (FlameGraphState {
                level_offset: final(self).state.level_offset,
                ..old(self).state
            }),
            level_in_view_port(
                old(self).state,
                old(self).flamegraph.stacks@[old(self).state.selected as int].level as int,
            ) ==> final(self).state.level_offset == old(self).state.level_offset,
            // When the cursor's depth is off screen, the viewport jumps to
            // it, clamped to the tree depth.
            !level_in_view_port(
                old(self).state,
                old(self).flamegraph.stacks@[old(self).state.selected as int].level as int,
            ) ==> ({
                let sel_level = old(self).flamegraph.stacks@[old(self).state.selected as int].level as int;
                let h = match old(self).state.frame_height {
                    Some(h) => h as int,
                    None => 1,
                };
                let max_off = if old(self).flamegraph.levels@.len() - h >= 0 {
                    old(self).flamegraph.levels@.len() - h
                } else {
                    0
                };
                final(self).state.level_offset == (if sel_level <= max_off {
                    sel_level
                } else {
                    max_off
                })
            }),
    {
        let level = self.flamegraph.stacks[self.state.selected].level;
        if !self.is_level_in_view_port(level) {
            self.set_level_offset(level);
        }
    }

    pub fn page_up(&mut self)
        requires
            view_wf(*old(self)),
        ensures
            view_wf(*final(self)),
            final(self).flamegraph == old(self).flamegraph,
            final(self).state == (FlameGraphState {
                level_offset: final(self).state.level_offset,
                selected: final(self).state.selected,
                ..old(self).state
            }),
            old(self).state.frame_height is None ==> final(self).state == old(self).state,
            // One viewport up, floored at the top and clamped to the tree
            // depth; the cursor is re-placed when it left the viewport.
            old(self).state.frame_height matches Some(h) ==> ({
                let target = if old(self).state.level_offset >= h {
                    old(self).state.level_offset - h
                } else {
                    0
                };
                let max_off = if old(self).flamegraph.levels@.len() - h >= 0 {
                    old(self).flamegraph.levels@.len() - h
                } else {
                    0
                };
                &&& final(self).state.level_offset == (if target <= max_off {
                    target
                } else {
                    max_off
                })
                &&& reselected_after_scroll(
                    old(self).flamegraph,
                    (FlameGraphState {
                        level_offset: final(self).state.level_offset,
                        ..old(self).state
                    }),
                    old(self).state.selected,
                    final(self).state.selected,
                )
            }),
    {
        match self.state.frame_height {
            Some(h) => {
                let target = if self.state.level_offset >= (h as usize) {
                    self.state.level_offset - (h as usize)
                } else {
                    0
                };
                self.set_level_offset(target);
                self.keep_selected_stack_in_view_port();
            },
            None => {},
        }
    }

    /// Zooms to the given node: the zoomed sets are derived from the
    /// current tree; zooming to the root is unzooming.
    pub fn set_zoom_for_id(&mut self, stack_id: StackIdentifier)
        requires
            old(self).flamegraph.well_formed(),
            state_core_consistent(old(self).state, old(self).flamegraph),
            old(self).state.zoom matches Some(z) ==> (z.stack_id as int) < old(self).flamegraph.stacks@.len(),
        ensures
            (stack_id as int) >= old(self).flamegraph.stacks@.len() ==> *final(self) == *old(self),
            (stack_id as int) < old(self).flamegraph.stacks@.len() ==> view_wf(*final(self)),
            0 < (stack_id as int) < old(self).flamegraph.stacks@.len() ==> {
                &&& final(self).flamegraph == old(self).flamegraph
                &&& final(self).state.zoom matches Some(z)
                &&& z.stack_id == stack_id
                &&& zoom_consistent(z, final(self).flamegraph.stacks@)
                &&& final(self).state == (FlameGraphState {
                    zoom: final(self).state.zoom,
                    ..old(self).state
                })
            },
            // Zooming to the root has exactly the effect of unzooming:
            // the cursor returns to the previously zoomed node, nothing
            // else of the state moves.
            stack_id == ROOT_ID ==> {
                &&& final(self).state.zoom is None
                &&& (old(self).state.zoom matches Some(z) ==> final(self).state.selected
                    == z.stack_id)
                &&& (old(self).state.zoom is None ==> final(self).state.selected == old(
                    self,
                ).state.selected)
                &&& final(self).state.level_offset == old(self).state.level_offset
                &&& final(self).state.frame_height == old(self).state.frame_height
                &&& final(self).state.frame_width == old(self).state.frame_width
                &&& final(self).state.freeze == old(self).state.freeze
                &&& final(self).state.view_kind == old(self).state.view_kind
                &&& final(self).state.table_state == old(self).state.table_state
            },
    {
        if stack_id >= self.flamegraph.stacks.len() {
            return ;
        }
        let ancestors = self.flamegraph.get_ancestors(&stack_id);
        let descendants = self.flamegraph.get_descendants(&stack_id);
        if stack_id == ROOT_ID {
            self.unset_zoom();
        } else {
            proof {
                assert(forall|x: StackIdentifier|
                    ancestors@.contains(x) <==> in_subtree(
                        self.flamegraph.stacks@,
                        x as int,
                        stack_id as int,
                    ));
            }
            self.state.set_zoom(ZoomState { stack_id, ancestors, descendants });
        }
    }

    pub fn set_zoom(&mut self)
        requires
            view_wf(*old(self)),
        ensures
            view_wf(*final(self)),
            0 < (old(self).state.selected as int) ==> {
                &&& final(self).flamegraph == old(self).flamegraph
                &&& final(self).state.zoom matches Some(z)
                &&& z.stack_id == old(self).state.selected
                &&& zoom_consistent(z, final(self).flamegraph.stacks@)
            },
            old(self).state.selected == ROOT_ID ==> final(self).state.zoom is None,
    {
        let id = self.state.selected;
        self.set_zoom_for_id(id);
    }

    /// Unzooms; the cursor returns to the node that was zoomed.
    pub fn unset_zoom(&mut self)
        requires
            old(self).flamegraph.well_formed(),
            state_core_consistent(old(self).state, old(self).flamegraph),
            old(self).state.zoom matches Some(z) ==> (z.stack_id as int) < old(self).flamegraph.stacks@.len(),
        ensures
            view_wf(*final(self)),
            final(self).state.zoom is None,
            old(self).state.zoom matches Some(z) ==> final(self).state.selected == z.stack_id,
            old(self).state.zoom is None ==> final(self).state.selected == old(self).state.selected,
            final(self).state.level_offset == old(self).state.level_offset,
            final(self).state.frame_height == old(self).state.frame_height,
            final(self).state.frame_width == old(self).state.frame_width,
            final(self).state.freeze == old(self).state.freeze,
            final(self).state.view_kind == old(self).state.view_kind,
            final(self).state.table_state == old(self).state.table_state,
    {
        let zoom_stack_id: Option<StackIdentifier> = match &self.state.zoom {
            Some(z) => Some(z.stack_id),
            None => None,
        };
        self.state.unset_zoom();
        match zoom_stack_id {
            Some(id) => {
                self.select_id(&id);
            },
            None => {},
        }
    }

    pub fn reset(&mut self)
        requires
            view_wf(*old(self)),
        ensures
            view_wf(*final(self)),
            final(self).state.selected == ROOT_ID,
            final(self).state.level_offset == 0,
            final(self).state.zoom is None,
            final(self).state.search_pattern is None,
            final(self).state.table_state.selected == 0,
            final(self).state.table_state.offset == 0,
            final(self).flamegraph.hits is None,
            final(self).state.freeze == old(self).state.freeze,
            final(self).state.view_kind == old(self).state.view_kind,
            final(self).state.frame_height == old(self).state.frame_height,
            final(self).state.frame_width == old(self).state.frame_width,
            // The tree and the table rows themselves are untouched: only
            // hit flags and row visibility are cleared.
            final(self).flamegraph.stacks@.len() == old(self).flamegraph.stacks@.len(),
            forall|i: int|
                0 <= i < final(self).flamegraph.stacks@.len() ==> {
                    let a = #[trigger] final(self).flamegraph.stacks@[i];
                    let b = old(self).flamegraph.stacks@[i];
                    &&& a.short_name == b.short_name
                    &&& a.full_name == b.full_name
                    &&& a.total_count == b.total_count
                    &&& a.self_count == b.self_count
                    &&& a.parent == b.parent
                    &&& a.children == b.children
                    &&& a.level == b.level
                    &&& !a.hit
                },
            final(self).flamegraph.levels == old(self).flamegraph.levels,
            crate::flame::ordered_cleared(
                old(self).flamegraph.ordered_stacks,
                final(self).flamegraph.ordered_stacks,
            ),
            final(self).flamegraph.sorted == old(self).flamegraph.sorted,
    {
        self.state.select_root();
        self.state.level_offset = 0;
        self.state.unset_zoom();
        self.state.table_state.reset();
        self.unset_search_pattern();
    }

    pub fn to_next_row(&mut self)
        requires
            view_wf(*old(self)),
        ensures
            view_wf(*final(self)),
            final(self).flamegraph == old(self).flamegraph,
            final(self).state == (FlameGraphState {
                table_state: final(self).state.table_state,
                ..old(self).state
            }),
            final(self).state.table_state.offset == old(self).state.table_state.offset,
            final(self).state.table_state.selected == (if old(self).state.table_state.selected
                + 1 <= old(self).flamegraph.ordered_stacks.num_rows - 1 {
                old(self).state.table_state.selected + 1
            } else if old(self).flamegraph.ordered_stacks.num_rows >= 1 {
                old(self).flamegraph.ordered_stacks.num_rows - 1
            } else {
                0
            }),
    {
        let cap = if self.flamegraph.ordered_stacks.num_rows >= 1 {
            self.flamegraph.ordered_stacks.num_rows - 1
        } else {
            0
        };
        let bumped = if self.state.table_state.selected < usize::MAX {
            self.state.table_state.selected + 1
        } else {
            usize::MAX
        };
        self.state.table_state.selected = if bumped < cap {
            bumped
        } else {
            cap
        };
    }

    pub fn to_previous_row(&mut self)
        requires
            view_wf(*old(self)),
        ensures
            view_wf(*final(self)),
            final(self).flamegraph == old(self).flamegraph,
            final(self).state == (FlameGraphState {
                table_state: final(self).state.table_state,
                ..old(self).state
            }),
            final(self).state.table_state.offset == old(self).state.table_state.offset,
            final(self).state.table_state.selected == (if old(self).state.table_state.selected
                >= 1 {
                old(self).state.table_state.selected - 1
            } else {
                0
            }),
    {
        let s = self.state.table_state.selected;
        self.state.table_state.selected = if s >= 1 {
            s - 1
        } else {
            0
        };
    }

    pub fn scroll_next_rows(&mut self)
        requires
            view_wf(*old(self)),
        ensures
            view_wf(*final(self)),
            final(self).flamegraph == old(self).flamegraph,
            final(self).state == (FlameGraphState {
                table_state: final(self).state.table_state,
                ..old(self).state
            }),
            ({
                let delta = match old(self).state.frame_height {
                    Some(h) => h as int,
                    None => 10,
                };
                let cap = if old(self).flamegraph.ordered_stacks.num_rows >= 1 {
                    old(self).flamegraph.ordered_stacks.num_rows - 1
                } else {
                    0
                };
                let target = if old(self).state.table_state.selected + delta <= cap {
                    old(self).state.table_state.selected + delta
                } else {
                    cap
                };
                final(self).state.table_state.selected == target && final(self).state.table_state.offset == target
            }),
    {
        let delta: usize = match self.state.frame_height {
            Some(h) => h as usize,
            None => 10,
        };
        let cap = if self.flamegraph.ordered_stacks.num_rows >= 1 {
            self.flamegraph.ordered_stacks.num_rows - 1
        } else {
            0
        };
        let bumped = if self.state.table_state.selected <= usize::MAX - delta {
            self.state.table_state.selected + delta
        } else {
            usize::MAX
        };
        let target = if bumped < cap {
            bumped
        } else {
            cap
        };
        self.state.table_state.selected = target;
        self.state.table_state.offset = target;
    }

    pub fn scroll_previous_rows(&mut self)
        requires
            view_wf(*old(self)),
        ensures
            view_wf(*final(self)),
            final(self).flamegraph == old(self).flamegraph,
            final(self).state == (FlameGraphState {
                table_state: final(self).state.table_state,
                ..old(self).state
            }),
            ({
                let delta = match old(self).state.frame_height {
                    Some(h) => h as int,
                    None => 10,
                };
                let target = if old(self).state.table_state.selected - delta >= 0 {
                    old(self).state.table_state.selected - delta
                } else {
                    0
                };
                final(self).state.table_state.selected == target && final(self).state.table_state.offset == target
            }),
    {
        let delta: usize = match self.state.frame_height {
            Some(h) => h as usize,
            None => 10,
        };
        let target = if self.state.table_state.selected >= delta {
            self.state.table_state.selected - delta
        } else {
            0
        };
        self.state.table_state.selected = target;
        self.state.table_state.offset = target;
    }

    pub fn set_sort_by_own(&mut self)
        requires
            view_wf(*old(self)),
        ensures
            view_wf(*final(self)),
            final(self).state == old(self).state,
            final(self).flamegraph.ordered_stacks.sorted_column is Own,
            final(self).flamegraph.stacks == old(self).flamegraph.stacks,
            final(self).flamegraph.levels == old(self).flamegraph.levels,
            final(self).flamegraph.hits == old(self).flamegraph.hits,
    {
        self.flamegraph.ordered_stacks.set_sort_column(SortColumn::Own);
    }

    pub fn set_sort_by_total(&mut self)
        requires
            view_wf(*old(self)),
        ensures
            view_wf(*final(self)),
            final(self).state == old(self).state,
            final(self).flamegraph.ordered_stacks.sorted_column is Total,
            final(self).flamegraph.stacks == old(self).flamegraph.stacks,
            final(self).flamegraph.levels == old(self).flamegraph.levels,
            final(self).flamegraph.hits == old(self).flamegraph.hits,
    {
        self.flamegraph.ordered_stacks.set_sort_column(SortColumn::Total);
    }

    /// Name of the table row under the cursor.
    pub fn get_selected_row_name(&self) -> (r: Option<&str>)
        ensures
            (self.state.table_state.selected as int)
                < self.flamegraph.ordered_stacks.entries@.len() ==> {
                &&& r matches Some(name)
                &&& name@ == self.flamegraph.ordered_stacks.entries@[self.state.table_state.selected as int].name@
            },
            (self.state.table_state.selected as int)
                >= self.flamegraph.ordered_stacks.entries@.len() ==> r is None,
    {
        let sel = self.state.table_state.selected;
        if sel < self.flamegraph.ordered_stacks.entries.len() {
            Some(self.flamegraph.ordered_stacks.entries[sel].name.as_str())
        } else {
            None
        }
    }

    /// Next sibling on the same depth row: the first visibly wide node
    /// after this one, with no wraparound.
    pub fn get_next_sibling(&self, stack_id: &StackIdentifier) -> (r: Option<StackIdentifier>)
        requires
            view_wf(*self),
        ensures
            (*stack_id as int) >= self.flamegraph.stacks@.len() ==> r is None,
            (*stack_id as int) < self.flamegraph.stacks@.len() ==> ({
                let g = self.flamegraph;
                let row = g.levels@[g.stacks@[*stack_id as int].level as int]@;
                let pos = row_position(g, *stack_id as int);
                match r {
                    Some(s) => exists|k: int|
                        {
                            &&& pos < k < row.len()
                            &&& row[k] == s
                            &&& visibly_wide(g, self.state, s as int)
                            &&& forall|m: int|
                                pos < m < k ==> !visibly_wide(
                                    g,
                                    self.state,
                                    #[trigger] row[m] as int,
                                )
                        },
                    None => forall|k: int|
                        pos < k < row.len() ==> !visibly_wide(
                            g,
                            self.state,
                            #[trigger] row[k] as int,
                        ),
                }
            }),
    {
        let id = *stack_id;
        if id >= self.flamegraph.stacks.len() {
            return None;
        }
        let ghost g = self.flamegraph;
        let level = self.flamegraph.stacks[id].level;
        proof {
            lemma_row_position(g, id as int);
        }
        let row = &self.flamegraph.levels[level];
        let n = row.len();
        // Find this node's unique position in its row.
        let mut pos: usize = 0;
        while pos < n && row[pos] != id
            invariant
                g == self.flamegraph,
                view_wf(*self),
                id < g.stacks@.len(),
                level == g.stacks@[id as int].level,
                row == &g.levels@[level as int],
                n == row@.len(),
                pos <= n,
                forall|m: int| 0 <= m < pos ==> row@[m] != id,
            decreases n - pos,
        {
            pos += 1;
        }
        proof {
            assert(row@[row_position(g, id as int)] == id);
            assert(pos == row_position(g, id as int));
        }
        let mut k: usize = pos + 1;
        while k < n
            invariant
                g == self.flamegraph,
                view_wf(*self),
                id == *stack_id,
                id < g.stacks@.len(),
                level == g.stacks@[id as int].level,
                row == &g.levels@[level as int],
                n == row@.len(),
                pos == row_position(g, id as int),
                pos < n,
                pos < k,
                forall|m: int|
                    pos < m < k ==> !visibly_wide(g, self.state, #[trigger] row@[m] as int),
            decreases n - k,
        {
            let c = row[k];
            proof {
                assert(levels_consistent(g.stacks@, g.levels@));
                assert((c as int) < g.stacks@.len());
            }
            if self.is_stack_visibly_wide(c) {
                return Some(c);
            }
            k += 1;
        }
        None
    }

    /// Previous sibling on the same depth row: the nearest visibly wide
    /// node before this one, with no wraparound.
    pub fn get_previous_sibling(&self, stack_id: &StackIdentifier) -> (r: Option<
        StackIdentifier,
    >)
        requires
            view_wf(*self),
        ensures
            (*stack_id as int) >= self.flamegraph.stacks@.len() ==> r is None,
            (*stack_id as int) < self.flamegraph.stacks@.len() ==> ({
                let g = self.flamegraph;
                let row = g.levels@[g.stacks@[*stack_id as int].level as int]@;
                let pos = row_position(g, *stack_id as int);
                match r {
                    Some(s) => exists|k: int|
                        {
                            &&& 0 <= k < pos
                            &&& row[k] == s
                            &&& visibly_wide(g, self.state, s as int)
                            &&& forall|m: int|
                                k < m < pos ==> !visibly_wide(
                                    g,
                                    self.state,
                                    #[trigger] row[m] as int,
                                )
                        },
                    None => forall|k: int|
                        0 <= k < pos ==> !visibly_wide(g, self.state, #[trigger] row[k] as int),
                }
            }),
    {
        let id = *stack_id;
        if id >= self.flamegraph.stacks.len() {
            return None;
        }
        let ghost g = self.flamegraph;
        let level = self.flamegraph.stacks[id].level;
        proof {
            lemma_row_position(g, id as int);
        }
        let row = &self.flamegraph.levels[level];
        let n = row.len();
        let mut pos: usize = 0;
        while pos < n && row[pos] != id
            invariant
                g == self.flamegraph,
                view_wf(*self),
                id < g.stacks@.len(),
                level == g.stacks@[id as int].level,
                row == &g.levels@[level as int],
                n == row@.len(),
                pos <= n,
                forall|m: int| 0 <= m < pos ==> row@[m] != id,
            decreases n - pos,
        {
            pos += 1;
        }
        proof {
            assert(row@[row_position(g, id as int)] == id);
            assert(pos == row_position(g, id as int));
        }
        let mut k: usize = pos;
        while k > 0
            invariant
                g == self.flamegraph,
                view_wf(*self),
                id == *stack_id,
                id < g.stacks@.len(),
                level == g.stacks@[id as int].level,
                row == &g.levels@[level as int],
                n == row@.len(),
                pos == row_position(g, id as int),
                pos < n,
                k <= pos,
                forall|m: int|
                    k <= m < pos ==> !visibly_wide(g, self.state, #[trigger] row@[m] as int),
            decreases k,
        {
            let c = row[k - 1];
            proof {
                assert(levels_consistent(g.stacks@, g.levels@));
                assert((c as int) < g.stacks@.len());
            }
            if self.is_stack_visibly_wide(c) {
                return Some(c);
            }
            k -= 1;
        }
        None
    }

    pub fn to_next_sibling(&mut self)
        requires
            view_wf(*old(self)),
        ensures
            view_wf(*final(self)),
            // Only the cursor (and the ephemeral auto pattern with its hit
            // marks) can change: tree structure, counts, rows, zoom and
            // viewport stay put, so sibling steps compose with
            // [`lemma_sibling_symmetry`].
            final(self).state.level_offset == old(self).state.level_offset,
            final(self).state.frame_height == old(self).state.frame_height,
            final(self).state.frame_width == old(self).state.frame_width,
            final(self).state.zoom == old(self).state.zoom,
            final(self).state.freeze == old(self).state.freeze,
            final(self).state.view_kind == old(self).state.view_kind,
            final(self).state.table_state == old(self).state.table_state,
            final(self).flamegraph.stacks@.len() == old(self).flamegraph.stacks@.len(),
            final(self).flamegraph.levels == old(self).flamegraph.levels,
            forall|i: int|
                0 <= i < final(self).flamegraph.stacks@.len() ==> {
                    let a = #[trigger] final(self).flamegraph.stacks@[i];
                    let b = old(self).flamegraph.stacks@[i];
                    &&& a.short_name == b.short_name
                    &&& a.full_name == b.full_name
                    &&& a.total_count == b.total_count
                    &&& a.self_count == b.self_count
                    &&& a.parent == b.parent
                    &&& a.children == b.children
                    &&& a.level == b.level
                },
            ({
                let g = old(self).flamegraph;
                let sel = old(self).state.selected as int;
                let row = g.levels@[g.stacks@[sel].level as int]@;
                let pos = row_position(g, sel);
                (exists|k: int|
                    pos < k < row.len() && visibly_wide(
                        g,
                        old(self).state,
                        #[trigger] row[k] as int,
                    )) ==> exists|k: int|
                    {
                        &&& pos < k < row.len()
                        &&& final(self).state.selected == row[k]
                        &&& visibly_wide(g, old(self).state, row[k] as int)
                        &&& forall|m: int|
                            pos < m < k ==> !visibly_wide(
                                g,
                                old(self).state,
                                #[trigger] row[m] as int,
                            )
                    }
            }),
            ({
                let g = old(self).flamegraph;
                let sel = old(self).state.selected as int;
                let row = g.levels@[g.stacks@[sel].level as int]@;
                let pos = row_position(g, sel);
                (forall|k: int|
                    pos < k < row.len() ==> !visibly_wide(
                        g,
                        old(self).state,
                        #[trigger] row[k] as int,
                    )) ==> *final(self) == *old(self)
            }),
    {
        let sel = self.state.selected;
        match self.get_next_sibling(&sel) {
            Some(stack_id) => {
                proof {
                    assert(levels_consistent(
                        self.flamegraph.stacks@,
                        self.flamegraph.levels@,
                    ));
                }
                self.select_id(&stack_id);
            },
            None => {},
        }
    }

    pub fn to_previous_sibling(&mut self)
        requires
            view_wf(*old(self)),
        ensures
            view_wf(*final(self)),
            // Only the cursor (and the ephemeral auto pattern with its hit
            // marks) can change: tree structure, counts, rows, zoom and
            // viewport stay put, so sibling steps compose with
            // [`lemma_sibling_symmetry`].
            final(self).state.level_offset == old(self).state.level_offset,
            final(self).state.frame_height == old(self).state.frame_height,
            final(self).state.frame_width == old(self).state.frame_width,
            final(self).state.zoom == old(self).state.zoom,
            final(self).state.freeze == old(self).state.freeze,
            final(self).state.view_kind == old(self).state.view_kind,
            final(self).state.table_state == old(self).state.table_state,
            final(self).flamegraph.stacks@.len() == old(self).flamegraph.stacks@.len(),
            final(self).flamegraph.levels == old(self).flamegraph.levels,
            forall|i: int|
                0 <= i < final(self).flamegraph.stacks@.len() ==> {
                    let a = #[trigger] final(self).flamegraph.stacks@[i];
                    let b = old(self).flamegraph.stacks@[i];
                    &&& a.short_name == b.short_name
                    &&& a.full_name == b.full_name
                    &&& a.total_count == b.total_count
                    &&& a.self_count == b.self_count
                    &&& a.parent == b.parent
                    &&& a.children == b.children
                    &&& a.level == b.level
                },
            ({
                let g = old(self).flamegraph;
                let sel = old(self).state.selected as int;
                let row = g.levels@[g.stacks@[sel].level as int]@;
                let pos = row_position(g, sel);
                (exists|k: int|
                    0 <= k < pos && visibly_wide(
                        g,
                        old(self).state,
                        #[trigger] row[k] as int,
                    )) ==> exists|k: int|
                    {
                        &&& 0 <= k < pos
                        &&& final(self).state.selected == row[k]
                        &&& visibly_wide(g, old(self).state, row[k] as int)
                        &&& forall|m: int|
                            k < m < pos ==> !visibly_wide(
                                g,
                                old(self).state,
                                #[trigger] row[m] as int,
                            )
                    }
            }),
            ({
                let g = old(self).flamegraph;
                let sel = old(self).state.selected as int;
                let row = g.levels@[g.stacks@[sel].level as int]@;
                let pos = row_position(g, sel);
                (forall|k: int|
                    0 <= k < pos ==> !visibly_wide(
                        g,
                        old(self).state,
                        #[trigger] row[k] as int,
                    )) ==> *final(self) == *old(self)
            }),
    {
        let sel = self.state.selected;
        match self.get_previous_sibling(&sel) {
            Some(stack_id) => {
                proof {
                    assert(levels_consistent(
                        self.flamegraph.stacks@,
                        self.flamegraph.levels@,
                    ));
                }
                self.select_id(&stack_id);
            },
            None => {},
        }
    }

    /// Moves to the widest visibly wide child, ties towards the younger
    /// sibling; scrolls one depth further when the child is off screen.
    pub fn to_child_stack(&mut self)
        requires
            view_wf(*old(self)),
        ensures
            view_wf(*final(self)),
            ({
                let g = old(self).flamegraph;
                let sel = old(self).state.selected as int;
                let cs = g.stacks@[sel].children@;
                (exists|k: int|
                    0 <= k < cs.len() && visibly_wide(
                        g,
                        old(self).state,
                        #[trigger] cs[k] as int,
                    )) ==> exists|k: int|
                    {
                        &&& 0 <= k < cs.len()
                        &&& final(self).state.selected == cs[k]
                        &&& visibly_wide(g, old(self).state, cs[k] as int)
                        &&& forall|m: int|
                            0 <= m < cs.len() && m != k && visibly_wide(
                                g,
                                old(self).state,
                                #[trigger] cs[m] as int,
                            ) ==> (g.stacks@[cs[m] as int].total_count < g.stacks@[cs[k] as int].total_count
                                || (g.stacks@[cs[m] as int].total_count == g.stacks@[cs[k] as int].total_count
                                    && m < k))
                        // One depth further down when the child was off
                        // screen, else the viewport stays.
                        &&& final(self).state.level_offset == (if level_in_view_port(
                            old(self).state,
                            g.stacks@[cs[k] as int].level as int,
                        ) {
                            old(self).state.level_offset as int
                        } else if old(self).state.level_offset < usize::MAX {
                            old(self).state.level_offset + 1
                        } else {
                            old(self).state.level_offset as int
                        })
                    }
            }),
            ({
                let g = old(self).flamegraph;
                let sel = old(self).state.selected as int;
                let cs = g.stacks@[sel].children@;
                (forall|k: int|
                    0 <= k < cs.len() ==> !visibly_wide(
                        g,
                        old(self).state,
                        #[trigger] cs[k] as int,
                    )) ==> *final(self) == *old(self)
            }),
            final(self).state.frame_height == old(self).state.frame_height,
            final(self).state.frame_width == old(self).state.frame_width,
            final(self).state.zoom == old(self).state.zoom,
            final(self).state.freeze == old(self).state.freeze,
            final(self).state.view_kind == old(self).state.view_kind,
            final(self).state.table_state == old(self).state.table_state,
            final(self).flamegraph.stacks@.len() == old(self).flamegraph.stacks@.len(),
            final(self).flamegraph.levels == old(self).flamegraph.levels,
            forall|i: int|
                0 <= i < final(self).flamegraph.stacks@.len() ==> {
                    let a = #[trigger] final(self).flamegraph.stacks@[i];
                    let b = old(self).flamegraph.stacks@[i];
                    &&& a.short_name == b.short_name
                    &&& a.full_name == b.full_name
                    &&& a.total_count == b.total_count
                    &&& a.self_count == b.self_count
                    &&& a.parent == b.parent
                    &&& a.children == b.children
                    &&& a.level == b.level
                },
    {
        let ghost g = self.flamegraph;
        let sel = self.state.selected;
        proof {
            assert(crate::flame::node_linked(g.stacks@, sel as int));
        }
        let n = self.flamegraph.stacks[sel].children.len();
        let mut best: Option<StackIdentifier> = None;
        let ghost mut best_k: int = 0;
        let mut k: usize = 0;
        while k < n
            invariant
                g == self.flamegraph,
                view_wf(*self),
                sel == self.state.selected,
                (sel as int) < g.stacks@.len(),
                n == g.stacks@[sel as int].children@.len(),
                k <= n,
                match best {
                    Some(b) => {
                        &&& 0 <= best_k < k
                        &&& g.stacks@[sel as int].children@[best_k] == b
                        &&& (b as int) < g.stacks@.len()
                        &&& visibly_wide(g, self.state, b as int)
                        &&& forall|m: int|
                            0 <= m < k && m != best_k && visibly_wide(
                                g,
                                self.state,
                                #[trigger] g.stacks@[sel as int].children@[m] as int,
                            ) ==> (g.stacks@[g.stacks@[sel as int].children@[m] as int].total_count
                                < g.stacks@[b as int].total_count || (
                            g.stacks@[g.stacks@[sel as int].children@[m] as int].total_count
                                == g.stacks@[b as int].total_count && m < best_k))
                    },
                    None => forall|m: int|
                        0 <= m < k ==> !visibly_wide(
                            g,
                            self.state,
                            #[trigger] g.stacks@[sel as int].children@[m] as int,
                        ),
                },
            decreases n - k,
        {
            let c = self.flamegraph.stacks[sel].children[k];
            proof {
                assert(crate::flame::node_linked(g.stacks@, sel as int));
                assert(g.stacks@[sel as int].children@[k as int] == c);
                assert((c as int) < g.stacks@.len());
            }
            if self.is_stack_visibly_wide(c) {
                let replace = match best {
                    None => true,
                    Some(b) => self.flamegraph.stacks[c].total_count
                        >= self.flamegraph.stacks[b].total_count,
                };
                if replace {
                    best = Some(c);
                    proof {
                        best_k = k as int;
                    }
                }
            }
            k += 1;
        }
        match best {
            Some(child) => {
                let child_level = self.flamegraph.stacks[child].level;
                if !self.is_level_in_view_port(child_level) {
                    let off = self.state.level_offset;
                    self.state.level_offset = if off < usize::MAX {
                        off + 1
                    } else {
                        off
                    };
                }
                self.select_id(&child);
            },
            None => {},
        }
    }

    /// Moves to the parent; scrolls one depth back when the parent is off
    /// screen. At the root nothing happens.
    pub fn to_parent_stack(&mut self)
        requires
            view_wf(*old(self)),
        ensures
            view_wf(*final(self)),
            ({
                let g = old(self).flamegraph;
                let sel = old(self).state.selected as int;
                match g.stacks@[sel].parent {
                    Some(p) => {
                        &&& final(self).state.selected == p
                        &&& final(self).state.level_offset == (
                        if level_in_view_port(old(self).state, g.stacks@[p as int].level as int) {
                            old(self).state.level_offset as int
                        } else if old(self).state.level_offset >= 1 {
                            old(self).state.level_offset - 1
                        } else {
                            0
                        })
                    },
                    None => *final(self) == *old(self),
                }
            }),
    {
        let sel = self.state.selected;
        proof {
            assert(crate::flame::node_linked(self.flamegraph.stacks@, sel as int));
        }
        match self.flamegraph.stacks[sel].parent {
            Some(p) => {
                let parent_level = self.flamegraph.stacks[p].level;
                if !self.is_level_in_view_port(parent_level) {
                    let off = self.state.level_offset;
                    self.state.level_offset = if off >= 1 {
                        off - 1
                    } else {
                        0
                    };
                }
                self.select_id(&p);
            },
            None => {},
        }
    }

    /// Number of depths with at least one node worth drawing under the
    /// current zoom and width; with nothing visible, the raw depth count.
    pub fn get_num_visible_levels(&self) -> (r: usize)
        requires
            view_wf(*self),
        ensures
            ({
                let g = self.flamegraph;
                let start = match self.state.zoom {
                    Some(z) => z.stack_id as int,
                    None => 0,
                };
                if exists|x: int| 0 <= x < g.stacks@.len() && #[trigger] depth_candidate(g, self.state, x) {
                    &&& (exists|x: int|
                        0 <= x < g.stacks@.len() && #[trigger] depth_candidate(g, self.state, x)
                            && g.stacks@[x].level + 1 == r)
                    &&& forall|x: int|
                        0 <= x < g.stacks@.len() && #[trigger] depth_candidate(g, self.state, x)
                            ==> g.stacks@[x].level < r
                } else {
                    r == g.levels@.len()
                }
            }),
    {
        let ghost g = self.flamegraph;
        let start: StackIdentifier = match &self.state.zoom {
            Some(z) => z.stack_id,
            None => ROOT_ID,
        };
        let ds = self.flamegraph.get_descendants(&start);
        proof {
            assert forall|m: int| 0 <= m < ds@.len() implies (#[trigger] ds@[m])
                < g.stacks@.len() by {
                assert(ds@.contains(ds@[m]));
            }
        }
        let dn = ds.len();
        let mut found = false;
        let mut best: usize = 0;
        let mut j: usize = 0;
        while j < dn
            invariant
                g == self.flamegraph,
                view_wf(*self),
                (start as int) < g.stacks@.len(),
                start as int == (match self.state.zoom {
                    Some(z) => z.stack_id as int,
                    None => 0,
                }),
                dn == ds@.len(),
                j <= dn,
                crate::flame::all_distinct(ds@),
                forall|x: StackIdentifier|
                    ds@.contains(x) <==> in_subtree(g.stacks@, start as int, x as int),
                forall|m: int| 0 <= m < ds@.len() ==> (#[trigger] ds@[m]) < g.stacks@.len(),
                !found ==> forall|m: int|
                    0 <= m < j ==> !depth_candidate(g, self.state, #[trigger] ds@[m] as int),
                found ==> exists|m: int|
                    0 <= m < j && depth_candidate(g, self.state, #[trigger] ds@[m] as int)
                        && g.stacks@[ds@[m] as int].level == best,
                found ==> forall|m: int|
                    0 <= m < j && depth_candidate(g, self.state, #[trigger] ds@[m] as int)
                        ==> g.stacks@[ds@[m] as int].level <= best,
            decreases dn - j,
        {
            let x = ds[j];
            proof {
                assert(ds@.contains(ds@[j as int]));
            }
            let wide = self.is_stack_visibly_wide_rel(x, start);
            proof {
                assert(in_subtree(g.stacks@, start as int, x as int));
            }
            if wide {
                let lvl = self.flamegraph.stacks[x].level;
                proof {
                    assert(depth_candidate(g, self.state, x as int));
                }
                if !found || lvl > best {
                    best = lvl;
                    found = true;
                }
            } else {
                proof {
                    assert(!depth_candidate(g, self.state, x as int));
                }
            }
            j += 1;
        }
        if found {
            let nl = self.flamegraph.get_num_levels();
            proof {
                assert forall|x: int|
                    0 <= x < g.stacks@.len() && #[trigger] depth_candidate(g, self.state, x)
                        implies g.stacks@[x].level <= best by {
                    assert(ds@.contains(x as StackIdentifier));
                    let m = choose|m: int| 0 <= m < ds@.len() && ds@[m] == x as StackIdentifier;
                }
                assert(levels_consistent(g.stacks@, g.levels@));
                assert(best < nl) by {
                    let m = choose|m: int|
                        0 <= m < ds@.len() && depth_candidate(g, self.state, ds@[m] as int)
                            && g.stacks@[ds@[m] as int].level == best;
                }
            }
            best + 1
        } else {
            proof {
                assert forall|x: int|
                    0 <= x < g.stacks@.len() implies !depth_candidate(g, self.state, x) by {
                    if depth_candidate(g, self.state, x) {
                        assert(ds@.contains(x as StackIdentifier));
                        let m = choose|m: int|
                            0 <= m < ds@.len() && ds@[m] == x as StackIdentifier;
                    }
                }
            }
            self.flamegraph.get_num_levels()
        }
    }

    /// The property of being the visible-depth count of this view.
    pub open spec fn is_num_visible_levels(self, n: int) -> bool {
        let g = self.flamegraph;
        if exists|x: int|
            0 <= x < g.stacks@.len() && #[trigger] depth_candidate(g, self.state, x) {
            &&& (exists|x: int|
                0 <= x < g.stacks@.len() && #[trigger] depth_candidate(g, self.state, x)
                    && g.stacks@[x].level + 1 == n)
            &&& forall|x: int|
                0 <= x < g.stacks@.len() && #[trigger] depth_candidate(g, self.state, x)
                    ==> g.stacks@[x].level < n
        } else {
            n == g.levels@.len()
        }
    }

    /// The largest scroll offset that still shows a visible depth.
    pub fn get_bottom_level_offset(&self) -> (r: Option<usize>)
        requires
            view_wf(*self),
        ensures
            self.state.frame_height is None ==> r is None,
            self.state.frame_height matches Some(h) ==> r matches Some(b) && exists|nvl: int|
                {
                    &&& #[trigger] self.is_num_visible_levels(nvl)
                    &&& b == (if nvl >= h {
                        nvl - h
                    } else {
                        0
                    })
                },
    {
        match self.state.frame_height {
            Some(h) => {
                let nvl = self.get_num_visible_levels();
                proof {
                    assert(self.is_num_visible_levels(nvl as int));
                }
                let b = if nvl >= (h as usize) {
                    nvl - (h as usize)
                } else {
                    0
                };
                Some(b)
            },
            None => None,
        }
    }

    pub fn scroll_bottom(&mut self)
        requires
            view_wf(*old(self)),
        ensures
            view_wf(*final(self)),
            final(self).flamegraph == old(self).flamegraph,
            final(self).state == (FlameGraphState {
                level_offset: final(self).state.level_offset,
                selected: final(self).state.selected,
                ..old(self).state
            }),
            old(self).state.frame_height is None ==> final(self).state == old(self).state,
            old(self).state.frame_height matches Some(h) ==> exists|nvl: int|
                {
                    &&& #[trigger] old(self).is_num_visible_levels(nvl)
                    &&& final(self).state.level_offset == (if nvl >= h {
                        nvl - h
                    } else {
                        0
                    })
                    &&& reselected_after_scroll(
                        old(self).flamegraph,
                        (FlameGraphState {
                            level_offset: final(self).state.level_offset,
                            ..old(self).state
                        }),
                        old(self).state.selected,
                        final(self).state.selected,
                    )
                },
    {
        match self.get_bottom_level_offset() {
            Some(bottom_offset) => {
                self.state.level_offset = bottom_offset;
                self.keep_selected_stack_in_view_port();
            },
            None => {},
        }
    }

    pub fn page_down(&mut self)
        requires
            view_wf(*old(self)),
        ensures
            view_wf(*final(self)),
            final(self).flamegraph == old(self).flamegraph,
            final(self).state == (FlameGraphState {
                level_offset: final(self).state.level_offset,
                selected: final(self).state.selected,
                ..old(self).state
            }),
            old(self).state.frame_height is None ==> final(self).state == old(self).state,
            // One viewport down, clamped to the scroll bottom (the last
            // offset with visibly wide content) and to the tree depth;
            // the cursor is re-placed when it left the viewport.
            old(self).state.frame_height matches Some(h) ==> exists|nvl: int|
                {
                    &&& #[trigger] old(self).is_num_visible_levels(nvl)
                    &&& ({
                        let bottom = if nvl >= h {
                            nvl - h
                        } else {
                            0
                        };
                        let stepped = if old(self).state.level_offset + h <= bottom {
                            old(self).state.level_offset + h
                        } else {
                            bottom
                        };
                        let max_off = if old(self).flamegraph.levels@.len() - h >= 0 {
                            old(self).flamegraph.levels@.len() - h
                        } else {
                            0
                        };
                        &&& final(self).state.level_offset == (if stepped <= max_off {
                            stepped
                        } else {
                            max_off
                        })
                        &&& reselected_after_scroll(
                            old(self).flamegraph,
                            (FlameGraphState {
                                level_offset: final(self).state.level_offset,
                                ..old(self).state
                            }),
                            old(self).state.selected,
                            final(self).state.selected,
                        )
                    })
                },
    {
        match self.state.frame_height {
            Some(h) => {
                match self.get_bottom_level_offset() {
                    Some(bottom_offset) => {
                        let off = self.state.level_offset;
                        let stepped = if off <= usize::MAX - (h as usize) {
                            off + (h as usize)
                        } else {
                            usize::MAX
                        };
                        let target = if stepped < bottom_offset {
                            stepped
                        } else {
                            bottom_offset
                        };
                        self.set_level_offset(target);
                        self.keep_selected_stack_in_view_port();
                    },
                    None => {},
                }
            },
            None => {},
        }
    }

    /// A row entry that a forward search step may land on: a visible hit.
    pub open spec fn row_hit_ok(self, x: int) -> bool {
        let g = self.flamegraph;
        &&& 0 <= x < g.stacks@.len()
        &&& g.stacks@[x].hit
        &&& visibly_wide(g, self.state, x)
    }

    /// First visible hit in `row` at or after position `k`.
    pub open spec fn scan_row_hits(self, row: Seq<StackIdentifier>, k: int) -> Option<
        StackIdentifier,
    >
        decreases row.len() - k when k >= 0
    {
        if k < 0 || k >= row.len() {
            None
        } else if self.row_hit_ok(row[k] as int) {
            Some(row[k])
        } else {
            self.scan_row_hits(row, k + 1)
        }
    }

    /// Last visible hit in `row` strictly before position `k`.
    pub open spec fn scan_row_hits_rev(self, row: Seq<StackIdentifier>, k: int) -> Option<
        StackIdentifier,
    >
        decreases k when k <= row.len()
    {
        if k <= 0 || k > row.len() {
            None
        } else if self.row_hit_ok(row[k - 1] as int) {
            Some(row[k - 1])
        } else {
            self.scan_row_hits_rev(row, k - 1)
        }
    }

    /// A hit-list entry a deep forward step may land on: below the cursor's
    /// depth and visible.
    pub open spec fn deep_hit_ok(self, x: int, sel_level: int) -> bool {
        let g = self.flamegraph;
        &&& 0 <= x < g.stacks@.len()
        &&& g.stacks@[x].level > sel_level
        &&& visibly_wide(g, self.state, x)
    }

    /// A hit-list entry a backward step may land on: above the cursor's
    /// depth and visible.
    pub open spec fn shallow_hit_ok(self, x: int, sel_level: int) -> bool {
        let g = self.flamegraph;
        &&& 0 <= x < g.stacks@.len()
        &&& g.stacks@[x].level < sel_level
        &&& visibly_wide(g, self.state, x)
    }

    /// First qualifying entry of the hit list at or after `k`.
    pub open spec fn scan_deep_hits(self, hids: Seq<StackIdentifier>, k: int, sel_level: int) -> Option<
        StackIdentifier,
    >
        decreases hids.len() - k when k >= 0
    {
        if k < 0 || k >= hids.len() {
            None
        } else if self.deep_hit_ok(hids[k] as int, sel_level) {
            Some(hids[k])
        } else {
            self.scan_deep_hits(hids, k + 1, sel_level)
        }
    }

    /// Last qualifying entry of the hit list strictly before `k`.
    pub open spec fn scan_shallow_hits_rev(
        self,
        hids: Seq<StackIdentifier>,
        k: int,
        sel_level: int,
    ) -> Option<StackIdentifier>
        decreases k when k <= hids.len()
    {
        if k <= 0 || k > hids.len() {
            None
        } else if self.shallow_hit_ok(hids[k - 1] as int, sel_level) {
            Some(hids[k - 1])
        } else {
            self.scan_shallow_hits_rev(hids, k - 1, sel_level)
        }
    }

    /// Where one forward search step lands: the next visible hit on the
    /// cursor's row, else the first visible hit below it, else nowhere.
    pub open spec fn next_hit_spec(self) -> Option<StackIdentifier> {
        let g = self.flamegraph;
        let sel = self.state.selected as int;
        if self.state.search_pattern is None {
            None
        } else {
            let row = g.levels@[g.stacks@[sel].level as int]@;
            let pos = row_position(g, sel);
            match self.scan_row_hits(row, pos + 1) {
                Some(x) => Some(x),
                None => {
                    let hids = match g.hits {
                        Some(h) => h.ids@,
                        None => Seq::empty(),
                    };
                    self.scan_deep_hits(hids, 0, g.stacks@[sel].level as int)
                },
            }
        }
    }

    /// Where one backward search step lands.
    pub open spec fn previous_hit_spec(self) -> Option<StackIdentifier> {
        let g = self.flamegraph;
        let sel = self.state.selected as int;
        if self.state.search_pattern is None {
            None
        } else {
            let row = g.levels@[g.stacks@[sel].level as int]@;
            let pos = row_position(g, sel);
            match self.scan_row_hits_rev(row, pos) {
                Some(x) => Some(x),
                None => {
                    let hids = match g.hits {
                        Some(h) => h.ids@,
                        None => Seq::empty(),
                    };
                    self.scan_shallow_hits_rev(hids, hids.len() as int, g.stacks@[sel].level as int)
                },
            }
        }
    }

    /// Finds this node's unique position in its depth row.
    fn find_row_position(&self, id: StackIdentifier) -> (pos: usize)
        requires
            view_wf(*self),
            (id as int) < self.flamegraph.stacks@.len(),
        ensures
            pos == row_position(self.flamegraph, id as int),
            (pos as int) < self.flamegraph.levels@[self.flamegraph.stacks@[id as int].level as int]@.len(),
    {
        let ghost g = self.flamegraph;
        proof {
            lemma_row_position(g, id as int);
        }
        let level = self.flamegraph.stacks[id].level;
        let row = &self.flamegraph.levels[level];
        let n = row.len();
        let mut pos: usize = 0;
        while pos < n && row[pos] != id
            invariant
                g == self.flamegraph,
                view_wf(*self),
                id < g.stacks@.len(),
                level == g.stacks@[id as int].level,
                row == &g.levels@[level as int],
                n == row@.len(),
                pos <= n,
                forall|m: int| 0 <= m < pos ==> row@[m] != id,
            decreases n - pos,
        {
            pos += 1;
        }
        proof {
            assert(row@[row_position(g, id as int)] == id);
        }
        pos
    }

    /// The forward search step target.
    fn get_next_hit(&self) -> (r: Option<StackIdentifier>)
        requires
            view_wf(*self),
        ensures
            r == self.next_hit_spec(),
            r matches Some(t) ==> (t as int) < self.flamegraph.stacks@.len(),
    {
        let ghost g = self.flamegraph;
        if match &self.state.search_pattern {
            Some(_) => false,
            None => true,
        } {
            return None;
        }
        let sel = self.state.selected;
        let sel_level = self.flamegraph.stacks[sel].level;
        let pos = self.find_row_position(sel);
        let row_len = self.flamegraph.levels[sel_level].len();
        let mut k: usize = pos + 1;
        while k < row_len
            invariant
                g == self.flamegraph,
                view_wf(*self),
                self.state.search_pattern is Some,
                sel == self.state.selected,
                (sel as int) < g.stacks@.len(),
                sel_level == g.stacks@[sel as int].level,
                row_len == g.levels@[sel_level as int]@.len(),
                pos == row_position(g, sel as int),
                pos < k,
                self.scan_row_hits(g.levels@[sel_level as int]@, pos + 1) == self.scan_row_hits(
                    g.levels@[sel_level as int]@,
                    k as int,
                ),
            decreases row_len - k,
        {
            let c = self.flamegraph.levels[sel_level][k];
            proof {
                assert(levels_consistent(g.stacks@, g.levels@));
                assert((c as int) < g.stacks@.len());
                assert(g.levels@[sel_level as int]@[k as int] == c);
            }
            if self.flamegraph.stacks[c].hit && self.is_stack_visibly_wide(c) {
                proof {
                    assert(self.row_hit_ok(c as int));
                    assert(self.scan_row_hits(g.levels@[sel_level as int]@, k as int) == Some(
                        c,
                    ));
                }
                return Some(c);
            }
            proof {
                assert(!self.row_hit_ok(c as int));
            }
            k += 1;
        }
        proof {
            assert(self.scan_row_hits(g.levels@[sel_level as int]@, pos + 1) is None);
        }
        // No hit on the cursor's row; take the hit list below the cursor.
        let hids_opt = self.flamegraph.hit_ids();
        match hids_opt {
            Some(hids) => {
                let ghost hseq = hids@;
                let hn = hids.len();
                let mut j: usize = 0;
                while j < hn
                    invariant
                        g == self.flamegraph,
                        view_wf(*self),
                        self.state.search_pattern is Some,
                        sel == self.state.selected,
                        (sel as int) < g.stacks@.len(),
                        sel_level == g.stacks@[sel as int].level,
                        pos == row_position(g, sel as int),
                        self.scan_row_hits(g.levels@[sel_level as int]@, pos + 1) is None,
                        g.hits matches Some(h) && h.ids@ == hseq,
                        hids@ == hseq,
                        hn == hseq.len(),
                        j <= hn,
                        self.scan_deep_hits(hseq, 0, sel_level as int) == self.scan_deep_hits(
                            hseq,
                            j as int,
                            sel_level as int,
                        ),
                    decreases hn - j,
                {
                    let c = hids[j];
                    proof {
                        assert(hseq[j as int] == c);
                    }
                    if c < self.flamegraph.stacks.len() {
                        if self.flamegraph.stacks[c].level > sel_level
                            && self.is_stack_visibly_wide(c) {
                            proof {
                                assert(self.deep_hit_ok(c as int, sel_level as int));
                                assert(self.scan_deep_hits(hseq, j as int, sel_level as int)
                                    == Some(c));
                            }
                            return Some(c);
                        }
                    }
                    proof {
                        assert(!self.deep_hit_ok(c as int, sel_level as int));
                    }
                    j += 1;
                }
                None
            },
            None => None,
        }
    }

    /// The backward search step target.
    pub fn get_previous_hit(&self) -> (r: Option<StackIdentifier>)
        requires
            view_wf(*self),
        ensures
            r == self.previous_hit_spec(),
            r matches Some(t) ==> (t as int) < self.flamegraph.stacks@.len(),
    {
        let ghost g = self.flamegraph;
        if match &self.state.search_pattern {
            Some(_) => false,
            None => true,
        } {
            return None;
        }
        let sel = self.state.selected;
        let sel_level = self.flamegraph.stacks[sel].level;
        let pos = self.find_row_position(sel);
        let mut k: usize = pos;
        while k > 0
            invariant
                g == self.flamegraph,
                view_wf(*self),
                self.state.search_pattern is Some,
                sel == self.state.selected,
                (sel as int) < g.stacks@.len(),
                sel_level == g.stacks@[sel as int].level,
                pos == row_position(g, sel as int),
                (pos as int) < g.levels@[sel_level as int]@.len(),
                k <= pos,
                self.scan_row_hits_rev(g.levels@[sel_level as int]@, pos as int)
                    == self.scan_row_hits_rev(g.levels@[sel_level as int]@, k as int),
            decreases k,
        {
            let c = self.flamegraph.levels[sel_level][k - 1];
            proof {
                assert(levels_consistent(g.stacks@, g.levels@));
                assert((c as int) < g.stacks@.len());
                assert(g.levels@[sel_level as int]@[k - 1] == c);
            }
            if self.flamegraph.stacks[c].hit && self.is_stack_visibly_wide(c) {
                proof {
                    assert(self.row_hit_ok(c as int));
                    assert(self.scan_row_hits_rev(g.levels@[sel_level as int]@, k as int)
                        == Some(c));
                }
                return Some(c);
            }
            proof {
                assert(!self.row_hit_ok(c as int));
            }
            k -= 1;
        }
        proof {
            assert(self.scan_row_hits_rev(g.levels@[sel_level as int]@, pos as int) is None);
        }
        let hids_opt = self.flamegraph.hit_ids();
        match hids_opt {
            Some(hids) => {
                let ghost hseq = hids@;
                let hn = hids.len();
                let mut j: usize = hn;
                while j > 0
                    invariant
                        g == self.flamegraph,
                        view_wf(*self),
                        self.state.search_pattern is Some,
                        sel == self.state.selected,
                        (sel as int) < g.stacks@.len(),
                        sel_level == g.stacks@[sel as int].level,
                        pos == row_position(g, sel as int),
                        self.scan_row_hits_rev(g.levels@[sel_level as int]@, pos as int)
                            is None,
                        g.hits matches Some(h) && h.ids@ == hseq,
                        hids@ == hseq,
                        hn == hseq.len(),
                        j <= hn,
                        self.scan_shallow_hits_rev(hseq, hn as int, sel_level as int)
                            == self.scan_shallow_hits_rev(hseq, j as int, sel_level as int),
                    decreases j,
                {
                    let c = hids[j - 1];
                    proof {
                        assert(hseq[j - 1] == c);
                    }
                    if c < self.flamegraph.stacks.len() {
                        if self.flamegraph.stacks[c].level < sel_level
                            && self.is_stack_visibly_wide(c) {
                            proof {
                                assert(self.shallow_hit_ok(c as int, sel_level as int));
                                assert(self.scan_shallow_hits_rev(
                                    hseq,
                                    j as int,
                                    sel_level as int,
                                ) == Some(c));
                            }
                            return Some(c);
                        }
                    }
                    proof {
                        assert(!self.shallow_hit_ok(c as int, sel_level as int));
                    }
                    j -= 1;
                }
                None
            },
            None => None,
        }
    }

    /// Steps the cursor to the next search result and scrolls it into
    /// view.
    pub fn to_next_search_result(&mut self)
        requires
            view_wf(*old(self)),
        ensures
            view_wf(*final(self)),
            old(self).next_hit_spec() matches Some(t) ==> final(self).state.selected == t,
            old(self).next_hit_spec() is None ==> *final(self) == *old(self),
    {
        match self.get_next_hit() {
            Some(next_id) => {
                self.select_id(&next_id);
                self.scroll_to_selected();
            },
            None => {},
        }
    }

    /// Steps the cursor to the previous search result and scrolls it into
    /// view.
    pub fn to_previous_search_result(&mut self)
        requires
            view_wf(*old(self)),
        ensures
            view_wf(*final(self)),
            old(self).previous_hit_spec() matches Some(t) ==> final(self).state.selected == t,
            old(self).previous_hit_spec() is None ==> *final(self) == *old(self),
    {
        match self.get_previous_hit() {
            Some(previous_id) => {
                self.select_id(&previous_id);
                self.scroll_to_selected();
            },
            None => {},
        }
    }

    /// Swaps a freshly parsed tree in. Selection and zoom are re-resolved
    /// by full path, falling back to the root and no zoom; an active
    /// pattern is re-applied; the table keeps its sort column.
    pub fn replace_flamegraph(&mut self, new_flamegraph: FlameGraph)
        requires
            view_wf(*old(self)),
            new_flamegraph.well_formed(),
            new_flamegraph.hits is None,
        ensures
            view_wf(*final(self)),
            final(self).flamegraph.stacks@.len() == new_flamegraph.stacks@.len(),
            final(self).flamegraph.levels == new_flamegraph.levels,
            forall|i: int|
                0 <= i < final(self).flamegraph.stacks@.len() ==> {
                    let a = #[trigger] final(self).flamegraph.stacks@[i];
                    let b = new_flamegraph.stacks@[i];
                    &&& a.id == b.id
                    &&& a.short_name == b.short_name
                    &&& a.full_name == b.full_name
                    &&& a.total_count == b.total_count
                    &&& a.self_count == b.self_count
                    &&& a.parent == b.parent
                    &&& a.children == b.children
                    &&& a.level == b.level
                },
            final(self).flamegraph.ordered_stacks.sorted_column == old(self).flamegraph.ordered_stacks.sorted_column,
            // Path-based identity of the selection.
            old(self).state.selected != ROOT_ID && (exists|j: int|
                0 <= j < new_flamegraph.stacks@.len() && display_full_name(
                    new_flamegraph.stacks@,
                    j,
                ) == display_full_name(
                    old(self).flamegraph.stacks@,
                    old(self).state.selected as int,
                )) ==> display_full_name(
                final(self).flamegraph.stacks@,
                final(self).state.selected as int,
            ) == display_full_name(
                old(self).flamegraph.stacks@,
                old(self).state.selected as int,
            ),
            old(self).state.selected != ROOT_ID && (forall|j: int|
                0 <= j < new_flamegraph.stacks@.len() ==> display_full_name(
                    new_flamegraph.stacks@,
                    j,
                ) != display_full_name(
                    old(self).flamegraph.stacks@,
                    old(self).state.selected as int,
                )) ==> final(self).state.selected == ROOT_ID,
            old(self).state.selected == ROOT_ID ==> final(self).state.selected == ROOT_ID,
            // The pattern survives and is re-applied to the new tree.
            final(self).state.search_pattern == old(self).state.search_pattern,
            old(self).state.search_pattern matches Some(p) ==> forall|i: int|
                0 <= i < final(self).flamegraph.stacks@.len() ==> (#[trigger] final(self).flamegraph.stacks@[i]).hit == p.matches(new_flamegraph.stacks@[i].short_name@),
            old(self).state.search_pattern is None ==> forall|i: int|
                0 <= i < final(self).flamegraph.stacks@.len() ==> !(#[trigger] final(self).flamegraph.stacks@[i]).hit,
            // Zoom re-resolves by path with its sets re-derived against
            // the new tree; a vanished path, or one that now lands on the
            // sentinel root, clears it.
            old(self).state.zoom is None ==> final(self).state.zoom is None,
            old(self).state.zoom matches Some(z) && (exists|j: int|
                0 <= j < new_flamegraph.stacks@.len() && display_full_name(
                    new_flamegraph.stacks@,
                    j,
                ) == display_full_name(old(self).flamegraph.stacks@, z.stack_id as int))
                && display_full_name(old(self).flamegraph.stacks@, z.stack_id as int)
                != "all"@ ==> {
                &&& final(self).state.zoom matches Some(z2)
                &&& display_full_name(final(self).flamegraph.stacks@, z2.stack_id as int)
                    == display_full_name(
                    old(self).flamegraph.stacks@,
                    old(self).state.zoom->Some_0.stack_id as int,
                )
                &&& zoom_consistent(z2, final(self).flamegraph.stacks@)
            },
            old(self).state.zoom matches Some(z) && (forall|j: int|
                0 <= j < new_flamegraph.stacks@.len() ==> display_full_name(
                    new_flamegraph.stacks@,
                    j,
                ) != display_full_name(old(self).flamegraph.stacks@, z.stack_id as int))
                ==> final(self).state.zoom is None,
            final(self).state.freeze == old(self).state.freeze,
            final(self).state.view_kind == old(self).state.view_kind,
            final(self).state.table_state == old(self).state.table_state,
    {
        let mut new_fg = new_flamegraph;
        let col = self.flamegraph.ordered_stacks.sorted_column;
        self.state.handle_flamegraph_replacement(&self.flamegraph, &mut new_fg);
        new_fg.ordered_stacks.set_sort_column(col);
        proof {
            assert(crate::flame::graph_well_formed(new_fg));
        }
        self.flamegraph = new_fg;
        let zoom_target: Option<StackIdentifier> = match &self.state.zoom {
            Some(z) => Some(z.stack_id),
            None => None,
        };
        proof {
            assert(crate::flame::node_linked(self.flamegraph.stacks@, 0));
        }
        match zoom_target {
            Some(zid) => {
                if zid == ROOT_ID {
                    // A zoom that re-resolved to the root is simply gone.
                    self.state.unset_zoom();
                } else {
                    // The remapped zoom's sets are re-derived against the
                    // new tree: they never carry over.
                    self.set_zoom_for_id(zid);
                }
            },
            None => {},
        }
    }
}

/// The first visibly wide row entry after a position is unique.
pub proof fn lemma_first_visible_unique(
    g: FlameGraph,
    s: FlameGraphState,
    row: Seq<StackIdentifier>,
    lo: int,
    k1: int,
    k2: int,
)
    requires
        lo < k1 < row.len(),
        lo < k2 < row.len(),
        visibly_wide(g, s, row[k1] as int),
        visibly_wide(g, s, row[k2] as int),
        forall|m: int| lo < m < k1 ==> !visibly_wide(g, s, #[trigger] row[m] as int),
        forall|m: int| lo < m < k2 ==> !visibly_wide(g, s, #[trigger] row[m] as int),
    ensures
        k1 == k2,
{
}

/// Sibling symmetry: when the previous-sibling scan from `x` lands on `y`,
/// and `x` itself is visibly wide, the next-sibling scan from `y` lands
/// back on `x`. Together with the uniqueness of the first visible
/// neighbour, stepping left and then right returns to the start whenever
/// both steps are defined and no visibility filtering excludes either end.
pub proof fn lemma_sibling_symmetry(
    g: FlameGraph,
    s: FlameGraphState,
    x: int,
    y: StackIdentifier,
)
    requires
        g.well_formed(),
        0 <= x < g.stacks@.len(),
        visibly_wide(g, s, x),
        ({
            let row = g.levels@[g.stacks@[x].level as int]@;
            let pos = row_position(g, x);
            exists|k: int|
                {
                    &&& 0 <= k < pos
                    &&& row[k] == y
                    &&& visibly_wide(g, s, y as int)
                    &&& forall|m: int|
                        k < m < pos ==> !visibly_wide(g, s, #[trigger] row[m] as int)
                }
        }),
    ensures
        (y as int) < g.stacks@.len(),
        g.stacks@[y as int].level == g.stacks@[x].level,
        ({
            let row = g.levels@[g.stacks@[x].level as int]@;
            let posy = row_position(g, y as int);
            exists|k: int|
                {
                    &&& posy < k < row.len()
                    &&& row[k] == x as StackIdentifier
                    &&& visibly_wide(g, s, x)
                    &&& forall|m: int|
                        posy < m < k ==> !visibly_wide(g, s, #[trigger] row[m] as int)
                }
        }),
{
    let row = g.levels@[g.stacks@[x].level as int]@;
    let pos = row_position(g, x);
    lemma_row_position(g, x);
    let k = choose|k: int|
        {
            &&& 0 <= k < pos
            &&& row[k] == y
            &&& visibly_wide(g, s, y as int)
            &&& forall|m: int| k < m < pos ==> !visibly_wide(g, s, #[trigger] row[m] as int)
        };
    assert(levels_consistent(g.stacks@, g.levels@));
    assert((y as int) < g.stacks@.len());
    assert(g.stacks@[y as int].level == g.stacks@[x].level);
    // `y` sits in the same row, so its position is `k`.
    lemma_row_position(g, y as int);
    assert(row[row_position(g, y as int)] == y);
    let posy = row_position(g, y as int);
    assert(posy == k) by {
        if posy != k {
            assert(row[posy] == row[k]);
        }
    }
    // `x` is the first visibly wide entry after `k`.
    assert(row[pos] == x as StackIdentifier);
    assert(k < pos < row.len());
    assert(forall|m: int| posy < m < pos ==> !visibly_wide(g, s, #[trigger] row[m] as int));
}

/// What one rendering pass reports back to the view: the viewport size
/// that was actually drawn, and where the terminal cursor belongs while
/// the search line is edited.
pub struct FlamelensWidgetState {
    pub frame_height: u16,
    pub frame_width: u16,
    pub cursor_position: Option<(u16, u16)>,
}

impl Default for FlamelensWidgetState {
    fn default() -> (r: FlamelensWidgetState)
        ensures
            r.frame_height == 0,
            r.frame_width == 0,
            r.cursor_position is None,
    {
        FlamelensWidgetState { frame_height: 0, frame_width: 0, cursor_position: None }
    }
}

} // verus!
