//! Pure navigation state: cursor, scroll offset, zoom target, search
//! pattern, frozen flag and view mode. The state owns no tree; it refers to
//! nodes of one [`FlameGraph`] by index.
use vstd::prelude::*;

use crate::flame::{
    display_full_name, in_subtree, FlameGraph, StackIdentifier, StackInfo, ROOT_ID,
};
use crate::pattern::SearchPattern;

verus! {

/// An active zoom: the zoomed node and the precomputed sets of its
/// ancestors and descendants in the current tree.
pub struct ZoomState {
    pub stack_id: StackIdentifier,
    pub ancestors: Vec<StackIdentifier>,
    pub descendants: Vec<StackIdentifier>,
}

/// The zoom sets agree with the given arena.
pub open spec fn zoom_consistent(z: ZoomState, stacks: Seq<StackInfo>) -> bool {
    &&& (z.stack_id as int) < stacks.len()
    &&& forall|x: StackIdentifier|
        z.ancestors@.contains(x) <==> in_subtree(stacks, x as int, z.stack_id as int)
    &&& forall|x: StackIdentifier|
        z.descendants@.contains(x) <==> in_subtree(stacks, z.stack_id as int, x as int)
}

/// Membership scan over a list of indices.
pub fn contains_id(v: &Vec<StackIdentifier>, x: StackIdentifier) -> (r: bool)
    ensures
        r == v@.contains(x),
{
    let n = v.len();
    let mut i: usize = 0;
    while i < n
        invariant
            n == v@.len(),
            i <= n,
            forall|j: int| 0 <= j < i ==> v@[j] != x,
        decreases n - i,
    {
        if v[i] == x {
            return true;
        }
        i += 1;
    }
    proof {
        if v@.contains(x) {
            let j = choose|j: int| 0 <= j < v@.len() && v@[j] == x;
        }
    }
    false
}

impl ZoomState {
    /// Whether `stack_id` lies on the zoomed path: an ancestor or a
    /// descendant of the zoom target.
    pub fn is_ancestor_or_descendant(&self, stack_id: &StackIdentifier) -> (r: bool)
        ensures
            r == (self.ancestors@.contains(*stack_id) || self.descendants@.contains(
                *stack_id,
            )),
    {
        contains_id(&self.ancestors, *stack_id) || contains_id(&self.descendants, *stack_id)
    }
}

#[derive(Clone, Copy, PartialEq, Eq, Structural)]
pub enum ViewKind {
    FlameGraph,
    Table,
}

/// Cursor and scroll offset of the ranked-table view.
pub struct TableState {
    pub selected: usize,
    pub offset: usize,
}

impl TableState {
    pub fn reset(&mut self)
        ensures
            final(self).selected == 0,
            final(self).offset == 0,
    {
        self.selected = 0;
        self.offset = 0;
    }
}

impl Default for TableState {
    fn default() -> (r: TableState)
        ensures
            r.selected == 0,
            r.offset == 0,
    {
        TableState { selected: 0, offset: 0 }
    }
}

/// All navigation state of the flamegraph view.
pub struct FlameGraphState {
    pub selected: StackIdentifier,
    pub level_offset: usize,
    pub frame_height: Option<u16>,
    pub frame_width: Option<u16>,
    pub zoom: Option<ZoomState>,
    pub search_pattern: Option<SearchPattern>,
    pub freeze: bool,
    pub view_kind: ViewKind,
    pub table_state: TableState,
}

/// The parts of the state that point into a tree point at real nodes of
/// `g`, and an installed pattern is a compiled one.
pub open spec fn state_consistent(s: FlameGraphState, g: FlameGraph) -> bool {
    &&& (s.selected as int) < g.stacks@.len()
    &&& (s.zoom matches Some(z) ==> zoom_consistent(z, g.stacks@))
    &&& (s.search_pattern matches Some(p) ==> p.wf())
}

impl Default for FlameGraphState {
    fn default() -> (r: FlameGraphState)
        ensures
            r.selected == ROOT_ID,
            r.level_offset == 0,
            r.frame_height is None,
            r.frame_width is None,
            r.zoom is None,
            r.search_pattern is None,
            !r.freeze,
            r.view_kind is FlameGraph,
            r.table_state.selected == 0,
            r.table_state.offset == 0,
    {
        FlameGraphState {
            selected: ROOT_ID,
            level_offset: 0,
            frame_height: None,
            frame_width: None,
            zoom: None,
            search_pattern: None,
            freeze: false,
            view_kind: ViewKind::FlameGraph,
            table_state: TableState { selected: 0, offset: 0 },
        }
    }
}

impl FlameGraphState {
    pub fn select_root(&mut self)
        ensures
            *final(self) == (FlameGraphState { selected: ROOT_ID, ..*old(self) }),
    {
        self.selected = ROOT_ID;
    }

    pub fn select_id(&mut self, stack_id: &StackIdentifier)
        ensures
            *final(self) == (FlameGraphState { selected: *stack_id, ..*old(self) }),
    {
        self.selected = *stack_id;
    }

    pub fn set_zoom(&mut self, zoom: ZoomState)
        ensures
            final(self).zoom matches Some(z) && z == zoom,
            *final(self) == (FlameGraphState { zoom: final(self).zoom, ..*old(self) }),
    {
        self.zoom = Some(zoom);
    }

    pub fn unset_zoom(&mut self)
        ensures
            *final(self) == (FlameGraphState { zoom: None, ..*old(self) }),
    {
        self.zoom = None;
    }

    pub fn set_search_pattern(&mut self, search_pattern: SearchPattern)
        ensures
            final(self).search_pattern matches Some(p) && p == search_pattern,
            *final(self) == (FlameGraphState {
                search_pattern: final(self).search_pattern,
                ..*old(self)
            }),
    {
        self.search_pattern = Some(search_pattern);
    }

    pub fn unset_search_pattern(&mut self)
        ensures
            *final(self) == (FlameGraphState { search_pattern: None, ..*old(self) }),
    {
        self.search_pattern = None;
    }

    pub fn toggle_freeze(&mut self)
        ensures
            *final(self) == (FlameGraphState { freeze: !old(self).freeze, ..*old(self) }),
    {
        self.freeze = !self.freeze;
    }

    pub fn toggle_view_kind(&mut self)
        ensures
            final(self).view_kind == (if old(self).view_kind is FlameGraph {
                ViewKind::Table
            } else {
                ViewKind::FlameGraph
            }),
            *final(self) == (FlameGraphState {
                view_kind: final(self).view_kind,
                ..*old(self)
            }),
    {
        self.view_kind = match self.view_kind {
            ViewKind::FlameGraph => ViewKind::Table,
            ViewKind::Table => ViewKind::FlameGraph,
        };
    }

    /// The index in `new_g` of the node that carries the same full path as
    /// `stack_id` does in `old_g`.
    fn get_new_stack_id(
        stack_id: &StackIdentifier,
        old_g: &FlameGraph,
        new_g: &FlameGraph,
    ) -> (r: Option<StackIdentifier>)
        requires
            crate::flame::stacks_well_formed(new_g.stacks@),
        ensures
            match r {
                Some(id) => {
                    &&& (*stack_id as int) < old_g.stacks@.len()
                    &&& (id as int) < new_g.stacks@.len()
                    &&& display_full_name(new_g.stacks@, id as int) == display_full_name(
                        old_g.stacks@,
                        *stack_id as int,
                    )
                },
                None => (*stack_id as int) < old_g.stacks@.len() ==> forall|j: int|
                    0 <= j < new_g.stacks@.len() ==> display_full_name(new_g.stacks@, j)
                        != display_full_name(old_g.stacks@, *stack_id as int),
            },
    {
        match old_g.get_stack(stack_id) {
            Some(stack) => {
                let name = old_g.get_stack_full_name_from_info(stack);
                new_g.get_stack_id_by_full_name(name)
            },
            None => None,
        }
    }

    /// Re-points the selection and the zoom target into a freshly parsed
    /// tree, by full path; what no longer resolves falls back to the root
    /// or to no zoom. An active pattern is re-applied so hit state is never
    /// stale.
    pub fn handle_flamegraph_replacement(&mut self, old_g: &FlameGraph, new_g: &mut FlameGraph)
        requires
            old(new_g).well_formed(),
            old(self).search_pattern matches Some(p) ==> p.wf(),
        ensures
            final(new_g).well_formed(),
            final(new_g).stacks@.len() == old(new_g).stacks@.len(),
            final(new_g).levels == old(new_g).levels,
            forall|i: int|
                0 <= i < final(new_g).stacks@.len() ==> {
                    let a = #[trigger] final(new_g).stacks@[i];
                    let b = old(new_g).stacks@[i];
                    &&& a.id == b.id
                    &&& a.short_name == b.short_name
                    &&& a.full_name == b.full_name
                    &&& a.total_count == b.total_count
                    &&& a.self_count == b.self_count
                    &&& a.parent == b.parent
                    &&& a.children == b.children
                    &&& a.level == b.level
                },
            (final(self).selected as int) < final(new_g).stacks@.len(),
            // Path-based identity: the old selection's path decides the new one.
            old(self).selected != ROOT_ID && (old(self).selected as int) < old_g.stacks@.len()
                && (exists|j: int|
                0 <= j < old(new_g).stacks@.len() && display_full_name(old(new_g).stacks@, j)
                    == display_full_name(old_g.stacks@, old(self).selected as int)) ==> {
                &&& display_full_name(final(new_g).stacks@, final(self).selected as int)
                    == display_full_name(old_g.stacks@, old(self).selected as int)
            },
            old(self).selected != ROOT_ID && ((old(self).selected as int) >= old_g.stacks@.len()
                || (forall|j: int|
                0 <= j < old(new_g).stacks@.len() ==> display_full_name(old(new_g).stacks@, j)
                    != display_full_name(old_g.stacks@, old(self).selected as int)))
                ==> final(self).selected == ROOT_ID,
            old(self).selected == ROOT_ID ==> final(self).selected == ROOT_ID,
            // The zoom re-resolves by path exactly as the selection does,
            // and is cleared when the path is gone.
            final(self).zoom is Some ==> old(self).zoom is Some,
            final(self).zoom matches Some(z) ==> (z.stack_id as int) < final(new_g).stacks@.len(),
            old(self).zoom is None ==> final(self).zoom is None,
            old(self).zoom matches Some(z) && (z.stack_id as int) < old_g.stacks@.len() && (
            exists|j: int|
                0 <= j < old(new_g).stacks@.len() && display_full_name(old(new_g).stacks@, j)
                    == display_full_name(old_g.stacks@, z.stack_id as int)) ==> {
                &&& final(self).zoom matches Some(z2)
                &&& display_full_name(final(new_g).stacks@, z2.stack_id as int)
                    == display_full_name(
                    old_g.stacks@,
                    old(self).zoom->Some_0.stack_id as int,
                )
            },
            old(self).zoom matches Some(z) && ((z.stack_id as int) >= old_g.stacks@.len() || (
            forall|j: int|
                0 <= j < old(new_g).stacks@.len() ==> display_full_name(old(new_g).stacks@, j)
                    != display_full_name(old_g.stacks@, z.stack_id as int))) ==> final(self).zoom is None,
            // Everything else is untouched; the pattern is re-applied.
            final(self).search_pattern == old(self).search_pattern,
            final(self).level_offset == old(self).level_offset,
            final(self).frame_height == old(self).frame_height,
            final(self).frame_width == old(self).frame_width,
            final(self).freeze == old(self).freeze,
            final(self).view_kind == old(self).view_kind,
            final(self).table_state == old(self).table_state,
            old(self).search_pattern is None ==> final(new_g).hits == old(new_g).hits,
            old(self).search_pattern matches Some(p) ==> {
                &&& final(new_g).hits is Some
                &&& forall|i: int|
                    0 <= i < final(new_g).stacks@.len() ==> (
                    #[trigger] final(new_g).stacks@[i]).hit == p.matches(
                        old(new_g).stacks@[i].short_name@,
                    )
            },
            old(self).search_pattern is None ==> forall|i: int|
                0 <= i < final(new_g).stacks@.len() ==> (#[trigger] final(new_g).stacks@[i]).hit
                    == old(new_g).stacks@[i].hit,
    {
        if self.selected != ROOT_ID {
            match Self::get_new_stack_id(&self.selected, old_g, new_g) {
                Some(new_stack_id) => {
                    self.selected = new_stack_id;
                },
                None => {
                    self.select_root();
                },
            }
        }
        let zoom_target: Option<StackIdentifier> = match &self.zoom {
            Some(z) => Some(z.stack_id),
            None => None,
        };
        match zoom_target {
            Some(zid) => {
                match Self::get_new_stack_id(&zid, old_g, new_g) {
                    Some(new_stack_id) => {
                        let ancestors: Vec<StackIdentifier> = Vec::new();
                        let descendants: Vec<StackIdentifier> = Vec::new();
                        // The sets are stale here; the caller re-derives them
                        // against the new tree right after the swap.
                        self.zoom = Some(
                            ZoomState { stack_id: new_stack_id, ancestors, descendants },
                        );
                    },
                    None => {
                        self.unset_zoom();
                    },
                }
            },
            None => {},
        }
        let pat: Option<&SearchPattern> = match &self.search_pattern {
            Some(p) => Some(p),
            None => None,
        };
        match pat {
            Some(p) => {
                new_g.set_hits(p);
            },
            None => {},
        }
    }
}

} // verus!
