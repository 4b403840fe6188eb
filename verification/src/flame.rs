//! Flamegraph data model: an arena-indexed tree of stack frames parsed from
//! collapsed-stack text, together with per-depth rows, a ranked table of
//! per-name counts, and search-hit bookkeeping.
use vstd::prelude::*;

use crate::pattern::SearchPattern;
use crate::strings::{lex_lt, str_eq};

verus! {

broadcast use vstd::seq_lib::group_to_multiset_ensures, vstd::multiset::group_multiset_axioms;

/// Identity of a node inside one `FlameGraph` arena. Never meaningful
/// across two different arenas.
pub type StackIdentifier = usize;

/// Index of the synthetic root node.
pub const ROOT_ID: usize = 0;

/// One node of the tree. The root (index 0) is synthetic: its raw names are
/// empty and the display accessors substitute the sentinel name.
pub struct StackInfo {
    pub id: StackIdentifier,
    /// Frame name as it appeared in the input; empty for the root.
    pub short_name: String,
    /// Semicolon-joined path from the first frame; empty for the root.
    pub full_name: String,
    pub total_count: u64,
    pub self_count: u64,
    pub parent: Option<StackIdentifier>,
    pub children: Vec<StackIdentifier>,
    pub level: usize,
    pub hit: bool,
}

/// Aggregate counts for one distinct frame name.
pub struct Count {
    pub total: u64,
    pub own: u64,
}

/// One row of the ranked-by-count table.
pub struct CountEntry {
    pub name: String,
    pub count: Count,
    pub visible: bool,
}

#[derive(Clone, Copy, PartialEq, Eq, Structural)]
pub enum SortColumn {
    Total,
    Own,
}

/// The ranked table: one entry per distinct frame name, ordered by the
/// active sort column (descending, ties by name ascending).
pub struct Ordered {
    pub entries: Vec<CountEntry>,
    pub num_rows: usize,
    pub sorted_column: SortColumn,
    pub search_pattern_ignored_because_of_no_match: bool,
}

/// Search results: the aggregate coverage count and the hit node indices in
/// level-major order.
pub struct Hits {
    pub coverage_count: u64,
    pub ids: Vec<StackIdentifier>,
}

/// The flamegraph tree.
pub struct FlameGraph {
    pub stacks: Vec<StackInfo>,
    pub levels: Vec<Vec<StackIdentifier>>,
    pub ordered_stacks: Ordered,
    pub hits: Option<Hits>,
    pub sorted: bool,
}

// ---------------------------------------------------------------------------
// Well-formedness of the arena
// ---------------------------------------------------------------------------

/// Sum of `total_count` over the listed nodes.
pub open spec fn sum_totals(stacks: Seq<StackInfo>, cs: Seq<StackIdentifier>) -> int
    decreases cs.len(),
{
    if cs.len() == 0 {
        0
    } else {
        sum_totals(stacks, cs.drop_last()) + stacks[cs.last() as int].total_count
    }
}

/// Structural facts about node `i`: identity, parent/child links, level and
/// name composition. Counts are covered separately by [`node_conserved`].
pub open spec fn node_linked(stacks: Seq<StackInfo>, i: int) -> bool {
    let n = stacks[i];
    &&& n.id == i
    &&& (i == 0 ==> {
        &&& n.parent is None
        &&& n.level == 0
        &&& n.short_name@.len() == 0
        &&& n.full_name@.len() == 0
    })
    &&& (i != 0 ==> {
        let p = n.parent->Some_0 as int;
        &&& n.parent is Some
        &&& 0 <= p < i
        &&& n.level == stacks[p].level + 1
        &&& stacks[p].children@.contains(i as StackIdentifier)
        &&& !n.short_name@.contains(';')
        &&& n.full_name@ == if p == 0 {
            n.short_name@
        } else {
            stacks[p].full_name@ + seq![';'] + n.short_name@
        }
    })
    &&& forall|k: int|
        0 <= k < n.children@.len() ==> {
            let c = #[trigger] n.children@[k] as int;
            &&& i < c < stacks.len()
            &&& stacks[c].parent == Some(i as StackIdentifier)
        }
    &&& forall|k1: int, k2: int|
        0 <= k1 < k2 < n.children@.len() ==> n.children@[k1] != n.children@[k2]
}

/// A node's total count is its self count plus its children's totals.
pub open spec fn node_conserved(stacks: Seq<StackInfo>, i: int) -> bool {
    stacks[i].total_count == stacks[i].self_count + sum_totals(stacks, stacks[i].children@)
}

/// The arena is a well-formed tree rooted at index 0 with exact counts.
pub open spec fn stacks_well_formed(stacks: Seq<StackInfo>) -> bool {
    &&& 1 <= stacks.len() <= usize::MAX
    &&& forall|i: int| 0 <= i < stacks.len() ==> #[trigger] node_linked(stacks, i)
    &&& forall|i: int| 0 <= i < stacks.len() ==> #[trigger] node_conserved(stacks, i)
}

// ---------------------------------------------------------------------------
// Derived tree notions
// ---------------------------------------------------------------------------

/// The chain of indices from `i` up to the root, `i` first. Outside a
/// well-formed arena the walk stops at the first broken link.
pub open spec fn ancestor_chain(stacks: Seq<StackInfo>, i: int) -> Seq<StackIdentifier>
    decreases i,
{
    if 0 < i < stacks.len() && stacks[i].parent is Some && 0 <= stacks[i].parent->Some_0 < i {
        seq![i as StackIdentifier] + ancestor_chain(stacks, stacks[i].parent->Some_0 as int)
    } else {
        seq![i as StackIdentifier]
    }
}

/// `d` lies in the subtree rooted at `a` (including `a` itself).
pub open spec fn in_subtree(stacks: Seq<StackInfo>, a: int, d: int) -> bool {
    0 <= d < stacks.len() && ancestor_chain(stacks, d).contains(a as StackIdentifier)
}

/// All entries of a sequence are distinct.
pub open spec fn all_distinct(s: Seq<StackIdentifier>) -> bool {
    forall|k1: int, k2: int| 0 <= k1 < k2 < s.len() ==> s[k1] != s[k2]
}

/// The depth-first pre-order of the subtree rooted at `i`: the node first,
/// then each child's subtree in the stored child order.
pub open spec fn preorder(stacks: Seq<StackInfo>, i: int) -> Seq<StackIdentifier>
    decreases stacks.len() - i, stacks[i].children@.len() + 1 when 0 <= i < stacks.len()
{
    seq![i as StackIdentifier] + preorder_children(stacks, stacks[i].children@, i)
}

/// Pre-order of the subtrees of `cs`, a prefix of the child list of `i`.
pub open spec fn preorder_children(
    stacks: Seq<StackInfo>,
    cs: Seq<StackIdentifier>,
    i: int,
) -> Seq<StackIdentifier>
    decreases stacks.len() - i, cs.len() when 0 <= i < stacks.len()
{
    if cs.len() == 0 {
        Seq::empty()
    } else if node_linked(stacks, i) && cs.len() <= stacks[i].children@.len() && cs
        =~= stacks[i].children@.subrange(0, cs.len() as int) {
        preorder_children(stacks, cs.drop_last(), i) + preorder(stacks, cs.last() as int)
    } else {
        Seq::empty()
    }
}

/// Membership in a sequence with one element prepended.
pub proof fn lemma_cons_contains(h: StackIdentifier, t: Seq<StackIdentifier>, e: StackIdentifier)
    ensures
        (seq![h] + t).contains(e) <==> (e == h || t.contains(e)),
{
    if (seq![h] + t).contains(e) {
        let k = choose|k: int| 0 <= k < (seq![h] + t).len() && (seq![h] + t)[k] == e;
        if k != 0 {
            assert(t[k - 1] == e);
            assert(t.contains(e));
        }
    }
    if e == h {
        assert((seq![h] + t)[0] == e);
        assert((seq![h] + t).contains(e));
    }
    if t.contains(e) {
        let k = choose|k: int| 0 <= k < t.len() && t[k] == e;
        assert((seq![h] + t)[k + 1] == e);
        assert((seq![h] + t).contains(e));
    }
}

/// Every ancestor of a node has an index no larger than the node's own.
pub proof fn lemma_chain_bounds(stacks: Seq<StackInfo>, x: int)
    requires
        stacks_well_formed(stacks),
        0 <= x < stacks.len(),
    ensures
        forall|a: StackIdentifier| ancestor_chain(stacks, x).contains(a) ==> a <= x,
        ancestor_chain(stacks, x).contains(x as StackIdentifier),
    decreases x,
{
    assert(node_linked(stacks, x));
    if x > 0 {
        let p = stacks[x].parent->Some_0 as int;
        let tail = ancestor_chain(stacks, p);
        assert(ancestor_chain(stacks, x) == seq![x as StackIdentifier] + tail);
        lemma_chain_bounds(stacks, p);
        assert forall|a: StackIdentifier| ancestor_chain(stacks, x).contains(a) implies a
            <= x by {
            lemma_cons_contains(x as StackIdentifier, tail, a);
        }
        lemma_cons_contains(x as StackIdentifier, tail, x as StackIdentifier);
    } else {
        assert(ancestor_chain(stacks, 0) == seq![0 as StackIdentifier]);
        assert(ancestor_chain(stacks, 0)[0] == 0 as StackIdentifier);
    }
}

/// Being in a subtree steps down through the parent: a strict ancestor of
/// `x` is an ancestor of `x`'s parent, and has a smaller index.
pub proof fn lemma_subtree_parent_step(stacks: Seq<StackInfo>, c: int, x: int)
    requires
        stacks_well_formed(stacks),
        0 <= c < stacks.len(),
        in_subtree(stacks, c, x),
        c != x,
    ensures
        x > 0,
        in_subtree(stacks, c, stacks[x].parent->Some_0 as int),
        c < x,
{
    assert(node_linked(stacks, x));
    if x == 0 {
        assert(ancestor_chain(stacks, 0) == seq![0 as StackIdentifier]);
        let k = choose|k: int|
            0 <= k < ancestor_chain(stacks, 0).len() && ancestor_chain(stacks, 0)[k]
                == c as StackIdentifier;
        assert(c == 0);
    } else {
        let p = stacks[x].parent->Some_0 as int;
        let tail = ancestor_chain(stacks, p);
        assert(ancestor_chain(stacks, x) == seq![x as StackIdentifier] + tail);
        lemma_cons_contains(x as StackIdentifier, tail, c as StackIdentifier);
        assert(tail.contains(c as StackIdentifier));
        lemma_chain_bounds(stacks, p);
    }
}

/// Ancestry is transitive: everything above `a` is above `x` as well.
pub proof fn lemma_chain_trans(stacks: Seq<StackInfo>, x: int, a: int)
    requires
        stacks_well_formed(stacks),
        0 <= x < stacks.len(),
        0 <= a < stacks.len(),
        in_subtree(stacks, a, x),
    ensures
        forall|b: StackIdentifier|
            ancestor_chain(stacks, a).contains(b) ==> ancestor_chain(stacks, x).contains(b),
    decreases x,
{
    assert(node_linked(stacks, x));
    if a == x {
    } else {
        lemma_subtree_parent_step(stacks, a, x);
        let p = stacks[x].parent->Some_0 as int;
        let tail = ancestor_chain(stacks, p);
        assert(ancestor_chain(stacks, x) == seq![x as StackIdentifier] + tail);
        lemma_chain_trans(stacks, p, a);
        assert forall|b: StackIdentifier|
            ancestor_chain(stacks, a).contains(b) implies ancestor_chain(stacks, x).contains(
            b,
        ) by {
            assert(tail.contains(b));
            lemma_cons_contains(x as StackIdentifier, tail, b);
        }
    }
}

/// A member of the subtree of a child of `i` is in the subtree of `i`.
pub proof fn lemma_subtree_child_up(stacks: Seq<StackInfo>, i: int, c: int, x: int)
    requires
        stacks_well_formed(stacks),
        0 <= i < stacks.len(),
        0 <= c < stacks.len(),
        stacks[c].parent == Some(i as StackIdentifier),
        in_subtree(stacks, c, x),
    ensures
        in_subtree(stacks, i, x),
{
    assert(node_linked(stacks, c));
    assert(c != 0);
    let tail = ancestor_chain(stacks, i);
    assert(ancestor_chain(stacks, c) == seq![c as StackIdentifier] + tail);
    lemma_chain_bounds(stacks, i);
    lemma_cons_contains(c as StackIdentifier, tail, i as StackIdentifier);
    assert(in_subtree(stacks, i, c));
    lemma_chain_trans(stacks, x, c);
}

/// A strict subtree member is reached through one of the children.
pub proof fn lemma_subtree_via_child(stacks: Seq<StackInfo>, i: int, x: int)
    requires
        stacks_well_formed(stacks),
        0 <= i < stacks.len(),
        in_subtree(stacks, i, x),
        x != i,
    ensures
        exists|k: int|
            0 <= k < stacks[i].children@.len() && in_subtree(
                stacks,
                #[trigger] stacks[i].children@[k] as int,
                x,
            ),
    decreases x,
{
    lemma_subtree_parent_step(stacks, i, x);
    let p = stacks[x].parent->Some_0 as int;
    assert(node_linked(stacks, x));
    if p == i {
        let k = choose|k: int|
            0 <= k < stacks[i].children@.len() && stacks[i].children@[k] == x as StackIdentifier;
        lemma_chain_bounds(stacks, x);
        assert(in_subtree(stacks, stacks[i].children@[k] as int, x));
    } else {
        lemma_subtree_via_child(stacks, i, p);
        let k = choose|k: int|
            0 <= k < stacks[i].children@.len() && in_subtree(
                stacks,
                #[trigger] stacks[i].children@[k] as int,
                p,
            );
        let c = stacks[i].children@[k] as int;
        let tail = ancestor_chain(stacks, p);
        assert(ancestor_chain(stacks, x) == seq![x as StackIdentifier] + tail);
        lemma_cons_contains(x as StackIdentifier, tail, c as StackIdentifier);
        assert(in_subtree(stacks, c, x));
    }
}

/// Subtrees hanging off distinct siblings are disjoint.
pub proof fn lemma_sibling_subtrees_disjoint(stacks: Seq<StackInfo>, c1: int, c2: int, x: int)
    requires
        stacks_well_formed(stacks),
        0 <= c1 < stacks.len(),
        0 <= c2 < stacks.len(),
        stacks[c1].parent == stacks[c2].parent,
        stacks[c1].parent is Some,
        c1 != c2,
        in_subtree(stacks, c1, x),
    ensures
        !in_subtree(stacks, c2, x),
    decreases x,
{
    let i = stacks[c1].parent->Some_0 as int;
    assert(node_linked(stacks, c1));
    assert(node_linked(stacks, c2));
    if x == c1 {
        if in_subtree(stacks, c2, c1) {
            let tail = ancestor_chain(stacks, i);
            assert(ancestor_chain(stacks, c1) == seq![c1 as StackIdentifier] + tail);
            lemma_cons_contains(c1 as StackIdentifier, tail, c2 as StackIdentifier);
            assert(tail.contains(c2 as StackIdentifier));
            lemma_chain_bounds(stacks, i);
            assert(c2 <= i);
            assert(i < c2);
        }
    } else if x == c2 {
        let tail = ancestor_chain(stacks, i);
        assert(ancestor_chain(stacks, c2) == seq![c2 as StackIdentifier] + tail);
        lemma_cons_contains(c2 as StackIdentifier, tail, c1 as StackIdentifier);
        assert(tail.contains(c1 as StackIdentifier));
        lemma_chain_bounds(stacks, i);
        assert(c1 <= i);
        assert(i < c1);
    } else {
        lemma_subtree_parent_step(stacks, c1, x);
        let p = stacks[x].parent->Some_0 as int;
        if in_subtree(stacks, c2, x) {
            lemma_subtree_parent_step(stacks, c2, x);
            lemma_sibling_subtrees_disjoint(stacks, c1, c2, p);
        }
    }
}

// ---------------------------------------------------------------------------
// Per-depth rows
// ---------------------------------------------------------------------------

/// The rows list exactly the nodes of each depth, each once, and no row is
/// empty.
pub open spec fn levels_consistent(stacks: Seq<StackInfo>, levels: Seq<Vec<StackIdentifier>>) -> bool {
    &&& forall|l: int, k: int|
        0 <= l < levels.len() && 0 <= k < levels[l]@.len() ==> {
            let id = #[trigger] levels[l]@[k] as int;
            &&& 0 <= id < stacks.len()
            &&& stacks[id].level == l
        }
    &&& forall|i: int|
        0 <= i < stacks.len() ==> {
            &&& (#[trigger] stacks[i].level) < levels.len()
            &&& levels[stacks[i].level as int]@.contains(i as StackIdentifier)
        }
    &&& forall|l: int, k1: int, k2: int|
        0 <= l < levels.len() && 0 <= k1 < k2 < levels[l]@.len() ==> levels[l]@[k1]
            != levels[l]@[k2]
    &&& forall|l: int| 0 <= l < levels.len() ==> (#[trigger] levels[l]@.len()) > 0
}

pub open spec fn levels_well_formed(g: FlameGraph) -> bool {
    levels_consistent(g.stacks@, g.levels@)
}

// ---------------------------------------------------------------------------
// Ranked table
// ---------------------------------------------------------------------------

/// Strict "comes before" order of table rows: by the active column
/// descending, ties broken by name ascending.
pub open spec fn entry_before(a: CountEntry, b: CountEntry, col: SortColumn) -> bool {
    let ka = if col is Total {
        a.count.total
    } else {
        a.count.own
    };
    let kb = if col is Total {
        b.count.total
    } else {
        b.count.own
    };
    ka > kb || (ka == kb && lex_lt(a.name@, b.name@))
}

/// How many table rows are visible.
pub open spec fn visible_count(entries: Seq<CountEntry>) -> int
    decreases entries.len(),
{
    if entries.len() == 0 {
        0
    } else {
        visible_count(entries.drop_last()) + (if entries.last().visible {
            1int
        } else {
            0int
        })
    }
}

/// The table rows carry distinct names, are sorted by the active column, and
/// `num_rows` counts the visible rows.
pub open spec fn ordered_well_formed(o: Ordered) -> bool {
    &&& forall|i: int, j: int|
        0 <= i < j < o.entries@.len()
            ==> (#[trigger] o.entries@[i]).name@ != (#[trigger] o.entries@[j]).name@
    &&& forall|i: int, j: int|
        0 <= i < j < o.entries@.len()
            ==> entry_before(#[trigger] o.entries@[i], #[trigger] o.entries@[j], o.sorted_column)
    &&& o.num_rows == visible_count(o.entries@)
}

// ---------------------------------------------------------------------------
// Search hits
// ---------------------------------------------------------------------------

/// Samples attributable to hit nodes below `i`: a hit node contributes its
/// whole total and its subtree is not counted further.
pub open spec fn coverage(stacks: Seq<StackInfo>, i: int) -> int
    decreases stacks.len() - i, stacks[i].children@.len() + 1 when 0 <= i < stacks.len()
{
    if stacks[i].hit {
        stacks[i].total_count as int
    } else {
        coverage_of_list(stacks, stacks[i].children@, i)
    }
}

/// Coverage summed over `cs`, a prefix of the child list of node `i`.
pub open spec fn coverage_of_list(stacks: Seq<StackInfo>, cs: Seq<StackIdentifier>, i: int) -> int
    decreases stacks.len() - i, cs.len() when 0 <= i < stacks.len()
{
    if cs.len() == 0 {
        0
    } else if node_linked(stacks, i) && cs.len() <= stacks[i].children@.len() && cs
        =~= stacks[i].children@.subrange(0, cs.len() as int) {
        coverage_of_list(stacks, cs.drop_last(), i) + coverage(stacks, cs.last() as int)
    } else {
        0
    }
}

/// The hit entries of one row, in row order.
pub open spec fn hits_in_row(stacks: Seq<StackInfo>, row: Seq<StackIdentifier>) -> Seq<
    StackIdentifier,
>
    decreases row.len(),
{
    if row.len() == 0 {
        Seq::empty()
    } else {
        hits_in_row(stacks, row.drop_last()) + (if row.last() < stacks.len() && stacks[row.last() as int].hit {
            seq![row.last()]
        } else {
            Seq::empty()
        })
    }
}

/// The hit entries of a list of rows, rows first.
pub open spec fn hits_in_rows(stacks: Seq<StackInfo>, rows: Seq<Vec<StackIdentifier>>) -> Seq<
    StackIdentifier,
>
    decreases rows.len(),
{
    if rows.len() == 0 {
        Seq::empty()
    } else {
        hits_in_rows(stacks, rows.drop_last()) + hits_in_row(stacks, rows.last()@)
    }
}

/// The hit node indices in level-major order (rows first, then position).
pub open spec fn hit_ids_in_level_order(g: FlameGraph) -> Seq<StackIdentifier> {
    hits_in_rows(g.stacks@, g.levels@)
}

/// Global well-formedness of a flamegraph value.
pub open spec fn graph_well_formed(g: FlameGraph) -> bool {
    &&& stacks_well_formed(g.stacks@)
    &&& levels_well_formed(g)
    &&& ordered_well_formed(g.ordered_stacks)
    &&& (g.hits is None ==> forall|i: int|
        0 <= i < g.stacks@.len() ==> !(#[trigger] g.stacks@[i].hit))
    &&& (g.hits matches Some(h) ==> {
        &&& h.coverage_count == coverage(g.stacks@, 0)
        &&& h.ids@ == hit_ids_in_level_order(g)
    })
}

// ---------------------------------------------------------------------------
// Display names
// ---------------------------------------------------------------------------

/// What the accessors show for node `i`: the sentinel for the root, the raw
/// frame name otherwise.
pub open spec fn display_short_name(stacks: Seq<StackInfo>, i: int) -> Seq<char> {
    if stacks[i].id == 0 {
        "all"@
    } else {
        stacks[i].short_name@
    }
}

/// The displayed full path of node `i`.
pub open spec fn display_full_name(stacks: Seq<StackInfo>, i: int) -> Seq<char> {
    if stacks[i].id == 0 {
        "all"@
    } else {
        stacks[i].full_name@
    }
}

impl FlameGraph {
    /// Shorthand for the arena contents.
    pub open spec fn arena(self) -> Seq<StackInfo> {
        self.stacks@
    }

    pub open spec fn well_formed(self) -> bool {
        graph_well_formed(self)
    }

    pub open spec fn root_total(self) -> int {
        self.stacks@[0].total_count as int
    }

    pub fn get_stack(&self, stack_id: &StackIdentifier) -> (r: Option<&StackInfo>)
        ensures
            *stack_id < self.stacks@.len() ==> r == Some(&self.stacks@[*stack_id as int]),
            *stack_id >= self.stacks@.len() ==> r is None,
    {
        if *stack_id < self.stacks.len() {
            Some(&self.stacks[*stack_id])
        } else {
            None
        }
    }

    pub fn root(&self) -> (r: &StackInfo)
        requires
            self.stacks@.len() >= 1,
        ensures
            r == &self.stacks@[0],
    {
        &self.stacks[0]
    }

    pub fn total_count(&self) -> (r: u64)
        requires
            self.stacks@.len() >= 1,
        ensures
            r == self.root_total(),
    {
        self.stacks[0].total_count
    }

    pub fn get_num_levels(&self) -> (r: usize)
        ensures
            r == self.levels@.len(),
    {
        self.levels.len()
    }

    pub fn get_stacks_at_level(&self, level: usize) -> (r: Option<&Vec<StackIdentifier>>)
        ensures
            level < self.levels@.len() ==> r == Some(&self.levels@[level as int]),
            level >= self.levels@.len() ==> r is None,
    {
        if level < self.levels.len() {
            Some(&self.levels[level])
        } else {
            None
        }
    }

    pub fn get_stack_short_name_from_info<'a>(&'a self, stack: &'a StackInfo) -> (r: &'a str)
        ensures
            r@ == if stack.id == 0 {
                "all"@
            } else {
                stack.short_name@
            },
    {
        if stack.id == ROOT_ID {
            "all"
        } else {
            stack.short_name.as_str()
        }
    }

    pub fn get_stack_full_name_from_info<'a>(&'a self, stack: &'a StackInfo) -> (r: &'a str)
        ensures
            r@ == if stack.id == 0 {
                "all"@
            } else {
                stack.full_name@
            },
    {
        if stack.id == ROOT_ID {
            "all"
        } else {
            stack.full_name.as_str()
        }
    }

    pub fn get_stack_short_name(&self, stack_id: &StackIdentifier) -> (r: Option<&str>)
        ensures
            *stack_id < self.stacks@.len() ==> {
                &&& r is Some
                &&& r->Some_0@ == display_short_name(self.stacks@, *stack_id as int)
            },
            *stack_id >= self.stacks@.len() ==> r is None,
    {
        match self.get_stack(stack_id) {
            Some(stack) => Some(self.get_stack_short_name_from_info(stack)),
            None => None,
        }
    }

    pub fn get_stack_full_name(&self, stack_id: &StackIdentifier) -> (r: Option<&str>)
        ensures
            *stack_id < self.stacks@.len() ==> {
                &&& r is Some
                &&& r->Some_0@ == display_full_name(self.stacks@, *stack_id as int)
            },
            *stack_id >= self.stacks@.len() ==> r is None,
    {
        match self.get_stack(stack_id) {
            Some(stack) => Some(self.get_stack_full_name_from_info(stack)),
            None => None,
        }
    }

    /// The first node whose displayed full path equals `full_name`.
    pub fn get_stack_by_full_name(&self, full_name: &str) -> (r: Option<&StackInfo>)
        ensures
            match r {
                Some(stack) => exists|i: int|
                    {
                        &&& 0 <= i < self.stacks@.len()
                        &&& *stack == self.stacks@[i]
                        &&& display_full_name(self.stacks@, i) == full_name@
                        &&& forall|j: int|
                            0 <= j < i ==> display_full_name(self.stacks@, j) != full_name@
                    },
                None => forall|j: int|
                    0 <= j < self.stacks@.len() ==> display_full_name(self.stacks@, j)
                        != full_name@,
            },
    {
        let n = self.stacks.len();
        let mut i: usize = 0;
        while i < n
            invariant
                n == self.stacks@.len(),
                i <= n,
                forall|j: int| 0 <= j < i ==> display_full_name(self.stacks@, j) != full_name@,
            decreases n - i,
        {
            let name = self.get_stack_full_name_from_info(&self.stacks[i]);
            if str_eq(name, full_name) {
                proof {
                    assert(display_full_name(self.stacks@, i as int) == full_name@);
                }
                return Some(&self.stacks[i]);
            }
            i += 1;
        }
        None
    }

    pub fn get_stack_id_by_full_name(&self, full_name: &str) -> (r: Option<StackIdentifier>)
        requires
            stacks_well_formed(self.stacks@),
        ensures
            match r {
                Some(id) => {
                    &&& 0 <= id < self.stacks@.len()
                    &&& display_full_name(self.stacks@, id as int) == full_name@
                    &&& forall|j: int|
                        0 <= j < id ==> display_full_name(self.stacks@, j) != full_name@
                },
                None => forall|j: int|
                    0 <= j < self.stacks@.len() ==> display_full_name(self.stacks@, j)
                        != full_name@,
            },
    {
        match self.get_stack_by_full_name(full_name) {
            Some(stack) => {
                proof {
                    let i = choose|i: int|
                        {
                            &&& 0 <= i < self.stacks@.len()
                            &&& *stack == self.stacks@[i]
                            &&& display_full_name(self.stacks@, i) == full_name@
                            &&& forall|j: int|
                                0 <= j < i ==> display_full_name(self.stacks@, j) != full_name@
                        };
                    assert(node_linked(self.stacks@, i));
                    assert(stack.id == i);
                }
                Some(stack.id)
            },
            None => None,
        }
    }

    /// The indices from `stack_id` up to the root, `stack_id` first.
    pub fn get_ancestors(&self, stack_id: &StackIdentifier) -> (r: Vec<StackIdentifier>)
        requires
            stacks_well_formed(self.stacks@),
        ensures
            *stack_id < self.stacks@.len() ==> r@ == ancestor_chain(
                self.stacks@,
                *stack_id as int,
            ),
            *stack_id >= self.stacks@.len() ==> r@.len() == 0,
    {
        let mut ancestors: Vec<StackIdentifier> = Vec::new();
        if *stack_id >= self.stacks.len() {
            return ancestors;
        }
        let mut current: usize = *stack_id;
        loop
            invariant_except_break
                ancestor_chain(self.stacks@, *stack_id as int) == ancestors@ + ancestor_chain(
                    self.stacks@,
                    current as int,
                ),
            invariant
                stacks_well_formed(self.stacks@),
                current < self.stacks@.len(),
            ensures
                ancestors@ == ancestor_chain(self.stacks@, *stack_id as int),
            decreases current,
        {
            let ghost before = ancestors@;
            proof {
                assert(node_linked(self.stacks@, current as int));
            }
            ancestors.push(current);
            match self.stacks[current].parent {
                Some(p) => {
                    proof {
                        assert(ancestor_chain(self.stacks@, current as int) == seq![
                            current as StackIdentifier,
                        ] + ancestor_chain(self.stacks@, p as int));
                        assert(before + ancestor_chain(self.stacks@, current as int)
                            =~= ancestors@ + ancestor_chain(self.stacks@, p as int));
                    }
                    current = p;
                },
                None => {
                    proof {
                        assert(current == 0);
                        assert(ancestor_chain(self.stacks@, 0) == seq![0 as StackIdentifier]);
                        assert(before + ancestor_chain(self.stacks@, 0) =~= ancestors@);
                    }
                    break;
                },
            }
        }
        ancestors
    }

    /// All nodes of the subtree rooted at `stack_id` in depth-first
    /// pre-order, the node itself first, each exactly once.
    pub fn get_descendants(&self, stack_id: &StackIdentifier) -> (r: Vec<StackIdentifier>)
        requires
            stacks_well_formed(self.stacks@),
        ensures
            *stack_id < self.stacks@.len() ==> {
                &&& all_distinct(r@)
                &&& forall|x: StackIdentifier|
                    r@.contains(x) <==> in_subtree(self.stacks@, *stack_id as int, x as int)
                &&& r@ == preorder(self.stacks@, *stack_id as int)
                &&& r@.len() >= 1
                &&& r@[0] == *stack_id
            },
            *stack_id >= self.stacks@.len() ==> r@ == seq![*stack_id],
    {
        let mut descendants: Vec<StackIdentifier> = Vec::new();
        if *stack_id >= self.stacks.len() {
            descendants.push(*stack_id);
            proof {
                assert(descendants@ =~= seq![*stack_id]);
            }
            return descendants;
        }
        collect_subtree(&self.stacks, *stack_id, &mut descendants);
        descendants
    }
}

// ---------------------------------------------------------------------------
// Count lemmas
// ---------------------------------------------------------------------------

/// A sum of totals is never negative.
pub proof fn lemma_sum_totals_nonneg(stacks: Seq<StackInfo>, cs: Seq<StackIdentifier>)
    ensures
        sum_totals(stacks, cs) >= 0,
    decreases cs.len(),
{
    if cs.len() > 0 {
        lemma_sum_totals_nonneg(stacks, cs.drop_last());
    }
}

/// Each listed node's total is at most the sum.
pub proof fn lemma_sum_totals_member(stacks: Seq<StackInfo>, cs: Seq<StackIdentifier>, k: int)
    requires
        0 <= k < cs.len(),
    ensures
        sum_totals(stacks, cs) >= stacks[cs[k] as int].total_count,
    decreases cs.len(),
{
    if k == cs.len() - 1 {
        lemma_sum_totals_nonneg(stacks, cs.drop_last());
    } else {
        lemma_sum_totals_member(stacks, cs.drop_last(), k);
    }
}

/// A child's total never exceeds its parent's.
pub proof fn lemma_child_total_le_parent(stacks: Seq<StackInfo>, x: int)
    requires
        stacks_well_formed(stacks),
        0 < x < stacks.len(),
    ensures
        stacks[x].total_count <= stacks[stacks[x].parent->Some_0 as int].total_count,
{
    assert(node_linked(stacks, x));
    let p = stacks[x].parent->Some_0 as int;
    assert(node_conserved(stacks, p));
    let cs = stacks[p].children@;
    let k = choose|k: int| 0 <= k < cs.len() && cs[k] == x as StackIdentifier;
    lemma_sum_totals_member(stacks, cs, k);
}

/// No node's total exceeds the root's.
pub proof fn lemma_total_le_root(stacks: Seq<StackInfo>, x: int)
    requires
        stacks_well_formed(stacks),
        0 <= x < stacks.len(),
    ensures
        stacks[x].total_count <= stacks[0].total_count,
    decreases x,
{
    if x > 0 {
        assert(node_linked(stacks, x));
        lemma_child_total_le_parent(stacks, x);
        lemma_total_le_root(stacks, stacks[x].parent->Some_0 as int);
    }
}

// ---------------------------------------------------------------------------
// Construction: one line at a time
// ---------------------------------------------------------------------------

/// Like [`stacks_well_formed`], except that node `exc` carries `excess`
/// counts that its self and children counts do not yet account for. This is
/// the state in the middle of adding one input line.
pub open spec fn stacks_wf_except(stacks: Seq<StackInfo>, exc: int, excess: int) -> bool {
    &&& 1 <= stacks.len() <= usize::MAX
    &&& 0 <= exc < stacks.len()
    &&& forall|i: int| 0 <= i < stacks.len() ==> #[trigger] node_linked(stacks, i)
    &&& forall|i: int|
        0 <= i < stacks.len() && i != exc ==> #[trigger] node_conserved(stacks, i)
    &&& stacks[exc].total_count == stacks[exc].self_count + sum_totals(
        stacks,
        stacks[exc].children@,
    ) + excess
}

/// Children lists stay in creation order: ascending by index.
pub open spec fn children_ascending(stacks: Seq<StackInfo>) -> bool {
    forall|i: int, k1: int, k2: int|
        0 <= i < stacks.len() && 0 <= k1 < k2 < stacks[i].children@.len()
            ==> (#[trigger] stacks[i].children@[k1]) < (#[trigger] stacks[i].children@[k2])
}

/// No node is marked as a search hit.
pub open spec fn no_hits(stacks: Seq<StackInfo>) -> bool {
    forall|i: int| 0 <= i < stacks.len() ==> !(#[trigger] stacks[i].hit)
}

/// A sum over nodes whose totals did not change did not change.
pub proof fn lemma_sum_totals_untouched(
    old_s: Seq<StackInfo>,
    new_s: Seq<StackInfo>,
    cs: Seq<StackIdentifier>,
)
    requires
        forall|k: int|
            0 <= k < cs.len() ==> new_s[#[trigger] cs[k] as int].total_count == old_s[cs[k] as int].total_count,
    ensures
        sum_totals(new_s, cs) == sum_totals(old_s, cs),
    decreases cs.len(),
{
    if cs.len() > 0 {
        assert(forall|k: int| 0 <= k < cs.len() - 1 ==> cs.drop_last()[k] == cs[k]);
        lemma_sum_totals_untouched(old_s, new_s, cs.drop_last());
        assert(cs.last() == cs[cs.len() - 1]);
    }
}

/// Raising one listed node's total by `d` raises the sum by `d`.
pub proof fn lemma_sum_totals_delta(
    old_s: Seq<StackInfo>,
    new_s: Seq<StackInfo>,
    cs: Seq<StackIdentifier>,
    t: StackIdentifier,
    d: int,
)
    requires
        all_distinct(cs),
        forall|k: int|
            0 <= k < cs.len() ==> new_s[#[trigger] cs[k] as int].total_count == old_s[cs[k] as int].total_count
                + (if cs[k] == t {
                    d
                } else {
                    0
                }),
    ensures
        sum_totals(new_s, cs) == sum_totals(old_s, cs) + (if cs.contains(t) {
            d
        } else {
            0
        }),
    decreases cs.len(),
{
    if cs.len() > 0 {
        let pre = cs.drop_last();
        assert(forall|k: int| 0 <= k < cs.len() - 1 ==> pre[k] == cs[k]);
        assert(all_distinct(pre));
        lemma_sum_totals_delta(old_s, new_s, pre, t, d);
        assert(cs.last() == cs[cs.len() - 1]);
        if cs.last() == t {
            assert(!pre.contains(t)) by {
                if pre.contains(t) {
                    let k = choose|k: int| 0 <= k < pre.len() && pre[k] == t;
                    assert(cs[k] == cs[cs.len() - 1]);
                }
            }
            assert(cs.contains(t)) by {
                assert(cs[cs.len() - 1] == t);
            }
        } else {
            if cs.contains(t) {
                let k = choose|k: int| 0 <= k < cs.len() && cs[k] == t;
                assert(pre[k] == t);
                assert(pre.contains(t));
            } else {
                assert(!pre.contains(t)) by {
                    if pre.contains(t) {
                        let k = choose|k: int| 0 <= k < pre.len() && pre[k] == t;
                        assert(cs.contains(t));
                    }
                }
            }
        }
    }
}

/// Totals stay below the root's even while one node carries an excess,
/// provided the excess is non-negative.
pub proof fn lemma_total_le_root_except(stacks: Seq<StackInfo>, exc: int, excess: int, x: int)
    requires
        stacks_wf_except(stacks, exc, excess),
        excess >= 0,
        0 <= x < stacks.len(),
    ensures
        stacks[x].total_count <= stacks[0].total_count,
    decreases x,
{
    if x > 0 {
        assert(node_linked(stacks, x));
        let p = stacks[x].parent->Some_0 as int;
        let cs = stacks[p].children@;
        let k = choose|k: int| 0 <= k < cs.len() && cs[k] == x as StackIdentifier;
        lemma_sum_totals_member(stacks, cs, k);
        assert(stacks[x].total_count <= sum_totals(stacks, cs));
        if p != exc {
            assert(node_conserved(stacks, p));
        }
        assert(stacks[p].total_count >= sum_totals(stacks, cs));
        lemma_total_le_root_except(stacks, exc, excess, p);
    }
}

/// A node's depth never exceeds its index.
pub proof fn lemma_level_le_index(stacks: Seq<StackInfo>, x: int)
    requires
        forall|i: int| 0 <= i < stacks.len() ==> #[trigger] node_linked(stacks, i),
        0 <= x < stacks.len(),
    ensures
        stacks[x].level <= x,
    decreases x,
{
    assert(node_linked(stacks, x));
    if x > 0 {
        lemma_level_le_index(stacks, stacks[x].parent->Some_0 as int);
    }
}

/// Adds `d` to a node's total count, and to its self count when
/// `also_self` is set; every other field and node stays as it was.
fn add_to_total(stacks: &mut Vec<StackInfo>, i: usize, d: u64, also_self: bool)
    requires
        i < old(stacks)@.len(),
        old(stacks)@[i as int].total_count + d <= u64::MAX,
        also_self ==> old(stacks)@[i as int].self_count + d <= u64::MAX,
    ensures
        final(stacks)@.len() == old(stacks)@.len(),
        forall|j: int| 0 <= j < final(stacks)@.len() && j != i ==> final(stacks)@[j] == old(stacks)@[j],
        final(stacks)@[i as int].id == old(stacks)@[i as int].id,
        final(stacks)@[i as int].short_name == old(stacks)@[i as int].short_name,
        final(stacks)@[i as int].full_name == old(stacks)@[i as int].full_name,
        final(stacks)@[i as int].parent == old(stacks)@[i as int].parent,
        final(stacks)@[i as int].children == old(stacks)@[i as int].children,
        final(stacks)@[i as int].level == old(stacks)@[i as int].level,
        final(stacks)@[i as int].hit == old(stacks)@[i as int].hit,
        final(stacks)@[i as int].total_count == old(stacks)@[i as int].total_count + d,
        final(stacks)@[i as int].self_count == old(stacks)@[i as int].self_count + (if also_self {
            d as int
        } else {
            0
        }),
{
    let total = stacks[i].total_count;
    stacks[i].total_count = total + d;
    if also_self {
        let selfc = stacks[i].self_count;
        stacks[i].self_count = selfc + d;
    }
}

/// Pre-order collection of the subtree rooted at `i`, appended to `out`.
fn collect_subtree(stacks_v: &Vec<StackInfo>, i: StackIdentifier, out: &mut Vec<StackIdentifier>)
    requires
        stacks_well_formed(stacks_v@),
        i < stacks_v@.len(),
        all_distinct(old(out)@),
        forall|x: StackIdentifier|
            old(out)@.contains(x) ==> !in_subtree(stacks_v@, i as int, x as int),
    ensures
        all_distinct(final(out)@),
        forall|x: StackIdentifier|
            final(out)@.contains(x) <==> (old(out)@.contains(x) || in_subtree(
                stacks_v@,
                i as int,
                x as int,
            )),
        final(out)@ == old(out)@ + preorder(stacks_v@, i as int),
    decreases stacks_v@.len() - i,
{
    let ghost stacks = stacks_v@;
    proof {
        lemma_chain_bounds(stacks, i as int);
        assert(in_subtree(stacks, i as int, i as int));
    }
    let ghost entry = out@;
    out.push(i);
    proof {
        assert(out@ == entry.push(i));
        assert(forall|k: int| 0 <= k < entry.len() ==> out@[k] == entry[k]);
        assert(out@[entry.len() as int] == i);
        assert(!entry.contains(i));
        assert(all_distinct(out@)) by {
            assert(forall|k: int| 0 <= k < entry.len() ==> entry.contains(#[trigger] entry[k]));
        }
        assert(out@.contains(i));
        assert(forall|x: StackIdentifier| #[trigger] entry.contains(x) ==> out@.contains(x));
        assert forall|x: StackIdentifier| #[trigger] out@.contains(x) implies (entry.contains(x)
            || x == i) by {
            let k = choose|k: int| 0 <= k < out@.len() && out@[k] == x;
            if k < entry.len() {
                assert(entry[k] == x);
            }
        }
        assert(node_linked(stacks, i as int));
        assert(stacks[i as int].children@.subrange(0, 0) =~= Seq::<StackIdentifier>::empty());
        assert(out@ =~= entry + seq![i] + preorder_children(
            stacks,
            stacks[i as int].children@.subrange(0, 0),
            i as int,
        ));
    }
    let n_children = stacks_v[i].children.len();
    let mut k: usize = 0;
    while k < n_children
        invariant
            stacks == stacks_v@,
            stacks_well_formed(stacks),
            i < stacks.len(),
            n_children == stacks[i as int].children@.len(),
            k <= n_children,
            all_distinct(out@),
            forall|x: StackIdentifier|
                entry.contains(x) ==> !in_subtree(stacks, i as int, x as int),
            forall|x: StackIdentifier| #[trigger] entry.contains(x) ==> out@.contains(x),
            out@.contains(i),
            out@ == entry + seq![i] + preorder_children(
                stacks,
                stacks[i as int].children@.subrange(0, k as int),
                i as int,
            ),
            forall|m: int, x: StackIdentifier|
                0 <= m < k && #[trigger] in_subtree(
                    stacks,
                    stacks[i as int].children@[m] as int,
                    x as int,
                ) ==> out@.contains(x),
            forall|x: StackIdentifier|
                #[trigger] out@.contains(x) ==> (entry.contains(x) || x == i || exists|m: int|
                    0 <= m < k && in_subtree(
                        stacks,
                        #[trigger] stacks[i as int].children@[m] as int,
                        x as int,
                    )),
        decreases n_children - k,
    {
        proof {
            assert(node_linked(stacks, i as int));
        }
        let c = stacks_v[i].children[k];
        proof {
            let cs = stacks[i as int].children@;
            assert(cs[k as int] == c);
            assert(i < c < stacks.len());
            assert(stacks[c as int].parent == Some(i));
            assert forall|x: StackIdentifier| out@.contains(x) implies !in_subtree(
                stacks,
                c as int,
                x as int,
            ) by {
                if in_subtree(stacks, c as int, x as int) {
                    if entry.contains(x) {
                        lemma_subtree_child_up(stacks, i as int, c as int, x as int);
                    } else if x == i {
                        lemma_chain_bounds(stacks, i as int);
                        lemma_subtree_parent_step(stacks, c as int, i as int);
                    } else {
                        let m = choose|m: int|
                            0 <= m < k && in_subtree(
                                stacks,
                                #[trigger] stacks[i as int].children@[m] as int,
                                x as int,
                            );
                        assert(cs[m] != cs[k as int]);
                        assert(i < cs[m] < stacks.len());
                        assert(stacks[cs[m] as int].parent == Some(i));
                        lemma_sibling_subtrees_disjoint(
                            stacks,
                            cs[m] as int,
                            c as int,
                            x as int,
                        );
                    }
                }
            }
        }
        let ghost before = out@;
        collect_subtree(stacks_v, c, out);
        proof {
            let csfull = stacks[i as int].children@;
            assert(csfull.subrange(0, k + 1).drop_last() =~= csfull.subrange(0, k as int));
            assert(csfull.subrange(0, k + 1).last() == c);
            assert(csfull.subrange(0, k + 1) =~= csfull.subrange(
                0,
                csfull.subrange(0, k + 1).len() as int,
            ));
            assert(preorder_children(stacks, csfull.subrange(0, k + 1), i as int)
                == preorder_children(stacks, csfull.subrange(0, k as int), i as int)
                + preorder(stacks, c as int));
            assert(out@ =~= entry + seq![i] + preorder_children(
                stacks,
                csfull.subrange(0, k + 1),
                i as int,
            ));
            let cs = stacks[i as int].children@;
            assert(forall|x: StackIdentifier| #[trigger] before.contains(x) ==> out@.contains(x));
            assert forall|m: int, x: StackIdentifier|
                0 <= m < k + 1 && #[trigger] in_subtree(
                    stacks,
                    stacks[i as int].children@[m] as int,
                    x as int,
                ) implies out@.contains(x) by {
                if m < k {
                    assert(before.contains(x));
                } else {
                    assert(cs[m] == c);
                    assert(in_subtree(stacks, c as int, x as int));
                }
            }
            assert forall|x: StackIdentifier| #[trigger] out@.contains(x) implies (entry.contains(
                x,
            ) || x == i || exists|m: int|
                0 <= m < k + 1 && in_subtree(
                    stacks,
                    #[trigger] stacks[i as int].children@[m] as int,
                    x as int,
                )) by {
                if before.contains(x) {
                    if !(entry.contains(x) || x == i) {
                        let m = choose|m: int|
                            0 <= m < k && in_subtree(
                                stacks,
                                #[trigger] stacks[i as int].children@[m] as int,
                                x as int,
                            );
                        assert(0 <= m < k + 1 && in_subtree(
                            stacks,
                            stacks[i as int].children@[m] as int,
                            x as int,
                        ));
                    }
                } else {
                    assert(in_subtree(stacks, c as int, x as int));
                    assert(cs[k as int] == c);
                    assert(0 <= k < k + 1 && in_subtree(
                        stacks,
                        stacks[i as int].children@[k as int] as int,
                        x as int,
                    ));
                }
            }
        }
        k += 1;
    }
    proof {
        assert(node_linked(stacks, i as int));
        assert forall|x: StackIdentifier| out@.contains(x) implies (entry.contains(x)
            || in_subtree(stacks, i as int, x as int)) by {
            if !entry.contains(x) && x != i {
                let m = choose|m: int|
                    0 <= m < n_children && in_subtree(
                        stacks,
                        #[trigger] stacks[i as int].children@[m] as int,
                        x as int,
                    );
                lemma_subtree_child_up(
                    stacks,
                    i as int,
                    stacks[i as int].children@[m] as int,
                    x as int,
                );
            }
        }
        assert forall|x: StackIdentifier| (entry.contains(x) || in_subtree(
            stacks,
            i as int,
            x as int,
        )) implies out@.contains(x) by {
            if !entry.contains(x) && x != i {
                lemma_subtree_via_child(stacks, i as int, x as int);
                let m = choose|m: int|
                    0 <= m < stacks[i as int].children@.len() && in_subtree(
                        stacks,
                        #[trigger] stacks[i as int].children@[m] as int,
                        x as int,
                    );
                assert(in_subtree(
                    stacks,
                    stacks[i as int].children@[m] as int,
                    x as int,
                ));
            }
        }
        assert(forall|x: StackIdentifier|
            out@.contains(x) <==> (entry.contains(x) || in_subtree(
                stacks,
                i as int,
                x as int,
            )));
        assert(stacks[i as int].children@.subrange(0, n_children as int)
            =~= stacks[i as int].children@);
        assert(out@ =~= entry + preorder(stacks, i as int));
        assert forall|x: StackIdentifier|
            out@.contains(x) <==> (old(out)@.contains(x) || in_subtree(
                stacks_v@,
                i as int,
                x as int,
            )) by {
            assert(out@.contains(x) <==> (entry.contains(x) || in_subtree(
                stacks,
                i as int,
                x as int,
            )));
        }
    }
}


/// The first child of `parent` whose raw frame name equals `name`.
fn find_child(stacks: &Vec<StackInfo>, parent: usize, name: &str) -> (r: Option<
    StackIdentifier,
>)
    requires
        parent < stacks@.len(),
        forall|k: int|
            0 <= k < stacks@[parent as int].children@.len() ==> (
            #[trigger] stacks@[parent as int].children@[k]) < stacks@.len(),
    ensures
        ({
            let cs = stacks@[parent as int].children@;
            match r {
                Some(c) => {
                    &&& c < stacks@.len()
                    &&& exists|k: int|
                        {
                            &&& 0 <= k < cs.len()
                            &&& cs[k] == c
                            &&& stacks@[c as int].short_name@ == name@
                            &&& forall|m: int|
                                0 <= m < k ==> stacks@[#[trigger] cs[m] as int].short_name@
                                    != name@
                        }
                },
                None => forall|k: int|
                    0 <= k < cs.len() ==> stacks@[#[trigger] cs[k] as int].short_name@
                        != name@,
            }
        }),
{
    let ghost cs = stacks@[parent as int].children@;
    let n = stacks[parent].children.len();
    let mut k: usize = 0;
    while k < n
        invariant
            parent < stacks@.len(),
            cs == stacks@[parent as int].children@,
            n == cs.len(),
            k <= n,
            forall|k2: int| 0 <= k2 < cs.len() ==> (#[trigger] cs[k2]) < stacks@.len(),
            forall|m: int|
                0 <= m < k ==> stacks@[#[trigger] cs[m] as int].short_name@ != name@,
        decreases n - k,
    {
        let c = stacks[parent].children[k];
        if str_eq(stacks[c].short_name.as_str(), name) {
            return Some(c);
        }
        k += 1;
    }
    None
}

/// Appends a fresh leaf under `parent` and links it in.
fn push_child(
    stacks: &mut Vec<StackInfo>,
    parent: usize,
    short_name: String,
    full_name: String,
    level: usize,
) -> (new_id: usize)
    requires
        parent < old(stacks)@.len(),
    ensures
        new_id == old(stacks)@.len(),
        final(stacks)@.len() == old(stacks)@.len() + 1,
        forall|j: int|
            0 <= j < old(stacks)@.len() && j != parent ==> final(stacks)@[j] == old(
                stacks,
            )@[j],
        final(stacks)@[parent as int].id == old(stacks)@[parent as int].id,
        final(stacks)@[parent as int].short_name == old(stacks)@[parent as int].short_name,
        final(stacks)@[parent as int].full_name == old(stacks)@[parent as int].full_name,
        final(stacks)@[parent as int].parent == old(stacks)@[parent as int].parent,
        final(stacks)@[parent as int].level == old(stacks)@[parent as int].level,
        final(stacks)@[parent as int].hit == old(stacks)@[parent as int].hit,
        final(stacks)@[parent as int].total_count == old(stacks)@[parent as int].total_count,
        final(stacks)@[parent as int].self_count == old(stacks)@[parent as int].self_count,
        final(stacks)@[parent as int].children@ == old(
            stacks,
        )@[parent as int].children@.push(new_id),
        ({
            let nn = final(stacks)@[new_id as int];
            &&& nn.id == new_id
            &&& nn.short_name@ == short_name@
            &&& nn.full_name@ == full_name@
            &&& nn.total_count == 0
            &&& nn.self_count == 0
            &&& nn.parent == Some(parent)
            &&& nn.children@.len() == 0
            &&& nn.level == level
            &&& nn.hit == false
        }),
{
    let new_id = stacks.len();
    let node = StackInfo {
        id: new_id,
        short_name,
        full_name,
        total_count: 0,
        self_count: 0,
        parent: Some(parent),
        children: Vec::new(),
        level,
        hit: false,
    };
    stacks.push(node);
    stacks[parent].children.push(new_id);
    new_id
}

// ---------------------------------------------------------------------------
// Ranked-table accumulation
// ---------------------------------------------------------------------------

/// Table rows carry pairwise distinct names.
pub open spec fn counts_distinct(entries: Seq<CountEntry>) -> bool {
    forall|i: int, j: int|
        0 <= i < j < entries.len() ==> (#[trigger] entries[i]).name@ != (
        #[trigger] entries[j]).name@
}

/// Both aggregates of every row stay within `bound`.
pub open spec fn counts_bounded(entries: Seq<CountEntry>, bound: int) -> bool {
    forall|i: int|
        0 <= i < entries.len() ==> (#[trigger] entries[i]).count.total <= bound
            && entries[i].count.own <= bound
}

/// Mid-line bound: a name already counted for this line may reach the new
/// root total `rt`; one not yet counted still has room for `c` more.
pub open spec fn counts_mid_bounded(
    entries: Seq<CountEntry>,
    counted: Seq<Seq<char>>,
    rt: int,
    c: int,
) -> bool {
    forall|i: int|
        0 <= i < entries.len() ==> {
            &&& (counted.contains((#[trigger] entries[i]).name@) ==> entries[i].count.total
                <= rt)
            &&& (!counted.contains(entries[i].name@) ==> entries[i].count.total <= rt - c)
        }
}

/// The `own` aggregate of every row stays within `bound`.
pub open spec fn owns_bounded(entries: Seq<CountEntry>, bound: int) -> bool {
    forall|i: int| 0 <= i < entries.len() ==> (#[trigger] entries[i]).count.own <= bound
}

// ---------------------------------------------------------------------------
// Per-name aggregates: what the ranked table stands for in the input
// ---------------------------------------------------------------------------

/// The name occurs among these frames.
pub open spec fn frames_contain(fl: Seq<Seq<char>>, name: Seq<char>) -> bool {
    exists|k: int| 0 <= k < fl.len() && fl[k] == name
}

/// Samples the input attributes to `name`: each accepted line whose frames
/// mention the name contributes its count once, however often the name
/// recurs on that line.
pub open spec fn name_total(lines: Seq<Seq<char>>, name: Seq<char>) -> int
    decreases lines.len(),
{
    if lines.len() == 0 {
        0
    } else {
        name_total(lines.drop_last(), name) + (match crate::parse::parsed_line(lines.last()) {
            Some(pc) => if frames_contain(crate::parse::frame_list(pc.0), name) {
                pc.1 as int
            } else {
                0
            },
            None => 0,
        })
    }
}

/// Samples whose line ends in `name`.
pub open spec fn name_own(lines: Seq<Seq<char>>, name: Seq<char>) -> int
    decreases lines.len(),
{
    if lines.len() == 0 {
        0
    } else {
        name_own(lines.drop_last(), name) + (match crate::parse::parsed_line(lines.last()) {
            Some(pc) => if crate::parse::frame_list(pc.0).last() == name
                && crate::parse::frame_list(pc.0).len() >= 1 {
                pc.1 as int
            } else {
                0
            },
            None => 0,
        })
    }
}

/// The name occurs on some accepted line.
pub open spec fn name_from_input(lines: Seq<Seq<char>>, name: Seq<char>) -> bool {
    exists|m: int|
        0 <= m < lines.len() && ((#[trigger] crate::parse::parsed_line(lines[m]))
            matches Some(pc) && frames_contain(crate::parse::frame_list(pc.0), name))
}

/// One more line extends the per-name sums in the obvious way.
pub proof fn lemma_name_total_step(lines: Seq<Seq<char>>, k: int, name: Seq<char>)
    requires
        0 <= k < lines.len(),
    ensures
        name_total(lines.subrange(0, k + 1), name) == name_total(lines.subrange(0, k), name) + (
        match crate::parse::parsed_line(lines[k]) {
            Some(pc) => if frames_contain(crate::parse::frame_list(pc.0), name) {
                pc.1 as int
            } else {
                0
            },
            None => 0,
        }),
        name_own(lines.subrange(0, k + 1), name) == name_own(lines.subrange(0, k), name) + (
        match crate::parse::parsed_line(lines[k]) {
            Some(pc) => if crate::parse::frame_list(pc.0).last() == name
                && crate::parse::frame_list(pc.0).len() >= 1 {
                pc.1 as int
            } else {
                0
            },
            None => 0,
        }),
{
    let a = lines.subrange(0, k + 1);
    assert(a.drop_last() =~= lines.subrange(0, k));
    assert(a.last() == lines[k]);
}

/// Occurrence in a frame prefix grows one frame at a time.
pub proof fn lemma_frames_contain_step(fl: Seq<Seq<char>>, k: int, name: Seq<char>)
    requires
        0 <= k < fl.len(),
    ensures
        frames_contain(fl.subrange(0, k + 1), name) <==> (frames_contain(
            fl.subrange(0, k),
            name,
        ) || fl[k] == name),
{
    let a = fl.subrange(0, k + 1);
    let b = fl.subrange(0, k);
    if frames_contain(a, name) {
        let j = choose|j: int| 0 <= j < a.len() && a[j] == name;
        if j < k {
            assert(b[j] == name);
        } else {
            assert(fl[k] == name);
        }
    }
    if frames_contain(b, name) {
        let j = choose|j: int| 0 <= j < b.len() && b[j] == name;
        assert(a[j] == name);
    }
    if fl[k] == name {
        assert(a[k] == name);
    }
}

/// One more line extends per-name occurrence in the obvious way.
pub proof fn lemma_name_from_input_step(lines: Seq<Seq<char>>, k: int, s: Seq<char>)
    requires
        0 <= k < lines.len(),
    ensures
        name_from_input(lines.subrange(0, k + 1), s) <==> (name_from_input(
            lines.subrange(0, k),
            s,
        ) || (crate::parse::parsed_line(lines[k]) matches Some(pc) && frames_contain(
            crate::parse::frame_list(pc.0),
            s,
        ))),
{
    let a = lines.subrange(0, k + 1);
    let b = lines.subrange(0, k);
    if name_from_input(a, s) {
        let m = choose|m: int|
            0 <= m < a.len() && ((#[trigger] crate::parse::parsed_line(a[m])) matches Some(pc)
                && frames_contain(crate::parse::frame_list(pc.0), s));
        if m < k {
            assert(b[m] == a[m]);
            assert(name_from_input(b, s));
        } else {
            assert(a[m] == lines[k]);
        }
    }
    if name_from_input(b, s) {
        let m = choose|m: int|
            0 <= m < b.len() && ((#[trigger] crate::parse::parsed_line(b[m])) matches Some(pc)
                && frames_contain(crate::parse::frame_list(pc.0), s));
        assert(a[m] == b[m]);
        assert(name_from_input(a, s));
    }
    if crate::parse::parsed_line(lines[k]) matches Some(pc) && frames_contain(
        crate::parse::frame_list(pc.0),
        s,
    ) {
        assert(a[k] == lines[k]);
        assert(name_from_input(a, s));
    }
}

// ---------------------------------------------------------------------------
// Table lookup by name
// ---------------------------------------------------------------------------

/// Whether the table carries a row for `name`.
pub open spec fn table_has(entries: Seq<CountEntry>, name: Seq<char>) -> bool
    decreases entries.len(),
{
    if entries.len() == 0 {
        false
    } else if entries.last().name@ == name {
        true
    } else {
        table_has(entries.drop_last(), name)
    }
}

/// The `total` aggregate of the row for `name`; zero without such a row.
pub open spec fn table_total(entries: Seq<CountEntry>, name: Seq<char>) -> int
    decreases entries.len(),
{
    if entries.len() == 0 {
        0
    } else if entries.last().name@ == name {
        entries.last().count.total as int
    } else {
        table_total(entries.drop_last(), name)
    }
}

/// The `own` aggregate of the row for `name`; zero without such a row.
pub open spec fn table_own(entries: Seq<CountEntry>, name: Seq<char>) -> int
    decreases entries.len(),
{
    if entries.len() == 0 {
        0
    } else if entries.last().name@ == name {
        entries.last().count.own as int
    } else {
        table_own(entries.drop_last(), name)
    }
}

/// With distinct names, the lookup reads exactly the row of that name.
pub proof fn lemma_table_lookup(entries: Seq<CountEntry>, name: Seq<char>)
    requires
        counts_distinct(entries),
    ensures
        table_has(entries, name) <==> exists|j: int|
            0 <= j < entries.len() && (#[trigger] entries[j]).name@ == name,
        forall|j: int|
            0 <= j < entries.len() && (#[trigger] entries[j]).name@ == name ==> table_total(
                entries,
                name,
            ) == entries[j].count.total && table_own(entries, name) == entries[j].count.own,
        !table_has(entries, name) ==> table_total(entries, name) == 0 && table_own(
            entries,
            name,
        ) == 0,
    decreases entries.len(),
{
    if entries.len() > 0 {
        let pre = entries.drop_last();
        assert(forall|j: int| 0 <= j < pre.len() ==> pre[j] == entries[j]);
        assert(counts_distinct(pre));
        lemma_table_lookup(pre, name);
        if entries.last().name@ == name {
            assert(entries[entries.len() - 1].name@ == name);
            assert forall|j: int|
                0 <= j < entries.len() && (#[trigger] entries[j]).name@ == name implies j
                == entries.len() - 1 by {
                if j < entries.len() - 1 {
                    assert(entries[j].name@ != entries[entries.len() - 1].name@);
                }
            }
        } else {
            if table_has(entries, name) {
                let j = choose|j: int| 0 <= j < pre.len() && (#[trigger] pre[j]).name@ == name;
                assert(entries[j].name@ == name);
            }
            if exists|j: int| 0 <= j < entries.len() && (#[trigger] entries[j]).name@ == name {
                let j = choose|j: int|
                    0 <= j < entries.len() && (#[trigger] entries[j]).name@ == name;
                assert(j < entries.len() - 1);
                assert(pre[j].name@ == name);
            }
        }
    }
}

/// Replacing the row of a name rewrites exactly that name's lookup.
pub proof fn lemma_table_update(entries: Seq<CountEntry>, j: int, e2: CountEntry)
    requires
        counts_distinct(entries),
        0 <= j < entries.len(),
        e2.name@ == entries[j].name@,
    ensures
        forall|s: Seq<char>|
            s != e2.name@ ==> #[trigger] table_total(entries.update(j, e2), s) == table_total(
                entries,
                s,
            ),
        forall|s: Seq<char>|
            s != e2.name@ ==> #[trigger] table_own(entries.update(j, e2), s) == table_own(
                entries,
                s,
            ),
        forall|s: Seq<char>|
            #[trigger] table_has(entries.update(j, e2), s) == table_has(entries, s),
        table_total(entries.update(j, e2), e2.name@) == e2.count.total,
        table_own(entries.update(j, e2), e2.name@) == e2.count.own,
    decreases entries.len(),
{
    let upd = entries.update(j, e2);
    if j == entries.len() - 1 {
        assert(upd.drop_last() =~= entries.drop_last());
        assert(upd.last() == e2);
        assert(entries.last().name@ == e2.name@);
        assert forall|s: Seq<char>|
            s != e2.name@ implies #[trigger] table_total(entries.update(j, e2), s)
            == table_total(entries, s) by {
            assert(table_total(entries.update(j, e2), s) == table_total(upd.drop_last(), s));
            assert(table_total(entries, s) == table_total(entries.drop_last(), s));
        }
        assert forall|s: Seq<char>|
            s != e2.name@ implies #[trigger] table_own(entries.update(j, e2), s) == table_own(
            entries,
            s,
        ) by {
            assert(table_own(entries.update(j, e2), s) == table_own(upd.drop_last(), s));
            assert(table_own(entries, s) == table_own(entries.drop_last(), s));
        }
        assert forall|s: Seq<char>| #[trigger] table_has(entries.update(j, e2), s)
            == table_has(entries, s) by {
            if entries.last().name@ == s {
                assert(table_has(entries, s));
                assert(upd.last().name@ == s);
                assert(table_has(upd, s));
            } else {
                assert(table_has(entries.update(j, e2), s) == table_has(
                    upd.drop_last(),
                    s,
                ));
                assert(table_has(entries, s) == table_has(entries.drop_last(), s));
            }
        }
    } else {
        let pre = entries.drop_last();
        assert(forall|k: int| 0 <= k < pre.len() ==> pre[k] == entries[k]);
        assert(counts_distinct(pre));
        assert(upd.drop_last() =~= pre.update(j, e2));
        assert(upd.last() == entries.last());
        assert(entries.last().name@ != e2.name@);
        lemma_table_update(pre, j, e2);
        assert forall|s: Seq<char>|
            s != e2.name@ implies #[trigger] table_total(entries.update(j, e2), s)
            == table_total(entries, s) by {
            assert(table_total(pre.update(j, e2), s) == table_total(pre, s));
            assert(table_total(upd.drop_last(), s) == table_total(pre, s));
        }
        assert forall|s: Seq<char>|
            s != e2.name@ implies #[trigger] table_own(entries.update(j, e2), s) == table_own(
            entries,
            s,
        ) by {
            assert(table_own(pre.update(j, e2), s) == table_own(pre, s));
            assert(table_own(upd.drop_last(), s) == table_own(pre, s));
        }
        assert forall|s: Seq<char>| #[trigger] table_has(entries.update(j, e2), s)
            == table_has(entries, s) by {
            assert(table_has(pre.update(j, e2), s) == table_has(pre, s));
            assert(table_has(upd.drop_last(), s) == table_has(pre, s));
        }
        assert(table_total(pre.update(j, e2), e2.name@) == e2.count.total);
        assert(table_total(upd.drop_last(), e2.name@) == e2.count.total);
        assert(table_own(upd.drop_last(), e2.name@) == e2.count.own);
    }
}

/// With distinct names on both sides, a permutation leaves every name's
/// lookup unchanged.
pub proof fn lemma_table_perm(e1: Seq<CountEntry>, e2: Seq<CountEntry>, name: Seq<char>)
    requires
        e1.to_multiset() == e2.to_multiset(),
        counts_distinct(e1),
        counts_distinct(e2),
        forall|e: CountEntry| e1.contains(e) <==> e2.contains(e),
    ensures
        table_has(e1, name) == table_has(e2, name),
        table_total(e1, name) == table_total(e2, name),
        table_own(e1, name) == table_own(e2, name),
{
    lemma_table_lookup(e1, name);
    lemma_table_lookup(e2, name);
    if table_has(e1, name) {
        let j = choose|j: int| 0 <= j < e1.len() && (#[trigger] e1[j]).name@ == name;
        assert(e1.contains(e1[j]));
        assert(e2.contains(e1[j]));
        let j2 = choose|j2: int| 0 <= j2 < e2.len() && e2[j2] == e1[j];
        assert(e2[j2].name@ == name);
    } else {
        if table_has(e2, name) {
            let j2 = choose|j2: int| 0 <= j2 < e2.len() && (#[trigger] e2[j2]).name@ == name;
            assert(e2.contains(e2[j2]));
            assert(e1.contains(e2[j2]));
            let j = choose|j: int| 0 <= j < e1.len() && e1[j] == e2[j2];
            assert(e1[j].name@ == name);
        }
    }
}

/// Records one frame occurrence in the per-name table: the name's total
/// grows once per line, its own count grows when the frame is the leaf.
fn update_counts(
    counts: &mut Vec<CountEntry>,
    counted: &mut Vec<String>,
    name: &str,
    c: u64,
    is_self: bool,
    Ghost(rt): Ghost<int>,
)
    requires
        counts_distinct(old(counts)@),
        counts_all_visible(old(counts)@),
        counts_mid_bounded(
            old(counts)@,
            old(counted)@.map_values(|s: String| s@),
            rt,
            c as int,
        ),
        owns_bounded(old(counts)@, rt - c),
        c <= rt <= u64::MAX,
        forall|x: Seq<char>|
            old(counted)@.map_values(|s: String| s@).contains(x) ==> table_has(
                old(counts)@,
                x,
            ),
    ensures
        counts_distinct(final(counts)@),
        counts_all_visible(final(counts)@),
        counts_mid_bounded(
            final(counts)@,
            final(counted)@.map_values(|s: String| s@),
            rt,
            c as int,
        ),
        owns_bounded(
            final(counts)@,
            if is_self {
                rt
            } else {
                rt - c
            },
        ),
        // Exactly this name's row moves: its total once per line, its own
        // count when this frame is the leaf.
        forall|s2: Seq<char>|
            s2 != name@ ==> #[trigger] table_total(final(counts)@, s2) == table_total(
                old(counts)@,
                s2,
            ),
        forall|s2: Seq<char>|
            s2 != name@ ==> #[trigger] table_own(final(counts)@, s2) == table_own(
                old(counts)@,
                s2,
            ),
        forall|s2: Seq<char>|
            s2 != name@ ==> #[trigger] table_has(final(counts)@, s2) == table_has(
                old(counts)@,
                s2,
            ),
        table_has(final(counts)@, name@),
        table_total(final(counts)@, name@) == table_total(old(counts)@, name@) + (if old(counted)@.map_values(|s: String| s@).contains(name@) {
            0int
        } else {
            c as int
        }),
        table_own(final(counts)@, name@) == table_own(old(counts)@, name@) + (if is_self {
            c as int
        } else {
            0int
        }),
        old(counted)@.map_values(|s: String| s@).contains(name@) ==> final(counted)@ == old(counted)@,
        !old(counted)@.map_values(|s: String| s@).contains(name@) ==> final(counted)@.map_values(|s: String| s@) == old(counted)@.map_values(|s: String| s@).push(
            name@,
        ),
        forall|x: Seq<char>|
            final(counted)@.map_values(|s: String| s@).contains(x) ==> table_has(
                final(counts)@,
                x,
            ),
{
    let ghost counted0 = counted@.map_values(|s: String| s@);
    // Locate the row for this name, adding one if it is new.
    let n = counts.len();
    let mut idx: usize = 0;
    while idx < n && !str_eq(counts[idx].name.as_str(), name)
        invariant
            n == counts@.len(),
            idx <= n,
            forall|m: int| 0 <= m < idx ==> (#[trigger] counts@[m]).name@ != name@,
        decreases n - idx,
    {
        idx += 1;
    }
    let at = if idx < n {
        idx
    } else {
        let ghost before = counts@;
        proof {
            lemma_table_lookup(before, name@);
        }
        counts.push(
            CountEntry {
                name: String::from_str(name),
                count: Count { total: 0, own: 0 },
                visible: true,
            },
        );
        proof {
            assert(forall|m: int| 0 <= m < before.len() ==> counts@[m] == before[m]);
            assert(counts@[before.len() as int].name@ == name@);
            // Appending a fresh name: lookups of other names fall through.
            assert(counts@.drop_last() =~= before);
            assert(!table_has(before, name@));
            assert(table_total(before, name@) == 0 && table_own(before, name@) == 0);
        }
        n
    };
    proof {
        assert(at < counts@.len());
        assert(counts@[at as int].name@ == name@);
        assert(forall|m: int|
            0 <= m < counts@.len() && m != at ==> (#[trigger] counts@[m]).name@ != name@);
        // So far only a zero row may have been appended.
        assert(forall|s2: Seq<char>|
            s2 != name@ ==> #[trigger] table_total(counts@, s2) == table_total(
                old(counts)@,
                s2,
            ) && #[trigger] table_own(counts@, s2) == table_own(old(counts)@, s2)
                && #[trigger] table_has(counts@, s2) == table_has(old(counts)@, s2));
        assert(table_has(counts@, name@)) by {
            lemma_table_lookup(counts@, name@);
        }
    }
    // Was this name already counted for the current line?
    let cn = counted.len();
    let mut j: usize = 0;
    while j < cn && !str_eq(counted[j].as_str(), name)
        invariant
            cn == counted@.len(),
            j <= cn,
            forall|m: int| 0 <= m < j ==> (#[trigger] counted@[m])@ != name@,
        decreases cn - j,
    {
        j += 1;
    }
    let was_counted = j < cn;
    proof {
        if was_counted {
            assert(counted0[j as int] == counted@[j as int]@);
            assert(counted0.contains(name@));
        } else {
            assert(!counted0.contains(name@)) by {
                if counted0.contains(name@) {
                    let m = choose|m: int| 0 <= m < counted0.len() && counted0[m] == name@;
                    assert(counted@[m]@ == name@);
                }
            }
        }
    }
    let ghost entries_pre = counts@;
    let ghost total_pre = table_total(old(counts)@, name@);
    let ghost own_pre = table_own(old(counts)@, name@);
    proof {
        lemma_table_lookup(entries_pre, name@);
        assert(table_total(entries_pre, name@) == entries_pre[at as int].count.total);
        assert(table_own(entries_pre, name@) == entries_pre[at as int].count.own);
    }
    if !was_counted {
        let t = counts[at].count.total;
        counts[at].count.total = t + c;
        counted.push(String::from_str(name));
        proof {
            assert(counts@ =~= entries_pre.update(
                at as int,
                counts@[at as int],
            ));
            lemma_table_update(entries_pre, at as int, counts@[at as int]);
        }
    }
    let ghost entries_mid = counts@;
    proof {
        lemma_table_lookup(entries_mid, name@);
        assert(entries_mid[at as int].name@ == name@);
        assert(table_total(entries_mid, name@) == entries_mid[at as int].count.total);
        assert(table_own(entries_mid, name@) == entries_mid[at as int].count.own);
    }
    if is_self {
        let o = counts[at].count.own;
        counts[at].count.own = o + c;
        proof {
            assert(counts@ =~= entries_mid.update(
                at as int,
                counts@[at as int],
            ));
            lemma_table_update(entries_mid, at as int, counts@[at as int]);
        }
    }
    proof {
        lemma_table_lookup(counts@, name@);
        let cfinal = counted@.map_values(|s: String| s@);
        if was_counted {
            assert(cfinal =~= counted0);
        } else {
            assert(cfinal =~= counted0.push(name@)) by {
                assert(counted@.len() == old(counted)@.len() + 1);
                assert(forall|k: int|
                    0 <= k < old(counted)@.len() ==> counted@[k] == old(counted)@[k]);
                assert(counted@[counted@.len() - 1]@ == name@);
            }
        }
        assert forall|x: Seq<char>| cfinal.contains(x) implies table_has(counts@, x) by {
            if x == name@ {
            } else {
                assert(counted0.contains(x)) by {
                    let k = choose|k: int| 0 <= k < cfinal.len() && cfinal[k] == x;
                    if k < counted0.len() {
                        assert(counted0[k] == cfinal[k]);
                    } else {
                        assert(cfinal[k] == name@);
                    }
                }
                assert(table_has(old(counts)@, x));
            }
        }
        assert forall|m: int| 0 <= m < counts@.len() implies {
            &&& (cfinal.contains((#[trigger] counts@[m]).name@) ==> counts@[m].count.total
                <= rt)
            &&& (!cfinal.contains(counts@[m].name@) ==> counts@[m].count.total <= rt - c)
        } by {
            if m == at {
                if !was_counted {
                    assert(cfinal[cfinal.len() - 1] == name@);
                    assert(cfinal.contains(name@));
                } else {
                    assert(cfinal =~= counted0);
                }
            } else {
                assert(counts@[m] == entries_pre[m] || counts@[m].name@ != name@);
                assert forall|x: Seq<char>| counted0.contains(x) implies cfinal.contains(
                    x,
                ) by {
                    let k = choose|k: int| 0 <= k < counted0.len() && counted0[k] == x;
                    assert(cfinal[k] == x);
                }
                if cfinal.contains(counts@[m].name@) && !counted0.contains(
                    counts@[m].name@,
                ) {
                    let k = choose|k: int|
                        0 <= k < cfinal.len() && cfinal[k] == counts@[m].name@;
                    if k < counted0.len() {
                        assert(counted0[k] == cfinal[k]);
                        assert(counted0.contains(counts@[m].name@));
                    } else {
                        assert(cfinal[k] == name@);
                    }
                }
            }
        }
    }
}
/// After a fresh leaf is pushed under `parent`, the arena is still
/// well-formed up to the same excess at `parent`.
proof fn lemma_push_child_wf(
    sa: Seq<StackInfo>,
    sb: Seq<StackInfo>,
    parent: StackIdentifier,
    new_id: StackIdentifier,
    excess: int,
)
    requires
        stacks_wf_except(sa, parent as int, excess),
        children_ascending(sa),
        no_hits(sa),
        new_id == sa.len(),
        sb.len() == sa.len() + 1,
        sb.len() <= usize::MAX,
        forall|j: int| 0 <= j < sa.len() && j != parent ==> sb[j] == sa[j],
        sb[parent as int].id == sa[parent as int].id,
        sb[parent as int].short_name == sa[parent as int].short_name,
        sb[parent as int].full_name == sa[parent as int].full_name,
        sb[parent as int].parent == sa[parent as int].parent,
        sb[parent as int].level == sa[parent as int].level,
        sb[parent as int].hit == sa[parent as int].hit,
        sb[parent as int].total_count == sa[parent as int].total_count,
        sb[parent as int].self_count == sa[parent as int].self_count,
        sb[parent as int].children@ == sa[parent as int].children@.push(new_id),
        ({
            let nn = sb[new_id as int];
            &&& nn.id == new_id
            &&& !nn.short_name@.contains(';')
            &&& nn.full_name@ == if parent == 0 {
                nn.short_name@
            } else {
                sa[parent as int].full_name@ + seq![';'] + nn.short_name@
            }
            &&& nn.total_count == 0
            &&& nn.self_count == 0
            &&& nn.parent == Some(parent)
            &&& nn.children@.len() == 0
            &&& nn.level == sa[parent as int].level + 1
            &&& nn.hit == false
        }),
    ensures
        stacks_wf_except(sb, parent as int, excess),
        children_ascending(sb),
        no_hits(sb),
        sb[0].total_count == sa[0].total_count,
{
    let csold = sa[parent as int].children@;
    assert(node_linked(sa, parent as int));
    assert forall|i: int| 0 <= i < sb.len() implies #[trigger] node_linked(sb, i) by {
        if i == new_id {
            assert(sb[parent as int].children@[csold.len() as int] == new_id);
            assert(sb[parent as int].children@.contains(new_id as StackIdentifier));
        } else {
            assert(node_linked(sa, i));
            assert forall|k: int|
                0 <= k < sb[i].children@.len() implies {
                let c = #[trigger] sb[i].children@[k] as int;
                &&& i < c < sb.len()
                &&& sb[c].parent == Some(i as StackIdentifier)
            } by {
                if i == parent && k == csold.len() {
                    assert(sb[i].children@[k] == new_id);
                } else {
                    assert(sb[i].children@[k] == sa[i].children@[k]);
                }
            }
            assert forall|k1: int, k2: int|
                0 <= k1 < k2 < sb[i].children@.len() implies sb[i].children@[k1]
                != sb[i].children@[k2] by {
                if i == parent && k2 == csold.len() {
                    assert(sa[i].children@[k1] < sa.len());
                } else {
                }
            }
            if i != 0 {
                let p = sb[i].parent->Some_0 as int;
                if p == parent {
                    assert(sa[p].children@.contains(i as StackIdentifier));
                    let m = choose|m: int|
                        0 <= m < csold.len() && csold[m] == i as StackIdentifier;
                    assert(sb[p].children@[m] == i as StackIdentifier);
                    assert(sb[p].children@.contains(i as StackIdentifier));
                }
            }
        }
    }
    assert forall|i: int| 0 <= i < sb.len() && i != parent implies #[trigger] node_conserved(
        sb,
        i,
    ) by {
        if i == new_id {
            assert(sum_totals(sb, sb[i].children@) == 0);
        } else {
            assert(node_conserved(sa, i));
            assert(node_linked(sa, i));
            assert(sb[i].children@ == sa[i].children@);
            assert forall|k: int|
                0 <= k < sa[i].children@.len() implies sb[#[trigger] sa[i].children@[k] as int].total_count
                == sa[sa[i].children@[k] as int].total_count by {
                assert(i < sa[i].children@[k] < sa.len());
            }
            lemma_sum_totals_untouched_totals(sa, sb, sa[i].children@);
        }
    }
    assert forall|k: int|
        0 <= k < csold.len() implies sb[#[trigger] csold[k] as int].total_count == sa[csold[k] as int].total_count by {
        assert(parent < csold[k] < sa.len());
    }
    lemma_sum_totals_untouched_totals(sa, sb, csold);
    assert(sum_totals(sb, csold.push(new_id)) == sum_totals(sb, csold) + 0) by {
        assert(csold.push(new_id).drop_last() =~= csold);
        assert(csold.push(new_id).last() == new_id);
        assert(sb[new_id as int].total_count == 0);
    }
    assert(children_ascending(sb)) by {
        assert forall|i: int, k1: int, k2: int|
            0 <= i < sb.len() && 0 <= k1 < k2 < sb[i].children@.len() implies (
        #[trigger] sb[i].children@[k1]) < (#[trigger] sb[i].children@[k2]) by {
            if i == parent && k2 == csold.len() {
                assert(sb[i].children@[k1] == csold[k1]);
                assert(csold[k1] < sa.len());
            } else if i == new_id {
            } else {
                assert(sa[i].children@[k1] == sb[i].children@[k1]);
                assert(sa[i].children@[k2] == sb[i].children@[k2]);
            }
        }
    }
    if parent == 0 {
        assert(sb[0].total_count == sa[0].total_count);
    }
}

/// A traversed node has room for `count` more samples while the excess sits
/// at its parent.
proof fn lemma_room_for_count(
    sb: Seq<StackInfo>,
    parent: StackIdentifier,
    target: StackIdentifier,
    excess: int,
)
    requires
        stacks_wf_except(sb, parent as int, excess),
        excess >= 0,
        sb[parent as int].children@.contains(target),
    ensures
        parent < target < sb.len(),
        sb[target as int].total_count + excess <= sb[0].total_count,
        sb[target as int].self_count <= sb[target as int].total_count,
{
    let cs = sb[parent as int].children@;
    assert(node_linked(sb, parent as int));
    let k = choose|k: int| 0 <= k < cs.len() && cs[k] == target;
    assert(parent < cs[k] < sb.len());
    lemma_sum_totals_member(sb, cs, k);
    lemma_total_le_root_except(sb, parent as int, excess, parent as int);
    assert(sb[parent as int].total_count == sb[parent as int].self_count + sum_totals(sb, cs)
        + excess);
    assert(node_conserved(sb, target as int));
    lemma_sum_totals_nonneg(sb, sb[target as int].children@);
}

/// After `count` is added to `target`'s totals, the excess has moved to
/// `target`, or the books balance when the leaf's self count grew too.
proof fn lemma_bump_target_wf(
    sb: Seq<StackInfo>,
    sc: Seq<StackInfo>,
    parent: StackIdentifier,
    target: StackIdentifier,
    excess: int,
    is_self: bool,
)
    requires
        stacks_wf_except(sb, parent as int, excess),
        children_ascending(sb),
        no_hits(sb),
        sb[parent as int].children@.contains(target),
        sc.len() == sb.len(),
        forall|j: int| 0 <= j < sb.len() && j != target ==> sc[j] == sb[j],
        sc[target as int].id == sb[target as int].id,
        sc[target as int].short_name == sb[target as int].short_name,
        sc[target as int].full_name == sb[target as int].full_name,
        sc[target as int].parent == sb[target as int].parent,
        sc[target as int].children == sb[target as int].children,
        sc[target as int].level == sb[target as int].level,
        sc[target as int].hit == sb[target as int].hit,
        sc[target as int].total_count == sb[target as int].total_count + excess,
        sc[target as int].self_count == sb[target as int].self_count + (if is_self {
            excess
        } else {
            0
        }),
    ensures
        is_self ==> stacks_well_formed(sc),
        !is_self ==> stacks_wf_except(sc, target as int, excess),
        children_ascending(sc),
        no_hits(sc),
        sc[0].total_count == sb[0].total_count,
{
    assert(node_linked(sb, parent as int));
    let k0 = choose|k: int|
        0 <= k < sb[parent as int].children@.len() && sb[parent as int].children@[k] == target;
    assert(parent < target < sb.len());
    assert forall|i: int| 0 <= i < sc.len() implies #[trigger] node_linked(sc, i) by {
        assert(node_linked(sb, i));
        assert forall|k: int|
            0 <= k < sc[i].children@.len() implies {
            let c = #[trigger] sc[i].children@[k] as int;
            &&& i < c < sc.len()
            &&& sc[c].parent == Some(i as StackIdentifier)
        } by {
            assert(sb[i].children@[k] == sc[i].children@[k]);
        }
    }
    assert forall|i: int| 0 <= i < sc.len() && i != target implies #[trigger] node_conserved(
        sc,
        i,
    ) by {
        assert(node_linked(sb, i));
        if i == parent {
            let cs = sb[parent as int].children@;
            assert forall|k: int|
                0 <= k < cs.len() implies sc[#[trigger] cs[k] as int].total_count == sb[cs[k] as int].total_count
                + (if cs[k] == target {
                    excess
                } else {
                    0
                }) by {
                assert(parent < cs[k] < sb.len());
            }
            lemma_sum_totals_delta(sb, sc, cs, target, excess);
        } else {
            assert(node_conserved(sb, i));
            assert forall|k: int|
                0 <= k < sb[i].children@.len() implies sc[#[trigger] sb[i].children@[k] as int].total_count
                == sb[sb[i].children@[k] as int].total_count by {
                if sb[i].children@[k] == target {
                    assert(sb[target as int].parent == Some(i as StackIdentifier));
                    assert(sb[target as int].parent == Some(parent));
                }
            }
            lemma_sum_totals_untouched_totals(sb, sc, sb[i].children@);
        }
    }
    assert(sc[target as int].children@ == sb[target as int].children@);
    assert(node_linked(sb, target as int));
    assert forall|k: int|
        0 <= k < sb[target as int].children@.len() implies sc[#[trigger] sb[target as int].children@[k] as int].total_count
        == sb[sb[target as int].children@[k] as int].total_count by {
        assert(target < sb[target as int].children@[k]);
    }
    lemma_sum_totals_untouched_totals(sb, sc, sb[target as int].children@);
    assert(node_conserved(sb, target as int));
    assert(children_ascending(sc)) by {
        assert forall|i: int, k1: int, k2: int|
            0 <= i < sc.len() && 0 <= k1 < k2 < sc[i].children@.len() implies (
        #[trigger] sc[i].children@[k1]) < (#[trigger] sc[i].children@[k2]) by {
            assert(sb[i].children@[k1] == sc[i].children@[k1]);
            assert(sb[i].children@[k2] == sc[i].children@[k2]);
        }
    }
    assert(sc[0].total_count == sb[0].total_count);
}

/// Splitting a path into its parent path and last frame is unambiguous.
proof fn lemma_append_one_injective(
    p1: Seq<Seq<char>>,
    a: Seq<char>,
    p2: Seq<Seq<char>>,
    b: Seq<char>,
)
    requires
        p1 + seq![a] == p2 + seq![b],
    ensures
        p1 == p2,
        a == b,
{
    assert((p1 + seq![a]).drop_last() =~= p1);
    assert((p2 + seq![b]).drop_last() =~= p2);
    assert((p1 + seq![a]).last() == a);
    assert((p2 + seq![b]).last() == b);
}

/// After pushing a fresh child for the next frame, all paths are as
/// before, the new node closes the prefix, and uniqueness and per-parent
/// name distinctness survive.
proof fn lemma_push_child_paths(
    sa: Seq<StackInfo>,
    sb: Seq<StackInfo>,
    parent: StackIdentifier,
    new_id: StackIdentifier,
    fr: Seq<Seq<char>>,
    idx: int,
)
    requires
        forall|i: int| 0 <= i < sa.len() ==> #[trigger] node_linked(sa, i),
        (parent as int) < sa.len(),
        0 <= idx < fr.len(),
        node_path(sa, parent as int) == fr.subrange(0, idx),
        paths_unique(sa),
        children_names_distinct(sa),
        forall|k: int|
            0 <= k < sa[parent as int].children@.len() ==> sa[(
            #[trigger] sa[parent as int].children@[k]) as int].short_name@ != fr[idx],
        new_id == sa.len(),
        sb.len() == sa.len() + 1,
        forall|j: int| 0 <= j < sa.len() && j != parent ==> sb[j] == sa[j],
        sb[parent as int].short_name == sa[parent as int].short_name,
        sb[parent as int].parent == sa[parent as int].parent,
        sb[parent as int].children@ == sa[parent as int].children@.push(new_id),
        sb[new_id as int].parent == Some(parent),
        sb[new_id as int].short_name@ == fr[idx],
        sb[new_id as int].children@.len() == 0,
    ensures
        forall|j: int| 1 <= j < sa.len() ==> #[trigger] node_path(sb, j) == node_path(sa, j),
        node_path(sb, new_id as int) == fr.subrange(0, idx + 1),
        paths_unique(sb),
        children_names_distinct(sb),
{
    assert(node_linked(sa, parent as int));
    assert forall|j: int| 1 <= j < sa.len() implies #[trigger] node_path(sb, j) == node_path(
        sa,
        j,
    ) by {
        lemma_node_path_preserved(sa, sb, j);
    }
    assert(node_path(sb, parent as int) == node_path(sa, parent as int)) by {
        if parent > 0 {
            lemma_node_path_preserved(sa, sb, parent as int);
        }
    }
    assert(node_path(sb, new_id as int) == node_path(sb, parent as int) + seq![
        sb[new_id as int].short_name@,
    ]);
    assert(fr.subrange(0, idx) + seq![fr[idx]] =~= fr.subrange(0, idx + 1));
    assert(node_path(sb, new_id as int) == fr.subrange(0, idx + 1));
    assert forall|j: int|
        1 <= j < sa.len() implies node_path(sb, j) != node_path(sb, new_id as int) by {
        if node_path(sb, j) == node_path(sb, new_id as int) {
            assert(node_path(sa, j) == fr.subrange(0, idx + 1));
            assert(node_linked(sa, j));
            let pj = sa[j].parent->Some_0 as int;
            assert(node_path(sa, j) == node_path(sa, pj) + seq![sa[j].short_name@]);
            lemma_append_one_injective(
                node_path(sa, pj),
                sa[j].short_name@,
                fr.subrange(0, idx),
                fr[idx],
            );
            assert(node_path(sa, pj) == node_path(sa, parent as int));
            assert(fr.subrange(0, idx).len() == idx);
            assert(pj == parent) by {
                if pj != parent {
                    if pj == 0 {
                        assert(node_path(sa, 0) == Seq::<Seq<char>>::empty());
                        assert(idx == 0);
                        assert(parent != 0);
                        assert(node_linked(sa, parent as int));
                        assert(node_path(sa, parent as int) == node_path(
                            sa,
                            sa[parent as int].parent->Some_0 as int,
                        ) + seq![sa[parent as int].short_name@]);
                    } else if parent == 0 {
                        assert(node_path(sa, parent as int) == Seq::<Seq<char>>::empty());
                        assert(idx == 0);
                        assert(node_linked(sa, pj));
                        assert(node_path(sa, pj) == node_path(
                            sa,
                            sa[pj].parent->Some_0 as int,
                        ) + seq![sa[pj].short_name@]);
                    } else {
                        assert(node_path(sa, pj) != node_path(sa, parent as int));
                    }
                }
            }
            assert(sa[parent as int].children@.contains(j as StackIdentifier));
            let km = choose|km: int|
                0 <= km < sa[parent as int].children@.len() && sa[parent as int].children@[km]
                    == j as StackIdentifier;
            assert(sa[(sa[parent as int].children@[km]) as int].short_name@ == fr[idx]);
        }
    }
    assert(paths_unique(sb)) by {
        assert forall|i: int, j: int|
            1 <= i < j < sb.len() implies node_path(sb, i) != node_path(sb, j) by {
            if j < sa.len() {
            } else {
                assert(j == new_id);
            }
        }
    }
    assert(forall|x: int|
        0 <= x < sa.len() ==> (#[trigger] sb[x]).short_name@ == sa[x].short_name@);
    assert(children_names_distinct(sb)) by {
        assert forall|i: int, k1: int, k2: int|
            0 <= i < sb.len() && 0 <= k1 < k2 < sb[i].children@.len() implies sb[(
        #[trigger] sb[i].children@[k1]) as int].short_name@ != sb[(
        #[trigger] sb[i].children@[k2]) as int].short_name@ by {
            if i == parent {
                let csold = sa[parent as int].children@;
                assert(sb[i].children@ == csold.push(new_id));
                if k2 == csold.len() {
                    assert(sb[i].children@[k1] == csold[k1]);
                    assert(sb[i].children@[k2] == new_id);
                    let e1 = csold[k1] as int;
                    assert(parent < e1 < sa.len());
                    assert(sa[e1].short_name@ != fr[idx]);
                    assert(sb[e1].short_name@ == sa[e1].short_name@);
                    assert(sb[new_id as int].short_name@ == fr[idx]);
                } else {
                    assert(sb[i].children@[k1] == csold[k1]);
                    assert(sb[i].children@[k2] == csold[k2]);
                    let e1 = csold[k1] as int;
                    let e2 = csold[k2] as int;
                    assert(i < e1 < sa.len() && i < e2 < sa.len());
                    assert(sa[e1].short_name@ != sa[e2].short_name@);
                }
            } else if i == new_id {
                assert(sb[i].children@.len() == 0);
            } else {
                assert(sb[i].children@ == sa[i].children@);
                assert(node_linked(sa, i));
                let e1 = sa[i].children@[k1] as int;
                let e2 = sa[i].children@[k2] as int;
                assert(i < e1 < sa.len() && i < e2 < sa.len());
                assert(sa[e1].short_name@ != sa[e2].short_name@);
            }
        }
    }
}

/// After the traversed node's counts grew, the per-path accounting has
/// advanced by one frame.
proof fn lemma_bump_target_paths(
    sb: Seq<StackInfo>,
    sc: Seq<StackInfo>,
    base: Seq<StackInfo>,
    target: StackIdentifier,
    fr: Seq<Seq<char>>,
    idx: int,
    n: int,
    count: int,
    is_self: bool,
)
    requires
        0 <= idx < n,
        n == fr.len(),
        is_self == (idx + 1 == n),
        (target as int) < sb.len(),
        sc.len() == sb.len(),
        base.len() <= sb.len(),
        forall|j: int| 0 <= j < sb.len() && j != target ==> sc[j] == sb[j],
        sc[target as int].short_name == sb[target as int].short_name,
        sc[target as int].parent == sb[target as int].parent,
        sc[target as int].children == sb[target as int].children,
        sc[target as int].total_count == sb[target as int].total_count + count,
        sc[target as int].self_count == sb[target as int].self_count + (if is_self {
            count
        } else {
            0
        }),
        paths_unique(sb),
        children_names_distinct(sb),
        forall|i: int| 0 <= i < sb.len() ==> #[trigger] node_linked(sb, i),
        node_path(sb, target as int) == fr.subrange(0, idx + 1),
        1 <= target,
        forall|j: int|
            1 <= j < sb.len() ==> (#[trigger] sb[j]).total_count == (if j < base.len() {
                base[j].total_count as int
            } else {
                0
            }) + (if 1 <= node_path(sb, j).len() <= idx && node_path(sb, j).is_prefix_of(fr) {
                count
            } else {
                0
            }),
        forall|j: int|
            1 <= j < sb.len() ==> (#[trigger] sb[j]).self_count == (if j < base.len() {
                base[j].self_count as int
            } else {
                0
            }),
    ensures
        forall|j: int| 1 <= j < sc.len() ==> #[trigger] node_path(sc, j) == node_path(sb, j),
        paths_unique(sc),
        children_names_distinct(sc),
        forall|j: int|
            1 <= j < sc.len() ==> (#[trigger] sc[j]).total_count == (if j < base.len() {
                base[j].total_count as int
            } else {
                0
            }) + (if 1 <= node_path(sc, j).len() <= idx + 1 && node_path(sc, j).is_prefix_of(
                fr,
            ) {
                count
            } else {
                0
            }),
        forall|j: int|
            1 <= j < sc.len() ==> (#[trigger] sc[j]).self_count == (if j < base.len() {
                base[j].self_count as int
            } else {
                0
            }) + (if idx + 1 == n && node_path(sc, j) == fr {
                count
            } else {
                0
            }),
{
    assert forall|j: int| 1 <= j < sc.len() implies #[trigger] node_path(sc, j) == node_path(
        sb,
        j,
    ) by {
        lemma_node_path_preserved(sb, sc, j);
    }
    assert(paths_unique(sc)) by {
        assert forall|i: int, j: int|
            1 <= i < j < sc.len() implies node_path(sc, i) != node_path(sc, j) by {
            assert(node_path(sb, i) != node_path(sb, j));
        }
    }
    assert(children_names_distinct(sc)) by {
        assert forall|i: int, k1: int, k2: int|
            0 <= i < sc.len() && 0 <= k1 < k2 < sc[i].children@.len() implies sc[(
        #[trigger] sc[i].children@[k1]) as int].short_name@ != sc[(
        #[trigger] sc[i].children@[k2]) as int].short_name@ by {
            assert(sc[i].children@ == sb[i].children@);
            let e1 = sb[i].children@[k1] as int;
            let e2 = sb[i].children@[k2] as int;
            assert(node_linked(sb, i));
            assert(i < e1 < sb.len() && i < e2 < sb.len());
            assert(sb[e1].short_name@ != sb[e2].short_name@);
            assert(sc[e1].short_name@ == sb[e1].short_name@);
            assert(sc[e2].short_name@ == sb[e2].short_name@);
        }
    }
    assert(fr.subrange(0, idx + 1).is_prefix_of(fr)) by {
        assert(fr.subrange(0, idx + 1) =~= fr.subrange(0, idx + 1));
    }
    assert forall|j: int|
        1 <= j < sc.len() implies (#[trigger] sc[j]).total_count == (if j < base.len() {
        base[j].total_count as int
    } else {
        0
    }) + (if 1 <= node_path(sc, j).len() <= idx + 1 && node_path(sc, j).is_prefix_of(fr) {
        count
    } else {
        0
    }) by {
        if j == target {
            assert(node_path(sc, j).len() == idx + 1);
        } else {
            assert(sc[j] == sb[j]);
            if 1 <= node_path(sc, j).len() <= idx + 1 && node_path(sc, j).is_prefix_of(fr) {
                if node_path(sc, j).len() == idx + 1 {
                    assert(node_path(sc, j) =~= fr.subrange(0, idx + 1));
                    assert(node_path(sb, j) == node_path(sb, target as int));
                    if j < target {
                        assert(node_path(sb, j) != node_path(sb, target as int));
                    } else {
                        assert(node_path(sb, target as int) != node_path(sb, j));
                    }
                }
            }
        }
    }
    assert forall|j: int|
        1 <= j < sc.len() implies (#[trigger] sc[j]).self_count == (if j < base.len() {
        base[j].self_count as int
    } else {
        0
    }) + (if idx + 1 == n && node_path(sc, j) == fr {
        count
    } else {
        0
    }) by {
        if j == target {
            if is_self {
                assert(node_path(sc, j) =~= fr.subrange(0, idx + 1));
                assert(fr.subrange(0, n as int) =~= fr);
                assert(node_path(sc, j) == fr);
            } else {
                if node_path(sc, j) == fr {
                    assert(node_path(sc, j).len() == n);
                }
            }
        } else {
            assert(sc[j] == sb[j]);
            if idx + 1 == n && node_path(sc, j) == fr {
                assert(node_path(sc, j) =~= fr.subrange(0, idx + 1));
                assert(node_path(sb, j) == node_path(sb, target as int));
                if j < target {
                    assert(node_path(sb, j) != node_path(sb, target as int));
                } else {
                    assert(node_path(sb, target as int) != node_path(sb, j));
                }
            }
        }
    }
}


/// Adds one accepted input line to the arena: walks the frames from the
/// root, creating missing children, adds `count` to every traversed node's
/// total and to the leaf's self count, and records the per-name aggregates.
/// Exactly the nodes standing for non-empty prefixes of the line's frames
/// receive the count, and afterwards every such prefix has its node.
#[verifier::rlimit(80)]
fn insert_line(
    stacks: &mut Vec<StackInfo>,
    counts: &mut Vec<CountEntry>,
    counted: &mut Vec<String>,
    frames: &Vec<String>,
    count: u64,
)
    requires
        stacks_well_formed(old(stacks)@),
        children_ascending(old(stacks)@),
        children_names_distinct(old(stacks)@),
        paths_unique(old(stacks)@),
        no_hits(old(stacks)@),
        old(stacks)@[0].total_count + count <= u64::MAX,
        frames@.len() >= 1,
        forall|i: int| 0 <= i < frames@.len() ==> !(#[trigger] frames@[i])@.contains(';'),
        counts_distinct(old(counts)@),
        counts_all_visible(old(counts)@),
        counts_bounded(old(counts)@, old(stacks)@[0].total_count as int),
        old(counted)@.len() == 0,
    ensures
        stacks_well_formed(final(stacks)@),
        children_ascending(final(stacks)@),
        children_names_distinct(final(stacks)@),
        paths_unique(final(stacks)@),
        no_hits(final(stacks)@),
        final(stacks)@[0].total_count == old(stacks)@[0].total_count + count,
        final(stacks)@[0].self_count == old(stacks)@[0].self_count,
        counts_distinct(final(counts)@),
        counts_all_visible(final(counts)@),
        counts_bounded(final(counts)@, final(stacks)@[0].total_count as int),
        // Per-name table deltas: the line's count lands once on every name
        // it mentions, and on the leaf name's own column.
        forall|s2: Seq<char>|
            #[trigger] table_total(final(counts)@, s2) == table_total(old(counts)@, s2) + (
            if frames_contain(frames@.map_values(|f: String| f@), s2) {
                count as int
            } else {
                0
            }),
        forall|s2: Seq<char>|
            #[trigger] table_own(final(counts)@, s2) == table_own(old(counts)@, s2) + (
            if frames@.map_values(|f: String| f@).last() == s2 {
                count as int
            } else {
                0
            }),
        forall|s2: Seq<char>|
            #[trigger] table_has(final(counts)@, s2) <==> (table_has(old(counts)@, s2)
                || frames_contain(frames@.map_values(|f: String| f@), s2)),
        final(stacks)@.len() >= old(stacks)@.len(),
        forall|j: int|
            0 <= j < old(stacks)@.len() ==> {
                let a = #[trigger] final(stacks)@[j];
                let b = old(stacks)@[j];
                &&& a.id == b.id
                &&& a.short_name == b.short_name
                &&& a.full_name == b.full_name
                &&& a.parent == b.parent
                &&& a.level == b.level
                &&& a.hit == b.hit
            },
        forall|j: int|
            1 <= j < old(stacks)@.len() ==> node_path(final(stacks)@, j) == node_path(
                old(stacks)@,
                j,
            ),
        ({
            let fr = frames@.map_values(|f: String| f@);
            &&& forall|j: int|
                old(stacks)@.len() <= j < final(stacks)@.len() ==> (#[trigger] node_path(
                    final(stacks)@,
                    j,
                )).len() >= 1 && node_path(final(stacks)@, j).is_prefix_of(fr)
            &&& forall|j: int|
                1 <= j < final(stacks)@.len() ==> (#[trigger] final(stacks)@[j]).total_count
                    == (if j < old(stacks)@.len() {
                    old(stacks)@[j].total_count as int
                } else {
                    0
                }) + (if node_path(final(stacks)@, j).len() >= 1 && node_path(
                    final(stacks)@,
                    j,
                ).is_prefix_of(fr) {
                    count as int
                } else {
                    0
                })
            &&& forall|j: int|
                1 <= j < final(stacks)@.len() ==> (#[trigger] final(stacks)@[j]).self_count
                    == (if j < old(stacks)@.len() {
                    old(stacks)@[j].self_count as int
                } else {
                    0
                }) + (if node_path(final(stacks)@, j) == fr {
                    count as int
                } else {
                    0
                })
            &&& forall|m: int|
                1 <= m <= fr.len() ==> exists|j: int|
                    1 <= j < final(stacks)@.len() && #[trigger] node_path(final(stacks)@, j)
                        == #[trigger] fr.subrange(0, m)
        }),
{
    let ghost fr = frames@.map_values(|f: String| f@);
    let ghost base = old(stacks)@;
    let ghost cbase = old(counts)@;
    let ghost rt_new: int = old(stacks)@[0].total_count + count;
    let ghost s0 = stacks@;
    add_to_total(stacks, 0, count, false);
    proof {
        let s1 = stacks@;
        assert forall|i: int| 0 <= i < s1.len() implies #[trigger] node_linked(s1, i) by {
            assert(node_linked(s0, i));
            assert forall|k: int|
                0 <= k < s1[i].children@.len() implies {
                let c = #[trigger] s1[i].children@[k] as int;
                &&& i < c < s1.len()
                &&& s1[c].parent == Some(i as StackIdentifier)
            } by {
                assert(s0[i].children@[k] == s1[i].children@[k]);
            }
        }
        assert forall|i: int| 0 <= i < s1.len() && i != 0 implies #[trigger] node_conserved(
            s1,
            i,
        ) by {
            assert(node_conserved(s0, i));
            assert(node_linked(s0, i));
            assert forall|k: int|
                0 <= k < s0[i].children@.len() implies s1[#[trigger] s0[i].children@[k] as int]
                == s0[s0[i].children@[k] as int] by {
                assert(0 < s0[i].children@[k] < s0.len());
            }
            lemma_sum_totals_untouched(s0, s1, s1[i].children@);
        }
        assert(s1[0].children@ == s0[0].children@);
        assert(node_linked(s0, 0));
        assert forall|k: int|
            0 <= k < s0[0].children@.len() implies s1[#[trigger] s0[0].children@[k] as int]
            == s0[s0[0].children@[k] as int] by {
            assert(0 < s0[0].children@[k] < s0.len());
        }
        lemma_sum_totals_untouched(s0, s1, s0[0].children@);
        assert(node_conserved(s0, 0));
        assert(stacks_wf_except(s1, 0, count as int));
        assert(counts_mid_bounded(
            counts@,
            counted@.map_values(|s: String| s@),
            rt_new,
            count as int,
        )) by {
            assert(counted@.map_values(|s: String| s@).len() == 0);
        }
        assert forall|j: int| 1 <= j < s1.len() implies #[trigger] node_path(s1, j)
            == node_path(base, j) by {
            lemma_node_path_preserved(base, s1, j);
        }
        assert(node_path(s1, 0) == Seq::<Seq<char>>::empty());
        assert(fr.subrange(0, 0) =~= Seq::<Seq<char>>::empty());
        assert(children_names_distinct(s1)) by {
            assert forall|i: int, k1: int, k2: int|
                0 <= i < s1.len() && 0 <= k1 < k2 < s1[i].children@.len() implies s1[(
            #[trigger] s1[i].children@[k1]) as int].short_name@ != s1[(
            #[trigger] s1[i].children@[k2]) as int].short_name@ by {
                assert(node_linked(s0, i));
                assert(s1[i].children@[k1] == s0[i].children@[k1]);
                assert(s1[i].children@[k2] == s0[i].children@[k2]);
                assert(s0[(s0[i].children@[k1]) as int].short_name@ != s0[(
                s0[i].children@[k2]) as int].short_name@);
            }
        }
        assert(paths_unique(s1)) by {
            assert forall|i: int, j: int|
                1 <= i < j < s1.len() implies node_path(s1, i) != node_path(s1, j) by {
                lemma_node_path_preserved(base, s1, i);
                lemma_node_path_preserved(base, s1, j);
            }
        }
    }
    let n = frames.len();
    let mut parent: usize = 0;
    let mut idx: usize = 0;
    while idx < n
        invariant
            n == frames@.len(),
            1 <= n,
            idx <= n,
            fr == frames@.map_values(|f: String| f@),
            fr.len() == n,
            parent < stacks@.len(),
            idx < n ==> stacks_wf_except(stacks@, parent as int, count as int),
            idx == n ==> stacks_well_formed(stacks@),
            children_ascending(stacks@),
            children_names_distinct(stacks@),
            paths_unique(stacks@),
            no_hits(stacks@),
            stacks@[0].total_count == rt_new,
            stacks@[0].self_count == base[0].self_count,
            rt_new <= u64::MAX,
            count <= rt_new,
            forall|i: int|
                0 <= i < frames@.len() ==> !(#[trigger] frames@[i])@.contains(';'),
            counts_distinct(counts@),
            counts_all_visible(counts@),
            counts_mid_bounded(
                counts@,
                counted@.map_values(|s: String| s@),
                rt_new,
                count as int,
            ),
            idx < n ==> owns_bounded(counts@, rt_new - count),
            idx == n ==> owns_bounded(counts@, rt_new),
            // Per-name table bookkeeping.
            forall|x: Seq<char>|
                counted@.map_values(|s: String| s@).contains(x) ==> table_has(counts@, x),
            forall|x: Seq<char>|
                counted@.map_values(|s: String| s@).contains(x) <==> #[trigger] frames_contain(
                    fr.subrange(0, idx as int),
                    x,
                ),
            forall|s2: Seq<char>|
                #[trigger] table_total(counts@, s2) == table_total(cbase, s2) + (
                if frames_contain(fr.subrange(0, idx as int), s2) {
                    count as int
                } else {
                    0
                }),
            forall|s2: Seq<char>|
                #[trigger] table_own(counts@, s2) == table_own(cbase, s2) + (if idx == n
                    && fr.last() == s2 {
                    count as int
                } else {
                    0
                }),
            forall|s2: Seq<char>|
                #[trigger] table_has(counts@, s2) <==> (table_has(cbase, s2)
                    || frames_contain(fr.subrange(0, idx as int), s2)),
            // Path bookkeeping.
            base.len() <= stacks@.len(),
            node_path(stacks@, parent as int) == fr.subrange(0, idx as int),
            forall|j: int|
                0 <= j < base.len() ==> {
                    let a = #[trigger] stacks@[j];
                    let b = base[j];
                    &&& a.id == b.id
                    &&& a.short_name == b.short_name
                    &&& a.full_name == b.full_name
                    &&& a.parent == b.parent
                    &&& a.level == b.level
                    &&& a.hit == b.hit
                },
            forall|j: int|
                1 <= j < base.len() ==> node_path(stacks@, j) == node_path(base, j),
            forall|j: int|
                base.len() <= j < stacks@.len() ==> (#[trigger] node_path(stacks@, j)).len()
                    >= 1 && node_path(stacks@, j).is_prefix_of(fr) && node_path(
                    stacks@,
                    j,
                ).len() <= idx,
            forall|j: int|
                1 <= j < stacks@.len() ==> (#[trigger] stacks@[j]).total_count == (if j
                    < base.len() {
                    base[j].total_count as int
                } else {
                    0
                }) + (if 1 <= node_path(stacks@, j).len() <= idx && node_path(
                    stacks@,
                    j,
                ).is_prefix_of(fr) {
                    count as int
                } else {
                    0
                }),
            forall|j: int|
                1 <= j < stacks@.len() ==> (#[trigger] stacks@[j]).self_count == (if j
                    < base.len() {
                    base[j].self_count as int
                } else {
                    0
                }) + (if idx == n && node_path(stacks@, j) == fr {
                    count as int
                } else {
                    0
                }),
            forall|m: int|
                1 <= m <= idx ==> exists|j: int|
                    1 <= j < stacks@.len() && #[trigger] node_path(stacks@, j)
                        == #[trigger] fr.subrange(0, m),
        decreases n - idx,
    {
        let ghost sa = stacks@;
        let frame = &frames[idx];
        let is_self = idx + 1 == n;
        proof {
            assert(node_linked(sa, parent as int));
            assert(fr[idx as int] == frame@);
            assert(fr.subrange(0, idx as int) + seq![fr[idx as int]] =~= fr.subrange(
                0,
                idx + 1,
            ));
        }
        let found = find_child(stacks, parent, frame.as_str());
        let target: usize;
        match found {
            Some(c) => {
                proof {
                    let cs = sa[parent as int].children@;
                    let k = choose|k: int|
                        {
                            &&& 0 <= k < cs.len()
                            &&& cs[k] == c
                            &&& sa[c as int].short_name@ == frame@
                            &&& forall|m: int|
                                0 <= m < k ==> sa[#[trigger] cs[m] as int].short_name@
                                    != frame@
                        };
                    assert(cs.contains(c));
                    assert(parent < c < sa.len());
                    assert(sa[c as int].parent == Some(parent));
                    assert(node_path(sa, c as int) == node_path(sa, parent as int) + seq![
                        sa[c as int].short_name@,
                    ]);
                    assert(node_path(sa, c as int) == fr.subrange(0, idx + 1));
                }
                target = c;
            },
            None => {
                let short = frame.clone();
                let full = if parent == 0 {
                    frame.clone()
                } else {
                    let base_name = stacks[parent].full_name.clone();
                    let with_semi = base_name.concat(";");
                    with_semi.concat(frame.as_str())
                };
                proof {
                    reveal_strlit(";");
                    if parent != 0 {
                        assert(full@ =~= sa[parent as int].full_name@ + seq![';'] + frame@);
                    }
                    lemma_level_le_index(sa, parent as int);
                }
                let lvl = stacks[parent].level + 1;
                let new_id = push_child(stacks, parent, short, full, lvl);
                // Reading the length here grounds the arena-size bound the
                // well-formedness proof needs.
                let arena_len = stacks.len();
                proof {
                    let sb = stacks@;
                    lemma_push_child_wf(sa, sb, parent, new_id, count as int);
                    assert(sb[parent as int].children@[sa[parent as int].children@.len() as int]
                        == new_id);
                    assert(sb[parent as int].children@.contains(new_id as StackIdentifier));
                    lemma_push_child_paths(sa, sb, parent, new_id, fr, idx as int);
                    // Bridge the per-node accounting over the fresh leaf.
                    assert forall|j: int|
                        1 <= j < sb.len() implies (#[trigger] sb[j]).total_count == (if j
                        < base.len() {
                        base[j].total_count as int
                    } else {
                        0
                    }) + (if 1 <= node_path(sb, j).len() <= idx && node_path(
                        sb,
                        j,
                    ).is_prefix_of(fr) {
                        count as int
                    } else {
                        0
                    }) by {
                        if j < sa.len() {
                            assert(sb[j].total_count == sa[j].total_count);
                            assert(node_path(sb, j) == node_path(sa, j));
                        } else {
                            assert(j == new_id);
                            assert(node_path(sb, j).len() == idx + 1);
                        }
                    }
                    assert forall|j: int|
                        1 <= j < sb.len() implies (#[trigger] sb[j]).self_count == (if j
                        < base.len() {
                        base[j].self_count as int
                    } else {
                        0
                    }) by {
                        if j < sa.len() {
                            assert(sb[j].self_count == sa[j].self_count);
                            assert(node_path(sb, j) == node_path(sa, j));
                        } else {
                            assert(j == new_id);
                        }
                    }
                }
                target = new_id;
            },
        }
        let ghost sb = stacks@;
        proof {
            assert(sb[parent as int].children@.contains(target as StackIdentifier));
            lemma_room_for_count(sb, parent, target, count as int);
            assert(node_path(sb, target as int) == fr.subrange(0, idx + 1));
        }
        add_to_total(stacks, target, count, is_self);
        proof {
            let sc = stacks@;
            lemma_bump_target_wf(sb, sc, parent, target, count as int, is_self);
            lemma_bump_target_paths(
                sb,
                sc,
                base,
                target,
                fr,
                idx as int,
                n as int,
                count as int,
                is_self,
            );
            assert(node_path(sc, target as int) == fr.subrange(0, idx + 1));
            assert(fr.subrange(0, idx + 1).is_prefix_of(fr)) by {
                assert(fr.subrange(0, idx + 1) =~= fr.subrange(0, idx + 1));
            }
            assert forall|j: int|
                base.len() <= j < sc.len() implies (#[trigger] node_path(sc, j)).len() >= 1
                && node_path(sc, j).is_prefix_of(fr) && node_path(sc, j).len() <= idx
                + 1 by {
                assert(node_path(sc, j) == node_path(sb, j));
                if j < sa.len() {
                    assert(node_path(sb, j) == node_path(sa, j));
                } else {
                    assert(node_path(sb, j) == fr.subrange(0, idx + 1));
                }
            }
            assert forall|j: int| 1 <= j < base.len() implies node_path(sc, j) == node_path(
                base,
                j,
            ) by {
                assert(node_path(sc, j) == node_path(sb, j));
                assert(node_path(sb, j) == node_path(sa, j));
            }
            assert forall|m: int|
                1 <= m <= idx + 1 implies exists|j: int|
                1 <= j < sc.len() && #[trigger] node_path(sc, j) == #[trigger] fr.subrange(
                    0,
                    m,
                ) by {
                if m == idx + 1 {
                    assert(node_path(sc, target as int) == fr.subrange(0, m));
                } else {
                    let j0 = choose|j0: int|
                        1 <= j0 < sb.len() && #[trigger] node_path(sb, j0)
                            == #[trigger] fr.subrange(0, m);
                    assert(node_path(sc, j0) == fr.subrange(0, m));
                }
            }
        }
        let ghost cpre = counts@;
        let ghost counted_pre = counted@.map_values(|x: String| x@);
        update_counts(counts, counted, frame.as_str(), count, is_self, Ghost(rt_new));
        proof {
            lemma_frames_contain_step(fr, idx as int, frame@);
            assert forall|s2: Seq<char>|
                #[trigger] table_total(counts@, s2) == table_total(cbase, s2) + (
                if frames_contain(fr.subrange(0, idx + 1), s2) {
                    count as int
                } else {
                    0
                }) by {
                lemma_frames_contain_step(fr, idx as int, s2);
                if s2 != frame@ {
                    assert(table_total(counts@, s2) == table_total(cpre, s2));
                } else {
                    assert(counted_pre.contains(frame@) <==> frames_contain(
                        fr.subrange(0, idx as int),
                        frame@,
                    ));
                }
            }
            assert forall|s2: Seq<char>|
                #[trigger] table_own(counts@, s2) == table_own(cbase, s2) + (if idx + 1 == n
                    && fr.last() == s2 {
                    count as int
                } else {
                    0
                }) by {
                if s2 != frame@ {
                    assert(table_own(counts@, s2) == table_own(cpre, s2));
                    if idx + 1 == n && fr.last() == s2 {
                        assert(fr.last() == fr[idx as int]);
                    }
                } else {
                    if is_self {
                        assert(fr.last() == fr[idx as int]);
                    } else {
                        if fr.last() == s2 && idx + 1 == n {
                            assert(fr.last() == fr[idx as int]);
                        }
                    }
                }
            }
            assert forall|s2: Seq<char>|
                #[trigger] table_has(counts@, s2) <==> (table_has(cbase, s2)
                    || frames_contain(fr.subrange(0, idx + 1), s2)) by {
                lemma_frames_contain_step(fr, idx as int, s2);
                if s2 != frame@ {
                    assert(table_has(counts@, s2) == table_has(cpre, s2));
                }
            }
            assert forall|x: Seq<char>|
                counted@.map_values(|s: String| s@).contains(x) <==> #[trigger] frames_contain(
                    fr.subrange(0, idx + 1),
                    x,
                ) by {
                lemma_frames_contain_step(fr, idx as int, x);
                let cmap = counted@.map_values(|s: String| s@);
                if counted_pre.contains(frame@) {
                    assert(cmap == counted_pre);
                } else {
                    assert(cmap == counted_pre.push(frame@));
                    if cmap.contains(x) {
                        let k = choose|k: int| 0 <= k < cmap.len() && cmap[k] == x;
                        if k < counted_pre.len() {
                            assert(counted_pre[k] == x);
                        } else {
                            assert(x == frame@);
                        }
                    }
                    if counted_pre.contains(x) {
                        let k = choose|k: int|
                            0 <= k < counted_pre.len() && counted_pre[k] == x;
                        assert(cmap[k] == x);
                    }
                    if x == frame@ {
                        assert(cmap[counted_pre.len() as int] == frame@);
                    }
                }
            }
        }
        parent = target;
        idx += 1;
    }
    proof {
        assert(fr.subrange(0, n as int) =~= fr);
        assert forall|j: int|
            1 <= j < stacks@.len() implies (#[trigger] stacks@[j]).total_count == (if j
            < base.len() {
            base[j].total_count as int
        } else {
            0
        }) + (if node_path(stacks@, j).len() >= 1 && node_path(stacks@, j).is_prefix_of(fr) {
            count as int
        } else {
            0
        }) by {
            if node_path(stacks@, j).len() >= 1 && node_path(stacks@, j).is_prefix_of(fr) {
                assert(node_path(stacks@, j).len() <= fr.len());
            }
        }
    }
}

/// Variant of [`lemma_sum_totals_untouched`] that only asks for equal
/// totals at the listed indices.
pub proof fn lemma_sum_totals_untouched_totals(
    old_s: Seq<StackInfo>,
    new_s: Seq<StackInfo>,
    cs: Seq<StackIdentifier>,
)
    requires
        forall|k: int|
            0 <= k < cs.len() ==> new_s[#[trigger] cs[k] as int].total_count == old_s[cs[k] as int].total_count,
    ensures
        sum_totals(new_s, cs) == sum_totals(old_s, cs),
    decreases cs.len(),
{
    if cs.len() > 0 {
        assert(forall|k: int| 0 <= k < cs.len() - 1 ==> cs.drop_last()[k] == cs[k]);
        lemma_sum_totals_untouched_totals(old_s, new_s, cs.drop_last());
        assert(cs.last() == cs[cs.len() - 1]);
    }
}

/// Every ancestor chain ends at the root.
pub proof fn lemma_chain_contains_root(stacks: Seq<StackInfo>, x: int)
    requires
        stacks_well_formed(stacks),
        0 <= x < stacks.len(),
    ensures
        in_subtree(stacks, 0, x),
    decreases x,
{
    assert(node_linked(stacks, x));
    if x == 0 {
        assert(ancestor_chain(stacks, 0) == seq![0 as StackIdentifier]);
        assert(ancestor_chain(stacks, 0)[0] == 0 as StackIdentifier);
    } else {
        let p = stacks[x].parent->Some_0 as int;
        lemma_chain_contains_root(stacks, p);
        let tail = ancestor_chain(stacks, p);
        assert(ancestor_chain(stacks, x) == seq![x as StackIdentifier] + tail);
        lemma_cons_contains(x as StackIdentifier, tail, 0);
    }
}

/// Depths are contiguous: below any occupied depth every depth is occupied.
pub proof fn lemma_level_exists_below(stacks: Seq<StackInfo>, x: int, l: int)
    requires
        stacks_well_formed(stacks),
        0 <= x < stacks.len(),
        0 <= l <= stacks[x].level,
    ensures
        exists|y: int| 0 <= y < stacks.len() && (#[trigger] stacks[y].level) == l,
    decreases stacks[x].level - l,
{
    assert(node_linked(stacks, x));
    if stacks[x].level == l {
        assert(stacks[x].level == l);
    } else {
        assert(x != 0);
        lemma_level_exists_below(stacks, stacks[x].parent->Some_0 as int, l);
    }
}

/// Appends empty rows until depth `l` has one.
fn extend_rows(levels: &mut Vec<Vec<StackIdentifier>>, l: usize)
    ensures
        final(levels)@.len() == (if old(levels)@.len() > l {
            old(levels)@.len() as int
        } else {
            l + 1
        }),
        forall|l2: int|
            0 <= l2 < old(levels)@.len() ==> final(levels)@[l2] == old(levels)@[l2],
        forall|l2: int|
            old(levels)@.len() <= l2 < final(levels)@.len() ==> (#[trigger] final(levels)@[l2])@.len() == 0,
{
    while levels.len() <= l
        invariant
            levels@.len() >= old(levels)@.len(),
            levels@.len() <= l + 1 || levels@.len() == old(levels)@.len(),
            forall|l2: int| 0 <= l2 < old(levels)@.len() ==> levels@[l2] == old(levels)@[l2],
            forall|l2: int|
                old(levels)@.len() <= l2 < levels@.len() ==> (#[trigger] levels@[l2])@.len()
                    == 0,
        decreases l + 1 - levels@.len(),
    {
        levels.push(Vec::new());
    }
}

/// Builds the per-depth rows: each row lists the nodes of that depth in
/// depth-first pre-order, each exactly once.
fn build_levels(stacks: &Vec<StackInfo>) -> (levels: Vec<Vec<StackIdentifier>>)
    requires
        stacks_well_formed(stacks@),
    ensures
        levels_consistent(stacks@, levels@),
{
    let mut ds: Vec<StackIdentifier> = Vec::new();
    collect_subtree(stacks, 0, &mut ds);
    proof {
        assert forall|m: int| 0 <= m < ds@.len() implies (#[trigger] ds@[m]) < stacks@.len() by {
            assert(ds@.contains(ds@[m]));
        }
    }
    let mut levels: Vec<Vec<StackIdentifier>> = Vec::new();
    let dn = ds.len();
    let mut j: usize = 0;
    while j < dn
        invariant
            stacks_well_formed(stacks@),
            dn == ds@.len(),
            j <= dn,
            all_distinct(ds@),
            forall|x: StackIdentifier| ds@.contains(x) <==> in_subtree(stacks@, 0, x as int),
            forall|m: int| 0 <= m < ds@.len() ==> (#[trigger] ds@[m]) < stacks@.len(),
            forall|l: int, k: int|
                0 <= l < levels@.len() && 0 <= k < levels@[l]@.len() ==> {
                    let id = #[trigger] levels@[l]@[k] as int;
                    &&& 0 <= id < stacks@.len()
                    &&& stacks@[id].level == l
                },
            forall|l: int, k: int|
                0 <= l < levels@.len() && 0 <= k < levels@[l]@.len() ==> exists|m: int|
                    0 <= m < j && ds@[m] == #[trigger] levels@[l]@[k],
            forall|m: int|
                0 <= m < j ==> (#[trigger] stacks@[ds@[m] as int].level) < levels@.len()
                    && levels@[stacks@[ds@[m] as int].level as int]@.contains(ds@[m]),
            forall|l: int, k1: int, k2: int|
                0 <= l < levels@.len() && 0 <= k1 < k2 < levels@[l]@.len() ==> levels@[l]@[k1]
                    != levels@[l]@[k2],
            levels@.len() == 0 || exists|y: int|
                0 <= y < stacks@.len() && (#[trigger] stacks@[y].level) + 1 == levels@.len(),
        decreases dn - j,
    {
        let x = ds[j];
        proof {
            assert(ds@.contains(ds@[j as int]));
        }
        let l = stacks[x].level;
        let ghost rows0 = levels@;
        extend_rows(&mut levels, l);
        proof {
            let rows1 = levels@;
            assert forall|l2: int, k: int|
                0 <= l2 < rows1.len() && 0 <= k < rows1[l2]@.len() implies exists|m: int|
                0 <= m < j && ds@[m] == #[trigger] rows1[l2]@[k] by {
                assert(l2 < rows0.len());
                assert(rows1[l2] == rows0[l2]);
                let m = choose|m: int| 0 <= m < j && ds@[m] == rows0[l2]@[k];
                assert(ds@[m] == rows1[l2]@[k]);
            }
            assert forall|m: int|
                0 <= m < j implies (#[trigger] stacks@[ds@[m] as int].level) < rows1.len()
                && rows1[stacks@[ds@[m] as int].level as int]@.contains(ds@[m]) by {
                let lvl = stacks@[ds@[m] as int].level as int;
                assert(lvl < rows0.len());
                assert(rows1[lvl] == rows0[lvl]);
            }
            if rows1.len() > rows0.len() {
                assert(rows1.len() == l + 1);
                assert(stacks@[x as int].level + 1 == rows1.len());
            } else {
                assert(rows1 =~= rows0);
            }
        }
        let ghost rows_before = levels@;
        let ghost row_before = levels@[l as int]@;
        levels[l].push(x);
        proof {
            assert(levels@[l as int]@ == row_before.push(x));
            assert(forall|l2: int|
                0 <= l2 < levels@.len() && l2 != l ==> levels@[l2] == rows_before[l2]);
            assert forall|k: int| 0 <= k < row_before.len() implies row_before[k] != x by {
                let m = choose|m: int| 0 <= m < j && ds@[m] == rows_before[l as int]@[k];
                if row_before[k] == x {
                    assert(ds@[m] == ds@[j as int]);
                }
            }
            assert forall|l2: int, k: int|
                0 <= l2 < levels@.len() && 0 <= k < levels@[l2]@.len() implies exists|m: int|
                0 <= m < j + 1 && ds@[m] == #[trigger] levels@[l2]@[k] by {
                if l2 == l && k == row_before.len() {
                    assert(ds@[j as int] == levels@[l2]@[k]);
                } else {
                    let m = choose|m: int| 0 <= m < j && ds@[m] == rows_before[l2]@[k];
                    assert(ds@[m] == levels@[l2]@[k]);
                }
            }
            assert(levels@[l as int]@[row_before.len() as int] == x);
            assert(levels@[l as int]@.contains(x));
            assert forall|m: int|
                0 <= m < j + 1 implies (#[trigger] stacks@[ds@[m] as int].level)
                < levels@.len() && levels@[stacks@[ds@[m] as int].level as int]@.contains(
                ds@[m],
            ) by {
                let lvl = stacks@[ds@[m] as int].level as int;
                if m == j {
                    assert(lvl == l);
                } else if lvl == l {
                    assert(rows_before[lvl]@.contains(ds@[m]));
                    let k = choose|k: int|
                        0 <= k < row_before.len() && row_before[k] == ds@[m];
                    assert(levels@[l as int]@[k] == ds@[m]);
                } else {
                    assert(levels@[lvl] == rows_before[lvl]);
                    assert(rows_before[lvl]@.contains(ds@[m]));
                }
            }
        }
        j += 1;
    }
    proof {
        assert forall|i: int| 0 <= i < stacks@.len() implies {
            &&& (#[trigger] stacks@[i].level) < levels@.len()
            &&& levels@[stacks@[i].level as int]@.contains(i as StackIdentifier)
        } by {
            lemma_chain_contains_root(stacks@, i);
            assert(ds@.contains(i as StackIdentifier));
            let m = choose|m: int| 0 <= m < ds@.len() && ds@[m] == i as StackIdentifier;
        }
        assert forall|l: int| 0 <= l < levels@.len() implies (#[trigger] levels@[l]@.len())
            > 0 by {
            let y = choose|y: int|
                0 <= y < stacks@.len() && (#[trigger] stacks@[y].level) + 1 == levels@.len();
            lemma_level_exists_below(stacks@, y, l);
            let z = choose|z: int|
                0 <= z < stacks@.len() && (#[trigger] stacks@[z].level) == l;
            assert(levels@[l]@.contains(z as StackIdentifier));
            let k = choose|k: int|
                0 <= k < levels@[l]@.len() && levels@[l]@[k] == z as StackIdentifier;
        }
    }
    levels
}

// ---------------------------------------------------------------------------
// Sorting
// ---------------------------------------------------------------------------

/// Removing one element takes its total out of the sum.
pub proof fn lemma_sum_totals_remove(stacks: Seq<StackInfo>, cs: Seq<StackIdentifier>, j: int)
    requires
        0 <= j < cs.len(),
    ensures
        sum_totals(stacks, cs) == sum_totals(stacks, cs.remove(j)) + stacks[cs[j] as int].total_count,
    decreases cs.len(),
{
    if j == cs.len() - 1 {
        assert(cs.remove(j) =~= cs.drop_last());
    } else {
        assert(cs.remove(j).drop_last() =~= cs.drop_last().remove(j));
        assert(cs.remove(j).last() == cs.last());
        lemma_sum_totals_remove(stacks, cs.drop_last(), j);
        assert(cs.drop_last()[j] == cs[j]);
    }
}

/// The sum of totals only depends on the multiset of listed nodes.
pub proof fn lemma_sum_totals_perm(
    stacks: Seq<StackInfo>,
    cs1: Seq<StackIdentifier>,
    cs2: Seq<StackIdentifier>,
)
    requires
        cs1.to_multiset() == cs2.to_multiset(),
    ensures
        sum_totals(stacks, cs1) == sum_totals(stacks, cs2),
    decreases cs1.len(),
{
    broadcast use vstd::seq_lib::group_to_multiset_ensures;

    if cs1.len() == 0 {
        assert(cs2.to_multiset().len() == 0);
        assert(cs2.len() == 0);
    } else {
        let e = cs1.last();
        assert(cs1.contains(e));
        assert(cs1.to_multiset().count(e) > 0);
        assert(cs2.contains(e));
        let j = choose|j: int| 0 <= j < cs2.len() && cs2[j] == e;
        assert(cs1.drop_last() =~= cs1.remove(cs1.len() - 1));
        assert(cs1.remove(cs1.len() - 1).to_multiset() =~= cs1.to_multiset().remove(e));
        assert(cs2.remove(j).to_multiset() =~= cs2.to_multiset().remove(e));
        lemma_sum_totals_perm(stacks, cs1.drop_last(), cs2.remove(j));
        lemma_sum_totals_remove(stacks, cs2, j);
    }
}

/// Display order of sibling nodes when the tree is sorted: larger totals
/// first; the sort is stable, so equal totals keep creation order, which
/// is ascending index.
pub open spec fn child_before(stacks: Seq<StackInfo>, a: StackIdentifier, b: StackIdentifier) -> bool {
    ||| stacks[a as int].total_count > stacks[b as int].total_count
    ||| (stacks[a as int].total_count == stacks[b as int].total_count && a < b)
}

/// Every child list is in display order.
pub open spec fn children_sorted(stacks: Seq<StackInfo>) -> bool {
    forall|i: int, k1: int, k2: int|
        0 <= i < stacks.len() && 0 <= k1 < k2 < stacks[i].children@.len() ==> child_before(
            stacks,
            #[trigger] stacks[i].children@[k1],
            #[trigger] stacks[i].children@[k2],
        )
}

/// Sorts a list of distinct node indices into display order.
fn sort_ids(stacks: &Vec<StackInfo>, ids: Vec<StackIdentifier>) -> (r: Vec<StackIdentifier>)
    requires
        all_distinct(ids@),
        forall|k: int| 0 <= k < ids@.len() ==> (#[trigger] ids@[k]) < stacks@.len(),
    ensures
        r@.to_multiset() == ids@.to_multiset(),
        r@.len() == ids@.len(),
        all_distinct(r@),
        forall|x: StackIdentifier| r@.contains(x) <==> ids@.contains(x),
        forall|k1: int, k2: int|
            0 <= k1 < k2 < r@.len() ==> child_before(stacks@, r@[k1], r@[k2]),
{
    broadcast use vstd::seq_lib::group_to_multiset_ensures;

    let ghost orig = ids@;
    proof {
        orig.lemma_multiset_has_no_duplicates();
        assert(forall|k: int| 0 <= k < orig.len() ==> orig.contains(#[trigger] orig[k]));
    }
    let mut src = ids;
    let mut out: Vec<StackIdentifier> = Vec::new();
    while src.len() > 0
        invariant
            out@.to_multiset().add(src@.to_multiset()) =~= orig.to_multiset(),
            forall|x: StackIdentifier| orig.to_multiset().count(x) <= 1,
            forall|k: int| 0 <= k < src@.len() ==> (#[trigger] src@[k]) < stacks@.len(),
            forall|k: int| 0 <= k < out@.len() ==> (#[trigger] out@[k]) < stacks@.len(),
            all_distinct(src@),
            all_distinct(out@),
            forall|k1: int, k2: int|
                0 <= k1 < k2 < out@.len() ==> child_before(stacks@, out@[k1], out@[k2]),
            forall|k1: int, k2: int|
                0 <= k1 < out@.len() && 0 <= k2 < src@.len() ==> child_before(
                    stacks@,
                    out@[k1],
                    src@[k2],
                ),
        decreases src@.len(),
    {
        // Find the element that comes first in display order.
        let n = src.len();
        let mut m: usize = 0;
        let mut k: usize = 1;
        while k < n
            invariant
                n == src@.len(),
                n > 0,
                m < k <= n,
                all_distinct(src@),
                forall|k2: int| 0 <= k2 < src@.len() ==> (#[trigger] src@[k2]) < stacks@.len(),
                forall|k2: int|
                    0 <= k2 < k && k2 != m ==> child_before(stacks@, src@[m as int], src@[k2]),
            decreases n - k,
        {
            let a = src[k];
            let b = src[m];
            let ta = stacks[a].total_count;
            let tb = stacks[b].total_count;
            let better = ta > tb || (ta == tb && a < b);
            proof {
                if better {
                    assert(child_before(stacks@, a, b));
                    assert forall|k2: int|
                        0 <= k2 < k + 1 && k2 != k implies child_before(
                        stacks@,
                        src@[k as int],
                        src@[k2],
                    ) by {
                        if k2 != m {
                            assert(child_before(stacks@, src@[m as int], src@[k2]));
                        }
                    }
                } else {
                    assert(a != b);
                    assert(child_before(stacks@, b, a));
                }
            }
            if better {
                m = k;
            }
            k += 1;
        }
        let ghost src0 = src@;
        let x = src.remove(m);
        let ghost out0 = out@;
        out.push(x);
        proof {
            assert(x == src0[m as int]);
            assert(src@ =~= src0.remove(m as int));
            assert(src0.remove(m as int).to_multiset() =~= src0.to_multiset().remove(x));
            assert(src0.contains(x)) by {
                assert(src0[m as int] == x);
            }
            assert(src0.to_multiset().count(x) > 0);
            assert(!out0.contains(x)) by {
                if out0.contains(x) {
                    assert(out0.to_multiset().count(x) > 0);
                    assert(out0.to_multiset().add(src0.to_multiset()).count(x) >= 2);
                }
            }
            assert(out@ == out0.push(x));
            assert(out@.to_multiset() =~= out0.to_multiset().insert(x));
            assert(out@.to_multiset().add(src@.to_multiset()) =~= orig.to_multiset()) by {
                assert forall|y: StackIdentifier|
                    out@.to_multiset().add(src@.to_multiset()).count(y) == orig.to_multiset().count(
                    y,
                ) by {
                    assert(out0.to_multiset().add(src0.to_multiset()).count(y)
                        == orig.to_multiset().count(y));
                }
            }
            assert(forall|k2: int| 0 <= k2 < out0.len() ==> out@[k2] == out0[k2]);
            assert(out@[out0.len() as int] == x);
            assert(all_distinct(out@)) by {
                assert(forall|k2: int|
                    0 <= k2 < out0.len() ==> out0.contains(#[trigger] out0[k2]));
            }
            assert(all_distinct(src@)) by {
                assert forall|k1: int, k2: int|
                    0 <= k1 < k2 < src@.len() implies src@[k1] != src@[k2] by {
                    let j1 = if k1 < m {
                        k1
                    } else {
                        k1 + 1
                    };
                    let j2 = if k2 < m {
                        k2
                    } else {
                        k2 + 1
                    };
                    assert(src@[k1] == src0[j1]);
                    assert(src@[k2] == src0[j2]);
                }
            }
            // The selected element precedes everything still in `src`.
            assert forall|k2: int| 0 <= k2 < src@.len() implies child_before(
                stacks@,
                x,
                src@[k2],
            ) by {
                let k3 = if k2 < m {
                    k2
                } else {
                    k2 + 1
                };
                assert(src@[k2] == src0[k3]);
                assert(k3 != m);
                assert(child_before(stacks@, src0[m as int], src0[k3]));
            }
            assert forall|k1: int, k2: int|
                0 <= k1 < out@.len() && 0 <= k2 < src@.len() implies child_before(
                stacks@,
                out@[k1],
                src@[k2],
            ) by {
                if k1 < out0.len() {
                    let k3 = if k2 < m {
                        k2
                    } else {
                        k2 + 1
                    };
                    assert(src@[k2] == src0[k3]);
                    assert(child_before(stacks@, out0[k1], src0[k3]));
                } else {
                    assert(out@[k1] == x);
                }
            }
            assert forall|k1: int, k2: int|
                0 <= k1 < k2 < out@.len() implies child_before(stacks@, out@[k1], out@[k2]) by {
                if k2 == out0.len() {
                    assert(child_before(stacks@, out0[k1], src0[m as int]));
                } else {
                    assert(child_before(stacks@, out0[k1], out0[k2]));
                }
            }
            assert forall|k2: int| 0 <= k2 < src@.len() implies (#[trigger] src@[k2])
                < stacks@.len() by {
                let k3 = if k2 < m {
                    k2
                } else {
                    k2 + 1
                };
                assert(src@[k2] == src0[k3]);
            }
        }
    }
    proof {
        assert(src@.to_multiset().len() == 0);
        assert(out@.to_multiset() =~= orig.to_multiset()) by {
            assert forall|y: StackIdentifier|
                out@.to_multiset().count(y) == orig.to_multiset().count(y) by {
                assert(out@.to_multiset().add(src@.to_multiset()).count(y)
                    == orig.to_multiset().count(y));
                assert(src@.to_multiset().count(y) == 0);
            }
        }
        assert(out@.len() == out@.to_multiset().len());
        assert(orig.len() == orig.to_multiset().len());
        assert forall|x: StackIdentifier| out@.contains(x) <==> orig.contains(x) by {
            if out@.contains(x) {
                assert(out@.to_multiset().count(x) > 0);
            }
            if orig.contains(x) {
                assert(orig.to_multiset().count(x) > 0);
            }
        }
    }
    out
}

/// Reads a node's total count.
fn stacks_total(stacks: &Vec<StackInfo>, i: StackIdentifier) -> (r: u64)
    ensures
        i < stacks@.len() ==> r == stacks@[i as int].total_count,
        i >= stacks@.len() ==> r == 0,
{
    if i < stacks.len() {
        stacks[i].total_count
    } else {
        0
    }
}

/// Every table row is visible.
pub open spec fn counts_all_visible(entries: Seq<CountEntry>) -> bool {
    forall|i: int| 0 <= i < entries.len() ==> (#[trigger] entries[i]).visible
}

/// When every row is visible the visible count is the length.
pub proof fn lemma_visible_count_all(entries: Seq<CountEntry>)
    requires
        counts_all_visible(entries),
    ensures
        visible_count(entries) == entries.len(),
    decreases entries.len(),
{
    if entries.len() > 0 {
        assert(forall|i: int|
            0 <= i < entries.len() - 1 ==> entries.drop_last()[i] == entries[i]);
        lemma_visible_count_all(entries.drop_last());
        assert(entries[entries.len() - 1].visible);
    }
}

/// Removing one row takes its visibility out of the count.
pub proof fn lemma_visible_count_remove(entries: Seq<CountEntry>, j: int)
    requires
        0 <= j < entries.len(),
    ensures
        visible_count(entries) == visible_count(entries.remove(j)) + (if entries[j].visible {
            1int
        } else {
            0int
        }),
    decreases entries.len(),
{
    if j == entries.len() - 1 {
        assert(entries.remove(j) =~= entries.drop_last());
    } else {
        assert(entries.remove(j).drop_last() =~= entries.drop_last().remove(j));
        assert(entries.remove(j).last() == entries.last());
        lemma_visible_count_remove(entries.drop_last(), j);
        assert(entries.drop_last()[j] == entries[j]);
    }
}

/// The visible count only depends on the multiset of rows.
pub proof fn lemma_visible_count_perm(e1: Seq<CountEntry>, e2: Seq<CountEntry>)
    requires
        e1.to_multiset() == e2.to_multiset(),
    ensures
        visible_count(e1) == visible_count(e2),
    decreases e1.len(),
{
    if e1.len() == 0 {
        assert(e2.to_multiset().len() == 0);
        assert(e2.len() == 0);
    } else {
        let e = e1.last();
        assert(e1.contains(e));
        assert(e1.to_multiset().count(e) > 0);
        assert(e2.contains(e));
        let j = choose|j: int| 0 <= j < e2.len() && e2[j] == e;
        assert(e1.drop_last() =~= e1.remove(e1.len() - 1));
        assert(e1.remove(e1.len() - 1).to_multiset() =~= e1.to_multiset().remove(e));
        assert(e2.remove(j).to_multiset() =~= e2.to_multiset().remove(e));
        lemma_visible_count_perm(e1.drop_last(), e2.remove(j));
        lemma_visible_count_remove(e2, j);
    }
}

/// The row order is transitive.
pub proof fn lemma_entry_before_trans(a: CountEntry, b: CountEntry, c: CountEntry, col: SortColumn)
    requires
        entry_before(a, b, col),
        entry_before(b, c, col),
    ensures
        entry_before(a, c, col),
{
    let ka = if col is Total {
        a.count.total
    } else {
        a.count.own
    };
    let kb = if col is Total {
        b.count.total
    } else {
        b.count.own
    };
    let kc = if col is Total {
        c.count.total
    } else {
        c.count.own
    };
    if ka == kb && kb == kc {
        crate::strings::lemma_lex_lt_trans(a.name@, b.name@, c.name@);
    }
}

/// Rows with distinct names are ordered one way or the other.
pub proof fn lemma_entry_before_total(a: CountEntry, b: CountEntry, col: SortColumn)
    requires
        a.name@ != b.name@,
    ensures
        entry_before(a, b, col) || entry_before(b, a, col),
        !(entry_before(a, b, col) && entry_before(b, a, col)),
{
    crate::strings::lemma_lex_lt_trichotomy(a.name@, b.name@);
}

/// Exec comparison of two rows under the active column.
fn entry_cmp(a: &CountEntry, b: &CountEntry, col: SortColumn) -> (r: bool)
    ensures
        r == entry_before(*a, *b, col),
{
    let ka = match col {
        SortColumn::Total => a.count.total,
        SortColumn::Own => a.count.own,
    };
    let kb = match col {
        SortColumn::Total => b.count.total,
        SortColumn::Own => b.count.own,
    };
    ka > kb || (ka == kb && crate::strings::str_lt(a.name.as_str(), b.name.as_str()))
}

/// Sorts the table rows by the given column, descending, ties by name
/// ascending. Each row value is kept exactly.
fn sort_entries(v: &mut Vec<CountEntry>, col: SortColumn)
    requires
        counts_distinct(old(v)@),
    ensures
        final(v)@.to_multiset() == old(v)@.to_multiset(),
        final(v)@.len() == old(v)@.len(),
        counts_distinct(final(v)@),
        forall|e: CountEntry| final(v)@.contains(e) <==> old(v)@.contains(e),
        forall|k1: int, k2: int|
            0 <= k1 < k2 < final(v)@.len() ==> entry_before(
                final(v)@[k1],
                final(v)@[k2],
                col,
            ),
{
    let ghost orig = v@;
    proof {
        assert(forall|k: int| 0 <= k < orig.len() ==> orig.contains(#[trigger] orig[k]));
    }
    let mut out: Vec<CountEntry> = Vec::new();
    while v.len() > 0
        invariant
            out@.to_multiset().add(v@.to_multiset()) =~= orig.to_multiset(),
            counts_distinct(orig),
            counts_distinct(v@),
            counts_distinct(out@),
            forall|k1: int, k2: int|
                0 <= k1 < out@.len() && 0 <= k2 < v@.len() ==> (#[trigger] out@[k1]).name@
                    != (#[trigger] v@[k2]).name@,
            forall|k1: int, k2: int|
                0 <= k1 < k2 < out@.len() ==> entry_before(out@[k1], out@[k2], col),
            forall|k1: int, k2: int|
                0 <= k1 < out@.len() && 0 <= k2 < v@.len() ==> entry_before(
                    out@[k1],
                    v@[k2],
                    col,
                ),
        decreases v@.len(),
    {
        let n = v.len();
        let mut m: usize = 0;
        let mut k: usize = 1;
        while k < n
            invariant
                n == v@.len(),
                n > 0,
                m < k <= n,
                counts_distinct(v@),
                forall|k2: int|
                    0 <= k2 < k && k2 != m ==> entry_before(v@[m as int], v@[k2], col),
            decreases n - k,
        {
            let better = entry_cmp(&v[k], &v[m], col);
            proof {
                if better {
                    assert forall|k2: int|
                        0 <= k2 < k + 1 && k2 != k implies entry_before(
                        v@[k as int],
                        v@[k2],
                        col,
                    ) by {
                        if k2 != m {
                            lemma_entry_before_trans(v@[k as int], v@[m as int], v@[k2], col);
                        }
                    }
                } else {
                    assert(v@[k as int].name@ != v@[m as int].name@);
                    lemma_entry_before_total(v@[k as int], v@[m as int], col);
                }
            }
            if better {
                m = k;
            }
            k += 1;
        }
        let ghost src0 = v@;
        let x = v.remove(m);
        let ghost out0 = out@;
        out.push(x);
        proof {
            assert(x == src0[m as int]);
            assert(v@ =~= src0.remove(m as int));
            assert(src0.remove(m as int).to_multiset() =~= src0.to_multiset().remove(x));
            assert(src0.contains(x)) by {
                assert(src0[m as int] == x);
            }
            assert(out@ == out0.push(x));
            assert(out@.to_multiset() =~= out0.to_multiset().insert(x));
            assert(out@.to_multiset().add(v@.to_multiset()) =~= orig.to_multiset()) by {
                assert forall|y: CountEntry|
                    out@.to_multiset().add(v@.to_multiset()).count(y) == orig.to_multiset().count(
                    y,
                ) by {
                    assert(out0.to_multiset().add(src0.to_multiset()).count(y)
                        == orig.to_multiset().count(y));
                }
            }
            assert(forall|k2: int| 0 <= k2 < out0.len() ==> out@[k2] == out0[k2]);
            assert(out@[out0.len() as int] == x);
            assert forall|k1: int, k2: int|
                0 <= k1 < k2 < v@.len() implies (#[trigger] v@[k1]).name@ != (
            #[trigger] v@[k2]).name@ by {
                let j1 = if k1 < m {
                    k1
                } else {
                    k1 + 1
                };
                let j2 = if k2 < m {
                    k2
                } else {
                    k2 + 1
                };
                assert(v@[k1] == src0[j1]);
                assert(v@[k2] == src0[j2]);
            }
            assert forall|k2: int| 0 <= k2 < v@.len() implies x.name@ != (
            #[trigger] v@[k2]).name@ && entry_before(x, v@[k2], col) by {
                let k3 = if k2 < m {
                    k2
                } else {
                    k2 + 1
                };
                assert(v@[k2] == src0[k3]);
                assert(k3 != m);
                assert(entry_before(src0[m as int], src0[k3], col));
            }
            assert forall|k1: int, k2: int|
                0 <= k1 < out@.len() && 0 <= k2 < v@.len() implies entry_before(
                out@[k1],
                v@[k2],
                col,
            ) && (#[trigger] out@[k1]).name@ != (#[trigger] v@[k2]).name@ by {
                let k3 = if k2 < m {
                    k2
                } else {
                    k2 + 1
                };
                assert(v@[k2] == src0[k3]);
                if k1 < out0.len() {
                    assert(entry_before(out0[k1], src0[k3], col));
                    assert(out0[k1].name@ != src0[k3].name@);
                } else {
                    assert(out@[k1] == x);
                }
            }
            assert forall|k1: int, k2: int|
                0 <= k1 < k2 < out@.len() implies entry_before(out@[k1], out@[k2], col) by {
                if k2 == out0.len() {
                    assert(entry_before(out0[k1], src0[m as int], col));
                } else {
                    assert(entry_before(out0[k1], out0[k2], col));
                }
            }
            assert forall|k1: int, k2: int|
                0 <= k1 < k2 < out@.len() implies (#[trigger] out@[k1]).name@ != (
            #[trigger] out@[k2]).name@ by {
                if k2 == out0.len() {
                    assert(out0[k1].name@ != src0[m as int].name@);
                } else {
                }
            }
        }
    }
    proof {
        assert(v@.to_multiset().len() == 0);
        assert(out@.to_multiset() =~= orig.to_multiset()) by {
            assert forall|y: CountEntry|
                out@.to_multiset().count(y) == orig.to_multiset().count(y) by {
                assert(out@.to_multiset().add(v@.to_multiset()).count(y)
                    == orig.to_multiset().count(y));
                assert(v@.to_multiset().count(y) == 0);
            }
        }
        assert(out@.len() == out@.to_multiset().len());
        assert(orig.len() == orig.to_multiset().len());
        assert forall|e: CountEntry| out@.contains(e) <==> orig.contains(e) by {
            if out@.contains(e) {
                assert(out@.to_multiset().count(e) > 0);
            }
            if orig.contains(e) {
                assert(orig.to_multiset().count(e) > 0);
            }
        }
    }
    *v = out;
}


/// Copies a list of indices.
fn copy_ids(v: &Vec<StackIdentifier>) -> (r: Vec<StackIdentifier>)
    ensures
        r@ == v@,
{
    let mut r: Vec<StackIdentifier> = Vec::new();
    let n = v.len();
    let mut i: usize = 0;
    while i < n
        invariant
            n == v@.len(),
            i <= n,
            r@ =~= v@.subrange(0, i as int),
        decreases n - i,
    {
        r.push(v[i]);
        i += 1;
    }
    proof {
        assert(r@ =~= v@);
    }
    r
}

/// Reorders every node's children into display order; nothing else about
/// any node changes.
fn sort_all_children(stacks: &mut Vec<StackInfo>)
    requires
        stacks_well_formed(old(stacks)@),
        no_hits(old(stacks)@),
    ensures
        stacks_well_formed(final(stacks)@),
        no_hits(final(stacks)@),
        children_sorted(final(stacks)@),
        final(stacks)@.len() == old(stacks)@.len(),
        forall|j: int|
            0 <= j < final(stacks)@.len() ==> {
                let a = #[trigger] final(stacks)@[j];
                let b = old(stacks)@[j];
                &&& a.id == b.id
                &&& a.short_name == b.short_name
                &&& a.full_name == b.full_name
                &&& a.total_count == b.total_count
                &&& a.self_count == b.self_count
                &&& a.parent == b.parent
                &&& a.level == b.level
                &&& a.hit == b.hit
                &&& a.children@.to_multiset() == b.children@.to_multiset()
            },
{
    let n = stacks.len();
    let mut i: usize = 0;
    while i < n
        invariant
            n == stacks@.len(),
            i <= n,
            stacks_well_formed(stacks@),
            no_hits(stacks@),
            forall|j: int|
                0 <= j < n ==> {
                    let a = #[trigger] stacks@[j];
                    let b = old(stacks)@[j];
                    &&& a.id == b.id
                    &&& a.short_name == b.short_name
                    &&& a.full_name == b.full_name
                    &&& a.total_count == b.total_count
                    &&& a.self_count == b.self_count
                    &&& a.parent == b.parent
                    &&& a.level == b.level
                    &&& a.hit == b.hit
                    &&& a.children@.to_multiset() == b.children@.to_multiset()
                },
            forall|j: int, k1: int, k2: int|
                0 <= j < i && 0 <= k1 < k2 < stacks@[j].children@.len() ==> child_before(
                    stacks@,
                    #[trigger] stacks@[j].children@[k1],
                    #[trigger] stacks@[j].children@[k2],
                ),
        decreases n - i,
    {
        let ghost sa = stacks@;
        proof {
            assert(node_linked(sa, i as int));
        }
        let ids = copy_ids(&stacks[i].children);
        proof {
            assert forall|k: int| 0 <= k < ids@.len() implies (#[trigger] ids@[k])
                < stacks@.len() by {
                assert(sa[i as int].children@[k] == ids@[k]);
            }
        }
        let sorted = sort_ids(stacks, ids);
        stacks[i].children = sorted;
        proof {
            let sc = stacks@;
            let cs_old = sa[i as int].children@;
            let cs_new = sc[i as int].children@;
            assert(forall|j: int| 0 <= j < n && j != i ==> sc[j] == sa[j]);
            assert(cs_new.to_multiset() == cs_old.to_multiset());
            assert(forall|x: StackIdentifier| cs_new.contains(x) <==> cs_old.contains(x));
            // Links survive the reorder.
            assert forall|j: int| 0 <= j < sc.len() implies #[trigger] node_linked(sc, j) by {
                assert(node_linked(sa, j));
                if j == i {
                    assert forall|k: int|
                        0 <= k < cs_new.len() implies {
                        let c = #[trigger] cs_new[k] as int;
                        &&& j < c < sc.len()
                        &&& sc[c].parent == Some(j as StackIdentifier)
                    } by {
                        assert(cs_new.contains(cs_new[k]));
                        assert(cs_old.contains(cs_new[k]));
                        let k0 = choose|k0: int|
                            0 <= k0 < cs_old.len() && cs_old[k0] == cs_new[k];
                        assert(sa[j].children@[k0] == cs_new[k]);
                    }
                    if j != 0 {
                        let p = sc[j].parent->Some_0 as int;
                        assert(sa[p].children@.contains(j as StackIdentifier));
                        if p == i {
                            assert(cs_new.contains(j as StackIdentifier));
                        }
                    }
                } else {
                    assert(sc[j].children@ == sa[j].children@);
                    if j != 0 {
                        let p = sc[j].parent->Some_0 as int;
                        if p == i {
                            assert(cs_old.contains(j as StackIdentifier));
                            assert(cs_new.contains(j as StackIdentifier));
                        } else {
                            assert(sc[p].children@ == sa[p].children@);
                        }
                    }
                }
            }
            // Sums are permutation-invariant.
            assert forall|j: int| 0 <= j < sc.len() implies #[trigger] node_conserved(
                sc,
                j,
            ) by {
                assert(node_conserved(sa, j));
                assert(node_linked(sa, j));
                if j == i {
                    lemma_sum_totals_perm(sc, cs_new, cs_old);
                    assert forall|k: int|
                        0 <= k < cs_old.len() implies sc[#[trigger] cs_old[k] as int].total_count
                        == sa[cs_old[k] as int].total_count by {
                        assert(i < cs_old[k] < sa.len());
                    }
                    lemma_sum_totals_untouched_totals(sa, sc, cs_old);
                } else {
                    assert(sc[j].children@ == sa[j].children@);
                    assert forall|k: int|
                        0 <= k < sa[j].children@.len() implies sc[#[trigger] sa[j].children@[k] as int].total_count
                        == sa[sa[j].children@[k] as int].total_count by {
                        assert(j < sa[j].children@[k] < sa.len());
                    }
                    lemma_sum_totals_untouched_totals(sa, sc, sa[j].children@);
                }
            }
            // Earlier nodes stay sorted, and node `i` is sorted now.
            assert(forall|x: int|
                0 <= x < sc.len() ==> (#[trigger] sc[x].total_count) == sa[x].total_count);
            assert forall|j: int, k1: int, k2: int|
                0 <= j < i + 1 && 0 <= k1 < k2 < sc[j].children@.len() implies child_before(
                sc,
                #[trigger] sc[j].children@[k1],
                #[trigger] sc[j].children@[k2],
            ) by {
                if j == i {
                    assert(child_before(sa, cs_new[k1], cs_new[k2]));
                    assert(cs_new.contains(cs_new[k1]) && cs_new.contains(cs_new[k2]));
                    assert(cs_old.contains(cs_new[k1]) && cs_old.contains(cs_new[k2]));
                    assert(node_linked(sa, i as int));
                    let m1 = choose|m: int| 0 <= m < cs_old.len() && cs_old[m] == cs_new[k1];
                    let m2 = choose|m: int| 0 <= m < cs_old.len() && cs_old[m] == cs_new[k2];
                    assert(sa[i as int].children@[m1] == cs_new[k1]);
                    assert(sa[i as int].children@[m2] == cs_new[k2]);
                    assert(0 <= cs_new[k1] < sa.len() && 0 <= cs_new[k2] < sa.len());
                } else {
                    assert(sc[j].children@ == sa[j].children@);
                    assert(child_before(sa, sa[j].children@[k1], sa[j].children@[k2]));
                    assert(node_linked(sa, j));
                    assert(0 <= sa[j].children@[k1] < sa.len());
                    assert(0 <= sa[j].children@[k2] < sa.len());
                }
            }
        }
        i += 1;
    }
}


/// Some node stands for this path.
pub open spec fn prefix_realized(stacks: Seq<StackInfo>, p: Seq<Seq<char>>) -> bool {
    exists|j: int| 1 <= j < stacks.len() && (#[trigger] node_path(stacks, j)) == p
}

/// Every prefix of an accepted line's frames has its node.
pub open spec fn line_prefixes_realized(stacks: Seq<StackInfo>, l: Seq<char>) -> bool {
    match crate::parse::parsed_line(l) {
        Some(pc) => forall|k: int|
            1 <= k <= crate::parse::frame_list(pc.0).len() ==> prefix_realized(
                stacks,
                #[trigger] crate::parse::frame_list(pc.0).subrange(0, k),
            ),
        None => true,
    }
}

/// The path is a non-empty prefix of some accepted line's frames.
pub open spec fn path_from_input(lines: Seq<Seq<char>>, p: Seq<Seq<char>>) -> bool {
    exists|m: int|
        0 <= m < lines.len() && ((#[trigger] crate::parse::parsed_line(lines[m]))
            matches Some(pc) && p.len() >= 1 && p.is_prefix_of(crate::parse::frame_list(pc.0)))
}

/// Non-root nodes stand for non-empty paths.
pub proof fn lemma_node_path_nonempty(stacks: Seq<StackInfo>, j: int)
    requires
        forall|i: int| 0 <= i < stacks.len() ==> #[trigger] node_linked(stacks, i),
        1 <= j < stacks.len(),
    ensures
        node_path(stacks, j).len() >= 1,
{
    assert(node_linked(stacks, j));
    assert(node_path(stacks, j) == node_path(stacks, sa_parent(stacks, j)) + seq![
        stacks[j].short_name@,
    ]);
}

/// The parent index of a linked node, as an int.
pub open spec fn sa_parent(stacks: Seq<StackInfo>, j: int) -> int {
    stacks[j].parent->Some_0 as int
}

/// Prefix sums of line counts never exceed the whole sum.
pub proof fn lemma_sum_line_counts_prefix_le(lines: Seq<Seq<char>>, k: int)
    requires
        0 <= k <= lines.len(),
    ensures
        crate::parse::sum_line_counts(lines.subrange(0, k)) <= crate::parse::sum_line_counts(
            lines,
        ),
    decreases lines.len() - k,
{
    if k == lines.len() {
        assert(lines.subrange(0, k) =~= lines);
    } else {
        crate::parse::lemma_sum_line_counts_step(lines, k);
        lemma_sum_line_counts_prefix_le(lines, k + 1);
    }
}

/// Reordering children keeps every node's path, and with it the whole
/// path-indexed accounting.
proof fn lemma_sort_preserves_paths(
    pre_sort: Seq<StackInfo>,
    post: Seq<StackInfo>,
    lviews: Seq<Seq<char>>,
)
    requires
        stacks_well_formed(post),
        post.len() == pre_sort.len(),
        forall|j: int|
            0 <= j < post.len() ==> {
                let a = #[trigger] post[j];
                let b = pre_sort[j];
                &&& a.short_name == b.short_name
                &&& a.total_count == b.total_count
                &&& a.self_count == b.self_count
                &&& a.parent == b.parent
                &&& a.children@.to_multiset() == b.children@.to_multiset()
            },
        paths_unique(pre_sort),
        children_names_distinct(pre_sort),
        forall|j: int|
            1 <= j < pre_sort.len() ==> (#[trigger] pre_sort[j]).total_count == path_total(
                lviews,
                node_path(pre_sort, j),
            ),
        forall|j: int|
            1 <= j < pre_sort.len() ==> (#[trigger] pre_sort[j]).self_count == path_self_total(
                lviews,
                node_path(pre_sort, j),
            ),
        forall|j: int|
            1 <= j < pre_sort.len() ==> path_from_input(
                lviews,
                #[trigger] node_path(pre_sort, j),
            ),
        forall|m: int|
            0 <= m < lviews.len() ==> #[trigger] line_prefixes_realized(pre_sort, lviews[m]),
    ensures
        paths_unique(post),
        children_names_distinct(post),
        forall|j: int|
            1 <= j < post.len() ==> (#[trigger] post[j]).total_count == path_total(
                lviews,
                node_path(post, j),
            ),
        forall|j: int|
            1 <= j < post.len() ==> (#[trigger] post[j]).self_count == path_self_total(
                lviews,
                node_path(post, j),
            ),
        forall|j: int|
            1 <= j < post.len() ==> path_from_input(lviews, #[trigger] node_path(post, j)),
        forall|m: int|
            0 <= m < lviews.len() ==> #[trigger] line_prefixes_realized(post, lviews[m]),
{
    broadcast use vstd::seq_lib::group_to_multiset_ensures;

    assert forall|j: int| 1 <= j < post.len() implies #[trigger] node_path(post, j)
        == node_path(pre_sort, j) by {
        lemma_node_path_preserved(pre_sort, post, j);
    }
    assert(paths_unique(post)) by {
        assert forall|i: int, j: int|
            1 <= i < j < post.len() implies node_path(post, i) != node_path(post, j) by {
            assert(node_path(pre_sort, i) != node_path(pre_sort, j));
        }
    }
    assert(children_names_distinct(post)) by {
        assert forall|i: int, k1: int, k2: int|
            0 <= i < post.len() && 0 <= k1 < k2 < post[i].children@.len() implies post[(
        #[trigger] post[i].children@[k1]) as int].short_name@ != post[(
        #[trigger] post[i].children@[k2]) as int].short_name@ by {
            let e1 = post[i].children@[k1];
            let e2 = post[i].children@[k2];
            assert(node_linked(post, i));
            assert(i < e1 < post.len() && i < e2 < post.len());
            assert(post[i].children@.to_multiset() == pre_sort[i].children@.to_multiset());
            assert(post[i].children@.contains(e1) && post[i].children@.contains(e2));
            assert(e1 != e2);
            assert(pre_sort[i].children@.contains(e1)) by {
                assert(post[i].children@.to_multiset().count(e1) > 0);
            }
            assert(pre_sort[i].children@.contains(e2)) by {
                assert(post[i].children@.to_multiset().count(e2) > 0);
            }
            let m1 = choose|m1: int|
                0 <= m1 < pre_sort[i].children@.len() && pre_sort[i].children@[m1] == e1;
            let m2 = choose|m2: int|
                0 <= m2 < pre_sort[i].children@.len() && pre_sort[i].children@[m2] == e2;
            if m1 < m2 {
                assert(pre_sort[(pre_sort[i].children@[m1]) as int].short_name@ != pre_sort[(
                pre_sort[i].children@[m2]) as int].short_name@);
            } else {
                assert(m2 < m1);
                assert(pre_sort[(pre_sort[i].children@[m2]) as int].short_name@ != pre_sort[(
                pre_sort[i].children@[m1]) as int].short_name@);
            }
            assert(post[e1 as int].short_name@ == pre_sort[e1 as int].short_name@);
            assert(post[e2 as int].short_name@ == pre_sort[e2 as int].short_name@);
        }
    }
    assert forall|m: int| 0 <= m < lviews.len() implies #[trigger] line_prefixes_realized(
        post,
        lviews[m],
    ) by {
        assert(line_prefixes_realized(pre_sort, lviews[m]));
        match crate::parse::parsed_line(lviews[m]) {
            Some(pc) => {
                assert forall|k: int|
                    1 <= k <= crate::parse::frame_list(pc.0).len() implies prefix_realized(
                    post,
                    #[trigger] crate::parse::frame_list(pc.0).subrange(0, k),
                ) by {
                    assert(prefix_realized(
                        pre_sort,
                        crate::parse::frame_list(pc.0).subrange(0, k),
                    ));
                    let jw = choose|jw: int|
                        1 <= jw < pre_sort.len() && (#[trigger] node_path(pre_sort, jw))
                            == crate::parse::frame_list(pc.0).subrange(0, k);
                    assert(node_path(post, jw) == crate::parse::frame_list(pc.0).subrange(
                        0,
                        k,
                    ));
                }
            },
            None => {},
        }
    }
}


/// What parsing promises about the tree's and the table's content:
/// well-formedness, the root total, a one-to-one correspondence between
/// non-root nodes and the non-empty frame prefixes of the accepted lines
/// with each node carrying exactly the samples the input attributes to
/// its path, and one ranked-table row per frame name carrying the per-name
/// aggregates (a line's count lands on a name's total once, however often
/// the name recurs on that line, and on its own column when the line ends
/// in it). These clauses are a function of the input text alone.
pub open spec fn parse_content_spec(g: FlameGraph, content: Seq<char>) -> bool {
    let lines = crate::parse::line_list(crate::parse::normalized_input(content));
    &&& g.well_formed()
    &&& g.root_total() == crate::parse::accepted_total(content)
    &&& g.stacks@[0].self_count == 0
    &&& paths_unique(g.stacks@)
    &&& children_names_distinct(g.stacks@)
    &&& forall|j: int|
        1 <= j < g.stacks@.len() ==> (#[trigger] g.stacks@[j]).total_count == path_total(
            lines,
            node_path(g.stacks@, j),
        )
    &&& forall|j: int|
        1 <= j < g.stacks@.len() ==> (#[trigger] g.stacks@[j]).self_count == path_self_total(
            lines,
            node_path(g.stacks@, j),
        )
    &&& forall|j: int|
        1 <= j < g.stacks@.len() ==> path_from_input(lines, #[trigger] node_path(g.stacks@, j))
    &&& forall|m: int|
        0 <= m < lines.len() ==> #[trigger] line_prefixes_realized(g.stacks@, lines[m])
    &&& forall|s: Seq<char>|
        #[trigger] table_total(g.ordered_stacks.entries@, s) == name_total(lines, s)
    &&& forall|s: Seq<char>|
        #[trigger] table_own(g.ordered_stacks.entries@, s) == name_own(lines, s)
    &&& forall|s: Seq<char>|
        #[trigger] table_has(g.ordered_stacks.entries@, s) <==> name_from_input(lines, s)
}

/// Parse determinism: any two trees that satisfy the parse contract for
/// one input text stand for exactly the same set of paths, and agree on
/// every path's total and self count; the table clauses of the contract
/// equate both tables with the same per-name sums directly. The arena
/// numbering is the only freedom left.
pub proof fn lemma_parse_content_deterministic(
    g1: FlameGraph,
    g2: FlameGraph,
    content: Seq<char>,
    p: Seq<Seq<char>>,
)
    requires
        parse_content_spec(g1, content),
        parse_content_spec(g2, content),
    ensures
        prefix_realized(g1.stacks@, p) <==> prefix_realized(g2.stacks@, p),
        forall|j1: int, j2: int|
            1 <= j1 < g1.stacks@.len() && 1 <= j2 < g2.stacks@.len() && #[trigger] node_path(
                g1.stacks@,
                j1,
            ) == p && #[trigger] node_path(g2.stacks@, j2) == p ==> g1.stacks@[j1].total_count
                == g2.stacks@[j2].total_count && g1.stacks@[j1].self_count
                == g2.stacks@[j2].self_count,
{
    let lines = crate::parse::line_list(crate::parse::normalized_input(content));
    assert forall|ga: FlameGraph, gb: FlameGraph|
        parse_content_spec(ga, content) && parse_content_spec(gb, content) && prefix_realized(
            ga.stacks@,
            p,
        ) implies prefix_realized(gb.stacks@, p) by {
        let j = choose|j: int|
            1 <= j < ga.stacks@.len() && (#[trigger] node_path(ga.stacks@, j)) == p;
        lemma_node_path_nonempty(ga.stacks@, j);
        assert(path_from_input(lines, p));
        let m = choose|m: int|
            0 <= m < lines.len() && ((#[trigger] crate::parse::parsed_line(lines[m]))
                matches Some(pc) && p.len() >= 1 && p.is_prefix_of(
                crate::parse::frame_list(pc.0),
            ));
        assert(line_prefixes_realized(gb.stacks@, lines[m]));
        let pc = crate::parse::parsed_line(lines[m])->Some_0;
        assert(p =~= crate::parse::frame_list(pc.0).subrange(0, p.len() as int));
        assert(prefix_realized(
            gb.stacks@,
            crate::parse::frame_list(pc.0).subrange(0, p.len() as int),
        ));
    }
}

impl FlameGraph {
    /// Parses collapsed-stack text into a flamegraph. Lines that do not
    /// split at their last space into a non-empty path and a `u64` count,
    /// and lines starting with `#`, are skipped. Each node stands for one
    /// distinct non-empty frame prefix of the accepted lines, and carries
    /// exactly the samples the input attributes to that prefix. With
    /// `sorted` set, child lists are reordered by descending total count.
    #[verifier::rlimit(60)]
    pub fn from_string(content: String, sorted: bool) -> (r: FlameGraph)
        requires
            crate::parse::accepted_total(content@) <= u64::MAX,
        ensures
            parse_content_spec(r, content@),
            r.well_formed(),
            r.root_total() == crate::parse::accepted_total(content@),
            r.sorted == sorted,
            r.hits is None,
            !sorted ==> children_ascending(r.stacks@),
            sorted ==> children_sorted(r.stacks@),
            r.ordered_stacks.sorted_column is Own,
            r.ordered_stacks.num_rows == r.ordered_stacks.entries@.len(),
            !r.ordered_stacks.search_pattern_ignored_because_of_no_match,
            counts_all_visible(r.ordered_stacks.entries@),
    {
        let ghost content0 = content@;
        let mut text = content;
        let n0 = text.as_str().unicode_len();
        let needs_nl = n0 == 0 || text.as_str().get_char(n0 - 1) != '\n';
        if needs_nl {
            text.append("\n");
        }
        proof {
            reveal_strlit("\n");
            assert("\n"@ =~= seq!['\n']);
            assert(text@ =~= crate::parse::normalized_input(content0));
        }
        let lines = crate::parse::split_lines(text.as_str());
        let ghost lviews = lines@.map_values(|l: String| l@);
        proof {
            assert(lviews == crate::parse::line_list(crate::parse::normalized_input(content0)));
        }
        let mut stacks: Vec<StackInfo> = Vec::new();
        stacks.push(
            StackInfo {
                id: 0,
                short_name: String::new(),
                full_name: String::new(),
                total_count: 0,
                self_count: 0,
                parent: None,
                children: Vec::new(),
                level: 0,
                hit: false,
            },
        );
        let mut counts: Vec<CountEntry> = Vec::new();
        proof {
            assert(stacks@.len() == 1);
            assert(node_linked(stacks@, 0));
            assert(node_conserved(stacks@, 0));
            assert(stacks_well_formed(stacks@));
            assert(lviews.subrange(0, 0) =~= Seq::<Seq<char>>::empty());
        }
        let nl = lines.len();
        let mut li: usize = 0;
        while li < nl
            invariant
                nl == lines@.len(),
                li <= nl,
                lviews == lines@.map_values(|l: String| l@),
                crate::parse::sum_line_counts(lviews) <= u64::MAX,
                stacks_well_formed(stacks@),
                children_ascending(stacks@),
                children_names_distinct(stacks@),
                paths_unique(stacks@),
                no_hits(stacks@),
                stacks@[0].total_count == crate::parse::sum_line_counts(
                    lviews.subrange(0, li as int),
                ),
                stacks@[0].self_count == 0,
                counts_distinct(counts@),
                counts_all_visible(counts@),
                counts_bounded(counts@, stacks@[0].total_count as int),
                forall|s2: Seq<char>|
                    #[trigger] table_total(counts@, s2) == name_total(
                        lviews.subrange(0, li as int),
                        s2,
                    ),
                forall|s2: Seq<char>|
                    #[trigger] table_own(counts@, s2) == name_own(
                        lviews.subrange(0, li as int),
                        s2,
                    ),
                forall|s2: Seq<char>|
                    #[trigger] table_has(counts@, s2) <==> name_from_input(
                        lviews.subrange(0, li as int),
                        s2,
                    ),
                forall|j: int|
                    1 <= j < stacks@.len() ==> (#[trigger] stacks@[j]).total_count
                        == path_total(
                        lviews.subrange(0, li as int),
                        node_path(stacks@, j),
                    ),
                forall|j: int|
                    1 <= j < stacks@.len() ==> (#[trigger] stacks@[j]).self_count
                        == path_self_total(
                        lviews.subrange(0, li as int),
                        node_path(stacks@, j),
                    ),
                forall|j: int|
                    1 <= j < stacks@.len() ==> path_from_input(
                        lviews.subrange(0, li as int),
                        #[trigger] node_path(stacks@, j),
                    ),
                forall|m: int|
                    0 <= m < li ==> #[trigger] line_prefixes_realized(stacks@, lviews[m]),
            decreases nl - li,
        {
            let ghost pre = stacks@;
            let ghost lpre = lviews.subrange(0, li as int);
            let ghost lpost = lviews.subrange(0, li + 1);
            let parsed = crate::parse::parse_line(lines[li].as_str());
            proof {
                assert(lviews[li as int] == lines@[li as int]@);
                crate::parse::lemma_sum_line_counts_step(lviews, li as int);
                lemma_sum_line_counts_prefix_le(lviews, li + 1);
            }
            match parsed {
                None => {
                    proof {
                        assert(crate::parse::line_count(lviews[li as int]) == 0);
                        assert forall|s2: Seq<char>|
                            #[trigger] table_total(counts@, s2) == name_total(lpost, s2) by {
                            lemma_name_total_step(lviews, li as int, s2);
                        }
                        assert forall|s2: Seq<char>|
                            #[trigger] table_own(counts@, s2) == name_own(lpost, s2) by {
                            lemma_name_total_step(lviews, li as int, s2);
                        }
                        assert forall|s2: Seq<char>|
                            #[trigger] table_has(counts@, s2) <==> name_from_input(
                            lpost,
                            s2,
                        ) by {
                            lemma_name_from_input_step(lviews, li as int, s2);
                        }
                        assert forall|j: int|
                            1 <= j < stacks@.len() implies (#[trigger] stacks@[j]).total_count
                            == path_total(lpost, node_path(stacks@, j)) && stacks@[j].self_count
                            == path_self_total(lpost, node_path(stacks@, j))
                            && path_from_input(lpost, node_path(stacks@, j)) by {
                            lemma_path_total_step(lviews, li as int, node_path(stacks@, j));
                            let m0 = choose|m0: int|
                                0 <= m0 < lpre.len() && ((
                                #[trigger] crate::parse::parsed_line(lpre[m0]))
                                    matches Some(pc) && node_path(stacks@, j).len() >= 1
                                    && node_path(stacks@, j).is_prefix_of(
                                    crate::parse::frame_list(pc.0),
                                ));
                            assert(lpost[m0] == lpre[m0]);
                            assert(path_from_input(lpost, node_path(stacks@, j)));
                        }
                        assert forall|m: int|
                            0 <= m < li + 1 implies #[trigger] line_prefixes_realized(
                            stacks@,
                            lviews[m],
                        ) by {
                            if m == li {
                                assert(crate::parse::parsed_line(lviews[m]) is None);
                            }
                        }
                    }
                },
                Some((path, c)) => {
                    let frames = crate::parse::split_frames(path.as_str());
                    let ghost fr = frames@.map_values(|f: String| f@);
                    proof {
                        crate::parse::lemma_frame_list_basic(path@);
                        assert(fr == crate::parse::frame_list(path@));
                        assert forall|i: int|
                            0 <= i < frames@.len() implies !(
                        #[trigger] frames@[i])@.contains(';') by {
                            assert(frames@.map_values(|f: String| f@)[i] == frames@[i]@);
                        }
                        assert(crate::parse::line_count(lviews[li as int]) == c);
                        assert(stacks@[0].total_count + c <= u64::MAX);
                    }
                    let mut counted: Vec<String> = Vec::new();
                    let ghost counts_pre = counts@;
                    insert_line(&mut stacks, &mut counts, &mut counted, &frames, c);
                    proof {
                        let post = stacks@;
                        assert forall|s2: Seq<char>|
                            #[trigger] table_total(counts@, s2) == name_total(lpost, s2) by {
                            lemma_name_total_step(lviews, li as int, s2);
                            assert(table_total(counts_pre, s2) == name_total(lpre, s2));
                        }
                        assert forall|s2: Seq<char>|
                            #[trigger] table_own(counts@, s2) == name_own(lpost, s2) by {
                            lemma_name_total_step(lviews, li as int, s2);
                            assert(table_own(counts_pre, s2) == name_own(lpre, s2));
                        }
                        assert forall|s2: Seq<char>|
                            #[trigger] table_has(counts@, s2) <==> name_from_input(
                            lpost,
                            s2,
                        ) by {
                            lemma_name_from_input_step(lviews, li as int, s2);
                            assert(table_has(counts_pre, s2) <==> name_from_input(lpre, s2));
                        }
                        assert forall|j: int|
                            1 <= j < post.len() implies (#[trigger] post[j]).total_count
                            == path_total(lpost, node_path(post, j)) && post[j].self_count
                            == path_self_total(lpost, node_path(post, j)) && path_from_input(
                            lpost,
                            node_path(post, j),
                        ) by {
                            let p = node_path(post, j);
                            lemma_path_total_step(lviews, li as int, p);
                            lemma_node_path_nonempty(post, j);
                            if j < pre.len() {
                                assert(node_path(post, j) == node_path(pre, j));
                                assert(pre[j].total_count == path_total(lpre, p));
                                assert(pre[j].self_count == path_self_total(lpre, p));
                                let m0 = choose|m0: int|
                                    0 <= m0 < lpre.len() && ((
                                    #[trigger] crate::parse::parsed_line(lpre[m0]))
                                        matches Some(pc) && p.len() >= 1 && p.is_prefix_of(
                                        crate::parse::frame_list(pc.0),
                                    ));
                                assert(lpost[m0] == lpre[m0]);
                                assert(path_from_input(lpost, p));
                            } else {
                                // A fresh node: no earlier line reaches its
                                // path, else its node would already exist.
                                assert(p.is_prefix_of(fr) && p.len() >= 1);
                                assert(path_total(lpre, p) == 0 && path_self_total(lpre, p)
                                    == 0) by {
                                    if path_total(lpre, p) != 0 || path_self_total(lpre, p)
                                        != 0 {
                                        lemma_path_total_witness(lpre, p);
                                        let mw = choose|mw: int|
                                            0 <= mw < lpre.len() && ((
                                            #[trigger] crate::parse::parsed_line(lpre[mw]))
                                                matches Some(pc) && p.is_prefix_of(
                                                crate::parse::frame_list(pc.0),
                                            ));
                                        assert(lpre[mw] == lviews[mw]);
                                        assert(line_prefixes_realized(pre, lviews[mw]));
                                        let pcw = crate::parse::parsed_line(
                                            lviews[mw],
                                        )->Some_0;
                                        assert(p =~= crate::parse::frame_list(
                                            pcw.0,
                                        ).subrange(0, p.len() as int));
                                        assert(prefix_realized(
                                            pre,
                                            crate::parse::frame_list(pcw.0).subrange(
                                                0,
                                                p.len() as int,
                                            ),
                                        ));
                                        let j0 = choose|j0: int|
                                            1 <= j0 < pre.len() && (#[trigger] node_path(
                                                pre,
                                                j0,
                                            )) == crate::parse::frame_list(pcw.0).subrange(
                                                0,
                                                p.len() as int,
                                            );
                                        assert(node_path(post, j0) == node_path(pre, j0));
                                        assert(node_path(post, j0) == node_path(post, j));
                                        assert(j0 != j);
                                        if j0 < j {
                                            assert(node_path(post, j0) != node_path(
                                                post,
                                                j,
                                            ));
                                        } else {
                                            assert(node_path(post, j) != node_path(
                                                post,
                                                j0,
                                            ));
                                        }
                                    }
                                }
                                assert(lpost[li as int] == lviews[li as int]);
                                assert(path_from_input(lpost, p)) by {
                                    assert((crate::parse::parsed_line(lpost[li as int]))
                                        matches Some(pc) && p.len() >= 1 && p.is_prefix_of(
                                        crate::parse::frame_list(pc.0),
                                    ));
                                }
                            }
                        }
                        assert forall|m: int|
                            0 <= m < li + 1 implies #[trigger] line_prefixes_realized(
                            post,
                            lviews[m],
                        ) by {
                            if m == li {
                                assert(crate::parse::parsed_line(lviews[m]) matches Some(pc)
                                    && pc.0 == path@);
                                assert forall|k: int|
                                    1 <= k <= fr.len() implies prefix_realized(
                                    post,
                                    #[trigger] fr.subrange(0, k),
                                ) by {
                                    let jw = choose|jw: int|
                                        1 <= jw < post.len() && #[trigger] node_path(
                                            post,
                                            jw,
                                        ) == #[trigger] fr.subrange(0, k);
                                    assert(node_path(post, jw) == fr.subrange(0, k));
                                }
                            } else {
                                assert(line_prefixes_realized(pre, lviews[m]));
                                match crate::parse::parsed_line(lviews[m]) {
                                    Some(pc) => {
                                        assert forall|k: int|
                                            1 <= k <= crate::parse::frame_list(
                                                pc.0,
                                            ).len() implies prefix_realized(
                                            post,
                                            #[trigger] crate::parse::frame_list(
                                                pc.0,
                                            ).subrange(0, k),
                                        ) by {
                                            assert(prefix_realized(
                                                pre,
                                                crate::parse::frame_list(pc.0).subrange(
                                                    0,
                                                    k,
                                                ),
                                            ));
                                            let jw = choose|jw: int|
                                                1 <= jw < pre.len() && (#[trigger] node_path(
                                                    pre,
                                                    jw,
                                                )) == crate::parse::frame_list(
                                                    pc.0,
                                                ).subrange(0, k);
                                            assert(node_path(post, jw)
                                                == crate::parse::frame_list(pc.0).subrange(
                                                0,
                                                k,
                                            ));
                                        }
                                    },
                                    None => {},
                                }
                            }
                        }
                    }
                },
            }
            li += 1;
        }
        proof {
            assert(lviews.subrange(0, nl as int) =~= lviews);
        }
        if sorted {
            let ghost pre_sort = stacks@;
            sort_all_children(&mut stacks);
            proof {
                lemma_sort_preserves_paths(pre_sort, stacks@, lviews);
            }
        }
        let levels = build_levels(&stacks);
        let mut entries = counts;
        let ghost entries0 = entries@;
        sort_entries(&mut entries, SortColumn::Own);
        proof {
            assert forall|i: int| 0 <= i < entries@.len() implies (
            #[trigger] entries@[i]).visible by {
                assert(entries@.contains(entries@[i]));
                assert(entries0.contains(entries@[i]));
                let j = choose|j: int| 0 <= j < entries0.len() && entries0[j] == entries@[i];
            }
            lemma_visible_count_all(entries@);
            assert forall|s2: Seq<char>|
                #[trigger] table_total(entries@, s2) == table_total(entries0, s2) by {
                lemma_table_perm(entries0, entries@, s2);
            }
            assert forall|s2: Seq<char>|
                #[trigger] table_own(entries@, s2) == table_own(entries0, s2) by {
                lemma_table_perm(entries0, entries@, s2);
            }
            assert forall|s2: Seq<char>|
                #[trigger] table_has(entries@, s2) == table_has(entries0, s2) by {
                lemma_table_perm(entries0, entries@, s2);
            }
        }
        let num_rows = entries.len();
        let ordered = Ordered {
            entries,
            num_rows,
            sorted_column: SortColumn::Own,
            search_pattern_ignored_because_of_no_match: false,
        };
        let g = FlameGraph { stacks, levels, ordered_stacks: ordered, hits: None, sorted };
        g
    }

    /// Like [`FlameGraph::from_string`], but reports `None` when the
    /// accepted counts would overflow a `u64` total instead of requiring
    /// the caller to rule that out.
    pub fn try_from_string(content: String, sorted: bool) -> (r: Option<FlameGraph>)
        ensures
            r is Some <==> crate::parse::accepted_total(content@) <= u64::MAX,
            r matches Some(g) ==> {
                &&& parse_content_spec(g, content@)
                &&& g.well_formed()
                &&& g.root_total() == crate::parse::accepted_total(content@)
                &&& g.sorted == sorted
                &&& g.hits is None
                &&& (!sorted ==> children_ascending(g.stacks@))
                &&& (sorted ==> children_sorted(g.stacks@))
                &&& g.ordered_stacks.sorted_column is Own
                &&& g.ordered_stacks.num_rows == g.ordered_stacks.entries@.len()
                &&& !g.ordered_stacks.search_pattern_ignored_because_of_no_match
            },
    {
        let ghost content0 = content@;
        let mut text = content.clone();
        let n0 = text.as_str().unicode_len();
        let needs_nl = n0 == 0 || text.as_str().get_char(n0 - 1) != '\n';
        if needs_nl {
            text.append("\n");
        }
        proof {
            reveal_strlit("\n");
            assert("\n"@ =~= seq!['\n']);
            assert(text@ =~= crate::parse::normalized_input(content0));
        }
        let lines = crate::parse::split_lines(text.as_str());
        let ghost lviews = lines@.map_values(|l: String| l@);
        let nl = lines.len();
        let mut acc: u64 = 0;
        let mut li: usize = 0;
        proof {
            assert(lviews.subrange(0, 0) =~= Seq::<Seq<char>>::empty());
        }
        while li < nl
            invariant
                nl == lines@.len(),
                li <= nl,
                lviews == lines@.map_values(|l: String| l@),
                lviews == crate::parse::line_list(crate::parse::normalized_input(content0)),
                content0 == content@,
                acc == crate::parse::sum_line_counts(lviews.subrange(0, li as int)),
            decreases nl - li,
        {
            proof {
                assert(lviews[li as int] == lines@[li as int]@);
                crate::parse::lemma_sum_line_counts_step(lviews, li as int);
            }
            match crate::parse::parse_line(lines[li].as_str()) {
                None => {
                    proof {
                        assert(crate::parse::line_count(lviews[li as int]) == 0);
                    }
                },
                Some((_path, c)) => {
                    if c > u64::MAX - acc {
                        proof {
                            assert(crate::parse::line_count(lviews[li as int]) == c);
                            assert(crate::parse::sum_line_counts(
                                lviews.subrange(0, li + 1),
                            ) == acc + c);
                            lemma_sum_line_counts_prefix_le(lviews, li + 1);
                            assert(crate::parse::accepted_total(content0) > u64::MAX);
                        }
                        return None;
                    }
                    acc = acc + c;
                },
            }
            li += 1;
        }
        proof {
            assert(lviews.subrange(0, nl as int) =~= lviews);
        }
        Some(FlameGraph::from_string(content, sorted))
    }
}


// ---------------------------------------------------------------------------
// Search hits
// ---------------------------------------------------------------------------

/// Changing hit flags alone cannot break the tree structure or its counts.
pub proof fn lemma_wf_hit_only_change(sa: Seq<StackInfo>, sb: Seq<StackInfo>)
    requires
        stacks_well_formed(sa),
        sb.len() == sa.len(),
        forall|j: int|
            0 <= j < sa.len() ==> {
                let a = #[trigger] sb[j];
                let b = sa[j];
                &&& a.id == b.id
                &&& a.short_name == b.short_name
                &&& a.full_name == b.full_name
                &&& a.total_count == b.total_count
                &&& a.self_count == b.self_count
                &&& a.parent == b.parent
                &&& a.children == b.children
                &&& a.level == b.level
            },
    ensures
        stacks_well_formed(sb),
{
    assert forall|i: int| 0 <= i < sb.len() implies #[trigger] node_linked(sb, i) by {
        assert(node_linked(sa, i));
        assert forall|k: int|
            0 <= k < sb[i].children@.len() implies {
            let c = #[trigger] sb[i].children@[k] as int;
            &&& i < c < sb.len()
            &&& sb[c].parent == Some(i as StackIdentifier)
        } by {
            assert(sa[i].children@[k] == sb[i].children@[k]);
        }
    }
    assert forall|i: int| 0 <= i < sb.len() implies #[trigger] node_conserved(sb, i) by {
        assert(node_conserved(sa, i));
        assert(node_linked(sa, i));
        assert forall|k: int|
            0 <= k < sa[i].children@.len() implies sb[#[trigger] sa[i].children@[k] as int].total_count
            == sa[sa[i].children@[k] as int].total_count by {
            assert(i < sa[i].children@[k] < sa.len());
        }
        lemma_sum_totals_untouched_totals(sa, sb, sa[i].children@);
    }
}

/// Coverage never exceeds the node's own total.
pub proof fn lemma_coverage_le_total(stacks: Seq<StackInfo>, i: int)
    requires
        stacks_well_formed(stacks),
        0 <= i < stacks.len(),
    ensures
        0 <= coverage(stacks, i) <= stacks[i].total_count,
    decreases stacks.len() - i, stacks[i].children@.len() + 1,
{
    if stacks[i].hit {
    } else {
        assert(node_linked(stacks, i));
        assert(node_conserved(stacks, i));
        lemma_coverage_list_le(stacks, i, stacks[i].children@.len() as int);
        assert(stacks[i].children@.subrange(0, stacks[i].children@.len() as int)
            =~= stacks[i].children@);
    }
}

/// Coverage of a child-list prefix is bounded by the prefix's totals.
pub proof fn lemma_coverage_list_le(stacks: Seq<StackInfo>, i: int, k: int)
    requires
        stacks_well_formed(stacks),
        0 <= i < stacks.len(),
        0 <= k <= stacks[i].children@.len(),
    ensures
        0 <= coverage_of_list(stacks, stacks[i].children@.subrange(0, k), i) <= sum_totals(
            stacks,
            stacks[i].children@.subrange(0, k),
        ),
    decreases stacks.len() - i, k,
{
    let cs = stacks[i].children@.subrange(0, k);
    assert(node_linked(stacks, i));
    if k == 0 {
        assert(cs.len() == 0);
    } else {
        assert(cs =~= stacks[i].children@.subrange(0, cs.len() as int));
        assert(cs.drop_last() =~= stacks[i].children@.subrange(0, k - 1));
        lemma_coverage_list_le(stacks, i, k - 1);
        let c = cs.last() as int;
        assert(cs.last() == stacks[i].children@[k - 1]);
        assert(i < c < stacks.len());
        lemma_coverage_le_total(stacks, c);
    }
}

/// Prefix sums of child totals are bounded by the whole child sum.
pub proof fn lemma_sum_totals_prefix_le(stacks: Seq<StackInfo>, cs: Seq<StackIdentifier>, k: int)
    requires
        0 <= k <= cs.len(),
    ensures
        sum_totals(stacks, cs.subrange(0, k)) <= sum_totals(stacks, cs),
    decreases cs.len() - k,
{
    if k == cs.len() {
        assert(cs.subrange(0, k) =~= cs);
    } else {
        assert(cs.subrange(0, k + 1).drop_last() =~= cs.subrange(0, k));
        assert(cs.subrange(0, k + 1).last() == cs[k]);
        lemma_sum_totals_prefix_le(stacks, cs, k + 1);
    }
}

impl FlameGraph {
    /// Samples attributable to hit nodes below `stack_id`, without counting
    /// a hit's subtree twice.
    fn count_hit_coverage(&self, stack_id: StackIdentifier) -> (r: u64)
        requires
            stacks_well_formed(self.stacks@),
            stack_id < self.stacks@.len(),
        ensures
            r == coverage(self.stacks@, stack_id as int),
        decreases self.stacks@.len() - stack_id,
    {
        let ghost stacks = self.stacks@;
        proof {
            assert(node_linked(stacks, stack_id as int));
            lemma_coverage_le_total(stacks, stack_id as int);
        }
        if self.stacks[stack_id].hit {
            return self.stacks[stack_id].total_count;
        }
        let n = self.stacks[stack_id].children.len();
        let mut count: u64 = 0;
        let mut k: usize = 0;
        while k < n
            invariant
                stacks == self.stacks@,
                stacks_well_formed(stacks),
                stack_id < stacks.len(),
                !stacks[stack_id as int].hit,
                n == stacks[stack_id as int].children@.len(),
                k <= n,
                count == coverage_of_list(
                    stacks,
                    stacks[stack_id as int].children@.subrange(0, k as int),
                    stack_id as int,
                ),
            decreases n - k,
        {
            let c = self.stacks[stack_id].children[k];
            proof {
                assert(node_linked(stacks, stack_id as int));
                let cs = stacks[stack_id as int].children@;
                assert(cs[k as int] == c);
                assert(stack_id < c < stacks.len());
                lemma_coverage_list_le(stacks, stack_id as int, k as int);
                lemma_coverage_list_le(stacks, stack_id as int, k + 1);
                lemma_coverage_le_total(stacks, c as int);
                lemma_sum_totals_prefix_le(stacks, cs, k + 1);
                lemma_sum_totals_nonneg(stacks, cs);
                assert(node_conserved(stacks, stack_id as int));
                assert(sum_totals(stacks, cs) <= stacks[stack_id as int].total_count);
                assert(cs.subrange(0, k + 1).drop_last() =~= cs.subrange(0, k as int));
                assert(cs.subrange(0, k + 1).last() == c);
                assert(cs.subrange(0, k + 1) =~= cs.subrange(0, (k + 1) as int));
                assert(coverage_of_list(stacks, cs.subrange(0, k + 1), stack_id as int)
                    == count + coverage(stacks, c as int));
            }
            count = count + self.count_hit_coverage(c);
            k += 1;
        }
        proof {
            assert(stacks[stack_id as int].children@.subrange(0, n as int)
                =~= stacks[stack_id as int].children@);
        }
        count
    }

    /// All hit node indices, rows first.
    fn collect_hit_ids(&self) -> (r: Vec<StackIdentifier>)
        ensures
            r@ == hit_ids_in_level_order(*self),
    {
        let mut hits: Vec<StackIdentifier> = Vec::new();
        let ln = self.levels.len();
        let mut l: usize = 0;
        while l < ln
            invariant
                ln == self.levels@.len(),
                l <= ln,
                hits@ == hits_in_rows(self.stacks@, self.levels@.subrange(0, l as int)),
            decreases ln - l,
        {
            let ghost rows_pre = self.levels@.subrange(0, l as int);
            let row = &self.levels[l];
            let rn = row.len();
            let mut k: usize = 0;
            while k < rn
                invariant
                    ln == self.levels@.len(),
                    l < ln,
                    rn == self.levels@[l as int]@.len(),
                    k <= rn,
                    rows_pre == self.levels@.subrange(0, l as int),
                    hits@ == hits_in_rows(self.stacks@, rows_pre) + hits_in_row(
                        self.stacks@,
                        self.levels@[l as int]@.subrange(0, k as int),
                    ),
                decreases rn - k,
            {
                let id = self.levels[l][k];
                let ghost rowk = self.levels@[l as int]@.subrange(0, k as int);
                proof {
                    assert(self.levels@[l as int]@.subrange(0, k + 1).drop_last() =~= rowk);
                    assert(self.levels@[l as int]@.subrange(0, k + 1).last() == id);
                }
                if id < self.stacks.len() && self.stacks[id].hit {
                    hits.push(id);
                }
                k += 1;
            }
            proof {
                assert(self.levels@[l as int]@.subrange(0, rn as int)
                    =~= self.levels@[l as int]@);
                assert(self.levels@.subrange(0, l + 1).drop_last() =~= rows_pre);
                assert(self.levels@.subrange(0, l + 1).last() == self.levels@[l as int]);
            }
            l += 1;
        }
        proof {
            assert(self.levels@.subrange(0, ln as int) =~= self.levels@);
        }
        hits
    }

    /// Marks every node whose raw frame name the pattern matches, computes
    /// the coverage count and the ordered hit list, and filters the ranked
    /// table.
    pub fn set_hits(&mut self, p: &SearchPattern)
        requires
            old(self).well_formed(),
            p.wf(),
        ensures
            final(self).well_formed(),
            final(self).stacks@.len() == old(self).stacks@.len(),
            forall|i: int|
                0 <= i < final(self).stacks@.len() ==> {
                    let a = #[trigger] final(self).stacks@[i];
                    let b = old(self).stacks@[i];
                    &&& a.id == b.id
                    &&& a.short_name == b.short_name
                    &&& a.full_name == b.full_name
                    &&& a.total_count == b.total_count
                    &&& a.self_count == b.self_count
                    &&& a.parent == b.parent
                    &&& a.children == b.children
                    &&& a.level == b.level
                    &&& a.hit == p.matches(b.short_name@)
                },
            final(self).levels == old(self).levels,
            final(self).sorted == old(self).sorted,
            final(self).hits is Some,
            ordered_after_search(
                old(self).ordered_stacks,
                final(self).ordered_stacks,
                *p,
            ),
    {
        let n = self.stacks.len();
        let mut i: usize = 0;
        while i < n
            invariant
                n == self.stacks@.len(),
                i <= n,
                p.wf(),
                stacks_well_formed(self.stacks@),
                levels_consistent(self.stacks@, self.levels@),
                forall|j: int|
                    0 <= j < n ==> {
                        let a = #[trigger] self.stacks@[j];
                        let b = old(self).stacks@[j];
                        &&& a.id == b.id
                        &&& a.short_name == b.short_name
                        &&& a.full_name == b.full_name
                        &&& a.total_count == b.total_count
                        &&& a.self_count == b.self_count
                        &&& a.parent == b.parent
                        &&& a.children == b.children
                        &&& a.level == b.level
                    },
                forall|j: int|
                    0 <= j < i ==> (#[trigger] self.stacks@[j]).hit == p.matches(
                        old(self).stacks@[j].short_name@,
                    ),
                self.levels == old(self).levels,
                self.sorted == old(self).sorted,
                self.ordered_stacks == old(self).ordered_stacks,
            decreases n - i,
        {
            let ghost sa = self.stacks@;
            let hit = p.is_match(self.stacks[i].short_name.as_str());
            self.stacks[i].hit = hit;
            proof {
                lemma_wf_hit_only_change(sa, self.stacks@);
                assert forall|l2: int, k: int|
                    0 <= l2 < self.levels@.len() && 0 <= k < self.levels@[l2]@.len() implies {
                    let id = #[trigger] self.levels@[l2]@[k] as int;
                    &&& 0 <= id < self.stacks@.len()
                    &&& self.stacks@[id].level == l2
                } by {
                    assert(sa[self.levels@[l2]@[k] as int].level == l2);
                }
            }
            i += 1;
        }
        let coverage_count = self.count_hit_coverage(ROOT_ID);
        let ids = self.collect_hit_ids();
        self.hits = Some(Hits { coverage_count, ids });
        self.ordered_stacks.set_search_pattern(p);
    }

    /// Clears every hit flag and restores the full ranked table.
    pub fn clear_hits(&mut self)
        requires
            old(self).well_formed(),
        ensures
            final(self).well_formed(),
            final(self).stacks@.len() == old(self).stacks@.len(),
            forall|i: int|
                0 <= i < final(self).stacks@.len() ==> {
                    let a = #[trigger] final(self).stacks@[i];
                    let b = old(self).stacks@[i];
                    &&& a.id == b.id
                    &&& a.short_name == b.short_name
                    &&& a.full_name == b.full_name
                    &&& a.total_count == b.total_count
                    &&& a.self_count == b.self_count
                    &&& a.parent == b.parent
                    &&& a.children == b.children
                    &&& a.level == b.level
                    &&& a.hit == false
                },
            final(self).levels == old(self).levels,
            final(self).sorted == old(self).sorted,
            final(self).hits is None,
            ordered_cleared(old(self).ordered_stacks, final(self).ordered_stacks),
    {
        let n = self.stacks.len();
        let mut i: usize = 0;
        while i < n
            invariant
                n == self.stacks@.len(),
                i <= n,
                stacks_well_formed(self.stacks@),
                levels_consistent(self.stacks@, self.levels@),
                forall|j: int|
                    0 <= j < n ==> {
                        let a = #[trigger] self.stacks@[j];
                        let b = old(self).stacks@[j];
                        &&& a.id == b.id
                        &&& a.short_name == b.short_name
                        &&& a.full_name == b.full_name
                        &&& a.total_count == b.total_count
                        &&& a.self_count == b.self_count
                        &&& a.parent == b.parent
                        &&& a.children == b.children
                        &&& a.level == b.level
                    },
                forall|j: int| 0 <= j < i ==> !(#[trigger] self.stacks@[j]).hit,
                self.levels == old(self).levels,
                self.sorted == old(self).sorted,
                self.ordered_stacks == old(self).ordered_stacks,
            decreases n - i,
        {
            let ghost sa = self.stacks@;
            self.stacks[i].hit = false;
            proof {
                lemma_wf_hit_only_change(sa, self.stacks@);
                assert forall|l2: int, k: int|
                    0 <= l2 < self.levels@.len() && 0 <= k < self.levels@[l2]@.len() implies {
                    let id = #[trigger] self.levels@[l2]@[k] as int;
                    &&& 0 <= id < self.stacks@.len()
                    &&& self.stacks@[id].level == l2
                } by {
                    assert(sa[self.levels@[l2]@[k] as int].level == l2);
                }
            }
            i += 1;
        }
        self.hits = None;
        self.ordered_stacks.clear_search_pattern();
    }

    /// The coverage count of the current search, if one is active.
    pub fn hit_coverage_count(&self) -> (r: Option<u64>)
        ensures
            match self.hits {
                Some(h) => r == Some(h.coverage_count),
                None => r is None,
            },
    {
        match &self.hits {
            Some(h) => Some(h.coverage_count),
            None => None,
        }
    }

    /// The hit indices of the current search in level order, if one is
    /// active.
    pub fn hit_ids(&self) -> (r: Option<&Vec<StackIdentifier>>)
        ensures
            match self.hits {
                Some(h) => r matches Some(v) && v@ == h.ids@,
                None => r is None,
            },
    {
        match &self.hits {
            Some(h) => Some(&h.ids),
            None => None,
        }
    }
}

/// What `Ordered::set_search_pattern` promises: a manual pattern filters
/// rows by name, unless nothing matches, in which case the filter is
/// dropped and flagged; an automatic pattern clears the filter.
pub open spec fn ordered_after_search(before: Ordered, after: Ordered, p: SearchPattern) -> bool {
    &&& after.sorted_column == before.sorted_column
    &&& after.entries@.len() == before.entries@.len()
    &&& forall|i: int|
        0 <= i < after.entries@.len() ==> {
            let a = #[trigger] after.entries@[i];
            let b = before.entries@[i];
            &&& a.name == b.name
            &&& a.count.total == b.count.total
            &&& a.count.own == b.count.own
        }
    &&& if p.is_manual && (exists|i: int|
        0 <= i < before.entries@.len() && p.matches(
            (#[trigger] before.entries@[i]).name@,
        )) {
        &&& forall|i: int|
            0 <= i < after.entries@.len() ==> (#[trigger] after.entries@[i]).visible
                == p.matches(before.entries@[i].name@)
        &&& after.search_pattern_ignored_because_of_no_match
            == before.search_pattern_ignored_because_of_no_match
    } else {
        &&& counts_all_visible(after.entries@)
        &&& after.num_rows == after.entries@.len()
        &&& after.search_pattern_ignored_because_of_no_match == p.is_manual
    }
}

/// What clearing the table filter promises.
pub open spec fn ordered_cleared(before: Ordered, after: Ordered) -> bool {
    &&& after.sorted_column == before.sorted_column
    &&& after.entries@.len() == before.entries@.len()
    &&& forall|i: int|
        0 <= i < after.entries@.len() ==> {
            let a = #[trigger] after.entries@[i];
            let b = before.entries@[i];
            &&& a.name == b.name
            &&& a.count.total == b.count.total
            &&& a.count.own == b.count.own
        }
    &&& counts_all_visible(after.entries@)
    &&& after.num_rows == after.entries@.len()
    &&& !after.search_pattern_ignored_because_of_no_match
}

impl Ordered {
    /// Filters the rows by a manual pattern; an automatic pattern, or a
    /// manual pattern that matches no row, leaves every row visible.
    pub fn set_search_pattern(&mut self, p: &SearchPattern)
        requires
            ordered_well_formed(*old(self)),
            p.wf(),
        ensures
            ordered_well_formed(*final(self)),
            ordered_after_search(*old(self), *final(self), *p),
    {
        if p.is_manual {
            let n = self.entries.len();
            let mut i: usize = 0;
            let mut seen: u64 = 0;
            while i < n
                invariant
                    n == self.entries@.len(),
                    i <= n,
                    p.wf(),
                    self.sorted_column == old(self).sorted_column,
                    self.num_rows == old(self).num_rows,
                    self.search_pattern_ignored_because_of_no_match == old(
                        self,
                    ).search_pattern_ignored_because_of_no_match,
                    forall|j: int|
                        0 <= j < n ==> {
                            let a = #[trigger] self.entries@[j];
                            let b = old(self).entries@[j];
                            &&& a.name == b.name
                            &&& a.count.total == b.count.total
                            &&& a.count.own == b.count.own
                        },
                    forall|j: int|
                        0 <= j < i ==> (#[trigger] self.entries@[j]).visible == p.matches(
                            old(self).entries@[j].name@,
                        ),
                    forall|j: int|
                        i <= j < n ==> (#[trigger] self.entries@[j]).visible == old(
                            self,
                        ).entries@[j].visible,
                    seen as int == visible_count(self.entries@.subrange(0, i as int)),
                    seen <= i,
                decreases n - i,
            {
                let ghost pre = self.entries@.subrange(0, i as int);
                let hit = p.is_match(self.entries[i].name.as_str());
                self.entries[i].visible = hit;
                proof {
                    assert(self.entries@.subrange(0, i + 1).drop_last() =~= pre);
                    assert(self.entries@.subrange(0, i + 1).last() == self.entries@[i as int]);
                    assert(forall|j: int|
                        0 <= j < i ==> self.entries@.subrange(0, i + 1)[j] == pre[j]);
                }
                if hit {
                    seen = seen + 1;
                }
                i += 1;
            }
            proof {
                assert(self.entries@.subrange(0, n as int) =~= self.entries@);
            }
            self.num_rows = seen as usize;
            if seen == 0 {
                proof {
                    assert forall|j: int|
                        0 <= j < self.entries@.len() implies !p.matches(
                        old(self).entries@[j].name@,
                    ) by {
                        if p.matches(old(self).entries@[j].name@) {
                            lemma_visible_count_pos(self.entries@, j);
                        }
                    }
                }
                self.clear_search_pattern();
                self.search_pattern_ignored_because_of_no_match = true;
            } else {
                proof {
                    assert(seen <= n);
                    lemma_visible_count_witness(self.entries@);
                    let j = choose|j: int|
                        0 <= j < self.entries@.len() && (#[trigger] self.entries@[j]).visible;
                    assert(p.matches(old(self).entries@[j].name@));
                    assert forall|i2: int, j2: int|
                        0 <= i2 < j2 < self.entries@.len() implies entry_before(
                        #[trigger] self.entries@[i2],
                        #[trigger] self.entries@[j2],
                        self.sorted_column,
                    ) && (self.entries@[i2]).name@ != (self.entries@[j2]).name@ by {
                        assert(entry_before(
                            old(self).entries@[i2],
                            old(self).entries@[j2],
                            old(self).sorted_column,
                        ));
                        assert(old(self).entries@[i2].name@ != old(self).entries@[j2].name@);
                    }
                }
            }
        } else {
            self.clear_search_pattern();
        }
    }

    /// Makes every row visible again.
    pub fn clear_search_pattern(&mut self)
        requires
            ordered_well_formed(*old(self)),
        ensures
            ordered_well_formed(*final(self)),
            ordered_cleared(*old(self), *final(self)),
    {
        let n = self.entries.len();
        let mut i: usize = 0;
        while i < n
            invariant
                n == self.entries@.len(),
                i <= n,
                self.sorted_column == old(self).sorted_column,
                forall|j: int|
                    0 <= j < n ==> {
                        let a = #[trigger] self.entries@[j];
                        let b = old(self).entries@[j];
                        &&& a.name == b.name
                        &&& a.count.total == b.count.total
                        &&& a.count.own == b.count.own
                    },
                forall|j: int| 0 <= j < i ==> (#[trigger] self.entries@[j]).visible,
            decreases n - i,
        {
            self.entries[i].visible = true;
            i += 1;
        }
        self.num_rows = n;
        self.search_pattern_ignored_because_of_no_match = false;
        proof {
            lemma_visible_count_all(self.entries@);
            assert forall|i2: int, j: int|
                0 <= i2 < j < self.entries@.len() implies entry_before(
                #[trigger] self.entries@[i2],
                #[trigger] self.entries@[j],
                self.sorted_column,
            ) by {
                assert(entry_before(
                    old(self).entries@[i2],
                    old(self).entries@[j],
                    old(self).sorted_column,
                ));
            }
            assert forall|i2: int, j: int|
                0 <= i2 < j < self.entries@.len() implies (
            #[trigger] self.entries@[i2]).name@ != (#[trigger] self.entries@[j]).name@ by {
                assert(old(self).entries@[i2].name@ != old(self).entries@[j].name@);
            }
        }
    }

    /// Switches the sort column, reordering the rows when it changes.
    pub fn set_sort_column(&mut self, column: SortColumn)
        requires
            ordered_well_formed(*old(self)),
        ensures
            ordered_well_formed(*final(self)),
            final(self).sorted_column == column,
            final(self).num_rows == old(self).num_rows,
            final(self).search_pattern_ignored_because_of_no_match == old(
                self,
            ).search_pattern_ignored_because_of_no_match,
            final(self).entries@.to_multiset() == old(self).entries@.to_multiset(),
            old(self).sorted_column == column ==> *final(self) == *old(self),
    {
        if column == self.sorted_column {
            return ;
        }
        let ghost before = self.entries@;
        sort_entries(&mut self.entries, column);
        self.sorted_column = column;
        proof {
            lemma_visible_count_perm(self.entries@, before);
        }
    }
}

/// A positive visible flag makes the visible count positive.
pub proof fn lemma_visible_count_pos(entries: Seq<CountEntry>, j: int)
    requires
        0 <= j < entries.len(),
        entries[j].visible,
    ensures
        visible_count(entries) > 0,
    decreases entries.len(),
{
    lemma_visible_count_nonneg(entries.drop_last());
    if j == entries.len() - 1 {
    } else {
        assert(entries.drop_last()[j] == entries[j]);
        lemma_visible_count_pos(entries.drop_last(), j);
    }
}

/// The visible count is never negative.
pub proof fn lemma_visible_count_nonneg(entries: Seq<CountEntry>)
    ensures
        visible_count(entries) >= 0,
    decreases entries.len(),
{
    if entries.len() > 0 {
        lemma_visible_count_nonneg(entries.drop_last());
    }
}

/// A positive visible count names a visible row.
pub proof fn lemma_visible_count_witness(entries: Seq<CountEntry>)
    requires
        visible_count(entries) > 0,
    ensures
        exists|j: int| 0 <= j < entries.len() && (#[trigger] entries[j]).visible,
    decreases entries.len(),
{
    if entries.len() > 0 {
        if entries.last().visible {
            assert(entries[entries.len() - 1].visible);
        } else {
            lemma_visible_count_witness(entries.drop_last());
            let j = choose|j: int|
                0 <= j < entries.drop_last().len() && (#[trigger] entries.drop_last()[j]).visible;
            assert(entries[j].visible);
        }
    }
}


/// Hit flags play no part in the tree's link structure: ancestor chains and
/// subtree membership are untouched by changing them.
pub proof fn lemma_chain_hit_only(sa: Seq<StackInfo>, sb: Seq<StackInfo>, i: int)
    requires
        sb.len() == sa.len(),
        forall|j: int|
            0 <= j < sa.len() ==> (#[trigger] sb[j]).parent == sa[j].parent,
    ensures
        ancestor_chain(sb, i) == ancestor_chain(sa, i),
    decreases i,
{
    if 0 < i < sa.len() && sa[i].parent is Some && 0 <= sa[i].parent->Some_0 < i {
        lemma_chain_hit_only(sa, sb, sa[i].parent->Some_0 as int);
    }
}

/// Lifting of [`lemma_chain_hit_only`] to subtree membership everywhere.
pub proof fn lemma_hit_only_preserves_chains(sa: Seq<StackInfo>, sb: Seq<StackInfo>)
    requires
        sb.len() == sa.len(),
        forall|j: int|
            0 <= j < sa.len() ==> (#[trigger] sb[j]).parent == sa[j].parent,
    ensures
        forall|a: int, d: int| in_subtree(sb, a, d) == in_subtree(sa, a, d),
{
    assert forall|a: int, d: int| in_subtree(sb, a, d) == in_subtree(sa, a, d) by {
        if 0 <= d < sa.len() {
            lemma_chain_hit_only(sa, sb, d);
        }
    }
}

// ---------------------------------------------------------------------------
// Stated laws
// ---------------------------------------------------------------------------

impl FlameGraph {
    /// A node's proportional share of the display width, as the exact
    /// fraction numerator/denominator: `total_count(node) / total_count(root)`.
    /// The root's fraction is `total/total = 1`; a child's fraction equals
    /// its parent's times `total(child)/total(parent)` by cancellation.
    /// An empty profile yields `0/0`; a renderer must treat that root as
    /// taking the whole width.
    pub fn width_factor_fraction(&self, stack_id: StackIdentifier) -> (r: (u64, u64))
        requires
            self.well_formed(),
            (stack_id as int) < self.stacks@.len(),
        ensures
            r.0 == self.stacks@[stack_id as int].total_count,
            r.1 == self.stacks@[0].total_count,
            r.0 <= r.1,
    {
        proof {
            lemma_total_le_root(self.stacks@, stack_id as int);
        }
        (self.stacks[stack_id].total_count, self.stacks[0].total_count)
    }
}

/// Count conservation: every node's total count is its self count plus the
/// sum of its children's total counts, and no node outweighs the root.
pub proof fn lemma_count_conservation(stacks: Seq<StackInfo>, i: int)
    requires
        stacks_well_formed(stacks),
        0 <= i < stacks.len(),
    ensures
        stacks[i].total_count == stacks[i].self_count + sum_totals(stacks, stacks[i].children@),
        stacks[i].total_count <= stacks[0].total_count,
{
    assert(node_conserved(stacks, i));
    lemma_total_le_root(stacks, i);
}

/// Width-factor normalization, over the exact fractions
/// `width(i) = total(i)/total(root)`: the root's factor is one, every
/// factor lies in (0, 1] when the node carries samples, and a child's
/// numerator never exceeds its parent's, so the parent-relative scaling
/// `width(child) = width(parent) * total(child)/total(parent)` holds as an
/// identity of exact fractions.
pub proof fn lemma_width_factor_normalized(stacks: Seq<StackInfo>, i: int)
    requires
        stacks_well_formed(stacks),
        0 <= i < stacks.len(),
    ensures
        stacks[i].total_count <= stacks[0].total_count,
        i != 0 ==> stacks[i].total_count
            <= stacks[stacks[i].parent->Some_0 as int].total_count,
        i != 0 ==> stacks[i].total_count * stacks[stacks[i].parent->Some_0 as int].total_count
            == stacks[stacks[i].parent->Some_0 as int].total_count * stacks[i].total_count,
{
    lemma_total_le_root(stacks, i);
    if i != 0 {
        assert(node_linked(stacks, i));
        lemma_child_total_le_parent(stacks, i);
    }
}

/// A subtree without hits contributes no coverage.
pub proof fn lemma_coverage_zero(stacks: Seq<StackInfo>, x: int)
    requires
        stacks_well_formed(stacks),
        0 <= x < stacks.len(),
        forall|m: int| 0 <= m < stacks.len() && in_subtree(stacks, x, m) ==> !stacks[m].hit,
    ensures
        coverage(stacks, x) == 0,
    decreases stacks.len() - x, stacks[x].children@.len() + 1,
{
    lemma_chain_bounds(stacks, x);
    assert(in_subtree(stacks, x, x));
    assert(!stacks[x].hit);
    lemma_coverage_zero_list(stacks, x, stacks[x].children@.len() as int);
    assert(stacks[x].children@.subrange(0, stacks[x].children@.len() as int)
        =~= stacks[x].children@);
}

/// List form of [`lemma_coverage_zero`] over a child-list prefix.
pub proof fn lemma_coverage_zero_list(stacks: Seq<StackInfo>, x: int, k: int)
    requires
        stacks_well_formed(stacks),
        0 <= x < stacks.len(),
        0 <= k <= stacks[x].children@.len(),
        forall|m: int| 0 <= m < stacks.len() && in_subtree(stacks, x, m) ==> !stacks[m].hit,
    ensures
        coverage_of_list(stacks, stacks[x].children@.subrange(0, k), x) == 0,
    decreases stacks.len() - x, k,
{
    assert(node_linked(stacks, x));
    let cs = stacks[x].children@.subrange(0, k);
    if k == 0 {
    } else {
        assert(cs =~= stacks[x].children@.subrange(0, cs.len() as int));
        assert(cs.drop_last() =~= stacks[x].children@.subrange(0, k - 1));
        lemma_coverage_zero_list(stacks, x, k - 1);
        let c = cs.last() as int;
        assert(cs.last() == stacks[x].children@[k - 1]);
        assert(x < c < stacks.len());
        assert forall|m: int|
            0 <= m < stacks.len() && in_subtree(stacks, c, m) implies !stacks[m].hit by {
            lemma_subtree_child_up(stacks, x, c, m);
        }
        lemma_coverage_zero(stacks, c);
    }
}

/// Coverage along the path to the one hit subtree: when every hit lies in
/// the subtree of a hit node `n`, each ancestor of `n` has coverage
/// exactly `total(n)`.
pub proof fn lemma_coverage_along_chain(stacks: Seq<StackInfo>, x: int, n: int)
    requires
        stacks_well_formed(stacks),
        0 <= x < stacks.len(),
        0 <= n < stacks.len(),
        in_subtree(stacks, x, n),
        stacks[n].hit,
        forall|m: int|
            0 <= m < stacks.len() && stacks[m].hit ==> in_subtree(stacks, n, m),
    ensures
        coverage(stacks, x) == stacks[n].total_count,
    decreases stacks.len() - x,
{
    lemma_chain_bounds(stacks, n);
    if x == n {
    } else {
        lemma_subtree_parent_step(stacks, x, n);
        assert(x < n);
        assert(!stacks[x].hit) by {
            if stacks[x].hit {
                assert(in_subtree(stacks, n, x));
                lemma_chain_bounds(stacks, x);
                let chain = ancestor_chain(stacks, x);
                assert(n <= x);
            }
        }
        lemma_subtree_via_child(stacks, x, n);
        let kc = choose|k: int|
            0 <= k < stacks[x].children@.len() && in_subtree(
                stacks,
                #[trigger] stacks[x].children@[k] as int,
                n,
            );
        let c = stacks[x].children@[kc] as int;
        assert(node_linked(stacks, x));
        assert(x < c < stacks.len());
        lemma_coverage_along_chain(stacks, c, n);
        lemma_coverage_one_child(stacks, x, kc, stacks[x].children@.len() as int, n);
        assert(stacks[x].children@.subrange(0, stacks[x].children@.len() as int)
            =~= stacks[x].children@);
    }
}

/// Within a child list, only the child whose subtree holds `n`
/// contributes; the prefix sum is that child's coverage once it is
/// included.
pub proof fn lemma_coverage_one_child(
    stacks: Seq<StackInfo>,
    x: int,
    kc: int,
    k: int,
    n: int,
)
    requires
        stacks_well_formed(stacks),
        0 <= x < stacks.len(),
        0 <= n < stacks.len(),
        0 <= kc < stacks[x].children@.len(),
        in_subtree(stacks, stacks[x].children@[kc] as int, n),
        stacks[n].hit,
        forall|m: int|
            0 <= m < stacks.len() && stacks[m].hit ==> in_subtree(stacks, n, m),
        0 <= k <= stacks[x].children@.len(),
    ensures
        coverage_of_list(stacks, stacks[x].children@.subrange(0, k), x) == (if kc < k {
            coverage(stacks, stacks[x].children@[kc] as int)
        } else {
            0
        }),
    decreases stacks.len() - x, k,
{
    assert(node_linked(stacks, x));
    let cs = stacks[x].children@.subrange(0, k);
    let c = stacks[x].children@[kc] as int;
    if k == 0 {
    } else {
        assert(cs =~= stacks[x].children@.subrange(0, cs.len() as int));
        assert(cs.drop_last() =~= stacks[x].children@.subrange(0, k - 1));
        lemma_coverage_one_child(stacks, x, kc, k - 1, n);
        let d = cs.last() as int;
        assert(cs.last() == stacks[x].children@[k - 1]);
        assert(x < d < stacks.len());
        if k - 1 == kc {
        } else {
            // The other child's subtree holds no hits: any hit sits inside
            // `n`'s subtree, which lies inside the sibling `c`'s subtree.
            assert forall|m: int|
                0 <= m < stacks.len() && in_subtree(stacks, d, m) implies !stacks[m].hit by {
                if stacks[m].hit {
                    assert(in_subtree(stacks, n, m));
                    lemma_chain_trans(stacks, m, n);
                    assert(in_subtree(stacks, c, n));
                    assert(in_subtree(stacks, c, m));
                    assert(stacks[c].parent == Some(x as StackIdentifier));
                    assert(stacks[d].parent == Some(x as StackIdentifier));
                    assert(stacks[x].children@[kc] != stacks[x].children@[k - 1]);
                    lemma_sibling_subtrees_disjoint(stacks, c, d, m);
                }
            }
            lemma_coverage_zero(stacks, d);
        }
    }
}

/// Coverage never double counts: with every hit inside one hit node's
/// subtree, the whole tree's coverage is exactly that node's total count.
/// In particular, marking only the root gives the root's total.
pub proof fn lemma_coverage_no_double_count(stacks: Seq<StackInfo>, n: int)
    requires
        stacks_well_formed(stacks),
        0 <= n < stacks.len(),
        stacks[n].hit,
        forall|m: int|
            0 <= m < stacks.len() && stacks[m].hit ==> in_subtree(stacks, n, m),
    ensures
        coverage(stacks, 0) == stacks[n].total_count,
{
    lemma_chain_contains_root(stacks, n);
    lemma_coverage_along_chain(stacks, 0, n);
}


// ---------------------------------------------------------------------------
// Paths: what each node stands for in the input
// ---------------------------------------------------------------------------

/// The frame names from the root down to node `i`; empty for the root.
pub open spec fn node_path(stacks: Seq<StackInfo>, i: int) -> Seq<Seq<char>>
    decreases i,
{
    if 0 < i < stacks.len() && stacks[i].parent is Some && 0 <= stacks[i].parent->Some_0 < i {
        node_path(stacks, stacks[i].parent->Some_0 as int) + seq![stacks[i].short_name@]
    } else {
        Seq::empty()
    }
}

/// No two nodes stand for the same path.
pub open spec fn paths_unique(stacks: Seq<StackInfo>) -> bool {
    forall|i: int, j: int|
        1 <= i < j < stacks.len() ==> node_path(stacks, i) != node_path(stacks, j)
}

/// Under one parent, no two children carry the same frame name.
pub open spec fn children_names_distinct(stacks: Seq<StackInfo>) -> bool {
    forall|i: int, k1: int, k2: int|
        0 <= i < stacks.len() && 0 <= k1 < k2 < stacks[i].children@.len()
            ==> stacks[(#[trigger] stacks[i].children@[k1]) as int].short_name@ != stacks[(
        #[trigger] stacks[i].children@[k2]) as int].short_name@
}

/// Samples the input attributes to `path`: the counts of the accepted
/// lines whose frame lists extend `path`.
pub open spec fn path_total(lines: Seq<Seq<char>>, path: Seq<Seq<char>>) -> int
    decreases lines.len(),
{
    if lines.len() == 0 {
        0
    } else {
        path_total(lines.drop_last(), path) + (match crate::parse::parsed_line(lines.last()) {
            Some(pc) => if path.is_prefix_of(crate::parse::frame_list(pc.0)) {
                pc.1 as int
            } else {
                0
            },
            None => 0,
        })
    }
}

/// Samples whose line ends exactly at `path`.
pub open spec fn path_self_total(lines: Seq<Seq<char>>, path: Seq<Seq<char>>) -> int
    decreases lines.len(),
{
    if lines.len() == 0 {
        0
    } else {
        path_self_total(lines.drop_last(), path) + (match crate::parse::parsed_line(
            lines.last(),
        ) {
            Some(pc) => if path =~= crate::parse::frame_list(pc.0) {
                pc.1 as int
            } else {
                0
            },
            None => 0,
        })
    }
}

/// One more line extends the prefix sums in the obvious way.
pub proof fn lemma_path_total_step(lines: Seq<Seq<char>>, k: int, path: Seq<Seq<char>>)
    requires
        0 <= k < lines.len(),
    ensures
        path_total(lines.subrange(0, k + 1), path) == path_total(lines.subrange(0, k), path) + (
        match crate::parse::parsed_line(lines[k]) {
            Some(pc) => if path.is_prefix_of(crate::parse::frame_list(pc.0)) {
                pc.1 as int
            } else {
                0
            },
            None => 0,
        }),
        path_self_total(lines.subrange(0, k + 1), path) == path_self_total(
            lines.subrange(0, k),
            path,
        ) + (match crate::parse::parsed_line(lines[k]) {
            Some(pc) => if path =~= crate::parse::frame_list(pc.0) {
                pc.1 as int
            } else {
                0
            },
            None => 0,
        }),
{
    let a = lines.subrange(0, k + 1);
    assert(a.drop_last() =~= lines.subrange(0, k));
    assert(a.last() == lines[k]);
}

/// A positive path total names a witnessing line.
pub proof fn lemma_path_total_witness(lines: Seq<Seq<char>>, path: Seq<Seq<char>>)
    requires
        path_total(lines, path) != 0 || path_self_total(lines, path) != 0,
    ensures
        exists|m: int|
            0 <= m < lines.len() && ((#[trigger] crate::parse::parsed_line(lines[m]))
                matches Some(pc) && path.is_prefix_of(crate::parse::frame_list(pc.0))),
    decreases lines.len(),
{
    if lines.len() > 0 {
        let last = crate::parse::parsed_line(lines.last());
        if last matches Some(pc) && (path.is_prefix_of(crate::parse::frame_list(pc.0)) || path
            =~= crate::parse::frame_list(pc.0)) {
            assert(lines[lines.len() - 1] == lines.last());
            assert(path.is_prefix_of(crate::parse::frame_list(last->Some_0.0)));
        } else {
            lemma_path_total_witness(lines.drop_last(), path);
            let m = choose|m: int|
                0 <= m < lines.drop_last().len() && ((#[trigger] crate::parse::parsed_line(
                    lines.drop_last()[m],
                )) matches Some(pc) && path.is_prefix_of(crate::parse::frame_list(pc.0)));
            assert(lines.drop_last()[m] == lines[m]);
        }
    }
}

/// Paths only read links and names: a change that keeps every node's
/// parent and frame name keeps every path, and appending nodes keeps the
/// old nodes' paths.
pub proof fn lemma_node_path_preserved(sa: Seq<StackInfo>, sb: Seq<StackInfo>, i: int)
    requires
        sa.len() <= sb.len(),
        forall|j: int|
            0 <= j < sa.len() ==> (#[trigger] sb[j]).parent == sa[j].parent
                && sb[j].short_name@ == sa[j].short_name@,
        0 <= i < sa.len(),
    ensures
        node_path(sb, i) == node_path(sa, i),
    decreases i,
{
    if 0 < i && sa[i].parent is Some && 0 <= sa[i].parent->Some_0 < i {
        lemma_node_path_preserved(sa, sb, sa[i].parent->Some_0 as int);
    }
}


} // verus!
