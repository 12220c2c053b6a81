use vstd::prelude::*;

use crate::clock::now_millis;
use crate::errors::EngineError;
use crate::models::{chap_lt, Chapter, SortKey};

verus! {

/// One node of the in-memory chapter tree: a copy of the chapter, the ids of
/// its children in display order, and its depth (roots are at depth zero).
#[derive(Debug)]
pub struct ChapterNode {
    pub chapter: Chapter,
    pub children: Vec<i64>,
    pub depth: usize,
}

/// The in-memory hierarchical view of one novel's chapters, rebuilt on
/// demand from a flat chapter list and discarded after use.
#[derive(Debug)]
pub struct ChapterTree {
    pub nodes: Vec<ChapterNode>,
    pub root_nodes: Vec<i64>,
}

/// Whether some node carries the given chapter id.
pub open spec fn has_id(s: Seq<ChapterNode>, id: i64) -> bool {
    exists|j: int| 0 <= j < s.len() && s[j].chapter.id == id
}

/// Index of the node carrying the given id (meaningful when ids are unique).
pub open spec fn idx_of(s: Seq<ChapterNode>, id: i64) -> int {
    choose|j: int| 0 <= j < s.len() && s[j].chapter.id == id
}

/// The node carrying the given id.
pub open spec fn node_of(s: Seq<ChapterNode>, id: i64) -> ChapterNode {
    s[idx_of(s, id)]
}

/// The parent a chapter record effectively declares within this node set: a
/// missing parent id, a self reference, and a parent absent from the set all
/// count as no parent, so such records degrade to additional roots.
pub open spec fn link_parent(s: Seq<ChapterNode>, c: Chapter) -> Option<i64> {
    match c.parent_id {
        None => None,
        Some(p) => if p == c.id || !has_id(s, p) {
            None
        } else {
            Some(p)
        },
    }
}

/// One ancestor step along recorded parent ids: the parent id the node
/// declares, if the node is present at all.
pub open spec fn parent_step(s: Seq<ChapterNode>, x: i64) -> Option<i64> {
    if has_id(s, x) {
        node_of(s, x).chapter.parent_id
    } else {
        None
    }
}

/// Whether the ancestor walk along recorded parent ids starting at `from`
/// meets `target` within `fuel` steps. Since a walk visiting more nodes than
/// the tree holds must repeat one, a fuel of the node count decides
/// membership in the whole (possibly cyclic) ancestor chain.
pub open spec fn chain_reaches(s: Seq<ChapterNode>, from: i64, target: i64, fuel: nat) -> bool
    decreases fuel,
{
    if from == target {
        true
    } else if fuel == 0 {
        false
    } else {
        match parent_step(s, from) {
            None => false,
            Some(p) => chain_reaches(s, p, target, (fuel - 1) as nat),
        }
    }
}

impl ChapterTree {
    /// No two nodes share a chapter id.
    #[verifier::opaque]
    pub open spec fn unique_ids(self) -> bool {
        forall|i: int, j: int|
            0 <= i < j < self.nodes@.len() ==> self.nodes@[i].chapter.id
                != self.nodes@[j].chapter.id
    }

    /// Every id in the root list and in a child list names a present node.
    #[verifier::opaque]
    pub open spec fn members_ok(self) -> bool {
        &&& forall|k: int|
            0 <= k < self.root_nodes@.len() ==> has_id(self.nodes@, self.root_nodes@[k])
        &&& forall|j: int, k: int|
            0 <= j < self.nodes@.len() && 0 <= k < self.nodes@[j].children@.len() ==> has_id(
                self.nodes@,
                self.nodes@[j].children@[k],
            )
    }

    /// Each id stands at most once among the root list and all child lists.
    #[verifier::opaque]
    pub open spec fn placement_injective(self) -> bool {
        &&& forall|k1: int, k2: int|
            0 <= k1 < k2 < self.root_nodes@.len() ==> self.root_nodes@[k1]
                != self.root_nodes@[k2]
        &&& forall|j1: int, k1: int, j2: int, k2: int|
            0 <= j1 < self.nodes@.len() && 0 <= k1 < self.nodes@[j1].children@.len() && 0 <= j2
                < self.nodes@.len() && 0 <= k2 < self.nodes@[j2].children@.len() && (j1 != j2
                || k1 != k2) ==> self.nodes@[j1].children@[k1] != self.nodes@[j2].children@[k2]
        &&& forall|k: int, j: int, l: int|
            0 <= k < self.root_nodes@.len() && 0 <= j < self.nodes@.len() && 0 <= l
                < self.nodes@[j].children@.len() ==> self.root_nodes@[k]
                != self.nodes@[j].children@[l]
    }

    /// Every node stands in the root list or in some child list.
    #[verifier::opaque]
    pub open spec fn coverage(self) -> bool {
        forall|i: int|
            0 <= i < self.nodes@.len() ==> self.root_nodes@.contains(self.nodes@[i].chapter.id)
                || exists|j: int, k: int|
                0 <= j < self.nodes@.len() && 0 <= k < self.nodes@[j].children@.len()
                    && self.nodes@[j].children@[k] == self.nodes@[i].chapter.id
    }

    /// A child list entry belongs to a node that effectively declares this
    /// parent.
    #[verifier::opaque]
    pub open spec fn parent_link_ok(self) -> bool {
        forall|j: int, k: int|
            0 <= j < self.nodes@.len() && 0 <= k < self.nodes@[j].children@.len() ==> link_parent(
                self.nodes@,
                node_of(self.nodes@, self.nodes@[j].children@[k]).chapter,
            ) == Some(self.nodes@[j].chapter.id)
    }

    /// Roots are at depth zero, each child one level below its parent, and
    /// every depth is below the node count.
    #[verifier::opaque]
    pub open spec fn depth_ok(self) -> bool {
        &&& forall|k: int|
            0 <= k < self.root_nodes@.len() ==> node_of(self.nodes@, self.root_nodes@[k]).depth
                == 0
        &&& forall|j: int, k: int|
            0 <= j < self.nodes@.len() && 0 <= k < self.nodes@[j].children@.len() ==> node_of(
                self.nodes@,
                self.nodes@[j].children@[k],
            ).depth == self.nodes@[j].depth + 1
        &&& forall|i: int| 0 <= i < self.nodes@.len() ==> self.nodes@[i].depth < self.nodes@.len()
    }

    /// Each child list is in ascending display order.
    #[verifier::opaque]
    pub open spec fn children_sorted(self) -> bool {
        forall|j: int, k1: int, k2: int|
            0 <= j < self.nodes@.len() && 0 <= k1 < k2 < self.nodes@[j].children@.len()
                ==> chap_lt(
                node_of(self.nodes@, self.nodes@[j].children@[k1]).chapter,
                node_of(self.nodes@, self.nodes@[j].children@[k2]).chapter,
            )
    }

    /// Well-formedness of a built tree: the invariant every tree operation
    /// relies on and `build_chapter_tree` establishes.
    pub open spec fn wf(self) -> bool {
        &&& self.unique_ids()
        &&& self.members_ok()
        &&& self.placement_injective()
        &&& self.coverage()
        &&& self.parent_link_ok()
        &&& self.depth_ok()
        &&& self.children_sorted()
    }

    /// Number of siblings at the destination: the children of the given
    /// parent, or the root list when there is none; an absent parent has no
    /// siblings.
    pub open spec fn sibling_count(self, parent_id: Option<i64>) -> nat {
        match parent_id {
            None => self.root_nodes@.len(),
            Some(p) => if has_id(self.nodes@, p) {
                node_of(self.nodes@, p).children@.len()
            } else {
                0
            },
        }
    }
}

/// The ids of the subtree rooted at `id` in preorder: the node itself, then
/// each child's subtree in stored order. The depth budget `d` only bounds
/// recursion; on a well-formed tree it never runs out.
pub open spec fn subtree_ids(s: Seq<ChapterNode>, id: i64, d: nat) -> Seq<i64>
    decreases d, 0int, 0int,
{
    if d == 0 || !has_id(s, id) {
        seq![id]
    } else {
        seq![id] + forest_ids(s, node_of(s, id).children@, (d - 1) as nat)
    }
}

/// The concatenation of the preorder subtrees of a list of ids.
pub open spec fn forest_ids(s: Seq<ChapterNode>, ids: Seq<i64>, d: nat) -> Seq<i64>
    decreases d, 1int, ids.len(),
{
    if ids.len() == 0 {
        Seq::empty()
    } else {
        subtree_ids(s, ids[0], d) + forest_ids(s, ids.drop_first(), d)
    }
}

/// The preorder of a whole tree: the roots' subtrees in stored order.
pub open spec fn preorder_ids(t: ChapterTree) -> Seq<i64> {
    forest_ids(t.nodes@, t.root_nodes@, t.nodes@.len() as nat)
}

/// The chapters carried by a list of node ids.
pub open spec fn chapters_of(s: Seq<ChapterNode>, ids: Seq<i64>) -> Seq<Chapter> {
    ids.map_values(|id: i64| node_of(s, id).chapter)
}

pub proof fn lemma_forest_ids_append(s: Seq<ChapterNode>, a: Seq<i64>, b: Seq<i64>, d: nat)
    ensures
        forest_ids(s, a + b, d) == forest_ids(s, a, d) + forest_ids(s, b, d),
    decreases a.len(),
{
    if a.len() == 0 {
        assert(a + b =~= b);
        assert(forest_ids(s, a, d) + forest_ids(s, b, d) =~= forest_ids(s, b, d));
    } else {
        lemma_forest_ids_append(s, a.drop_first(), b, d);
        assert((a + b).drop_first() =~= a.drop_first() + b);
        assert(forest_ids(s, a + b, d) == subtree_ids(s, a[0], d) + forest_ids(
            s,
            a.drop_first() + b,
            d,
        ));
        assert(subtree_ids(s, a[0], d) + (forest_ids(s, a.drop_first(), d) + forest_ids(s, b, d))
            =~= (subtree_ids(s, a[0], d) + forest_ids(s, a.drop_first(), d)) + forest_ids(
            s,
            b,
            d,
        ));
    }
}

/// Whether some chapter in the list carries the given id.
pub open spec fn has_cid(cs: Seq<Chapter>, id: i64) -> bool {
    exists|j: int| 0 <= j < cs.len() && cs[j].id == id
}

/// Index of the chapter carrying the given id (meaningful when ids are
/// unique).
pub open spec fn cidx(cs: Seq<Chapter>, id: i64) -> int {
    choose|j: int| 0 <= j < cs.len() && cs[j].id == id
}

/// No two chapters in the list share an id.
pub open spec fn cs_unique(cs: Seq<Chapter>) -> bool {
    forall|i: int, j: int| 0 <= i < j < cs.len() ==> cs[i].id != cs[j].id
}

/// The list is in ascending display order.
pub open spec fn cs_sorted(cs: Seq<Chapter>) -> bool {
    forall|i: int, j: int| 0 <= i < j < cs.len() ==> chap_lt(cs[i], cs[j])
}

/// Index of the parent a chapter effectively declares: none for a missing
/// parent id, a self reference, or a parent absent from the list.
pub open spec fn eff_parent_idx(cs: Seq<Chapter>, i: int) -> Option<int> {
    match cs[i].parent_id {
        None => None,
        Some(p) => if p == cs[i].id || !has_cid(cs, p) {
            None
        } else {
            Some(cidx(cs, p))
        },
    }
}

/// The ids of the chapters at indices below `upto` selected by `sel`, in
/// index order.
pub open spec fn ids_upto(cs: Seq<Chapter>, sel: spec_fn(int) -> bool, upto: int) -> Seq<i64>
    decreases upto,
{
    if upto <= 0 {
        Seq::empty()
    } else {
        ids_upto(cs, sel, upto - 1) + (if sel(upto - 1) {
            seq![cs[upto - 1].id]
        } else {
            Seq::<i64>::empty()
        })
    }
}

/// The index that contributed the `k`-th entry of `ids_upto(cs, sel, upto)`.
pub open spec fn wit_of(cs: Seq<Chapter>, sel: spec_fn(int) -> bool, upto: int, k: int) -> int
    decreases upto,
{
    if upto <= 0 {
        -1
    } else if sel(upto - 1) && k == ids_upto(cs, sel, upto).len() - 1 {
        upto - 1
    } else {
        wit_of(cs, sel, upto - 1, k)
    }
}

/// Each entry of `ids_upto` is the id of the selected index `wit_of` names,
/// and the witnesses ascend with the entries.
pub proof fn lemma_ids_upto_wit(cs: Seq<Chapter>, sel: spec_fn(int) -> bool, upto: int)
    requires
        0 <= upto <= cs.len(),
    ensures
        ids_upto(cs, sel, upto).len() <= upto,
        forall|k: int| #![trigger wit_of(cs, sel, upto, k)]
            0 <= k < ids_upto(cs, sel, upto).len() ==> 0 <= wit_of(cs, sel, upto, k) < upto
                && sel(wit_of(cs, sel, upto, k)) && ids_upto(cs, sel, upto)[k] == cs[wit_of(
                cs,
                sel,
                upto,
                k,
            )].id,
        forall|k1: int, k2: int|
            #![trigger wit_of(cs, sel, upto, k1), wit_of(cs, sel, upto, k2)]
            0 <= k1 < k2 < ids_upto(cs, sel, upto).len() ==> wit_of(cs, sel, upto, k1) < wit_of(
                cs,
                sel,
                upto,
                k2,
            ),
    decreases upto,
{
    if upto > 0 {
        lemma_ids_upto_wit(cs, sel, upto - 1);
        let prev = ids_upto(cs, sel, upto - 1);
        let cur = ids_upto(cs, sel, upto);
        if sel(upto - 1) {
            assert(cur =~= prev.push(cs[upto - 1].id));
        } else {
            assert(cur =~= prev);
        }
        assert forall|k: int| #![trigger wit_of(cs, sel, upto, k)]
            0 <= k < cur.len() implies 0 <= wit_of(cs, sel, upto, k) < upto && sel(
            wit_of(cs, sel, upto, k),
        ) && cur[k] == cs[wit_of(cs, sel, upto, k)].id by {
            if sel(upto - 1) && k == cur.len() - 1 {
                assert(wit_of(cs, sel, upto, k) == upto - 1);
            } else {
                assert(wit_of(cs, sel, upto, k) == wit_of(cs, sel, upto - 1, k));
                assert(k < prev.len());
                assert(cur[k] == prev[k]);
            }
        }
        assert forall|k1: int, k2: int|
            #![trigger wit_of(cs, sel, upto, k1), wit_of(cs, sel, upto, k2)]
            0 <= k1 < k2 < cur.len() implies wit_of(cs, sel, upto, k1) < wit_of(
            cs,
            sel,
            upto,
            k2,
        ) by {
            if sel(upto - 1) && k2 == cur.len() - 1 {
                assert(wit_of(cs, sel, upto, k2) == upto - 1);
                assert(k1 < prev.len());
                assert(wit_of(cs, sel, upto, k1) == wit_of(cs, sel, upto - 1, k1));
                assert(wit_of(cs, sel, upto - 1, k1) < upto - 1);
            } else {
                assert(k2 < prev.len());
                assert(wit_of(cs, sel, upto, k1) == wit_of(cs, sel, upto - 1, k1));
                assert(wit_of(cs, sel, upto, k2) == wit_of(cs, sel, upto - 1, k2));
            }
        }
    }
}

/// Every selected index is represented among the entries.
pub proof fn lemma_ids_upto_contains(cs: Seq<Chapter>, sel: spec_fn(int) -> bool, upto: int)
    requires
        0 <= upto <= cs.len(),
    ensures
        forall|w: int| #![trigger sel(w)]
            0 <= w < upto && sel(w) ==> ids_upto(cs, sel, upto).contains(cs[w].id),
    decreases upto,
{
    if upto > 0 {
        lemma_ids_upto_contains(cs, sel, upto - 1);
        let prev = ids_upto(cs, sel, upto - 1);
        let cur = ids_upto(cs, sel, upto);
        if sel(upto - 1) {
            assert(cur =~= prev.push(cs[upto - 1].id));
        } else {
            assert(cur =~= prev);
        }
        assert forall|w: int| #![trigger sel(w)] 0 <= w < upto && sel(w) implies cur.contains(
            cs[w].id,
        ) by {
            if w < upto - 1 {
                assert(prev.contains(cs[w].id));
                let k = choose|k: int| 0 <= k < prev.len() && prev[k] == cs[w].id;
                assert(cur[k] == cs[w].id);
            } else {
                assert(cur[cur.len() - 1] == cs[w].id);
            }
        }
    }
}

/// With unique chapter ids the entries are pairwise distinct.
pub proof fn lemma_ids_upto_props(cs: Seq<Chapter>, sel: spec_fn(int) -> bool, upto: int)
    requires
        0 <= upto <= cs.len(),
        cs_unique(cs),
    ensures
        ids_upto(cs, sel, upto).len() <= upto,
        forall|k: int| #![trigger wit_of(cs, sel, upto, k)]
            0 <= k < ids_upto(cs, sel, upto).len() ==> 0 <= wit_of(cs, sel, upto, k) < upto
                && sel(wit_of(cs, sel, upto, k)) && ids_upto(cs, sel, upto)[k] == cs[wit_of(
                cs,
                sel,
                upto,
                k,
            )].id,
        forall|k1: int, k2: int|
            #![trigger wit_of(cs, sel, upto, k1), wit_of(cs, sel, upto, k2)]
            0 <= k1 < k2 < ids_upto(cs, sel, upto).len() ==> wit_of(cs, sel, upto, k1) < wit_of(
                cs,
                sel,
                upto,
                k2,
            ),
        forall|w: int| #![trigger sel(w)]
            0 <= w < upto && sel(w) ==> ids_upto(cs, sel, upto).contains(cs[w].id),
        forall|k1: int, k2: int|
            #![trigger ids_upto(cs, sel, upto)[k1], ids_upto(cs, sel, upto)[k2]]
            0 <= k1 < k2 < ids_upto(cs, sel, upto).len() ==> ids_upto(cs, sel, upto)[k1]
                != ids_upto(cs, sel, upto)[k2],
{
    lemma_ids_upto_wit(cs, sel, upto);
    lemma_ids_upto_contains(cs, sel, upto);
    let cur = ids_upto(cs, sel, upto);
    assert forall|k1: int, k2: int| #![trigger cur[k1], cur[k2]]
        0 <= k1 < k2 < cur.len() implies cur[k1] != cur[k2] by {
        let w1 = wit_of(cs, sel, upto, k1);
        let w2 = wit_of(cs, sel, upto, k2);
        assert(w1 < w2);
        assert(cs[w1].id != cs[w2].id);
    }
}

/// Number of set flags.
pub open spec fn num_true(s: Seq<bool>) -> nat
    decreases s.len(),
{
    if s.len() == 0 {
        0
    } else {
        (if s.last() {
            1nat
        } else {
            0nat
        }) + num_true(s.drop_last())
    }
}

proof fn lemma_num_true_le_len(s: Seq<bool>)
    ensures
        num_true(s) <= s.len(),
    decreases s.len(),
{
    if s.len() > 0 {
        lemma_num_true_le_len(s.drop_last());
    }
}

proof fn lemma_num_true_set(s: Seq<bool>, i: int)
    requires
        0 <= i < s.len(),
        !s[i],
    ensures
        num_true(s.update(i, true)) == num_true(s) + 1,
    decreases s.len(),
{
    if i == s.len() - 1 {
        assert(s.update(i, true).drop_last() =~= s.drop_last());
    } else {
        assert(s.update(i, true).drop_last() =~= s.drop_last().update(i, true));
        lemma_num_true_set(s.drop_last(), i);
    }
}

proof fn lemma_num_true_push(s: Seq<bool>, b: bool)
    ensures
        num_true(s.push(b)) == num_true(s) + (if b {
            1nat
        } else {
            0nat
        }),
{
    assert(s.push(b).drop_last() =~= s);
}

proof fn lemma_num_true_pos(s: Seq<bool>, i: int)
    requires
        0 <= i < s.len(),
        s[i],
    ensures
        num_true(s) >= 1,
    decreases s.len(),
{
    if i < s.len() - 1 {
        lemma_num_true_pos(s.drop_last(), i);
    }
}

/// Strict display order is total on chapters with distinct ids.
pub proof fn lemma_chap_lt_total(a: Chapter, b: Chapter)
    requires
        a.id != b.id,
    ensures
        chap_lt(a, b) || chap_lt(b, a),
        !(chap_lt(a, b) && chap_lt(b, a)),
{
}

/// Strict display order is transitive.
pub proof fn lemma_chap_lt_trans(a: Chapter, b: Chapter, c: Chapter)
    requires
        chap_lt(a, b),
        chap_lt(b, c),
    ensures
        chap_lt(a, c),
{
}

/// Selects the indices that become roots: chapters that effectively declare
/// no parent, and chapters left unplaced because their parent chain never
/// reaches a root (a cycle in the recorded parent ids), which degrade to
/// additional roots.
pub open spec fn root_sel(cs: Seq<Chapter>, pa: Seq<bool>) -> spec_fn(int) -> bool {
    |w: int| eff_parent_idx(cs, w) is None || !pa[w]
}

/// Selects the indices that become children of the node at index `j`.
pub open spec fn child_sel(cs: Seq<Chapter>, pa: Seq<bool>, j: int) -> spec_fn(int) -> bool {
    |w: int| pa[w] && eff_parent_idx(cs, w) == Some(j)
}

/// Copy a list of ids.
fn clone_ids(v: &Vec<i64>) -> (r: Vec<i64>)
    ensures
        r@ == v@,
{
    let mut r: Vec<i64> = Vec::new();
    proof {
        assert(r@ =~= v@.subrange(0, 0));
    }
    let mut i: usize = 0;
    while i < v.len()
        invariant
            i <= v@.len(),
            r@ == v@.subrange(0, i as int),
        decreases v@.len() - i,
    {
        r.push(v[i]);
        proof {
            assert(r@ =~= v@.subrange(0, i + 1));
        }
        i = i + 1;
    }
    proof {
        assert(v@.subrange(0, v@.len() as int) =~= v@);
    }
    r
}

/// Compare two chapters in display order.
fn chap_lt_exec(a: &Chapter, b: &Chapter) -> (r: bool)
    ensures
        r == chap_lt(*a, *b),
{
    if a.sort_path.position < b.sort_path.position {
        true
    } else if a.sort_path.position == b.sort_path.position && a.sort_path.stamp
        < b.sort_path.stamp {
        true
    } else if a.sort_path == b.sort_path && a.id < b.id {
        true
    } else {
        false
    }
}

/// Index of the chapter carrying the given id.
fn find_chapter_index(cs: &Vec<Chapter>, id: i64) -> (r: Option<usize>)
    requires
        cs_unique(cs@),
    ensures
        match r {
            Some(ix) => ix < cs@.len() && cs@[ix as int].id == id && has_cid(cs@, id) && cidx(
                cs@,
                id,
            ) == ix,
            None => !has_cid(cs@, id),
        },
{
    let ghost s = cs@;
    let mut i: usize = 0;
    while i < cs.len()
        invariant
            i <= s.len(),
            cs@ == s,
            cs_unique(s),
            forall|j: int| 0 <= j < i ==> s[j].id != id,
        decreases s.len() - i,
    {
        if cs[i].id == id {
            proof {
                let cix = cidx(s, id);
                assert(0 <= cix < s.len() && s[cix].id == id);
                if cix != i as int {
                    assert(false);
                }
            }
            return Some(i);
        }
        i = i + 1;
    }
    proof {
        if has_cid(s, id) {
            let j = choose|j: int| 0 <= j < s.len() && s[j].id == id;
            assert(s[j].id != id);
        }
    }
    None
}

/// Index of the node whose child list holds `x`, if any. In a well-formed
/// tree the placement is unique, so this is the parent of `x` in the tree
/// structure.
pub open spec fn placed_in(s: Seq<ChapterNode>, x: i64) -> Option<int> {
    if exists|j: int, k: int|
        0 <= j < s.len() && 0 <= k < s[j].children@.len() && s[j].children@[k] == x {
        Some(
            (choose|j: int, k: int|
                0 <= j < s.len() && 0 <= k < s[j].children@.len() && s[j].children@[k] == x).0,
        )
    } else {
        None
    }
}

/// Whether `a` is `b` or an ancestor of `b` in the tree structure, walking
/// up through at most `fuel` child-list placements.
pub open spec fn up_chain(s: Seq<ChapterNode>, b: i64, a: i64, fuel: nat) -> bool
    decreases fuel,
{
    if b == a {
        true
    } else if fuel == 0 {
        false
    } else {
        match placed_in(s, b) {
            None => false,
            Some(j) => up_chain(s, s[j].chapter.id, a, (fuel - 1) as nat),
        }
    }
}

/// Whether `b` is a strict descendant of `a` in the tree structure.
pub open spec fn is_descendant(t: ChapterTree, b: i64, a: i64) -> bool {
    b != a && up_chain(t.nodes@, b, a, t.nodes@.len() as nat)
}

/// Whether every node that effectively declares a parent stands in that
/// parent's child list rather than among the roots. This holds of every
/// tree built from chapters whose recorded parent ids are free of cycles;
/// a cycle degrades its members to roots and violates it.
pub open spec fn linked(t: ChapterTree) -> bool {
    forall|i: int|
        0 <= i < t.nodes@.len() && link_parent(t.nodes@, t.nodes@[i].chapter) is Some
            ==> placed_in(t.nodes@, t.nodes@[i].chapter.id) is Some
}

/// The relation between a built tree and the cleaned chapter list `csv`,
/// the placement flags `pa` and the depths `depthv` that
/// `build_chapter_tree` computes: one node per chapter in order, each child
/// list and the root list derived from the placement by selection.
pub open spec fn build_shape(
    t: ChapterTree,
    csv: Seq<Chapter>,
    pa: Seq<bool>,
    depthv: Seq<usize>,
) -> bool {
    &&& t.nodes@.len() == csv.len()
    &&& pa.len() == csv.len()
    &&& depthv.len() == csv.len()
    &&& forall|k: int|
        #![trigger t.nodes@[k]]
        0 <= k < csv.len() ==> t.nodes@[k].chapter == csv[k] && t.nodes@[k].depth == depthv[k]
    &&& forall|k: int|
        #![trigger t.nodes@[k].children@]
        0 <= k < csv.len() ==> t.nodes@[k].children@ == ids_upto(
            csv,
            child_sel(csv, pa, k),
            csv.len() as int,
        )
    &&& t.root_nodes@ == ids_upto(csv, root_sel(csv, pa), csv.len() as int)
    &&& cs_unique(csv)
    &&& cs_sorted(csv)
}

/// The invariant of the placement pass: a chapter with no effective parent
/// is placed at depth zero, every other placed chapter sits one level below
/// its placed parent, and depths stay below the number of placed chapters.
pub open spec fn placement_ok(
    csv: Seq<Chapter>,
    pa: Seq<bool>,
    depthv: Seq<usize>,
    pcnt: nat,
) -> bool {
    &&& pa.len() == csv.len()
    &&& depthv.len() == csv.len()
    &&& forall|w: int| 0 <= w < csv.len() && eff_parent_idx(csv, w) is None ==> pa[w]
    &&& forall|w: int|
        #![trigger pa[w]]
        0 <= w < csv.len() && pa[w] ==> (match eff_parent_idx(csv, w) {
            None => depthv[w] == 0,
            Some(j) => pa[j] && depthv[w] == depthv[j] + 1,
        })
    &&& forall|w: int| 0 <= w < csv.len() && pa[w] ==> depthv[w] < pcnt
    &&& pcnt <= csv.len()
    &&& forall|w: int| 0 <= w < csv.len() && !pa[w] ==> depthv[w] == 0
}

/// Whether the chain of effective parents starting at `x` reaches, within
/// `fuel` steps, a chapter that effectively declares no parent. A fuel of
/// the node count decides every chain; a chain that never reaches such a
/// chapter sits in a cycle of declared parent ids.
pub open spec fn reaches_root(s: Seq<ChapterNode>, x: i64, fuel: nat) -> bool
    decreases fuel,
{
    if !has_id(s, x) {
        false
    } else if link_parent(s, node_of(s, x).chapter) is None {
        true
    } else if fuel == 0 {
        false
    } else {
        reaches_root(s, link_parent(s, node_of(s, x).chapter)->Some_0, (fuel - 1) as nat)
    }
}

/// Every chapter's declared parent chain reaches a root: the recorded
/// parent ids are free of cycles.
#[verifier::opaque]
pub open spec fn acyclic_parents(t: ChapterTree) -> bool {
    forall|i: int|
        #![trigger t.nodes@[i]]
        0 <= i < t.nodes@.len() ==> reaches_root(
            t.nodes@,
            t.nodes@[i].chapter.id,
            t.nodes@.len() as nat,
        )
}

/// The tree's shape follows the declared parents: every chapter whose
/// parent chain reaches a root stands in its effective parent's child list,
/// and child lists hold only such chapters — what is left over (cycle
/// members) stands among the roots by `coverage`.
#[verifier::opaque]
pub open spec fn parents_resolved(t: ChapterTree) -> bool {
    &&& forall|i: int|
        #![trigger reaches_root(t.nodes@, t.nodes@[i].chapter.id, t.nodes@.len() as nat)]
        0 <= i < t.nodes@.len() && reaches_root(
            t.nodes@,
            t.nodes@[i].chapter.id,
            t.nodes@.len() as nat,
        ) && link_parent(t.nodes@, t.nodes@[i].chapter) is Some ==> node_of(
            t.nodes@,
            link_parent(t.nodes@, t.nodes@[i].chapter)->Some_0,
        ).children@.contains(t.nodes@[i].chapter.id)
    &&& forall|j: int, k: int|
        0 <= j < t.nodes@.len() && 0 <= k < t.nodes@[j].children@.len() ==> reaches_root(
            t.nodes@,
            t.nodes@[j].children@[k],
            t.nodes@.len() as nat,
        )
}

/// The root list is in ascending display order.
#[verifier::opaque]
pub open spec fn roots_sorted(t: ChapterTree) -> bool {
    forall|k1: int, k2: int|
        0 <= k1 < k2 < t.root_nodes@.len() ==> chap_lt(
            node_of(t.nodes@, t.root_nodes@[k1]).chapter,
            node_of(t.nodes@, t.root_nodes@[k2]).chapter,
        )
}

/// The placement pass has reached its fixpoint: every unplaced chapter has
/// an effective parent that is itself unplaced, so what stays unplaced sits
/// in a cycle of declared parent ids.
pub open spec fn placement_stable(csv: Seq<Chapter>, pa: Seq<bool>) -> bool {
    forall|w: int|
        #![trigger pa[w]]
        0 <= w < csv.len() && !pa[w] ==> (eff_parent_idx(csv, w) is Some && !pa[eff_parent_idx(
            csv,
            w,
        )->Some_0])
}

/// Ids resolve the same way in the node list and the chapter list.
proof fn lemma_build_translation(
    t: ChapterTree,
    csv: Seq<Chapter>,
    pa: Seq<bool>,
    depthv: Seq<usize>,
)
    requires
        build_shape(t, csv, pa, depthv),
    ensures
        forall|x: i64| has_id(t.nodes@, x) <==> has_cid(csv, x),
        forall|x: i64|
            #![trigger idx_of(t.nodes@, x)]
            has_id(t.nodes@, x) ==> 0 <= idx_of(t.nodes@, x) < csv.len() && idx_of(t.nodes@, x)
                == cidx(csv, x) && node_of(t.nodes@, x) == t.nodes@[cidx(csv, x)],
        forall|w: int|
            #![trigger cidx(csv, csv[w].id)]
            0 <= w < csv.len() ==> cidx(csv, csv[w].id) == w && has_cid(csv, csv[w].id),
{
    let s = t.nodes@;
    let n = csv.len() as int;
    assert forall|x: i64| has_id(s, x) <==> has_cid(csv, x) by {
        if has_id(s, x) {
            let a = choose|a: int| 0 <= a < s.len() && s[a].chapter.id == x;
            assert(csv[a].id == x);
        }
        if has_cid(csv, x) {
            let b = choose|b: int| 0 <= b < csv.len() && csv[b].id == x;
            assert(s[b].chapter.id == x);
        }
    }
    assert forall|w: int| #![trigger cidx(csv, csv[w].id)]
        0 <= w < csv.len() implies cidx(csv, csv[w].id) == w && has_cid(csv, csv[w].id) by {
        assert(has_cid(csv, csv[w].id));
        let b = cidx(csv, csv[w].id);
        assert(0 <= b < csv.len() && csv[b].id == csv[w].id);
        if b != w {
            assert(false);
        }
    }
    assert forall|x: i64| #![trigger idx_of(t.nodes@, x)]
        has_id(s, x) implies 0 <= idx_of(s, x) < n && idx_of(s, x) == cidx(csv, x) && node_of(
        s,
        x,
    ) == s[cidx(csv, x)] by {
        let a = idx_of(s, x);
        assert(0 <= a < s.len() && s[a].chapter.id == x);
        let b = cidx(csv, x);
        assert(has_cid(csv, x));
        assert(0 <= b < csv.len() && csv[b].id == x);
        assert(csv[a].id == x);
        if a != b {
            assert(false);
        }
    }
}

proof fn lemma_build_unique(t: ChapterTree, csv: Seq<Chapter>, pa: Seq<bool>, depthv: Seq<usize>)
    requires
        build_shape(t, csv, pa, depthv),
    ensures
        t.unique_ids(),
{
    reveal(ChapterTree::unique_ids);
    assert forall|i: int, j: int|
        0 <= i < j < t.nodes@.len() implies t.nodes@[i].chapter.id
        != t.nodes@[j].chapter.id by {
        assert(t.nodes@[i].chapter == csv[i]);
        assert(t.nodes@[j].chapter == csv[j]);
    }
}

proof fn lemma_build_members(t: ChapterTree, csv: Seq<Chapter>, pa: Seq<bool>, depthv: Seq<usize>)
    requires
        build_shape(t, csv, pa, depthv),
    ensures
        t.members_ok(),
{
    let s = t.nodes@;
    let n = csv.len() as int;
    lemma_build_translation(t, csv, pa, depthv);
    lemma_ids_upto_props(csv, root_sel(csv, pa), n);
    reveal(ChapterTree::members_ok);
    assert forall|k: int| 0 <= k < t.root_nodes@.len() implies has_id(s, t.root_nodes@[k]) by {
        let w = wit_of(csv, root_sel(csv, pa), n, k);
        assert(t.root_nodes@[k] == csv[w].id);
        assert(has_cid(csv, csv[w].id));
    }
    assert forall|j: int, k: int|
        0 <= j < s.len() && 0 <= k < s[j].children@.len() implies has_id(
        s,
        s[j].children@[k],
    ) by {
        lemma_ids_upto_props(csv, child_sel(csv, pa, j), n);
        let w = wit_of(csv, child_sel(csv, pa, j), n, k);
        assert(s[j].children@[k] == csv[w].id);
        assert(has_cid(csv, csv[w].id));
    }
}

proof fn lemma_build_injective(
    t: ChapterTree,
    csv: Seq<Chapter>,
    pa: Seq<bool>,
    depthv: Seq<usize>,
)
    requires
        build_shape(t, csv, pa, depthv),
    ensures
        t.placement_injective(),
{
    let s = t.nodes@;
    let n = csv.len() as int;
    lemma_ids_upto_props(csv, root_sel(csv, pa), n);
    reveal(ChapterTree::placement_injective);
    assert forall|j1: int, k1: int, j2: int, k2: int|
        0 <= j1 < s.len() && 0 <= k1 < s[j1].children@.len() && 0 <= j2 < s.len() && 0 <= k2
            < s[j2].children@.len() && (j1 != j2 || k1 != k2) implies s[j1].children@[k1]
        != s[j2].children@[k2] by {
        lemma_ids_upto_props(csv, child_sel(csv, pa, j1), n);
        lemma_ids_upto_props(csv, child_sel(csv, pa, j2), n);
        if j1 == j2 {
        } else {
            let w1 = wit_of(csv, child_sel(csv, pa, j1), n, k1);
            let w2 = wit_of(csv, child_sel(csv, pa, j2), n, k2);
            assert(s[j1].children@[k1] == csv[w1].id && child_sel(csv, pa, j1)(w1));
            assert(s[j2].children@[k2] == csv[w2].id && child_sel(csv, pa, j2)(w2));
            if s[j1].children@[k1] == s[j2].children@[k2] {
                assert(csv[w1].id == csv[w2].id);
                if w1 != w2 {
                    assert(false);
                }
                assert(eff_parent_idx(csv, w1) == Some(j1));
                assert(eff_parent_idx(csv, w1) == Some(j2));
                assert(false);
            }
        }
    }
    assert forall|k: int, j: int, l: int|
        0 <= k < t.root_nodes@.len() && 0 <= j < s.len() && 0 <= l
            < s[j].children@.len() implies t.root_nodes@[k] != s[j].children@[l] by {
        lemma_ids_upto_props(csv, child_sel(csv, pa, j), n);
        let w1 = wit_of(csv, root_sel(csv, pa), n, k);
        let w2 = wit_of(csv, child_sel(csv, pa, j), n, l);
        assert(t.root_nodes@[k] == csv[w1].id && root_sel(csv, pa)(w1));
        assert(s[j].children@[l] == csv[w2].id && child_sel(csv, pa, j)(w2));
        if t.root_nodes@[k] == s[j].children@[l] {
            assert(csv[w1].id == csv[w2].id);
            if w1 != w2 {
                assert(false);
            }
            assert(false);
        }
    }
}

proof fn lemma_build_coverage(
    t: ChapterTree,
    csv: Seq<Chapter>,
    pa: Seq<bool>,
    depthv: Seq<usize>,
)
    requires
        build_shape(t, csv, pa, depthv),
    ensures
        t.coverage(),
{
    let s = t.nodes@;
    let n = csv.len() as int;
    lemma_ids_upto_props(csv, root_sel(csv, pa), n);
    reveal(ChapterTree::coverage);
    assert forall|i: int| 0 <= i < s.len() implies t.root_nodes@.contains(s[i].chapter.id)
        || exists|j: int, k: int|
        0 <= j < s.len() && 0 <= k < s[j].children@.len() && s[j].children@[k]
            == s[i].chapter.id by {
        if root_sel(csv, pa)(i) {
            assert(t.root_nodes@.contains(csv[i].id));
        } else {
            assert(pa[i] && eff_parent_idx(csv, i) is Some);
            let j = eff_parent_idx(csv, i)->Some_0;
            assert(has_cid(csv, csv[i].parent_id->Some_0));
            assert(0 <= j < n);
            lemma_ids_upto_props(csv, child_sel(csv, pa, j), n);
            assert(child_sel(csv, pa, j)(i));
            assert(s[j].children@.contains(csv[i].id));
            let k = choose|k: int|
                0 <= k < s[j].children@.len() && s[j].children@[k] == csv[i].id;
            assert(s[j].children@[k] == s[i].chapter.id);
        }
    }
}

proof fn lemma_build_parent_link(
    t: ChapterTree,
    csv: Seq<Chapter>,
    pa: Seq<bool>,
    depthv: Seq<usize>,
)
    requires
        build_shape(t, csv, pa, depthv),
    ensures
        t.parent_link_ok(),
{
    let s = t.nodes@;
    let n = csv.len() as int;
    lemma_build_translation(t, csv, pa, depthv);
    reveal(ChapterTree::parent_link_ok);
    assert forall|j: int, k: int|
        0 <= j < s.len() && 0 <= k < s[j].children@.len() implies link_parent(
        s,
        node_of(s, s[j].children@[k]).chapter,
    ) == Some(s[j].chapter.id) by {
        lemma_ids_upto_props(csv, child_sel(csv, pa, j), n);
        let w = wit_of(csv, child_sel(csv, pa, j), n, k);
        assert(s[j].children@[k] == csv[w].id && child_sel(csv, pa, j)(w));
        assert(cidx(csv, csv[w].id) == w && has_cid(csv, csv[w].id));
        assert(node_of(s, s[j].children@[k]) == s[w]);
        assert(eff_parent_idx(csv, w) == Some(j));
        let p = csv[w].parent_id->Some_0;
        assert(has_cid(csv, p));
        assert(cidx(csv, p) == j);
        assert(csv[j].id == p);
        assert(has_id(s, p));
        assert(link_parent(s, csv[w]) == Some(p));
    }
}

proof fn lemma_build_depth(
    t: ChapterTree,
    csv: Seq<Chapter>,
    pa: Seq<bool>,
    depthv: Seq<usize>,
    pcnt: nat,
)
    requires
        build_shape(t, csv, pa, depthv),
        placement_ok(csv, pa, depthv, pcnt),
    ensures
        t.depth_ok(),
{
    let s = t.nodes@;
    let n = csv.len() as int;
    lemma_build_translation(t, csv, pa, depthv);
    lemma_ids_upto_props(csv, root_sel(csv, pa), n);
    reveal(ChapterTree::depth_ok);
    assert forall|k: int| 0 <= k < t.root_nodes@.len() implies node_of(
        s,
        t.root_nodes@[k],
    ).depth == 0 by {
        let w = wit_of(csv, root_sel(csv, pa), n, k);
        assert(t.root_nodes@[k] == csv[w].id && root_sel(csv, pa)(w));
        assert(cidx(csv, csv[w].id) == w && has_cid(csv, csv[w].id));
        assert(node_of(s, t.root_nodes@[k]) == s[w]);
        if eff_parent_idx(csv, w) is None {
            assert(pa[w]);
            assert(depthv[w] == 0);
        } else {
            assert(!pa[w]);
            assert(depthv[w] == 0);
        }
    }
    assert forall|j: int, k: int|
        0 <= j < s.len() && 0 <= k < s[j].children@.len() implies node_of(
        s,
        s[j].children@[k],
    ).depth == s[j].depth + 1 by {
        lemma_ids_upto_props(csv, child_sel(csv, pa, j), n);
        let w = wit_of(csv, child_sel(csv, pa, j), n, k);
        assert(s[j].children@[k] == csv[w].id && child_sel(csv, pa, j)(w));
        assert(cidx(csv, csv[w].id) == w && has_cid(csv, csv[w].id));
        assert(node_of(s, s[j].children@[k]) == s[w]);
        assert(pa[w] && eff_parent_idx(csv, w) == Some(j));
        assert(depthv[w] == depthv[j] + 1);
    }
    assert forall|i: int| 0 <= i < s.len() implies s[i].depth < s.len() by {
        if pa[i] {
            assert(depthv[i] < pcnt);
        } else {
            assert(depthv[i] == 0);
        }
    }
}

proof fn lemma_build_sorted_children(
    t: ChapterTree,
    csv: Seq<Chapter>,
    pa: Seq<bool>,
    depthv: Seq<usize>,
)
    requires
        build_shape(t, csv, pa, depthv),
    ensures
        t.children_sorted(),
{
    let s = t.nodes@;
    let n = csv.len() as int;
    lemma_build_translation(t, csv, pa, depthv);
    reveal(ChapterTree::children_sorted);
    assert forall|j: int, k1: int, k2: int|
        0 <= j < s.len() && 0 <= k1 < k2 < s[j].children@.len() implies chap_lt(
        node_of(s, s[j].children@[k1]).chapter,
        node_of(s, s[j].children@[k2]).chapter,
    ) by {
        lemma_ids_upto_props(csv, child_sel(csv, pa, j), n);
        let w1 = wit_of(csv, child_sel(csv, pa, j), n, k1);
        let w2 = wit_of(csv, child_sel(csv, pa, j), n, k2);
        assert(s[j].children@[k1] == csv[w1].id && child_sel(csv, pa, j)(w1));
        assert(s[j].children@[k2] == csv[w2].id && child_sel(csv, pa, j)(w2));
        assert(w1 < w2);
        assert(cidx(csv, csv[w1].id) == w1 && has_cid(csv, csv[w1].id));
        assert(cidx(csv, csv[w2].id) == w2 && has_cid(csv, csv[w2].id));
        assert(node_of(s, s[j].children@[k1]) == s[w1]);
        assert(node_of(s, s[j].children@[k2]) == s[w2]);
        assert(chap_lt(csv[w1], csv[w2]));
    }
}

proof fn lemma_reaches_root_monotone(s: Seq<ChapterNode>, x: i64, f1: nat, f2: nat)
    requires
        f1 <= f2,
        reaches_root(s, x, f1),
    ensures
        reaches_root(s, x, f2),
    decreases f1,
{
    if has_id(s, x) && link_parent(s, node_of(s, x).chapter) is Some {
        lemma_reaches_root_monotone(
            s,
            link_parent(s, node_of(s, x).chapter)->Some_0,
            (f1 - 1) as nat,
            (f2 - 1) as nat,
        );
    }
}







/// For one node of a built tree: its effective parent link mirrors the
/// chapter list's effective parent index, and its id resolves to itself.
#[verifier::rlimit(100)]
#[verifier::spinoff_prover]
proof fn lemma_build_link_at(
    t: ChapterTree,
    csv: Seq<Chapter>,
    pa: Seq<bool>,
    depthv: Seq<usize>,
    i: int,
)
    requires
        build_shape(t, csv, pa, depthv),
        0 <= i < csv.len(),
    ensures
        match eff_parent_idx(csv, i) {
            None => link_parent(t.nodes@, t.nodes@[i].chapter) is None,
            Some(j) => 0 <= j < csv.len() && csv[j].id == csv[i].parent_id->Some_0
                && link_parent(t.nodes@, t.nodes@[i].chapter) == Some(csv[j].id),
        },
        t.nodes@[i].chapter == csv[i],
        has_id(t.nodes@, csv[i].id),
        idx_of(t.nodes@, csv[i].id) == i,
        node_of(t.nodes@, csv[i].id) == t.nodes@[i],
{
    let s = t.nodes@;
    assert(s[i].chapter == csv[i]);
    assert(has_id(s, csv[i].id)) by {
        assert(s[i].chapter.id == csv[i].id);
    }
    assert(idx_of(s, csv[i].id) == i) by {
        let a = idx_of(s, csv[i].id);
        assert(0 <= a < s.len() && s[a].chapter.id == csv[i].id);
        assert(s[a].chapter == csv[a]);
        if a != i {
            assert(false);
        }
    }
    match csv[i].parent_id {
        None => {},
        Some(p) => {
            if p == csv[i].id {
            } else if has_cid(csv, p) {
                let j = cidx(csv, p);
                assert(0 <= j < csv.len() && csv[j].id == p);
                assert(has_id(s, p)) by {
                    assert(s[j].chapter == csv[j]);
                    assert(s[j].chapter.id == p);
                }
                assert(eff_parent_idx(csv, i) == Some(j));
                assert(link_parent(s, s[i].chapter) == Some(p));
            } else {
                assert(!has_id(s, p)) by {
                    if has_id(s, p) {
                        let a = choose|a: int| 0 <= a < s.len() && s[a].chapter.id == p;
                        assert(s[a].chapter == csv[a]);
                        assert(csv[a].id == p);
                    }
                }
            }
        },
    }
}

/// A placed chapter's parent chain reaches a root within its depth.
#[verifier::rlimit(100)]
#[verifier::spinoff_prover]
proof fn lemma_placed_reaches(
    t: ChapterTree,
    csv: Seq<Chapter>,
    pa: Seq<bool>,
    depthv: Seq<usize>,
    pcnt: nat,
    i: int,
)
    requires
        build_shape(t, csv, pa, depthv),
        placement_ok(csv, pa, depthv, pcnt),
        0 <= i < csv.len(),
        pa[i],
    ensures
        reaches_root(t.nodes@, csv[i].id, depthv[i] as nat),
    decreases depthv[i],
{
    let s = t.nodes@;
    lemma_build_link_at(t, csv, pa, depthv, i);
    match eff_parent_idx(csv, i) {
        None => {
            assert(link_parent(s, s[i].chapter) is None);
        },
        Some(j) => {
            assert(pa[j] && depthv[i] == depthv[j] + 1);
            lemma_placed_reaches(t, csv, pa, depthv, pcnt, j);
            assert(reaches_root(s, csv[i].id, depthv[i] as nat));
        },
    }
}
/// After the placement fixpoint an unplaced chapter's parent chain never
/// reaches a root.
#[verifier::rlimit(100)]
#[verifier::spinoff_prover]
proof fn lemma_unplaced_unreachable(
    t: ChapterTree,
    csv: Seq<Chapter>,
    pa: Seq<bool>,
    depthv: Seq<usize>,
    pcnt: nat,
    i: int,
    f: nat,
)
    requires
        build_shape(t, csv, pa, depthv),
        placement_ok(csv, pa, depthv, pcnt),
        placement_stable(csv, pa),
        0 <= i < csv.len(),
        !pa[i],
    ensures
        !reaches_root(t.nodes@, csv[i].id, f),
    decreases f,
{
    let s = t.nodes@;
    lemma_build_link_at(t, csv, pa, depthv, i);
    assert(eff_parent_idx(csv, i) is Some && !pa[eff_parent_idx(csv, i)->Some_0]);
    let j = eff_parent_idx(csv, i)->Some_0;
    if f > 0 {
        lemma_unplaced_unreachable(t, csv, pa, depthv, pcnt, j, (f - 1) as nat);
    }
}
/// The built root list is in ascending display order.
#[verifier::rlimit(100)]
#[verifier::spinoff_prover]
proof fn lemma_build_roots_sorted(
    t: ChapterTree,
    csv: Seq<Chapter>,
    pa: Seq<bool>,
    depthv: Seq<usize>,
)
    requires
        build_shape(t, csv, pa, depthv),
    ensures
        roots_sorted(t),
{
    let s = t.nodes@;
    let n = csv.len() as int;
    reveal(roots_sorted);
    lemma_build_translation(t, csv, pa, depthv);
    lemma_ids_upto_props(csv, root_sel(csv, pa), n);
    assert forall|k1: int, k2: int|
        0 <= k1 < k2 < t.root_nodes@.len() implies chap_lt(
        node_of(s, t.root_nodes@[k1]).chapter,
        node_of(s, t.root_nodes@[k2]).chapter,
    ) by {
        let w1 = wit_of(csv, root_sel(csv, pa), n, k1);
        let w2 = wit_of(csv, root_sel(csv, pa), n, k2);
        assert(t.root_nodes@[k1] == csv[w1].id && root_sel(csv, pa)(w1));
        assert(t.root_nodes@[k2] == csv[w2].id && root_sel(csv, pa)(w2));
        assert(w1 < w2);
        assert(cidx(csv, csv[w1].id) == w1 && has_cid(csv, csv[w1].id));
        assert(cidx(csv, csv[w2].id) == w2 && has_cid(csv, csv[w2].id));
        assert(node_of(s, t.root_nodes@[k1]) == s[w1]);
        assert(node_of(s, t.root_nodes@[k2]) == s[w2]);
        assert(chap_lt(csv[w1], csv[w2]));
    }
}




/// Child lists hold only chapters whose parent chain reaches a root.
#[verifier::rlimit(100)]
#[verifier::spinoff_prover]
proof fn lemma_build_resolved_entries(
    t: ChapterTree,
    csv: Seq<Chapter>,
    pa: Seq<bool>,
    depthv: Seq<usize>,
    pcnt: nat,
)
    requires
        build_shape(t, csv, pa, depthv),
        placement_ok(csv, pa, depthv, pcnt),
    ensures
        forall|j: int, k: int|
            0 <= j < t.nodes@.len() && 0 <= k < t.nodes@[j].children@.len() ==> reaches_root(
                t.nodes@,
                t.nodes@[j].children@[k],
                t.nodes@.len() as nat,
            ),
{
    let s = t.nodes@;
    let n = csv.len() as int;
    assert forall|j: int, k: int|
        0 <= j < s.len() && 0 <= k < s[j].children@.len() implies reaches_root(
        s,
        s[j].children@[k],
        s.len() as nat,
    ) by {
        lemma_ids_upto_props(csv, child_sel(csv, pa, j), n);
        let w = wit_of(csv, child_sel(csv, pa, j), n, k);
        assert(s[j].children@[k] == csv[w].id && child_sel(csv, pa, j)(w));
        assert(pa[w]);
        lemma_placed_reaches(t, csv, pa, depthv, pcnt, w);
        assert(depthv[w] < pcnt <= csv.len());
        lemma_reaches_root_monotone(s, csv[w].id, depthv[w] as nat, s.len() as nat);
    }
}






/// For one node: if its parent chain reaches a root and it declares an
/// effective parent, it stands in that parent's child list.
#[verifier::rlimit(100)]
#[verifier::spinoff_prover]
proof fn lemma_build_resolved_at(
    t: ChapterTree,
    csv: Seq<Chapter>,
    pa: Seq<bool>,
    depthv: Seq<usize>,
    pcnt: nat,
    i: int,
)
    requires
        build_shape(t, csv, pa, depthv),
        placement_ok(csv, pa, depthv, pcnt),
        placement_stable(csv, pa),
        0 <= i < t.nodes@.len(),
        reaches_root(t.nodes@, t.nodes@[i].chapter.id, t.nodes@.len() as nat),
        link_parent(t.nodes@, t.nodes@[i].chapter) is Some,
    ensures
        node_of(
            t.nodes@,
            link_parent(t.nodes@, t.nodes@[i].chapter)->Some_0,
        ).children@.contains(t.nodes@[i].chapter.id),
{
    let s = t.nodes@;
    let n = csv.len() as int;
    lemma_build_link_at(t, csv, pa, depthv, i);
    if !pa[i] {
        lemma_unplaced_unreachable(t, csv, pa, depthv, pcnt, i, s.len() as nat);
        assert(false);
    }
    assert(eff_parent_idx(csv, i) is Some) by {
        if eff_parent_idx(csv, i) is None {
            assert(link_parent(s, s[i].chapter) is None);
        }
    }
    let j = eff_parent_idx(csv, i)->Some_0;
    assert(child_sel(csv, pa, j)(i));
    lemma_ids_upto_contains(csv, child_sel(csv, pa, j), n);
    assert(ids_upto(csv, child_sel(csv, pa, j), n).contains(csv[i].id));
    assert(t.nodes@[j].children@.contains(csv[i].id));
    lemma_build_link_at(t, csv, pa, depthv, j);
    assert(node_of(s, csv[j].id) == s[j]);
    assert(link_parent(s, s[i].chapter)->Some_0 == csv[j].id);
}

/// Every chapter whose parent chain reaches a root stands in its effective
/// parent's child list.
#[verifier::rlimit(100)]
#[verifier::spinoff_prover]
proof fn lemma_build_resolved_placed(
    t: ChapterTree,
    csv: Seq<Chapter>,
    pa: Seq<bool>,
    depthv: Seq<usize>,
    pcnt: nat,
)
    requires
        build_shape(t, csv, pa, depthv),
        placement_ok(csv, pa, depthv, pcnt),
        placement_stable(csv, pa),
    ensures
        forall|i: int|
            #![trigger reaches_root(t.nodes@, t.nodes@[i].chapter.id, t.nodes@.len() as nat)]
            0 <= i < t.nodes@.len() && reaches_root(
                t.nodes@,
                t.nodes@[i].chapter.id,
                t.nodes@.len() as nat,
            ) && link_parent(t.nodes@, t.nodes@[i].chapter) is Some ==> node_of(
                t.nodes@,
                link_parent(t.nodes@, t.nodes@[i].chapter)->Some_0,
            ).children@.contains(t.nodes@[i].chapter.id),
{
    let s = t.nodes@;
    assert forall|i: int|
        #![trigger reaches_root(s, s[i].chapter.id, s.len() as nat)]
        0 <= i < s.len() && reaches_root(s, s[i].chapter.id, s.len() as nat) && link_parent(
            s,
            s[i].chapter,
        ) is Some implies node_of(
        s,
        link_parent(s, s[i].chapter)->Some_0,
    ).children@.contains(s[i].chapter.id) by {
        lemma_build_resolved_at(t, csv, pa, depthv, pcnt, i);
    }
}

/// The built tree's shape follows the declared parents.
#[verifier::rlimit(100)]
#[verifier::spinoff_prover]
proof fn lemma_build_resolved(
    t: ChapterTree,
    csv: Seq<Chapter>,
    pa: Seq<bool>,
    depthv: Seq<usize>,
    pcnt: nat,
)
    requires
        build_shape(t, csv, pa, depthv),
        placement_ok(csv, pa, depthv, pcnt),
        placement_stable(csv, pa),
    ensures
        parents_resolved(t),
{
    reveal(parents_resolved);
    lemma_build_resolved_placed(t, csv, pa, depthv, pcnt);
    lemma_build_resolved_entries(t, csv, pa, depthv, pcnt);
}

/// Builds and queries the hierarchical view of a novel's chapters and
/// validates chapter moves.
pub struct ChapterManager;

impl ChapterManager {
    pub fn new() -> (r: Self) {
        ChapterManager
    }

    /// Build the tree for one novel from a flat chapter list. Archived
    /// chapters are skipped, as is any later duplicate of an id. Each
    /// remaining chapter becomes one node; a chapter whose declared parent
    /// is missing, itself, or caught in a cycle of parent ids degrades to an
    /// additional root rather than failing. Nodes are arranged in display
    /// order, depths are computed from the roots, and the result satisfies
    /// the tree invariant `wf`.
    #[verifier::spinoff_prover]
    #[verifier::rlimit(100)]
    pub fn build_chapter_tree(&self, chapters: Vec<Chapter>) -> (t: ChapterTree)
        ensures
            t.wf(),
            parents_resolved(t),
            roots_sorted(t),
            forall|i: int, j: int|
                0 <= i < j < t.nodes@.len() ==> chap_lt(
                    t.nodes@[i].chapter,
                    t.nodes@[j].chapter,
                ),
            forall|i: int| 0 <= i < t.nodes@.len() ==> !t.nodes@[i].chapter.is_archived,
            forall|i: int|
                #![trigger t.nodes@[i]]
                0 <= i < t.nodes@.len() ==> exists|j: int|
                    0 <= j < chapters@.len() && chapters@[j] == t.nodes@[i].chapter,
            forall|j: int|
                #![trigger chapters@[j]]
                0 <= j < chapters@.len() && !chapters@[j].is_archived ==> has_id(
                    t.nodes@,
                    chapters@[j].id,
                ),
    {
        // Phase one: keep the first unarchived chapter of each id, in
        // ascending display order.
        let mut cs: Vec<Chapter> = Vec::new();
        let mut t0: usize = 0;
        while t0 < chapters.len()
            invariant
                t0 <= chapters@.len(),
                cs_unique(cs@),
                cs_sorted(cs@),
                forall|k: int| 0 <= k < cs@.len() ==> !cs@[k].is_archived,
                forall|k: int|
                    #![trigger cs@[k]]
                    0 <= k < cs@.len() ==> exists|j: int|
                        0 <= j < t0 && chapters@[j] == cs@[k],
                forall|j: int|
                    #![trigger chapters@[j]]
                    0 <= j < t0 && !chapters@[j].is_archived ==> has_cid(cs@, chapters@[j].id),
            decreases chapters@.len() - t0,
        {
            if !chapters[t0].is_archived {
                if find_chapter_index(&cs, chapters[t0].id).is_none() {
                    let c = chapters[t0].clone();
                    let ghost old_cs = cs@;
                    let mut p: usize = 0;
                    let mut stop = false;
                    while !stop && p < cs.len()
                        invariant
                            p <= cs@.len(),
                            cs@ == old_cs,
                            forall|k: int| 0 <= k < p ==> chap_lt(cs@[k], c),
                            stop ==> p < cs@.len() && !chap_lt(cs@[p as int], c),
                        decreases cs@.len() - p, (if stop {
                            0int
                        } else {
                            1int
                        }),
                    {
                        if chap_lt_exec(&cs[p], &c) {
                            p = p + 1;
                        } else {
                            stop = true;
                        }
                    }
                    proof {
                        let newv = old_cs.insert(p as int, c);
                        assert forall|x: int, y: int|
                            0 <= x < y < newv.len() implies newv[x].id != newv[y].id by {
                            let ox = if x < p {
                                x
                            } else {
                                x - 1
                            };
                            let oy = if y < p {
                                y
                            } else {
                                y - 1
                            };
                            if x == p {
                                assert(newv[y] == old_cs[oy]);
                                if newv[x].id == newv[y].id {
                                    assert(has_cid(old_cs, c.id));
                                }
                            } else if y == p {
                                assert(newv[x] == old_cs[ox]);
                                if newv[x].id == newv[y].id {
                                    assert(has_cid(old_cs, c.id));
                                }
                            } else {
                                assert(newv[x] == old_cs[ox]);
                                assert(newv[y] == old_cs[oy]);
                            }
                        }
                        assert forall|x: int, y: int|
                            0 <= x < y < newv.len() implies chap_lt(newv[x], newv[y]) by {
                            let ox = if x < p {
                                x
                            } else {
                                x - 1
                            };
                            let oy = if y < p {
                                y
                            } else {
                                y - 1
                            };
                            if x == p {
                                assert(newv[y] == old_cs[oy]);
                                assert(oy >= p);
                                assert(newv[x] == c);
                                assert(c.id != old_cs[oy].id) by {
                                    if c.id == old_cs[oy].id {
                                        assert(has_cid(old_cs, c.id));
                                    }
                                }
                                assert(!chap_lt(old_cs[p as int], c));
                                assert(old_cs[p as int].id != c.id) by {
                                    if old_cs[p as int].id == c.id {
                                        assert(has_cid(old_cs, c.id));
                                    }
                                }
                                lemma_chap_lt_total(old_cs[p as int], c);
                                assert(chap_lt(c, old_cs[p as int]));
                                if oy > p {
                                    lemma_chap_lt_trans(c, old_cs[p as int], old_cs[oy]);
                                }
                            } else if y == p {
                                assert(newv[x] == old_cs[ox]);
                                assert(ox < p);
                                assert(chap_lt(old_cs[ox], c));
                            } else {
                                assert(newv[x] == old_cs[ox]);
                                assert(newv[y] == old_cs[oy]);
                            }
                        }
                        assert(c == chapters@[t0 as int]);
                    }
                    cs.insert(p, c);
                    proof {
                        assert forall|k: int| #![trigger cs@[k]] 0 <= k < cs@.len() implies exists|
                            j: int,
                        | 0 <= j < t0 + 1 && chapters@[j] == cs@[k] by {
                            if k < p {
                                assert(cs@[k] == old_cs[k]);
                                let j = choose|j: int|
                                    0 <= j < t0 && chapters@[j] == old_cs[k];
                                assert(0 <= j < t0 + 1 && chapters@[j] == cs@[k]);
                            } else if k == p {
                                assert(cs@[k] == chapters@[t0 as int]);
                            } else {
                                assert(cs@[k] == old_cs[k - 1]);
                                let j = choose|j: int|
                                    0 <= j < t0 && chapters@[j] == old_cs[k - 1];
                                assert(0 <= j < t0 + 1 && chapters@[j] == cs@[k]);
                            }
                        }
                        assert forall|j: int|
                            #![trigger chapters@[j]]
                            0 <= j < t0 + 1 && !chapters@[j].is_archived implies has_cid(
                            cs@,
                            chapters@[j].id,
                        ) by {
                            if j < t0 {
                                assert(has_cid(old_cs, chapters@[j].id));
                                let w = choose|w: int|
                                    0 <= w < old_cs.len() && old_cs[w].id == chapters@[j].id;
                                let nw = if w < p {
                                    w
                                } else {
                                    w + 1
                                };
                                assert(cs@[nw].id == chapters@[j].id);
                            } else {
                                assert(cs@[p as int].id == chapters@[j].id);
                            }
                        }
                    }
                } else {
                    proof {
                        assert(has_cid(cs@, chapters@[t0 as int].id));
                    }
                }
            }
            t0 = t0 + 1;
        }
        let ghost csv = cs@;
        let n = cs.len();

        // Phase two: place every chapter whose parent chain reaches a root,
        // assigning each its depth.
        let mut depth: Vec<usize> = Vec::new();
        let mut placed: Vec<bool> = Vec::new();
        let mut i: usize = 0;
        while i < n
            invariant
                i <= n,
                depth@.len() == i as int,
                placed@.len() == i as int,
                forall|w: int| 0 <= w < i ==> depth@[w] == 0,
                forall|w: int| 0 <= w < i ==> !placed@[w],
                num_true(placed@) == 0,
            decreases n - i,
        {
            proof {
                lemma_num_true_push(placed@, false);
            }
            depth.push(0);
            placed.push(false);
            i = i + 1;
        }
        let mut placed_cnt: usize = 0;
        let mut i: usize = 0;
        while i < n
            invariant
                i <= n,
                n == csv.len(),
                cs@ == csv,
                cs_unique(csv),
                depth@.len() == n as int,
                placed@.len() == n as int,
                placed_cnt == num_true(placed@),
                placed_cnt <= n,
                forall|w: int| 0 <= w < n ==> depth@[w] == 0,
                forall|w: int|
                    #![trigger placed@[w]]
                    0 <= w < n ==> (placed@[w] <==> (w < i && eff_parent_idx(csv, w) is None)),
            decreases n - i,
        {
            let is_root = match cs[i].parent_id {
                None => true,
                Some(p) => p == cs[i].id || find_chapter_index(&cs, p).is_none(),
            };
            proof {
                assert(is_root == (eff_parent_idx(csv, i as int) is None));
                lemma_num_true_le_len(placed@);
                if !placed@[i as int] {
                    lemma_num_true_set(placed@, i as int);
                    lemma_num_true_le_len(placed@.update(i as int, true));
                }
            }
            if is_root {
                placed[i] = true;
                placed_cnt = placed_cnt + 1;
            }
            i = i + 1;
        }
        proof {
            assert forall|w: int| 0 <= w < n && placed@[w] implies depth@[w]
                < placed_cnt by {
                lemma_num_true_pos(placed@, w);
            }
        }
        let mut stable = false;
        while !stable
            invariant
                n == csv.len(),
                cs@ == csv,
                cs_unique(csv),
                depth@.len() == n as int,
                placed@.len() == n as int,
                placed_cnt == num_true(placed@),
                placed_cnt <= n,
                forall|w: int|
                    0 <= w < n && eff_parent_idx(csv, w) is None ==> placed@[w],
                forall|w: int|
                    #![trigger placed@[w]]
                    0 <= w < n && placed@[w] ==> (match eff_parent_idx(csv, w) {
                        None => depth@[w] == 0,
                        Some(j) => placed@[j] && depth@[w] == depth@[j] + 1,
                    }),
                forall|w: int| 0 <= w < n && placed@[w] ==> depth@[w] < placed_cnt,
                forall|w: int| 0 <= w < n && !placed@[w] ==> depth@[w] == 0,
                stable ==> placement_stable(csv, placed@),
            decreases n - placed_cnt, (if stable {
                0int
            } else {
                1int
            }),
        {
            let before = placed_cnt;
            let mut i: usize = 0;
            while i < n
                invariant
                    i <= n,
                    n == csv.len(),
                    cs@ == csv,
                    cs_unique(csv),
                    depth@.len() == n as int,
                    placed@.len() == n as int,
                    placed_cnt == num_true(placed@),
                    placed_cnt <= n,
                    before <= placed_cnt,
                    forall|w: int|
                        0 <= w < n && eff_parent_idx(csv, w) is None ==> placed@[w],
                    forall|w: int|
                        #![trigger placed@[w]]
                        0 <= w < n && placed@[w] ==> (match eff_parent_idx(csv, w) {
                            None => depth@[w] == 0,
                            Some(j) => placed@[j] && depth@[w] == depth@[j] + 1,
                        }),
                    forall|w: int| 0 <= w < n && placed@[w] ==> depth@[w] < placed_cnt,
                    forall|w: int| 0 <= w < n && !placed@[w] ==> depth@[w] == 0,
                    forall|w: int|
                        #![trigger placed@[w]]
                        0 <= w < i && !placed@[w] ==> (eff_parent_idx(csv, w) is Some && (
                        !placed@[eff_parent_idx(csv, w)->Some_0] || placed_cnt > before)),
                decreases n - i,
            {
                if !placed[i] {
                    match cs[i].parent_id {
                        Some(p) => {
                            if p != cs[i].id {
                                match find_chapter_index(&cs, p) {
                                    Some(j) => {
                                        if placed[j] {
                                            proof {
                                                assert(eff_parent_idx(csv, i as int) == Some(
                                                    j as int,
                                                ));
                                                lemma_num_true_set(placed@, i as int);
                                                lemma_num_true_le_len(
                                                    placed@.update(i as int, true),
                                                );
                                            }
                                            let dj = depth[j];
                                            depth[i] = dj + 1;
                                            placed[i] = true;
                                            placed_cnt = placed_cnt + 1;
                                        } else {
                                            proof {
                                                assert(eff_parent_idx(csv, i as int) == Some(
                                                    j as int,
                                                ));
                                            }
                                        }
                                    },
                                    None => {},
                                }
                            }
                        },
                        None => {},
                    }
                }
                i = i + 1;
            }
            if placed_cnt == before {
                stable = true;
            }
        }

        // Phase three: derive the root list and each node's child list from
        // the placement, in display order.
        let ghost pa = placed@;
        let mut roots: Vec<i64> = Vec::new();
        let mut i: usize = 0;
        while i < n
            invariant
                i <= n,
                n == csv.len(),
                cs@ == csv,
                cs_unique(csv),
                placed@.len() == n as int,
                placed@ == pa,
                roots@ == ids_upto(csv, root_sel(csv, pa), i as int),
            decreases n - i,
        {
            let eff_none = match cs[i].parent_id {
                None => true,
                Some(p) => p == cs[i].id || find_chapter_index(&cs, p).is_none(),
            };
            let is_root_final = !placed[i] || eff_none;
            proof {
                assert(eff_none == (eff_parent_idx(csv, i as int) is None));
                assert(is_root_final == root_sel(csv, pa)(i as int));
                if is_root_final {
                    assert(ids_upto(csv, root_sel(csv, pa), i + 1) =~= roots@.push(
                        csv[i as int].id,
                    ));
                } else {
                    assert(ids_upto(csv, root_sel(csv, pa), i + 1) =~= roots@);
                }
            }
            if is_root_final {
                roots.push(cs[i].id);
            }
            i = i + 1;
        }
        let mut children: Vec<Vec<i64>> = Vec::new();
        let mut j: usize = 0;
        while j < n
            invariant
                j <= n,
                n == csv.len(),
                cs@ == csv,
                cs_unique(csv),
                placed@.len() == n as int,
                placed@ == pa,
                children@.len() == j as int,
                forall|jj: int|
                    0 <= jj < j ==> children@[jj]@ == ids_upto(
                        csv,
                        child_sel(csv, pa, jj),
                        n as int,
                    ),
            decreases n - j,
        {
            let mut lst: Vec<i64> = Vec::new();
            let mut i: usize = 0;
            while i < n
                invariant
                    i <= n,
                    j < n,
                    n == csv.len(),
                    cs@ == csv,
                    cs_unique(csv),
                    placed@.len() == n as int,
                    placed@ == pa,
                    lst@ == ids_upto(csv, child_sel(csv, pa, j as int), i as int),
                decreases n - i,
            {
                let is_child = placed[i] && match cs[i].parent_id {
                    Some(p) => p != cs[i].id && p == cs[j].id,
                    None => false,
                };
                proof {
                    if is_child {
                        let p = csv[i as int].parent_id->Some_0;
                        assert(csv[j as int].id == p);
                        assert(has_cid(csv, p));
                        let cj = cidx(csv, p);
                        if cj != j as int {
                            assert(csv[cj].id == p);
                            assert(false);
                        }
                        assert(eff_parent_idx(csv, i as int) == Some(j as int));
                    } else {
                        if placed@[i as int] && eff_parent_idx(csv, i as int) == Some(
                            j as int,
                        ) {
                            assert(csv[i as int].parent_id matches Some(q) && q == csv[
                                j as int].id);
                        }
                    }
                    assert(is_child == child_sel(csv, pa, j as int)(i as int));
                    if is_child {
                        assert(ids_upto(csv, child_sel(csv, pa, j as int), i + 1) =~= lst@.push(
                            csv[i as int].id,
                        ));
                    } else {
                        assert(ids_upto(csv, child_sel(csv, pa, j as int), i + 1) =~= lst@);
                    }
                }
                if is_child {
                    lst.push(cs[i].id);
                }
                i = i + 1;
            }
            children.push(lst);
            j = j + 1;
        }

        // Phase four: assemble the nodes.
        let mut nodes: Vec<ChapterNode> = Vec::new();
        let mut i: usize = 0;
        while i < n
            invariant
                i <= n,
                n == csv.len(),
                cs@ == csv,
                depth@.len() == n as int,
                children@.len() == n as int,
                nodes@.len() == i as int,
                forall|k: int|
                    #![trigger nodes@[k]]
                    0 <= k < i ==> nodes@[k].chapter == csv[k] && nodes@[k].children@
                        == children@[k]@ && nodes@[k].depth == depth@[k],
            decreases n - i,
        {
            let node = ChapterNode {
                chapter: cs[i].clone(),
                children: clone_ids(&children[i]),
                depth: depth[i],
            };
            nodes.push(node);
            i = i + 1;
        }
        let t = ChapterTree { nodes, root_nodes: roots };
        proof {
            assert forall|k: int|
                #![trigger t.nodes@[k]]
                0 <= k < csv.len() implies t.nodes@[k].chapter == csv[k] && t.nodes@[k].children@
                == ids_upto(csv, child_sel(csv, pa, k), csv.len() as int) && t.nodes@[k].depth
                == depth@[k] by {
                assert(t.nodes@[k].children@ == children@[k]@);
            }
            assert(build_shape(t, csv, pa, depth@));
            assert(placement_ok(csv, pa, depth@, placed_cnt as nat));
            Self::lemma_build_wf(t, csv, pa, depth@, placed_cnt as nat);
            assert(placement_stable(csv, pa));
            lemma_build_resolved(t, csv, pa, depth@, placed_cnt as nat);
            lemma_build_roots_sorted(t, csv, pa, depth@);
            assert forall|i: int|
                #![trigger t.nodes@[i]]
                0 <= i < t.nodes@.len() implies exists|j: int|
                0 <= j < chapters@.len() && chapters@[j] == t.nodes@[i].chapter by {
                assert(t.nodes@[i].chapter == csv[i]);
                let j = choose|j: int| 0 <= j < chapters@.len() && chapters@[j] == csv[i];
                assert(0 <= j < chapters@.len() && chapters@[j] == t.nodes@[i].chapter);
            }
        }
        t
    }

    /// The placement computed by `build_chapter_tree` yields a well-formed
    /// tree.
    proof fn lemma_build_wf(
        t: ChapterTree,
        csv: Seq<Chapter>,
        pa: Seq<bool>,
        depthv: Seq<usize>,
        pcnt: nat,
    )
        requires
            build_shape(t, csv, pa, depthv),
            placement_ok(csv, pa, depthv, pcnt),
        ensures
            t.wf(),
            forall|x: i64| has_id(t.nodes@, x) <==> has_cid(csv, x),
    {
        lemma_build_translation(t, csv, pa, depthv);
        lemma_build_unique(t, csv, pa, depthv);
        lemma_build_members(t, csv, pa, depthv);
        lemma_build_injective(t, csv, pa, depthv);
        lemma_build_coverage(t, csv, pa, depthv);
        lemma_build_parent_link(t, csv, pa, depthv);
        lemma_build_depth(t, csv, pa, depthv, pcnt);
        lemma_build_sorted_children(t, csv, pa, depthv);
    }

    /// Build the record for a new chapter: empty content, a zero word
    /// count, a fresh stamp-based ordering key at `position`, and the
    /// default chapter kind. An empty title is rejected before anything is
    /// stored. The caller persists the record; its id is zero until the
    /// store assigns one.
    pub fn create_chapter(
        &self,
        novel_id: i64,
        title: &str,
        parent_id: Option<i64>,
        position: usize,
    ) -> (r: Result<Chapter, EngineError>)
        ensures
            r is Ok <==> title@.len() > 0,
            r matches Ok(c) ==> c.id == 0 && c.novel_id == novel_id && c.parent_id == parent_id
                && c.title@ == title@ && c.content@ == Seq::<char>::empty() && c.word_count == 0
                && c.sort_path.position == position && c.chapter_type is Chapter
                && !c.is_archived,
            r matches Err(e) ==> e is EmptyTitle,
    {
        if title.unicode_len() == 0 {
            return Err(EngineError::EmptyTitle);
        }
        let stamp = now_millis();
        Ok(
            Chapter {
                id: 0,
                novel_id,
                parent_id,
                title: String::from_str(title),
                content: String::new(),
                sort_path: SortKey { position: position as u64, stamp },
                word_count: 0,
                created_at: stamp,
                updated_at: stamp,
                chapter_type: crate::models::ChapterType::Chapter,
                is_archived: false,
            },
        )
    }

    /// Index of the node carrying the given id.
    fn find_node_index(tree: &ChapterTree, id: i64) -> (r: Option<usize>)
        requires
            tree.unique_ids(),
        ensures
            match r {
                Some(ix) => ix < tree.nodes@.len() && tree.nodes@[ix as int].chapter.id == id
                    && has_id(tree.nodes@, id) && idx_of(tree.nodes@, id) == ix,
                None => !has_id(tree.nodes@, id),
            },
    {
        let ghost s = tree.nodes@;
        let mut i: usize = 0;
        while i < tree.nodes.len()
            invariant
                i <= s.len(),
                tree.nodes@ == s,
                tree.unique_ids(),
                forall|j: int| 0 <= j < i ==> s[j].chapter.id != id,
            decreases s.len() - i,
        {
            if tree.nodes[i].chapter.id == id {
                proof {
                    reveal(ChapterTree::unique_ids);
                    assert(s[i as int].chapter.id == id);
                    let cix = idx_of(s, id);
                    assert(0 <= cix < s.len() && s[cix].chapter.id == id);
                    if cix != i as int {
                        assert(false);
                    }
                }
                return Some(i);
            }
            i = i + 1;
        }
        proof {
            if has_id(s, id) {
                let j = choose|j: int| 0 <= j < s.len() && s[j].chapter.id == id;
                assert(s[j].chapter.id != id);
            }
        }
        None
    }

    /// Decide whether re-parenting `moving_id` under `new_parent_id` would
    /// create a cycle: walk the ancestor chain upward from the new parent
    /// and reject if the moving chapter appears anywhere in it, including
    /// when the two ids are equal. This is the only cycle guard; it must run
    /// before any parent change is persisted.
    pub fn would_create_cycle(tree: &ChapterTree, moving_id: i64, new_parent_id: i64) -> (r:
        bool)
        requires
            tree.unique_ids(),
        ensures
            r == chain_reaches(tree.nodes@, new_parent_id, moving_id, tree.nodes@.len() as nat),
    {
        let ghost s = tree.nodes@;
        let n = tree.nodes.len();
        let mut current: i64 = new_parent_id;
        let mut steps: usize = 0;
        loop
            invariant
                steps <= n,
                n == s.len(),
                tree.nodes@ == s,
                tree.unique_ids(),
                chain_reaches(s, new_parent_id, moving_id, n as nat) == chain_reaches(
                    s,
                    current,
                    moving_id,
                    (n - steps) as nat,
                ),
            decreases n - steps,
        {
            if current == moving_id {
                return true;
            }
            if steps == n {
                return false;
            }
            match Self::find_node_index(tree, current) {
                None => {
                    return false;
                },
                Some(ix) => {
                    match tree.nodes[ix].chapter.parent_id {
                        None => {
                            return false;
                        },
                        Some(p) => {
                            proof {
                                assert(node_of(s, current) == s[ix as int]);
                                assert(parent_step(s, current) == Some(p));
                            }
                            current = p;
                            steps = steps + 1;
                        },
                    }
                },
            }
        }
    }

    /// Ordering key for inserting a chapter at `position` among the
    /// children of `parent_id` (the root list when there is none). Fails
    /// exactly when `position` exceeds the sibling count. The key pairs the
    /// position with the current clock stamp, so keys sort by position
    /// first, repeated inserts at one position stay distinct, and existing
    /// siblings keep their keys.
    pub fn calculate_new_sort_path(
        &self,
        tree: &ChapterTree,
        parent_id: Option<i64>,
        position: usize,
    ) -> (r: Result<SortKey, EngineError>)
        requires
            tree.unique_ids(),
        ensures
            r is Ok <==> position <= tree.sibling_count(parent_id),
            r matches Ok(k) ==> k.position == position,
            r matches Err(e) ==> e is PositionOutOfRange,
    {
        let sibling_count: usize = match parent_id {
            None => tree.root_nodes.len(),
            Some(p) => match Self::find_node_index(tree, p) {
                Some(ix) => tree.nodes[ix].children.len(),
                None => 0,
            },
        };
        if position > sibling_count {
            return Err(EngineError::PositionOutOfRange);
        }
        Ok(SortKey { position: position as u64, stamp: now_millis() })
    }

    /// Validate a chapter move and compute the new ordering key: the chapter
    /// must exist, the move must not create a cycle, and the position must
    /// be within the destination's sibling count. Nothing is mutated; the
    /// caller persists the new parent and key only on success.
    pub fn plan_move(
        &self,
        tree: &ChapterTree,
        chapter_id: i64,
        new_parent_id: Option<i64>,
        new_position: usize,
    ) -> (r: Result<SortKey, EngineError>)
        requires
            tree.unique_ids(),
        ensures
            r is Ok <==> has_id(tree.nodes@, chapter_id) && (match new_parent_id {
                Some(p) => !chain_reaches(tree.nodes@, p, chapter_id, tree.nodes@.len() as nat),
                None => true,
            }) && new_position <= tree.sibling_count(new_parent_id),
            r matches Ok(k) ==> k.position == new_position,
            r matches Err(e) ==> e == (if !has_id(tree.nodes@, chapter_id) {
                EngineError::ChapterNotFound
            } else if (new_parent_id matches Some(p) && chain_reaches(
                tree.nodes@,
                p,
                chapter_id,
                tree.nodes@.len() as nat,
            )) {
                EngineError::WouldCreateCycle
            } else {
                EngineError::PositionOutOfRange
            }),
    {
        if Self::find_node_index(tree, chapter_id).is_none() {
            return Err(EngineError::ChapterNotFound);
        }
        if let Some(p) = new_parent_id {
            if Self::would_create_cycle(tree, chapter_id, p) {
                return Err(EngineError::WouldCreateCycle);
            }
        }
        self.calculate_new_sort_path(tree, new_parent_id, new_position)
    }

    /// Append the preorder of the subtree rooted at `id` to `out`.
    #[verifier::rlimit(100)]
    fn flatten_rec(tree: &ChapterTree, id: i64, out: &mut Vec<Chapter>)
        requires
            tree.wf(),
            has_id(tree.nodes@, id),
        ensures
            final(out)@ == old(out)@ + chapters_of(
                tree.nodes@,
                subtree_ids(
                    tree.nodes@,
                    id,
                    (tree.nodes@.len() - node_of(tree.nodes@, id).depth) as nat,
                ),
            ),
        decreases tree.nodes@.len() - node_of(tree.nodes@, id).depth,
    {
        let ghost s = tree.nodes@;
        let ghost d = (s.len() - node_of(s, id).depth) as nat;
        let ix = match Self::find_node_index(tree, id) {
            Some(ix) => ix,
            None => {
                proof {
                    assert(false);
                }
                return ;
            },
        };
        out.push(tree.nodes[ix].chapter.clone());
        let ghost base = out@;
        let ghost kids = s[ix as int].children@;
        proof {
            reveal(ChapterTree::wf);
            reveal(ChapterTree::depth_ok);
            assert(node_of(s, id) == s[ix as int]);
            assert(d >= 1);
            assert(subtree_ids(s, id, d) == seq![id] + forest_ids(s, kids, (d - 1) as nat));
            assert(kids.subrange(0, 0) =~= Seq::<i64>::empty());
            assert(chapters_of(s, forest_ids(s, kids.subrange(0, 0), (d - 1) as nat))
                =~= Seq::<Chapter>::empty());
            assert(base =~= base + chapters_of(
                s,
                forest_ids(s, kids.subrange(0, 0), (d - 1) as nat),
            ));
        }
        let num_children = tree.nodes[ix].children.len();
        let mut k: usize = 0;
        while k < num_children
            invariant
                k <= kids.len(),
                num_children == kids.len(),
                tree.nodes@ == s,
                tree.wf(),
                ix < s.len(),
                s[ix as int].chapter.id == id,
                idx_of(s, id) == ix,
                s[ix as int].children@ == kids,
                d == (s.len() - node_of(s, id).depth) as nat,
                d >= 1,
                out@ == base + chapters_of(s, forest_ids(s, kids.subrange(0, k as int), (d
                    - 1) as nat)),
            decreases kids.len() - k,
        {
            let cid = tree.nodes[ix].children[k];
            proof {
                reveal(ChapterTree::wf);
                reveal(ChapterTree::members_ok);
                reveal(ChapterTree::depth_ok);
                assert(has_id(s, cid));
                assert(node_of(s, cid).depth == s[ix as int].depth + 1);
                assert((s.len() - node_of(s, cid).depth) as nat == (d - 1) as nat);
            }
            Self::flatten_rec(tree, cid, out);
            proof {
                lemma_forest_ids_append(s, kids.subrange(0, k as int), seq![cid], (d - 1) as nat);
                assert(kids.subrange(0, k as int) + seq![cid] =~= kids.subrange(0, k + 1));
                assert(seq![cid].drop_first() =~= Seq::<i64>::empty());
                assert(forest_ids(s, seq![cid], (d - 1) as nat) == subtree_ids(s, cid, (d
                    - 1) as nat) + forest_ids(s, Seq::empty(), (d - 1) as nat));
                assert(subtree_ids(s, cid, (d - 1) as nat) + forest_ids(
                    s,
                    Seq::empty(),
                    (d - 1) as nat,
                ) =~= subtree_ids(s, cid, (d - 1) as nat));
                let f1 = forest_ids(s, kids.subrange(0, k as int), (d - 1) as nat);
                let st = subtree_ids(s, cid, (d - 1) as nat);
                assert(chapters_of(s, f1 + st) =~= chapters_of(s, f1) + chapters_of(s, st));
                assert(out@ =~= base + chapters_of(
                    s,
                    forest_ids(s, kids.subrange(0, k + 1), (d - 1) as nat),
                ));
            }
            k = k + 1;
        }
        proof {
            assert(kids.subrange(0, kids.len() as int) =~= kids);
            assert(chapters_of(s, seq![id] + forest_ids(s, kids, (d - 1) as nat))
                =~= chapters_of(s, seq![id]) + chapters_of(s, forest_ids(s, kids, (d - 1) as nat)));
            assert(chapters_of(s, seq![id]) =~= seq![node_of(s, id).chapter]);
            assert(old(out)@ + chapters_of(s, subtree_ids(s, id, d)) =~= (old(out)@ + seq![
                node_of(s, id).chapter,
            ]) + chapters_of(s, forest_ids(s, kids, (d - 1) as nat)));
            assert(base =~= old(out)@ + seq![node_of(s, id).chapter]);
        }
    }

    /// Flatten the tree back to an ordered chapter list: a preorder
    /// traversal from the roots in stored order, each node before its
    /// children. This regenerates the persisted display order.
    #[verifier::rlimit(100)]
    pub fn flatten_tree(&self, tree: &ChapterTree) -> (r: Vec<Chapter>)
        requires
            tree.wf(),
        ensures
            r@ == chapters_of(tree.nodes@, preorder_ids(*tree)),
    {
        let ghost s = tree.nodes@;
        let ghost n = s.len() as nat;
        let ghost roots = tree.root_nodes@;
        let mut r: Vec<Chapter> = Vec::new();
        proof {
            assert(roots.subrange(0, 0) =~= Seq::<i64>::empty());
            assert(r@ =~= chapters_of(s, forest_ids(s, roots.subrange(0, 0), n)));
        }
        let num_roots = tree.root_nodes.len();
        let mut k: usize = 0;
        while k < num_roots
            invariant
                k <= roots.len(),
                num_roots == roots.len(),
                tree.nodes@ == s,
                tree.root_nodes@ == roots,
                n == s.len() as nat,
                tree.wf(),
                r@ == chapters_of(s, forest_ids(s, roots.subrange(0, k as int), n)),
            decreases roots.len() - k,
        {
            let rid = tree.root_nodes[k];
            proof {
                reveal(ChapterTree::wf);
                reveal(ChapterTree::members_ok);
                reveal(ChapterTree::depth_ok);
                assert(has_id(s, rid));
                assert(node_of(s, rid).depth == 0);
                assert((s.len() - node_of(s, rid).depth) as nat == n);
            }
            Self::flatten_rec(tree, rid, &mut r);
            proof {
                lemma_forest_ids_append(s, roots.subrange(0, k as int), seq![rid], n);
                assert(roots.subrange(0, k as int) + seq![rid] =~= roots.subrange(0, k + 1));
                assert(seq![rid].drop_first() =~= Seq::<i64>::empty());
                assert(forest_ids(s, seq![rid], n) == subtree_ids(s, rid, n) + forest_ids(
                    s,
                    Seq::empty(),
                    n,
                ));
                assert(subtree_ids(s, rid, n) + forest_ids(s, Seq::empty(), n) =~= subtree_ids(
                    s,
                    rid,
                    n,
                ));
                let f1 = forest_ids(s, roots.subrange(0, k as int), n);
                let st = subtree_ids(s, rid, n);
                assert(chapters_of(s, f1 + st) =~= chapters_of(s, f1) + chapters_of(s, st));
                assert(r@ =~= chapters_of(s, forest_ids(s, roots.subrange(0, k + 1), n)));
            }
            k = k + 1;
        }
        proof {
            assert(roots.subrange(0, roots.len() as int) =~= roots);
        }
        r
    }
}

/// A placed node hangs one level below the parent whose child list holds
/// it, and that parent is the one its chapter record declares.
proof fn lemma_placed_some_props(t: ChapterTree)
    requires
        t.wf(),
    ensures
        forall|x: i64| #![trigger placed_in(t.nodes@, x)]
            placed_in(t.nodes@, x) matches Some(j) ==> 0 <= j < t.nodes@.len() && has_id(
                t.nodes@,
                x,
            ) && node_of(t.nodes@, x).depth == t.nodes@[j].depth + 1 && link_parent(
                t.nodes@,
                node_of(t.nodes@, x).chapter,
            ) == Some(t.nodes@[j].chapter.id) && node_of(t.nodes@, x).chapter.parent_id == Some(
                t.nodes@[j].chapter.id,
            ) && t.nodes@[j].chapter.id != x && (exists|k: int|
                0 <= k < t.nodes@[j].children@.len() && t.nodes@[j].children@[k] == x),
{
    let s = t.nodes@;
    assert forall|x: i64| #![trigger placed_in(s, x)]
        placed_in(s, x) is Some implies {
        let j = placed_in(s, x)->Some_0;
        0 <= j < s.len() && has_id(s, x) && node_of(s, x).depth == s[j].depth + 1
            && link_parent(s, node_of(s, x).chapter) == Some(s[j].chapter.id) && node_of(
            s,
            x,
        ).chapter.parent_id == Some(s[j].chapter.id) && s[j].chapter.id != x && (exists|k: int|
            0 <= k < s[j].children@.len() && s[j].children@[k] == x)
    } by {
        reveal(ChapterTree::members_ok);
        reveal(ChapterTree::parent_link_ok);
        reveal(ChapterTree::depth_ok);
        let (j, k) = choose|j: int, k: int|
            0 <= j < s.len() && 0 <= k < s[j].children@.len() && s[j].children@[k] == x;
        assert(placed_in(s, x) == Some(j));
        assert(has_id(s, x));
        assert(node_of(s, x).depth == s[j].depth + 1);
        assert(link_parent(s, node_of(s, x).chapter) == Some(s[j].chapter.id));
        assert(node_of(s, x).chapter.parent_id == Some(s[j].chapter.id));
        assert(node_of(s, x).chapter.id == x);
    }
}

/// A node standing in no child list is a root.
proof fn lemma_placed_none_root(t: ChapterTree)
    requires
        t.wf(),
    ensures
        forall|x: i64| #![trigger placed_in(t.nodes@, x)]
            has_id(t.nodes@, x) && placed_in(t.nodes@, x) is None ==> t.root_nodes@.contains(x),
{
    let s = t.nodes@;
    assert forall|x: i64| #![trigger placed_in(s, x)]
        has_id(s, x) && placed_in(s, x) is None implies t.root_nodes@.contains(x) by {
        reveal(ChapterTree::coverage);
        let i = idx_of(s, x);
        assert(0 <= i < s.len() && s[i].chapter.id == x);
        if !t.root_nodes@.contains(s[i].chapter.id) {
            let (j, k) = choose|j: int, k: int|
                0 <= j < s.len() && 0 <= k < s[j].children@.len() && s[j].children@[k]
                    == s[i].chapter.id;
            assert(placed_in(s, x) is Some);
        }
    }
}

/// An id carried by no node stands in no child list.
proof fn lemma_placed_absent(t: ChapterTree)
    requires
        t.wf(),
    ensures
        forall|x: i64| #![trigger placed_in(t.nodes@, x)]
            !has_id(t.nodes@, x) ==> placed_in(t.nodes@, x) is None,
{
    let s = t.nodes@;
    assert forall|x: i64| #![trigger placed_in(s, x)]
        !has_id(s, x) implies placed_in(s, x) is None by {
        reveal(ChapterTree::members_ok);
        if placed_in(s, x) is Some {
            let (j, k) = choose|j: int, k: int|
                0 <= j < s.len() && 0 <= k < s[j].children@.len() && s[j].children@[k] == x;
            assert(has_id(s, s[j].children@[k]));
        }
    }
}

/// Each node of a well-formed tree sits one level below the parent whose
/// child list holds it, and the roots sit at depth zero.
pub proof fn lemma_depth_law(t: ChapterTree)
    requires
        t.wf(),
    ensures
        forall|k: int|
            0 <= k < t.root_nodes@.len() ==> node_of(t.nodes@, t.root_nodes@[k]).depth == 0,
        forall|x: i64| #![trigger placed_in(t.nodes@, x)]
            placed_in(t.nodes@, x) matches Some(j) ==> node_of(t.nodes@, x).depth
                == t.nodes@[j].depth + 1,
{
    reveal(ChapterTree::depth_ok);
    lemma_placed_some_props(t);
}

/// The ancestor walk along recorded parent ids agrees with the walk along
/// the tree structure, step by step.
proof fn lemma_chain_up_agree(t: ChapterTree, b: i64, a: i64, fuel: nat)
    requires
        t.wf(),
        linked(t),
        has_id(t.nodes@, a),
    ensures
        chain_reaches(t.nodes@, b, a, fuel) == up_chain(t.nodes@, b, a, fuel),
    decreases fuel,
{
    let s = t.nodes@;
    lemma_placed_some_props(t);
    lemma_placed_absent(t);
    if b == a {
    } else if fuel == 0 {
    } else if !has_id(s, b) {
        assert(parent_step(s, b) is None);
        assert(placed_in(s, b) is None);
    } else {
        let i = idx_of(s, b);
        assert(0 <= i < s.len() && s[i].chapter.id == b);
        assert(node_of(s, b) == s[i]);
        match link_parent(s, s[i].chapter) {
            Some(p) => {
                assert(placed_in(s, b) is Some);
                let j = placed_in(s, b)->Some_0;
                assert(node_of(s, b).chapter.parent_id == Some(s[j].chapter.id));
                assert(link_parent(s, node_of(s, b).chapter) == Some(s[j].chapter.id));
                assert(p == s[j].chapter.id);
                assert(parent_step(s, b) == Some(p));
                lemma_chain_up_agree(t, p, a, (fuel - 1) as nat);
            },
            None => {
                assert(placed_in(s, b) is None) by {
                    if placed_in(s, b) is Some {
                        assert(link_parent(s, node_of(s, b).chapter) is Some);
                    }
                }
                assert(!up_chain(s, b, a, fuel));
                match s[i].chapter.parent_id {
                    None => {
                        assert(parent_step(s, b) is None);
                    },
                    Some(q) => {
                        assert(parent_step(s, b) == Some(q));
                        if q == b {
                            lemma_chain_up_agree(t, b, a, (fuel - 1) as nat);
                            assert(!up_chain(s, b, a, (fuel - 1) as nat));
                        } else {
                            assert(!has_id(s, q));
                            assert(q != a);
                            if fuel - 1 > 0 {
                                assert(parent_step(s, q) is None);
                            }
                            assert(!chain_reaches(s, q, a, (fuel - 1) as nat));
                        }
                    },
                }
            },
        }
    }
}

/// The cycle check is exact: on a well-formed, fully linked tree it rejects
/// a move precisely when the proposed parent is the moving chapter itself
/// or one of its descendants, and accepts any unrelated chapter or ancestor.
pub proof fn lemma_cycle_check_exact(t: ChapterTree, moving_id: i64, new_parent_id: i64)
    requires
        t.wf(),
        linked(t),
        has_id(t.nodes@, moving_id),
    ensures
        chain_reaches(t.nodes@, new_parent_id, moving_id, t.nodes@.len() as nat) <==> (
        new_parent_id == moving_id || is_descendant(t, new_parent_id, moving_id)),
{
    lemma_chain_up_agree(t, new_parent_id, moving_id, t.nodes@.len() as nat);
}

/// Number of occurrences of an id in a list.
pub open spec fn cnt_ids(ids: Seq<i64>, x: i64) -> nat
    decreases ids.len(),
{
    if ids.len() == 0 {
        0
    } else {
        (if ids[0] == x {
            1nat
        } else {
            0nat
        }) + cnt_ids(ids.drop_first(), x)
    }
}

pub proof fn lemma_cnt_ids_append(a: Seq<i64>, b: Seq<i64>, x: i64)
    ensures
        cnt_ids(a + b, x) == cnt_ids(a, x) + cnt_ids(b, x),
    decreases a.len(),
{
    if a.len() == 0 {
        assert(a + b =~= b);
    } else {
        lemma_cnt_ids_append(a.drop_first(), b, x);
        assert((a + b).drop_first() =~= a.drop_first() + b);
    }
}

/// A walk that succeeds with little fuel succeeds with more.
proof fn lemma_up_chain_monotone(s: Seq<ChapterNode>, b: i64, a: i64, f1: nat, f2: nat)
    requires
        f1 <= f2,
        up_chain(s, b, a, f1),
    ensures
        up_chain(s, b, a, f2),
    decreases f1,
{
    if b != a {
        let j = placed_in(s, b)->Some_0;
        lemma_up_chain_monotone(s, s[j].chapter.id, a, (f1 - 1) as nat, (f2 - 1) as nat);
    }
}

/// An ancestor is present, sits no lower than its descendant, and the walk
/// between them needs no more fuel than the depth difference.
proof fn lemma_up_chain_depth(t: ChapterTree, b: i64, a: i64, f: nat)
    requires
        t.wf(),
        has_id(t.nodes@, b),
        up_chain(t.nodes@, b, a, f),
    ensures
        has_id(t.nodes@, a),
        node_of(t.nodes@, a).depth <= node_of(t.nodes@, b).depth,
        up_chain(
            t.nodes@,
            b,
            a,
            (node_of(t.nodes@, b).depth - node_of(t.nodes@, a).depth) as nat,
        ),
    decreases f,
{
    let s = t.nodes@;
    lemma_placed_some_props(t);
    if b == a {
    } else {
        let j = placed_in(s, b)->Some_0;
        let p = s[j].chapter.id;
        assert(has_id(s, p)) by {
            assert(s[j].chapter.id == p);
        }
        assert(node_of(s, b).depth == s[j].depth + 1);
        assert(node_of(s, p).depth == s[j].depth) by {
            let i = idx_of(s, p);
            assert(0 <= i < s.len() && s[i].chapter.id == p);
            reveal(ChapterTree::unique_ids);
            if i != j {
                assert(false);
            }
        }
        lemma_up_chain_depth(t, p, a, (f - 1) as nat);
        assert(up_chain(s, b, a, (node_of(s, b).depth - node_of(s, a).depth) as nat));
    }
}

/// Two ancestors of one node at the same depth are the same node.
proof fn lemma_up_chain_unique_depth(t: ChapterTree, x: i64, y1: i64, y2: i64, f1: nat, f2: nat)
    requires
        t.wf(),
        has_id(t.nodes@, x),
        up_chain(t.nodes@, x, y1, f1),
        up_chain(t.nodes@, x, y2, f2),
        node_of(t.nodes@, y1).depth == node_of(t.nodes@, y2).depth,
    ensures
        y1 == y2,
    decreases f1,
{
    let s = t.nodes@;
    lemma_placed_some_props(t);
    lemma_up_chain_depth(t, x, y1, f1);
    lemma_up_chain_depth(t, x, y2, f2);
    if x == y1 {
        if x != y2 {
            let j = placed_in(s, x)->Some_0;
            let p = s[j].chapter.id;
            lemma_up_chain_depth(t, p, y2, (f2 - 1) as nat);
            assert(node_of(s, p).depth == s[j].depth) by {
                let i = idx_of(s, p);
                reveal(ChapterTree::unique_ids);
                if i != j {
                    assert(false);
                }
            }
            assert(node_of(s, y2).depth <= node_of(s, p).depth);
            assert(node_of(s, x).depth == s[j].depth + 1);
            assert(false);
        }
    } else if x == y2 {
        let j = placed_in(s, x)->Some_0;
        let p = s[j].chapter.id;
        lemma_up_chain_depth(t, p, y1, (f1 - 1) as nat);
        assert(node_of(s, p).depth == s[j].depth) by {
            let i = idx_of(s, p);
            reveal(ChapterTree::unique_ids);
            if i != j {
                assert(false);
            }
        }
        assert(node_of(s, y1).depth <= node_of(s, p).depth);
        assert(node_of(s, x).depth == s[j].depth + 1);
        assert(false);
    } else {
        let j = placed_in(s, x)->Some_0;
        let p = s[j].chapter.id;
        assert(has_id(s, p));
        lemma_up_chain_unique_depth(t, p, y1, y2, (f1 - 1) as nat, (f2 - 1) as nat);
    }
}

/// A strict ancestor is reached through exactly the child of the ancestor
/// that heads the walker's branch.
proof fn lemma_up_chain_through_child(t: ChapterTree, x: i64, y: i64, f: nat)
    requires
        t.wf(),
        up_chain(t.nodes@, x, y, f),
        x != y,
    ensures
        has_id(t.nodes@, y),
        exists|kc: int|
            0 <= kc < node_of(t.nodes@, y).children@.len() && up_chain(
                t.nodes@,
                x,
                node_of(t.nodes@, y).children@[kc],
                (f - 1) as nat,
            ),
    decreases f,
{
    let s = t.nodes@;
    lemma_placed_some_props(t);
    assert(placed_in(s, x) is Some);
    let jx = placed_in(s, x)->Some_0;
    let p = s[jx].chapter.id;
    let k = choose|k: int| 0 <= k < s[jx].children@.len() && s[jx].children@[k] == x;
    assert(0 <= k < s[jx].children@.len() && s[jx].children@[k] == x);
    let fm1 = (f - 1) as nat;
    if p == y {
        assert(has_id(s, y));
        assert(idx_of(s, y) == jx) by {
            let i = idx_of(s, y);
            assert(0 <= i < s.len() && s[i].chapter.id == y);
            reveal(ChapterTree::unique_ids);
            if i != jx {
                assert(false);
            }
        }
        assert(node_of(s, y).children@[k] == x);
        assert(up_chain(s, x, node_of(s, y).children@[k], fm1));
    } else {
        assert(p != y);
        assert(up_chain(t.nodes@, p, y, fm1));
        lemma_up_chain_through_child(t, p, y, fm1);
        assert(exists|kc: int|
            0 <= kc < node_of(t.nodes@, y).children@.len() && up_chain(
                t.nodes@,
                p,
                node_of(t.nodes@, y).children@[kc],
                (fm1 - 1) as nat,
            ));
        let kc = choose|kc: int|
            0 <= kc < node_of(t.nodes@, y).children@.len() && up_chain(
                t.nodes@,
                p,
                node_of(t.nodes@, y).children@[kc],
                (fm1 - 1) as nat,
            );
        let c = node_of(s, y).children@[kc];
        assert(up_chain(s, p, c, (fm1 - 1) as nat));
        if x == c {
            assert(up_chain(s, x, c, fm1));
        } else {
            assert(fm1 > 0);
            assert(up_chain(s, x, c, fm1));
        }
    }
}

/// A walk to a placed node extends by one step to that node's parent.
proof fn lemma_up_chain_extend(t: ChapterTree, x: i64, c: i64, f: nat, j: int)
    requires
        t.wf(),
        up_chain(t.nodes@, x, c, f),
        placed_in(t.nodes@, c) == Some(j),
    ensures
        up_chain(t.nodes@, x, t.nodes@[j].chapter.id, (f + 1) as nat),
    decreases f,
{
    let s = t.nodes@;
    lemma_placed_some_props(t);
    if x == c {
        assert(s[j].chapter.id != c);
        assert(up_chain(s, s[j].chapter.id, s[j].chapter.id, f));
        assert(up_chain(s, c, s[j].chapter.id, (f + 1) as nat));
    } else {
        let jx = placed_in(s, x)->Some_0;
        let p = s[jx].chapter.id;
        lemma_up_chain_extend(t, p, c, (f - 1) as nat, j);
        if x == s[j].chapter.id {
        } else {
            assert(up_chain(s, x, s[j].chapter.id, (f + 1) as nat));
        }
    }
}

/// Every node has a root among its ancestors.
proof fn lemma_root_reach(t: ChapterTree, x: i64)
    requires
        t.wf(),
        has_id(t.nodes@, x),
    ensures
        exists|k: int|
            0 <= k < t.root_nodes@.len() && up_chain(
                t.nodes@,
                x,
                t.root_nodes@[k],
                t.nodes@.len() as nat,
            ),
    decreases node_of(t.nodes@, x).depth,
{
    let s = t.nodes@;
    let n = s.len() as nat;
    lemma_placed_some_props(t);
    lemma_placed_none_root(t);
    match placed_in(s, x) {
        None => {
            assert(t.root_nodes@.contains(x));
            let k = choose|k: int| 0 <= k < t.root_nodes@.len() && t.root_nodes@[k] == x;
            assert(up_chain(s, x, t.root_nodes@[k], n));
        },
        Some(j) => {
            let p = s[j].chapter.id;
            assert(has_id(s, p));
            assert(node_of(s, p).depth == s[j].depth) by {
                let i = idx_of(s, p);
                reveal(ChapterTree::unique_ids);
                if i != j {
                    assert(false);
                }
            }
            assert(node_of(s, x).depth == s[j].depth + 1);
            assert(s[j].depth < s.len()) by {
                reveal(ChapterTree::depth_ok);
            }
            lemma_root_reach(t, p);
            let k = choose|k: int|
                0 <= k < t.root_nodes@.len() && up_chain(s, p, t.root_nodes@[k], n);
            let r = t.root_nodes@[k];
            lemma_up_chain_depth(t, p, r, n);
            lemma_up_chain_monotone(
                s,
                p,
                r,
                (node_of(s, p).depth - node_of(s, r).depth) as nat,
                (n - 1) as nat,
            );
            if x == r {
                assert(up_chain(s, x, r, n));
            } else {
                assert(up_chain(s, x, r, n));
            }
        },
    }
}

/// Occurrences of an id in the preorder of one subtree: exactly one if the
/// subtree's head is the id itself or an ancestor of it, none otherwise.
proof fn lemma_cnt_subtree(t: ChapterTree, y: i64, d: nat, x: i64)
    requires
        t.wf(),
        has_id(t.nodes@, y),
    ensures
        cnt_ids(subtree_ids(t.nodes@, y, d), x) == (if up_chain(t.nodes@, x, y, d) {
            1nat
        } else {
            0nat
        }),
    decreases d, 0int, 0int,
{
    let s = t.nodes@;
    lemma_placed_some_props(t);
    lemma_placed_absent(t);
    reveal_with_fuel(cnt_ids, 2);
    if d == 0 {
        assert(seq![y].drop_first() =~= Seq::<i64>::empty());
        assert(cnt_ids(subtree_ids(s, y, 0), x) == (if y == x {
            1nat
        } else {
            0nat
        }));
    } else {
        let yn = node_of(s, y);
        let kids = yn.children@;
        let jy = idx_of(s, y);
        assert(subtree_ids(s, y, d) == seq![y] + forest_ids(s, kids, (d - 1) as nat));
        lemma_cnt_ids_append(seq![y], forest_ids(s, kids, (d - 1) as nat), x);
        assert(seq![y].drop_first() =~= Seq::<i64>::empty());
        assert(forall|m: int| 0 <= m < kids.len() ==> has_id(s, #[trigger] kids[m])) by {
            reveal(ChapterTree::members_ok);
        }
        assert(forall|m1: int, m2: int|
            0 <= m1 < m2 < kids.len() ==> kids[m1] != kids[m2]) by {
            reveal(ChapterTree::placement_injective);
        }
        assert(forall|m: int|
            0 <= m < kids.len() ==> node_of(s, #[trigger] kids[m]).depth == yn.depth + 1) by {
            reveal(ChapterTree::depth_ok);
        }
        lemma_cnt_forest(t, kids, (d - 1) as nat, x, (yn.depth + 1) as nat);
        if x == y {
            assert(up_chain(s, x, y, d));
            assert forall|k: int| 0 <= k < kids.len() implies !up_chain(
                s,
                y,
                #[trigger] kids[k],
                (d - 1) as nat,
            ) by {
                if up_chain(s, y, kids[k], (d - 1) as nat) {
                    lemma_up_chain_depth(t, y, kids[k], (d - 1) as nat);
                }
            }
        } else {
            if up_chain(s, x, y, d) {
                lemma_up_chain_through_child(t, x, y, d);
            }
            if exists|k: int|
                0 <= k < kids.len() && up_chain(s, x, #[trigger] kids[k], (d - 1) as nat) {
                let k = choose|k: int|
                    0 <= k < kids.len() && up_chain(s, x, #[trigger] kids[k], (d - 1) as nat);
                let c = kids[k];
                assert(s[jy].children@[k] == c);
                assert(has_id(s, c));
                assert(placed_in(s, c) is Some) by {
                    assert(0 <= jy < s.len() && 0 <= k < s[jy].children@.len()
                        && s[jy].children@[k] == c);
                }
                let j = placed_in(s, c)->Some_0;
                let k0 = choose|k0: int|
                    0 <= k0 < s[j].children@.len() && s[j].children@[k0] == c;
                assert(0 <= k0 < s[j].children@.len() && s[j].children@[k0] == c);
                assert(j == jy) by {
                    reveal(ChapterTree::placement_injective);
                    if j != jy {
                        assert(false);
                    }
                }
                lemma_up_chain_extend(t, x, c, (d - 1) as nat, jy);
                assert(s[jy].chapter.id == node_of(s, y).chapter.id);
                assert(s[jy].chapter.id == y);
                assert(up_chain(s, x, y, d));
            }
        }
    }
}

/// Occurrences of an id in the preorder of a forest of present, distinct,
/// same-depth heads: exactly one if some head is the id or an ancestor of
/// it, none otherwise.
proof fn lemma_cnt_forest(t: ChapterTree, heads: Seq<i64>, d: nat, x: i64, hdepth: nat)
    requires
        t.wf(),
        forall|m: int| 0 <= m < heads.len() ==> has_id(t.nodes@, #[trigger] heads[m]),
        forall|m1: int, m2: int| 0 <= m1 < m2 < heads.len() ==> heads[m1] != heads[m2],
        forall|m: int|
            0 <= m < heads.len() ==> node_of(t.nodes@, #[trigger] heads[m]).depth == hdepth,
    ensures
        cnt_ids(forest_ids(t.nodes@, heads, d), x) == (if exists|k: int|
            0 <= k < heads.len() && up_chain(t.nodes@, x, #[trigger] heads[k], d) {
            1nat
        } else {
            0nat
        }),
    decreases d, 1int, heads.len(),
{
    let s = t.nodes@;
    if heads.len() == 0 {
    } else {
        let c = heads[0];
        let rest = heads.drop_first();
        assert(forest_ids(s, heads, d) == subtree_ids(s, c, d) + forest_ids(s, rest, d));
        lemma_cnt_ids_append(subtree_ids(s, c, d), forest_ids(s, rest, d), x);
        lemma_cnt_subtree(t, c, d, x);
        assert(forall|m: int| 0 <= m < rest.len() ==> #[trigger] rest[m] == heads[m + 1]);
        lemma_cnt_forest(t, rest, d, x, hdepth);
        if up_chain(s, x, c, d) && (exists|k: int|
            0 <= k < rest.len() && up_chain(s, x, #[trigger] rest[k], d)) {
            let k = choose|k: int| 0 <= k < rest.len() && up_chain(s, x, #[trigger] rest[k], d);
            assert(has_id(s, x)) by {
                lemma_placed_absent(t);
                if !has_id(s, x) {
                    assert(x != c);
                    assert(placed_in(s, x) is None);
                }
            }
            lemma_up_chain_depth(t, x, c, d);
            lemma_up_chain_unique_depth(t, x, c, rest[k], d, d);
            assert(false);
        }
        if exists|k: int| 0 <= k < heads.len() && up_chain(s, x, #[trigger] heads[k], d) {
            let k = choose|k: int|
                0 <= k < heads.len() && up_chain(s, x, #[trigger] heads[k], d);
            if k == 0 {
                assert(up_chain(s, x, c, d));
            } else {
                assert(rest[k - 1] == heads[k]);
                assert(exists|k2: int|
                    0 <= k2 < rest.len() && up_chain(s, x, #[trigger] rest[k2], d));
            }
        }
        if up_chain(s, x, c, d) {
            assert(exists|k: int|
                0 <= k < heads.len() && up_chain(s, x, #[trigger] heads[k], d));
        }
        if exists|k: int| 0 <= k < rest.len() && up_chain(s, x, #[trigger] rest[k], d) {
            let k = choose|k: int| 0 <= k < rest.len() && up_chain(s, x, #[trigger] rest[k], d);
            assert(heads[k + 1] == rest[k]);
            assert(exists|k2: int|
                0 <= k2 < heads.len() && up_chain(s, x, #[trigger] heads[k2], d));
        }
    }
}

/// A member of a list occurs in it at least once.
proof fn lemma_cnt_ids_member(ids: Seq<i64>, m: int)
    requires
        0 <= m < ids.len(),
    ensures
        cnt_ids(ids, ids[m]) >= 1,
    decreases ids.len(),
{
    if m > 0 {
        lemma_cnt_ids_member(ids.drop_first(), m - 1);
    }
}

/// Flattening a well-formed tree yields each of its chapters exactly once
/// and nothing else. Together with the guarantees of `build_chapter_tree` —
/// one node per unarchived input chapter — the flattening of a built tree
/// is a permutation of the input restricted to its unarchived chapters.
pub proof fn lemma_flatten_permutation(t: ChapterTree)
    requires
        t.wf(),
    ensures
        forall|x: i64|
            cnt_ids(preorder_ids(t), x) == (if has_id(t.nodes@, x) {
                1nat
            } else {
                0nat
            }),
{
    let s = t.nodes@;
    let n = s.len() as nat;
    let roots = t.root_nodes@;
    assert(forall|m: int| 0 <= m < roots.len() ==> has_id(s, #[trigger] roots[m])) by {
        reveal(ChapterTree::members_ok);
    }
    assert(forall|m1: int, m2: int| 0 <= m1 < m2 < roots.len() ==> roots[m1] != roots[m2]) by {
        reveal(ChapterTree::placement_injective);
    }
    assert(forall|m: int|
        0 <= m < roots.len() ==> node_of(s, #[trigger] roots[m]).depth == 0) by {
        reveal(ChapterTree::depth_ok);
    }
    lemma_placed_absent(t);
    assert forall|x: i64|
        cnt_ids(preorder_ids(t), x) == (if has_id(s, x) {
            1nat
        } else {
            0nat
        }) by {
        lemma_cnt_forest(t, roots, n, x, 0);
        if has_id(s, x) {
            lemma_root_reach(t, x);
        } else {
            if exists|k: int| 0 <= k < roots.len() && up_chain(s, x, #[trigger] roots[k], n) {
                let k = choose|k: int|
                    0 <= k < roots.len() && up_chain(s, x, #[trigger] roots[k], n);
                assert(x != roots[k]);
                assert(placed_in(s, x) is None);
                assert(!up_chain(s, x, roots[k], n));
            }
        }
    }
}

/// Ancestor walks compose.
proof fn lemma_up_chain_trans(s: Seq<ChapterNode>, x: i64, a: i64, b: i64, f1: nat, f2: nat)
    requires
        up_chain(s, x, a, f1),
        up_chain(s, a, b, f2),
    ensures
        up_chain(s, x, b, (f1 + f2) as nat),
    decreases f1,
{
    if x == a {
        lemma_up_chain_monotone(s, a, b, f2, (f1 + f2) as nat);
    } else {
        let j = placed_in(s, x)->Some_0;
        lemma_up_chain_trans(s, s[j].chapter.id, a, b, (f1 - 1) as nat, f2);
        if x != b {
            assert(up_chain(s, x, b, (f1 + f2) as nat));
        }
    }
}

/// Every member of a subtree's preorder is a present node below its head.
proof fn lemma_subtree_member(t: ChapterTree, y: i64, d: nat, m: int)
    requires
        t.wf(),
        has_id(t.nodes@, y),
        0 <= m < subtree_ids(t.nodes@, y, d).len(),
    ensures
        up_chain(t.nodes@, subtree_ids(t.nodes@, y, d)[m], y, d),
        subtree_ids(t.nodes@, y, d)[m] == y || has_id(
            t.nodes@,
            subtree_ids(t.nodes@, y, d)[m],
        ),
{
    let s = t.nodes@;
    let x = subtree_ids(s, y, d)[m];
    lemma_cnt_ids_member(subtree_ids(s, y, d), m);
    lemma_cnt_subtree(t, y, d, x);
    if x != y && !has_id(s, x) {
        lemma_placed_absent(t);
        assert(placed_in(s, x) is None);
        assert(!up_chain(s, x, y, d));
    }
}

/// Every member of a forest's preorder sits below one of the heads.
proof fn lemma_forest_member(
    t: ChapterTree,
    heads: Seq<i64>,
    d: nat,
    hdepth: nat,
    m: int,
)
    requires
        t.wf(),
        forall|mm: int| 0 <= mm < heads.len() ==> has_id(t.nodes@, #[trigger] heads[mm]),
        forall|m1: int, m2: int| 0 <= m1 < m2 < heads.len() ==> heads[m1] != heads[m2],
        forall|mm: int|
            0 <= mm < heads.len() ==> node_of(t.nodes@, #[trigger] heads[mm]).depth == hdepth,
        0 <= m < forest_ids(t.nodes@, heads, d).len(),
    ensures
        exists|k: int|
            0 <= k < heads.len() && up_chain(
                t.nodes@,
                forest_ids(t.nodes@, heads, d)[m],
                #[trigger] heads[k],
                d,
            ),
    decreases heads.len(),
{
    let s = t.nodes@;
    let x = forest_ids(s, heads, d)[m];
    lemma_cnt_ids_member(forest_ids(s, heads, d), m);
    lemma_cnt_forest(t, heads, d, x, hdepth);
}

/// In a subtree's preorder a strict ancestor stands before its descendant.
proof fn lemma_subtree_order(t: ChapterTree, y: i64, d: nat, m1: int, m2: int)
    requires
        t.wf(),
        has_id(t.nodes@, y),
        0 <= m1 < subtree_ids(t.nodes@, y, d).len(),
        0 <= m2 < subtree_ids(t.nodes@, y, d).len(),
        subtree_ids(t.nodes@, y, d)[m1] != subtree_ids(t.nodes@, y, d)[m2],
        up_chain(
            t.nodes@,
            subtree_ids(t.nodes@, y, d)[m2],
            subtree_ids(t.nodes@, y, d)[m1],
            t.nodes@.len() as nat,
        ),
    ensures
        m1 < m2,
    decreases d, 0int, 0int,
{
    let s = t.nodes@;
    let n = s.len() as nat;
    let sub = subtree_ids(s, y, d);
    let a = sub[m1];
    let x = sub[m2];
    lemma_subtree_member(t, y, d, m1);
    lemma_subtree_member(t, y, d, m2);
    if d == 0 {
        assert(sub =~= seq![y]);
        assert(false);
    } else {
        let yn = node_of(s, y);
        let kids = yn.children@;
        assert(sub == seq![y] + forest_ids(s, kids, (d - 1) as nat));
        let fseq = forest_ids(s, kids, (d - 1) as nat);
        assert(forall|mm: int| 0 <= mm < kids.len() ==> has_id(s, #[trigger] kids[mm])) by {
            reveal(ChapterTree::members_ok);
        }
        assert(forall|mm1: int, mm2: int|
            0 <= mm1 < mm2 < kids.len() ==> kids[mm1] != kids[mm2]) by {
            reveal(ChapterTree::placement_injective);
        }
        assert(forall|mm: int|
            0 <= mm < kids.len() ==> node_of(s, #[trigger] kids[mm]).depth == yn.depth + 1) by {
            reveal(ChapterTree::depth_ok);
        }
        if m1 == 0 {
        } else if m2 == 0 {
            assert(x == y);
            assert(has_id(s, a));
            lemma_up_chain_depth(t, y, a, n);
            lemma_up_chain_depth(t, a, y, d);
            lemma_up_chain_unique_depth(t, y, a, y, n, 0);
            assert(false);
        } else {
            assert(fseq[m1 - 1] == a);
            assert(fseq[m2 - 1] == x);
            lemma_forest_order(t, kids, (d - 1) as nat, (yn.depth + 1) as nat, m1 - 1, m2 - 1);
        }
    }
}

/// In a forest's preorder a strict ancestor stands before its descendant.
proof fn lemma_forest_order(
    t: ChapterTree,
    heads: Seq<i64>,
    d: nat,
    hdepth: nat,
    m1: int,
    m2: int,
)
    requires
        t.wf(),
        forall|mm: int| 0 <= mm < heads.len() ==> has_id(t.nodes@, #[trigger] heads[mm]),
        forall|mm1: int, mm2: int| 0 <= mm1 < mm2 < heads.len() ==> heads[mm1] != heads[mm2],
        forall|mm: int|
            0 <= mm < heads.len() ==> node_of(t.nodes@, #[trigger] heads[mm]).depth == hdepth,
        0 <= m1 < forest_ids(t.nodes@, heads, d).len(),
        0 <= m2 < forest_ids(t.nodes@, heads, d).len(),
        forest_ids(t.nodes@, heads, d)[m1] != forest_ids(t.nodes@, heads, d)[m2],
        up_chain(
            t.nodes@,
            forest_ids(t.nodes@, heads, d)[m2],
            forest_ids(t.nodes@, heads, d)[m1],
            t.nodes@.len() as nat,
        ),
    ensures
        m1 < m2,
    decreases d, 1int, heads.len(),
{
    let s = t.nodes@;
    let n = s.len() as nat;
    let fseq = forest_ids(s, heads, d);
    let a = fseq[m1];
    let x = fseq[m2];
    if heads.len() == 0 {
        assert(false);
    } else {
        let c = heads[0];
        let rest = heads.drop_first();
        let block = subtree_ids(s, c, d);
        let tail = forest_ids(s, rest, d);
        assert(fseq == block + tail);
        assert(forall|mm: int| 0 <= mm < rest.len() ==> #[trigger] rest[mm] == heads[mm + 1]);
        if m1 < block.len() && m2 < block.len() {
            lemma_subtree_order(t, c, d, m1, m2);
        } else if m1 >= block.len() && m2 >= block.len() {
            assert(tail[m1 - block.len()] == a);
            assert(tail[m2 - block.len()] == x);
            lemma_forest_order(t, rest, d, hdepth, m1 - block.len(), m2 - block.len());
        } else if m1 < block.len() && m2 >= block.len() {
        } else {
            // The descendant would sit in the first block while its strict
            // ancestor sits in a later one; then the descendant would have
            // two distinct ancestors at the heads' depth.
            assert(block[m2] == x);
            lemma_subtree_member(t, c, d, m2);
            assert(up_chain(s, x, c, d));
            assert(has_id(s, x)) by {
                if x != c {
                    lemma_placed_absent(t);
                    if !has_id(s, x) {
                        assert(placed_in(s, x) is None);
                    }
                }
            }
            assert(tail[m1 - block.len()] == a);
            lemma_forest_member(t, rest, d, hdepth, m1 - block.len());
            let k = choose|k: int|
                0 <= k < rest.len() && up_chain(s, tail[m1 - block.len()], #[trigger] rest[k], d);
            lemma_up_chain_trans(s, x, a, rest[k], n, d);
            lemma_up_chain_depth(t, x, c, d);
            lemma_up_chain_depth(t, x, rest[k], (n + d) as nat);
            lemma_up_chain_unique_depth(t, x, c, rest[k], d, (n + d) as nat);
            assert(false);
        }
    }
}

/// In the flattening of a well-formed tree no chapter appears before its
/// ancestors: a strict ancestor always stands at an earlier position than
/// its descendant.
pub proof fn lemma_flatten_ancestors_first(t: ChapterTree, m1: int, m2: int)
    requires
        t.wf(),
        0 <= m1 < preorder_ids(t).len(),
        0 <= m2 < preorder_ids(t).len(),
        preorder_ids(t)[m1] != preorder_ids(t)[m2],
        up_chain(
            t.nodes@,
            preorder_ids(t)[m2],
            preorder_ids(t)[m1],
            t.nodes@.len() as nat,
        ),
    ensures
        m1 < m2,
{
    let s = t.nodes@;
    let roots = t.root_nodes@;
    assert(forall|m: int| 0 <= m < roots.len() ==> has_id(s, #[trigger] roots[m])) by {
        reveal(ChapterTree::members_ok);
    }
    assert(forall|k1: int, k2: int| 0 <= k1 < k2 < roots.len() ==> roots[k1] != roots[k2]) by {
        reveal(ChapterTree::placement_injective);
    }
    assert(forall|m: int|
        0 <= m < roots.len() ==> node_of(s, #[trigger] roots[m]).depth == 0) by {
        reveal(ChapterTree::depth_ok);
    }
    lemma_forest_order(t, roots, s.len() as nat, 0, m1, m2);
}

/// Heads that are children of one node stand in child-list order.
pub open spec fn heads_in_child_order(s: Seq<ChapterNode>, heads: Seq<i64>) -> bool {
    forall|i1: int, i2: int, kk1: int, kk2: int, jj: int|
        #![trigger heads[i1], heads[i2], s[jj].children@[kk1], s[jj].children@[kk2]]
        0 <= i1 < i2 < heads.len() && 0 <= jj < s.len() && 0 <= kk1 < s[jj].children@.len() && 0
            <= kk2 < s[jj].children@.len() && heads[i1] == s[jj].children@[kk1] && heads[i2]
            == s[jj].children@[kk2] ==> kk1 < kk2
}

/// An entry of a child list is placed exactly there.
proof fn lemma_child_entry_placed(t: ChapterTree, j: int, k: int)
    requires
        t.wf(),
        0 <= j < t.nodes@.len(),
        0 <= k < t.nodes@[j].children@.len(),
    ensures
        placed_in(t.nodes@, t.nodes@[j].children@[k]) == Some(j),
{
    let s = t.nodes@;
    let x = s[j].children@[k];
    lemma_placed_some_props(t);
    assert(placed_in(s, x) is Some) by {
        assert(0 <= j < s.len() && 0 <= k < s[j].children@.len() && s[j].children@[k] == x);
    }
    let j0 = placed_in(s, x)->Some_0;
    let k0 = choose|k0: int| 0 <= k0 < s[j0].children@.len() && s[j0].children@[k0] == x;
    assert(0 <= k0 < s[j0].children@.len() && s[j0].children@[k0] == x);
    if j0 != j {
        reveal(ChapterTree::placement_injective);
        assert(false);
    }
}

/// In a subtree's preorder two children of one node keep their child-list
/// order.
proof fn lemma_subtree_sibling_order(
    t: ChapterTree,
    y: i64,
    d: nat,
    m1: int,
    m2: int,
    j: int,
    k1: int,
    k2: int,
)
    requires
        t.wf(),
        has_id(t.nodes@, y),
        0 <= m1 < subtree_ids(t.nodes@, y, d).len(),
        0 <= m2 < subtree_ids(t.nodes@, y, d).len(),
        0 <= j < t.nodes@.len(),
        0 <= k1 < k2 < t.nodes@[j].children@.len(),
        subtree_ids(t.nodes@, y, d)[m1] == t.nodes@[j].children@[k1],
        subtree_ids(t.nodes@, y, d)[m2] == t.nodes@[j].children@[k2],
    ensures
        m1 < m2,
    decreases d, 0int, 0int,
{
    let s = t.nodes@;
    let sub = subtree_ids(s, y, d);
    let x1 = sub[m1];
    let x2 = sub[m2];
    assert(x1 != x2) by {
        reveal(ChapterTree::placement_injective);
    }
    assert(node_of(s, x1).depth == s[j].depth + 1 && node_of(s, x2).depth == s[j].depth
        + 1) by {
        reveal(ChapterTree::depth_ok);
    }
    lemma_subtree_member(t, y, d, m1);
    lemma_subtree_member(t, y, d, m2);
    if d == 0 {
        assert(sub =~= seq![y]);
        assert(false);
    } else {
        let yn = node_of(s, y);
        let kids = yn.children@;
        assert(sub == seq![y] + forest_ids(s, kids, (d - 1) as nat));
        assert(forall|mm: int| 0 <= mm < kids.len() ==> has_id(s, #[trigger] kids[mm])) by {
            reveal(ChapterTree::members_ok);
        }
        assert(forall|mm1: int, mm2: int|
            0 <= mm1 < mm2 < kids.len() ==> kids[mm1] != kids[mm2]) by {
            reveal(ChapterTree::placement_injective);
        }
        assert(forall|mm: int|
            0 <= mm < kids.len() ==> node_of(s, #[trigger] kids[mm]).depth == yn.depth + 1) by {
            reveal(ChapterTree::depth_ok);
        }
        if m1 == 0 || m2 == 0 {
            let mo = if m1 == 0 {
                m2
            } else {
                m1
            };
            let x = sub[mo];
            assert(x != y);
            assert(has_id(s, x));
            assert(up_chain(s, x, y, d));
            assert(node_of(s, y).depth == node_of(s, x).depth);
            lemma_up_chain_unique_depth(t, x, y, x, d, 0);
            assert(false);
        } else {
            let jy = idx_of(s, y);
            assert(0 <= jy < s.len() && s[jy].chapter.id == y);
            assert(s[jy] == node_of(s, y));
            assert(heads_in_child_order(s, kids)) by {
                assert forall|i1: int, i2: int, kk1: int, kk2: int, jj: int|
                    0 <= i1 < i2 < kids.len() && 0 <= jj < s.len() && 0 <= kk1
                        < s[jj].children@.len() && 0 <= kk2 < s[jj].children@.len() && kids[i1]
                        == s[jj].children@[kk1] && kids[i2]
                        == s[jj].children@[kk2] implies kk1 < kk2 by {
                    lemma_child_entry_placed(t, jj, kk1);
                    lemma_child_entry_placed(t, jj, kk2);
                    lemma_child_entry_placed(t, jy, i1);
                    lemma_child_entry_placed(t, jy, i2);
                    assert(jj == jy);
                    reveal(ChapterTree::placement_injective);
                    if kk1 != i1 {
                        assert(false);
                    }
                    if kk2 != i2 {
                        assert(false);
                    }
                }
            }
            lemma_forest_sibling_order(
                t,
                kids,
                (d - 1) as nat,
                (yn.depth + 1) as nat,
                m1 - 1,
                m2 - 1,
                j,
                k1,
                k2,
            );
        }
    }
}

/// In a forest's preorder two children of one node keep their child-list
/// order, provided the heads themselves respect it.
proof fn lemma_forest_sibling_order(
    t: ChapterTree,
    heads: Seq<i64>,
    d: nat,
    hdepth: nat,
    m1: int,
    m2: int,
    j: int,
    k1: int,
    k2: int,
)
    requires
        t.wf(),
        forall|mm: int| 0 <= mm < heads.len() ==> has_id(t.nodes@, #[trigger] heads[mm]),
        forall|mm1: int, mm2: int| 0 <= mm1 < mm2 < heads.len() ==> heads[mm1] != heads[mm2],
        forall|mm: int|
            0 <= mm < heads.len() ==> node_of(t.nodes@, #[trigger] heads[mm]).depth == hdepth,
        heads_in_child_order(t.nodes@, heads),
        0 <= m1 < forest_ids(t.nodes@, heads, d).len(),
        0 <= m2 < forest_ids(t.nodes@, heads, d).len(),
        0 <= j < t.nodes@.len(),
        0 <= k1 < k2 < t.nodes@[j].children@.len(),
        forest_ids(t.nodes@, heads, d)[m1] == t.nodes@[j].children@[k1],
        forest_ids(t.nodes@, heads, d)[m2] == t.nodes@[j].children@[k2],
    ensures
        m1 < m2,
    decreases d, 1int, heads.len(),
{
    let s = t.nodes@;
    let fseq = forest_ids(s, heads, d);
    let x1 = fseq[m1];
    let x2 = fseq[m2];
    assert(x1 != x2) by {
        reveal(ChapterTree::placement_injective);
    }
    assert(node_of(s, x1).depth == s[j].depth + 1 && node_of(s, x2).depth == s[j].depth
        + 1) by {
        reveal(ChapterTree::depth_ok);
    }
    lemma_child_entry_placed(t, j, k1);
    lemma_child_entry_placed(t, j, k2);
    if heads.len() == 0 {
        assert(false);
    } else {
        let c = heads[0];
        let rest = heads.drop_first();
        let block = subtree_ids(s, c, d);
        let tail = forest_ids(s, rest, d);
        assert(fseq == block + tail);
        assert(forall|mm: int| 0 <= mm < rest.len() ==> #[trigger] rest[mm] == heads[mm + 1]);
        assert(heads_in_child_order(s, rest)) by {
            assert forall|i1: int, i2: int, kk1: int, kk2: int, jj: int|
                0 <= i1 < i2 < rest.len() && 0 <= jj < s.len() && 0 <= kk1
                    < s[jj].children@.len() && 0 <= kk2 < s[jj].children@.len() && rest[i1]
                    == s[jj].children@[kk1] && rest[i2] == s[jj].children@[kk2] implies kk1
                < kk2 by {
                assert(heads[i1 + 1] == s[jj].children@[kk1]);
                assert(heads[i2 + 1] == s[jj].children@[kk2]);
            }
        }
        if m1 < block.len() && m2 < block.len() {
            lemma_subtree_sibling_order(t, c, d, m1, m2, j, k1, k2);
        } else if m1 >= block.len() && m2 >= block.len() {
            assert(tail[m1 - block.len()] == x1);
            assert(tail[m2 - block.len()] == x2);
            lemma_forest_sibling_order(
                t,
                rest,
                d,
                hdepth,
                m1 - block.len(),
                m2 - block.len(),
                j,
                k1,
                k2,
            );
        } else if m1 < block.len() && m2 >= block.len() {
        } else {
            // x2 sits in the first block, x1 in a later one; siblings of one
            // parent cannot straddle blocks that way.
            assert(block[m2] == x2);
            lemma_subtree_member(t, c, d, m2);
            assert(up_chain(s, x2, c, d));
            assert(tail[m1 - block.len()] == x1);
            lemma_forest_member(t, rest, d, hdepth, m1 - block.len());
            let kh = choose|kh: int|
                0 <= kh < rest.len() && up_chain(s, x1, #[trigger] rest[kh], d);
            let cp = rest[kh];
            assert(up_chain(s, x1, cp, d));
            if x2 == c && x1 == cp {
                assert(heads[0] == s[j].children@[k2]);
                assert(heads[kh + 1] == s[j].children@[k1]);
                assert(k2 < k1);
                assert(false);
            } else {
                assert(has_id(s, s[j].chapter.id));
                assert(node_of(s, s[j].chapter.id).depth == s[j].depth) by {
                    let i = idx_of(s, s[j].chapter.id);
                    reveal(ChapterTree::unique_ids);
                    if i != j {
                        assert(false);
                    }
                }
                if x2 != c {
                    assert(up_chain(s, s[j].chapter.id, c, (d - 1) as nat));
                    lemma_up_chain_depth(t, s[j].chapter.id, c, (d - 1) as nat);
                    assert(node_of(s, c).depth <= s[j].depth);
                    if x1 == cp {
                        assert(node_of(s, cp).depth == s[j].depth + 1);
                        assert(node_of(s, c).depth == node_of(s, cp).depth);
                        assert(false);
                    } else {
                        assert(up_chain(s, s[j].chapter.id, cp, (d - 1) as nat));
                        lemma_up_chain_unique_depth(
                            t,
                            s[j].chapter.id,
                            c,
                            cp,
                            (d - 1) as nat,
                            (d - 1) as nat,
                        );
                        assert(c == cp);
                        assert(false);
                    }
                } else {
                    assert(x1 != cp);
                    assert(node_of(s, c).depth == s[j].depth + 1);
                    assert(up_chain(s, s[j].chapter.id, cp, (d - 1) as nat));
                    lemma_up_chain_depth(t, s[j].chapter.id, cp, (d - 1) as nat);
                    assert(node_of(s, cp).depth <= s[j].depth);
                    assert(node_of(s, cp).depth == node_of(s, c).depth);
                    assert(false);
                }
            }
        }
    }
}

/// In the flattening of a well-formed tree, the children of each node keep
/// their stored order — and, since child lists are sorted, siblings appear
/// in ascending display order.
pub proof fn lemma_flatten_siblings_ordered(
    t: ChapterTree,
    m1: int,
    m2: int,
    j: int,
    k1: int,
    k2: int,
)
    requires
        t.wf(),
        0 <= m1 < preorder_ids(t).len(),
        0 <= m2 < preorder_ids(t).len(),
        0 <= j < t.nodes@.len(),
        0 <= k1 < k2 < t.nodes@[j].children@.len(),
        preorder_ids(t)[m1] == t.nodes@[j].children@[k1],
        preorder_ids(t)[m2] == t.nodes@[j].children@[k2],
    ensures
        m1 < m2,
        chap_lt(
            node_of(t.nodes@, preorder_ids(t)[m1]).chapter,
            node_of(t.nodes@, preorder_ids(t)[m2]).chapter,
        ),
{
    let s = t.nodes@;
    let roots = t.root_nodes@;
    assert(forall|m: int| 0 <= m < roots.len() ==> has_id(s, #[trigger] roots[m])) by {
        reveal(ChapterTree::members_ok);
    }
    assert(forall|kk1: int, kk2: int|
        0 <= kk1 < kk2 < roots.len() ==> roots[kk1] != roots[kk2]) by {
        reveal(ChapterTree::placement_injective);
    }
    assert(forall|m: int|
        0 <= m < roots.len() ==> node_of(s, #[trigger] roots[m]).depth == 0) by {
        reveal(ChapterTree::depth_ok);
    }
    assert(heads_in_child_order(s, roots)) by {
        assert forall|i1: int, i2: int, kk1: int, kk2: int, jj: int|
            0 <= i1 < i2 < roots.len() && 0 <= jj < s.len() && 0 <= kk1
                < s[jj].children@.len() && 0 <= kk2 < s[jj].children@.len() && roots[i1]
                == s[jj].children@[kk1] && roots[i2] == s[jj].children@[kk2] implies kk1
            < kk2 by {
            reveal(ChapterTree::placement_injective);
            assert(false);
        }
    }
    lemma_forest_sibling_order(t, roots, s.len() as nat, 0, m1, m2, j, k1, k2);
    assert(chap_lt(
        node_of(s, s[j].children@[k1]).chapter,
        node_of(s, s[j].children@[k2]).chapter,
    )) by {
        reveal(ChapterTree::children_sorted);
    }
}

/// A tree whose shape follows its declared parents and whose parent chains
/// are free of cycles is fully linked: every chapter with an effective
/// parent stands in a child list. This discharges the `linked` hypothesis
/// of the cycle-check law for every tree built from acyclic chapter data.
#[verifier::rlimit(100)]
#[verifier::spinoff_prover]
pub proof fn lemma_resolved_linked(t: ChapterTree)
    requires
        t.wf(),
        parents_resolved(t),
        acyclic_parents(t),
    ensures
        linked(t),
{
    let s = t.nodes@;
    reveal(parents_resolved);
    reveal(acyclic_parents);
    assert forall|i: int|
        0 <= i < s.len() && link_parent(s, s[i].chapter) is Some implies placed_in(
        s,
        s[i].chapter.id,
    ) is Some by {
        assert(reaches_root(s, s[i].chapter.id, s.len() as nat));
        let p = link_parent(s, s[i].chapter)->Some_0;
        assert(node_of(s, p).children@.contains(s[i].chapter.id));
        let k = choose|k: int|
            0 <= k < node_of(s, p).children@.len() && node_of(s, p).children@[k]
                == s[i].chapter.id;
        assert(has_id(s, p)) by {
            assert(s[i].chapter.parent_id == Some(p) && p != s[i].chapter.id);
        }
        let jp = idx_of(s, p);
        assert(0 <= jp < s.len() && s[jp].chapter.id == p);
        assert(s[jp].children@[k] == s[i].chapter.id);
        assert(placed_in(s, s[i].chapter.id) is Some);
    }
}

/// On such a tree each chapter whose declared parent is present and whose
/// parent chain is free of cycles sits exactly one level below that parent.
#[verifier::rlimit(100)]
#[verifier::spinoff_prover]
pub proof fn lemma_declared_parent_depth(t: ChapterTree, i: int)
    requires
        t.wf(),
        parents_resolved(t),
        0 <= i < t.nodes@.len(),
        reaches_root(t.nodes@, t.nodes@[i].chapter.id, t.nodes@.len() as nat),
        link_parent(t.nodes@, t.nodes@[i].chapter) is Some,
    ensures
        t.nodes@[i].depth == node_of(
            t.nodes@,
            link_parent(t.nodes@, t.nodes@[i].chapter)->Some_0,
        ).depth + 1,
{
    let s = t.nodes@;
    reveal(parents_resolved);
    let p = link_parent(s, s[i].chapter)->Some_0;
    assert(node_of(s, p).children@.contains(s[i].chapter.id));
    let k = choose|k: int|
        0 <= k < node_of(s, p).children@.len() && node_of(s, p).children@[k]
            == s[i].chapter.id;
    assert(has_id(s, p)) by {
        assert(s[i].chapter.parent_id == Some(p) && p != s[i].chapter.id);
    }
    let jp = idx_of(s, p);
    assert(0 <= jp < s.len() && s[jp].chapter.id == p);
    assert(node_of(s, p) == s[jp]);
    assert(s[jp].children@[k] == s[i].chapter.id);
    assert(node_of(s, s[jp].children@[k]).depth == s[jp].depth + 1) by {
        reveal(ChapterTree::depth_ok);
    }
    assert(node_of(s, s[i].chapter.id) == s[i]) by {
        let a = idx_of(s, s[i].chapter.id);
        assert(0 <= a < s.len() && s[a].chapter.id == s[i].chapter.id);
        reveal(ChapterTree::unique_ids);
        if a != i {
            assert(false);
        }
    }
}

/// On a fully linked tree the structural parent is exactly the declared
/// one: the node whose child list holds a chapter is the node its record
/// names. Through this, the flatten-order laws stated over the tree
/// structure read as laws over declared parents.
pub proof fn lemma_linked_parent_step(t: ChapterTree, i: int)
    requires
        t.wf(),
        linked(t),
        0 <= i < t.nodes@.len(),
        link_parent(t.nodes@, t.nodes@[i].chapter) is Some,
    ensures
        placed_in(t.nodes@, t.nodes@[i].chapter.id) is Some,
        t.nodes@[placed_in(t.nodes@, t.nodes@[i].chapter.id)->Some_0].chapter.id
            == link_parent(t.nodes@, t.nodes@[i].chapter)->Some_0,
{
    let s = t.nodes@;
    lemma_placed_some_props(t);
    assert(placed_in(s, s[i].chapter.id) is Some);
    let j = placed_in(s, s[i].chapter.id)->Some_0;
    assert(node_of(s, s[i].chapter.id) == s[i]) by {
        let a = idx_of(s, s[i].chapter.id);
        assert(0 <= a < s.len() && s[a].chapter.id == s[i].chapter.id);
        reveal(ChapterTree::unique_ids);
        if a != i {
            assert(false);
        }
    }
    assert(node_of(s, s[i].chapter.id).chapter.parent_id == Some(s[j].chapter.id));
}

/// In a forest's preorder an element equal to one head stands before an
/// element equal to a later head.
proof fn lemma_forest_heads_order(
    t: ChapterTree,
    heads: Seq<i64>,
    d: nat,
    hdepth: nat,
    m1: int,
    m2: int,
    k1: int,
    k2: int,
)
    requires
        t.wf(),
        forall|mm: int| 0 <= mm < heads.len() ==> has_id(t.nodes@, #[trigger] heads[mm]),
        forall|mm1: int, mm2: int| 0 <= mm1 < mm2 < heads.len() ==> heads[mm1] != heads[mm2],
        forall|mm: int|
            0 <= mm < heads.len() ==> node_of(t.nodes@, #[trigger] heads[mm]).depth == hdepth,
        0 <= m1 < forest_ids(t.nodes@, heads, d).len(),
        0 <= m2 < forest_ids(t.nodes@, heads, d).len(),
        0 <= k1 < k2 < heads.len(),
        forest_ids(t.nodes@, heads, d)[m1] == heads[k1],
        forest_ids(t.nodes@, heads, d)[m2] == heads[k2],
    ensures
        m1 < m2,
    decreases heads.len(),
{
    let s = t.nodes@;
    let fseq = forest_ids(s, heads, d);
    let c = heads[0];
    let rest = heads.drop_first();
    let block = subtree_ids(s, c, d);
    let tail = forest_ids(s, rest, d);
    assert(fseq == block + tail);
    assert(forall|mm: int| 0 <= mm < rest.len() ==> #[trigger] rest[mm] == heads[mm + 1]);
    if m1 < block.len() {
        lemma_subtree_member(t, c, d, m1);
        assert(up_chain(s, heads[k1], c, d));
        if k1 != 0 {
            lemma_up_chain_unique_depth(t, heads[k1], c, heads[k1], d, 0);
            assert(false);
        }
        if m2 < block.len() {
            lemma_subtree_member(t, c, d, m2);
            assert(up_chain(s, heads[k2], c, d));
            lemma_up_chain_unique_depth(t, heads[k2], c, heads[k2], d, 0);
            assert(false);
        }
    } else {
        if k1 == 0 {
            assert(tail[m1 - block.len()] == heads[0]);
            lemma_forest_member(t, rest, d, hdepth, m1 - block.len());
            let kh = choose|kh: int|
                0 <= kh < rest.len() && up_chain(s, tail[m1 - block.len()], #[trigger] rest[kh], d);
            lemma_up_chain_unique_depth(t, heads[0], rest[kh], heads[0], d, 0);
            assert(false);
        }
        if m2 < block.len() {
            lemma_subtree_member(t, c, d, m2);
            assert(up_chain(s, heads[k2], c, d));
            lemma_up_chain_unique_depth(t, heads[k2], c, heads[k2], d, 0);
            assert(false);
        }
        assert(tail[m1 - block.len()] == heads[k1]);
        assert(tail[m2 - block.len()] == heads[k2]);
        assert(rest[k1 - 1] == heads[k1]);
        assert(rest[k2 - 1] == heads[k2]);
        lemma_forest_heads_order(
            t,
            rest,
            d,
            hdepth,
            m1 - block.len(),
            m2 - block.len(),
            k1 - 1,
            k2 - 1,
        );
    }
}

/// In the flattening of a well-formed tree the roots keep their stored
/// order — and, when the root list is sorted, ascending display order.
pub proof fn lemma_flatten_roots_ordered(t: ChapterTree, m1: int, m2: int, k1: int, k2: int)
    requires
        t.wf(),
        0 <= m1 < preorder_ids(t).len(),
        0 <= m2 < preorder_ids(t).len(),
        0 <= k1 < k2 < t.root_nodes@.len(),
        preorder_ids(t)[m1] == t.root_nodes@[k1],
        preorder_ids(t)[m2] == t.root_nodes@[k2],
    ensures
        m1 < m2,
{
    let s = t.nodes@;
    let roots = t.root_nodes@;
    assert(forall|m: int| 0 <= m < roots.len() ==> has_id(s, #[trigger] roots[m])) by {
        reveal(ChapterTree::members_ok);
    }
    assert(forall|kk1: int, kk2: int|
        0 <= kk1 < kk2 < roots.len() ==> roots[kk1] != roots[kk2]) by {
        reveal(ChapterTree::placement_injective);
    }
    assert(forall|m: int|
        0 <= m < roots.len() ==> node_of(s, #[trigger] roots[m]).depth == 0) by {
        reveal(ChapterTree::depth_ok);
    }
    lemma_forest_heads_order(t, roots, s.len() as nat, 0, m1, m2, k1, k2);
}

/// Every id in the preorder names a node of the tree, so the flattened
/// chapters carry exactly the preorder's ids.
pub proof fn lemma_flatten_ids(t: ChapterTree)
    requires
        t.wf(),
    ensures
        forall|m: int|
            0 <= m < preorder_ids(t).len() ==> has_id(t.nodes@, #[trigger] preorder_ids(t)[m])
                && chapters_of(t.nodes@, preorder_ids(t))[m].id == preorder_ids(t)[m],
{
    let s = t.nodes@;
    let pre = preorder_ids(t);
    lemma_flatten_permutation(t);
    assert forall|m: int| 0 <= m < pre.len() implies has_id(s, #[trigger] pre[m])
        && chapters_of(s, pre)[m].id == pre[m] by {
        lemma_cnt_ids_member(pre, m);
        assert(has_id(s, pre[m]));
        let i = idx_of(s, pre[m]);
        assert(0 <= i < s.len() && s[i].chapter.id == pre[m]);
        assert(node_of(s, pre[m]).chapter.id == pre[m]);
    }
}

} // verus!
