//! Topology of a Customizable Contraction Hierarchy (CCH): the forward
//! (upward) and backward (downward) stars of every rank, shortcut middles,
//! and the rank/node permutation; and the path unpacking used by
//! shortest-path queries.
//!
//! Ranks are node positions in the contraction order. Every edge of the
//! forward star of rank `r` leads to a higher rank, and the backward star
//! of `r` lists the lower ranks with an edge up to `r`; a shortcut
//! `(lo, hi)` stands for the path `lo -> mid -> hi` through a lower rank
//! `mid`.

use vstd::prelude::*;

verus! {

/// The positions `first_out[r]..first_out[r + 1]` of a compressed star
/// hold strictly increasing heads below `n`.
pub open spec fn star_shape(first_out: Seq<u32>, head: Seq<u32>, n: int) -> bool {
    &&& first_out.len() == n + 1
    &&& first_out[0] == 0
    &&& first_out[n] == head.len()
    &&& forall|r: int| 0 <= r < n ==> #[trigger] first_out[r] <= first_out[r + 1]
    &&& forall|r: int, p: int|
        #![trigger first_out[r], head[p]]
        0 <= r < n && first_out[r] <= p < first_out[r + 1] ==> head[p] < n
    &&& forall|r: int, p: int, q: int|
        #![trigger first_out[r], head[p], head[q]]
        0 <= r < n && first_out[r] <= p < q < first_out[r + 1] ==> head[p] < head[q]
}

/// A head `h` in the star of rank `r` lies above `r` (an upward star) or
/// below it (a downward one).
pub open spec fn toward(upward: bool, r: int, h: int) -> bool {
    if upward {
        r < h
    } else {
        h < r
    }
}

/// A well-formed star whose heads all lie on one side of their rank.
pub open spec fn directed_star(first_out: Seq<u32>, head: Seq<u32>, n: int, upward: bool) -> bool {
    &&& star_shape(first_out, head, n)
    &&& forall|r: int, p: int|
        #![trigger first_out[r], head[p]]
        0 <= r < n && first_out[r] <= p < first_out[r + 1] ==> toward(upward, r, head[p] as int)
}

/// A well-formed star whose heads all lie above their rank.
pub open spec fn star_wf(first_out: Seq<u32>, head: Seq<u32>, n: int) -> bool {
    directed_star(first_out, head, n, true)
}

/// A well-formed star whose heads all lie below their rank.
pub open spec fn down_star_wf(first_out: Seq<u32>, head: Seq<u32>, n: int) -> bool {
    directed_star(first_out, head, n, false)
}

/// Every shortcut names a middle rank below both of its endpoints.
pub open spec fn middles_wf(first_out: Seq<u32>, head: Seq<u32>, middle: Seq<Option<u32>>, n: int) -> bool {
    &&& middle.len() == head.len()
    &&& forall|r: int, p: int|
        #![trigger first_out[r], middle[p]]
        0 <= r < n && first_out[r] <= p < first_out[r + 1] && middle[p] is Some ==> middle[p]->0 < r
}

/// `rank_to_node` and `node_order` are inverse permutations of `0..n`.
pub open spec fn inverse_perms(rank_to_node: Seq<u32>, node_order: Seq<u32>, n: int) -> bool {
    &&& rank_to_node.len() == n
    &&& node_order.len() == n
    &&& forall|r: int| 0 <= r < n ==> #[trigger] rank_to_node[r] < n && node_order[rank_to_node[r] as int] == r
    &&& forall|v: int| 0 <= v < n ==> #[trigger] node_order[v] < n && rank_to_node[node_order[v] as int] == v
}

/// The topology of a customizable contraction hierarchy router: the
/// upward stars of every rank, the middle rank of each shortcut, and the
/// node/rank permutation. (Edge weights are attached to it by its users.)
#[derive(Debug, Clone)]
pub struct CCHRouter {
    node_count: usize,
    forward_first_out: Vec<u32>,
    forward_head: Vec<u32>,
    shortcut_middle: Vec<Option<u32>>,
    backward_first_out: Vec<u32>,
    backward_head: Vec<u32>,
    rank_to_node: Vec<u32>,
    node_order: Vec<u32>,
    original_edge_to_cch: Vec<usize>,
}

impl CCHRouter {
    /// Number of nodes (and ranks).
    pub closed spec fn n(&self) -> nat {
        self.node_count as nat
    }

    /// Start offsets of the forward stars (one per rank, plus the end).
    pub closed spec fn fw_first_out(&self) -> Seq<u32> {
        self.forward_first_out@
    }

    /// Heads of the forward (upward) edges.
    pub closed spec fn fw_head(&self) -> Seq<u32> {
        self.forward_head@
    }

    /// Middle rank of each forward edge that is a shortcut.
    pub closed spec fn middle(&self) -> Seq<Option<u32>> {
        self.shortcut_middle@
    }

    /// Start offsets of the backward stars.
    pub closed spec fn bw_first_out(&self) -> Seq<u32> {
        self.backward_first_out@
    }

    /// Tails of the backward edges: the lower ranks with an edge up to
    /// each rank.
    pub closed spec fn bw_head(&self) -> Seq<u32> {
        self.backward_head@
    }

    /// Original node index of each rank.
    pub closed spec fn rank_node(&self) -> Seq<u32> {
        self.rank_to_node@
    }

    /// Rank of each original node.
    pub closed spec fn node_rank(&self) -> Seq<u32> {
        self.node_order@
    }

    /// Forward edge position of each original road-graph edge.
    pub closed spec fn edge_slots(&self) -> Seq<usize> {
        self.original_edge_to_cch@
    }

    /// The forward stars lead up and the backward stars down, every
    /// shortcut has a lower middle rank, and ranks and nodes correspond one
    /// to one.
    pub open spec fn wf(&self) -> bool {
        &&& star_wf(self.fw_first_out(), self.fw_head(), self.n() as int)
        &&& down_star_wf(self.bw_first_out(), self.bw_head(), self.n() as int)
        &&& middles_wf(self.fw_first_out(), self.fw_head(), self.middle(), self.n() as int)
        &&& inverse_perms(self.rank_node(), self.node_rank(), self.n() as int)
        &&& slots_within(self.edge_slots(), self.fw_head().len())
        &&& self.n() < u32::MAX
    }
}

/// Check that a compressed star is well formed and leads up (or down).
fn check_star(first_out: &Vec<u32>, head: &Vec<u32>, n: usize, upward: bool) -> (r: bool)
    ensures
        r == directed_star(first_out@, head@, n as int, upward),
{
    if first_out.len() == 0 || first_out.len() - 1 != n {
        return false;
    }
    if first_out[0] != 0 || first_out[n] as usize != head.len() {
        return false;
    }
    let mut r: usize = 0;
    while r < n
        invariant
            first_out@.len() == n + 1,
            first_out@[0] == 0,
            first_out@[n as int] == head@.len(),
            0 <= r <= n,
            forall|k: int| 0 <= k < r ==> #[trigger] first_out@[k] <= first_out@[k + 1],
            forall|k: int, p: int|
                #![trigger first_out@[k], head@[p]]
                0 <= k < r && first_out@[k] <= p < first_out@[k + 1] ==> head@[p] < n && toward(upward, k, head@[p] as int),
            forall|k: int, p: int, q: int|
                #![trigger first_out@[k], head@[p], head@[q]]
                0 <= k < r && first_out@[k] <= p < q < first_out@[k + 1] ==> head@[p] < head@[q],
        decreases n - r,
    {
        let begin = first_out[r];
        let end = first_out[r + 1];
        if begin > end || end as usize > head.len() {
            assert(!directed_star(first_out@, head@, n as int, upward)) by {
                if directed_star(first_out@, head@, n as int, upward) {
                    lemma_first_out_bounded(first_out@, head@, n as int, r as int + 1);
                }
            }
            return false;
        }
        let mut p = begin as usize;
        while p < end as usize
            invariant
                begin <= p <= end,
                end <= head@.len(),
                begin == first_out@[r as int],
                end == first_out@[r + 1],
                r < n,
                forall|x: int| begin <= x < p ==> #[trigger] head@[x] < n && toward(upward, r as int, head@[x] as int),
                forall|x: int, y: int| begin <= x < y < p ==> #[trigger] head@[x] < #[trigger] head@[y],
            decreases end - p,
        {
            let h = head[p];
            let wrong_side = if upward { h as usize <= r } else { h as usize >= r };
            if wrong_side || h as usize >= n || (p > begin as usize && head[p - 1] >= h) {
                return false;
            }
            proof {
                assert forall|x: int, y: int| begin <= x < y < p + 1 implies #[trigger] head@[x] < #[trigger] head@[y] by {
                    if y == p && x < p - 1 {
                        assert(head@[x] < head@[p - 1]);
                    }
                }
            }
            p = p + 1;
        }
        r = r + 1;
    }
    true
}

proof fn lemma_first_out_bounded(first_out: Seq<u32>, head: Seq<u32>, n: int, k: int)
    requires
        star_shape(first_out, head, n),
        0 <= k <= n,
    ensures
        first_out[k] <= head.len(),
        forall|j: int| 0 <= j <= k ==> #[trigger] first_out[j] <= first_out[k],
    decreases n - k,
{
    if k < n {
        lemma_first_out_bounded(first_out, head, n, k + 1);
    }
    lemma_first_out_prefix(first_out, head, n, k);
}

proof fn lemma_first_out_prefix(first_out: Seq<u32>, head: Seq<u32>, n: int, k: int)
    requires
        star_shape(first_out, head, n),
        0 <= k <= n,
    ensures
        forall|j: int| 0 <= j <= k ==> #[trigger] first_out[j] <= first_out[k],
    decreases k,
{
    if k > 0 {
        lemma_first_out_prefix(first_out, head, n, k - 1);
    }
}

/// Check that every shortcut's middle rank lies below its star's rank.
fn check_middles(first_out: &Vec<u32>, head: &Vec<u32>, middle: &Vec<Option<u32>>, n: usize) -> (r: bool)
    requires
        star_wf(first_out@, head@, n as int),
    ensures
        r == middles_wf(first_out@, head@, middle@, n as int),
{
    if middle.len() != head.len() {
        return false;
    }
    let mut r: usize = 0;
    while r < n
        invariant
            star_wf(first_out@, head@, n as int),
            middle@.len() == head@.len(),
            0 <= r <= n,
            forall|k: int, p: int|
                #![trigger first_out@[k], middle@[p]]
                0 <= k < r && first_out@[k] <= p < first_out@[k + 1] && middle@[p] is Some ==> middle@[p]->0 < k,
        decreases n - r,
    {
        proof {
            lemma_first_out_bounded(first_out@, head@, n as int, r as int + 1);
            assert(first_out@[r as int] <= first_out@[r + 1]);
        }
        let begin = first_out[r] as usize;
        let end = first_out[r + 1] as usize;
        let mut p = begin;
        while p < end
            invariant
                begin <= p <= end,
                end <= middle@.len(),
                r < n,
                star_wf(first_out@, head@, n as int),
                middle@.len() == head@.len(),
                begin == first_out@[r as int],
                end == first_out@[r + 1],
                forall|x: int| begin <= x < p && (#[trigger] middle@[x]) is Some ==> middle@[x]->0 < r,
            decreases end - p,
        {
            match middle[p] {
                Some(m) => {
                    if m as usize >= r {
                        proof {
                            assert(first_out@[r as int] <= p < first_out@[r + 1] && middle@[p as int] is Some
                                && !(middle@[p as int]->0 < r));
                        }
                        return false;
                    }
                },
                None => {},
            }
            p = p + 1;
        }
        r = r + 1;
    }
    true
}

/// Position of the edge `from -> to` in a well-formed compressed star.
fn find_star_pos(first_out: &Vec<u32>, head: &Vec<u32>, n: Ghost<int>, from: u32, to: u32) -> (r: Option<usize>)
    requires
        star_shape(first_out@, head@, n@),
        from < n@,
    ensures
        r matches Some(p) ==> first_out@[from as int] <= p < first_out@[from + 1] && head@[p as int] == to
            && p < head@.len(),
        r is None ==> forall|p: int| first_out@[from as int] <= p < first_out@[from + 1] ==> head@[p] != to,
{
    proof {
        lemma_first_out_bounded(first_out@, head@, n@, from + 1);
        assert(first_out@[from as int] <= first_out@[from + 1]);
    }
    let flen = first_out.len();
    let begin = first_out[from as usize] as usize;
    let end = first_out[from as usize + 1] as usize;
    let mut lo = begin;
    let mut hi = end;
    while lo < hi
        invariant
            star_shape(first_out@, head@, n@),
            from < n@,
            begin == first_out@[from as int],
            end == first_out@[from + 1],
            end <= head@.len(),
            begin <= lo <= hi <= end,
            forall|p: int| begin <= p < lo ==> #[trigger] head@[p] < to,
            forall|p: int| hi <= p < end ==> #[trigger] head@[p] > to,
        decreases hi - lo,
    {
        let mid = lo + (hi - lo) / 2;
        let h = head[mid];
        if h == to {
            return Some(mid);
        } else if h < to {
            proof {
                assert forall|p: int| begin <= p < mid + 1 implies #[trigger] head@[p] < to by {
                    if p < mid {
                        assert(first_out@[from as int] <= p < mid < first_out@[from + 1]);
                        assert(head@[p] < head@[mid as int]);
                    }
                }
            }
            lo = mid + 1;
        } else {
            proof {
                assert forall|p: int| mid <= p < end implies #[trigger] head@[p] > to by {
                    if p > mid {
                        assert(head@[mid as int] < head@[p]);
                    }
                }
            }
            hi = mid;
        }
    }
    None
}

/// Every slot is a position below `len`.
pub open spec fn slots_within(slots: Seq<usize>, len: nat) -> bool {
    forall|i: int| 0 <= i < slots.len() ==> #[trigger] slots[i] < len
}

/// Check that every slot is a position below `len`.
fn check_slots(slots: &Vec<usize>, len: usize) -> (r: bool)
    ensures
        r == slots_within(slots@, len as nat),
{
    let mut i: usize = 0;
    while i < slots.len()
        invariant
            0 <= i <= slots@.len(),
            forall|k: int| 0 <= k < i ==> #[trigger] slots@[k] < len,
        decreases slots@.len() - i,
    {
        if slots[i] >= len {
            return false;
        }
        i = i + 1;
    }
    true
}

/// Check that two arrays are inverse permutations of `0..n`.
fn check_inverse(rank_to_node: &Vec<u32>, node_order: &Vec<u32>, n: usize) -> (r: bool)
    ensures
        r == inverse_perms(rank_to_node@, node_order@, n as int),
{
    if rank_to_node.len() != n || node_order.len() != n {
        return false;
    }
    let mut r: usize = 0;
    while r < n
        invariant
            rank_to_node@.len() == n,
            node_order@.len() == n,
            0 <= r <= n,
            forall|k: int| 0 <= k < r ==> #[trigger] rank_to_node@[k] < n && node_order@[rank_to_node@[k] as int] == k,
        decreases n - r,
    {
        let v = rank_to_node[r];
        if (v as usize) >= n || node_order[v as usize] as usize != r {
            return false;
        }
        r = r + 1;
    }
    let mut v: usize = 0;
    while v < n
        invariant
            rank_to_node@.len() == n,
            node_order@.len() == n,
            0 <= v <= n,
            forall|k: int| 0 <= k < n ==> #[trigger] rank_to_node@[k] < n && node_order@[rank_to_node@[k] as int] == k,
            forall|k: int| 0 <= k < v ==> #[trigger] node_order@[k] < n && rank_to_node@[node_order@[k] as int] == k,
        decreases n - v,
    {
        let r2 = node_order[v];
        if (r2 as usize) >= n || rank_to_node[r2 as usize] as usize != v {
            return false;
        }
        v = v + 1;
    }
    true
}

impl CCHRouter {
    /// Build a router topology from its arrays, if they are well formed
    /// (see [`CCHRouter::wf`]).
    pub fn new(
        node_count: usize,
        forward_first_out: Vec<u32>,
        forward_head: Vec<u32>,
        shortcut_middle: Vec<Option<u32>>,
        backward_first_out: Vec<u32>,
        backward_head: Vec<u32>,
        rank_to_node: Vec<u32>,
        node_order: Vec<u32>,
        original_edge_to_cch: Vec<usize>,
    ) -> (r: Option<Self>)
        ensures
            r is Some <==> (star_wf(forward_first_out@, forward_head@, node_count as int) && down_star_wf(
                backward_first_out@,
                backward_head@,
                node_count as int,
            ) && middles_wf(forward_first_out@, forward_head@, shortcut_middle@, node_count as int)
                && inverse_perms(rank_to_node@, node_order@, node_count as int) && slots_within(
                original_edge_to_cch@,
                forward_head@.len(),
            ) && node_count < u32::MAX),
            r matches Some(t) ==> {
                &&& t.wf()
                &&& t.n() == node_count
                &&& t.fw_first_out() == forward_first_out@
                &&& t.fw_head() == forward_head@
                &&& t.middle() == shortcut_middle@
                &&& t.bw_first_out() == backward_first_out@
                &&& t.bw_head() == backward_head@
                &&& t.rank_node() == rank_to_node@
                &&& t.node_rank() == node_order@
                &&& t.edge_slots() == original_edge_to_cch@
            },
    {
        if node_count >= u32::MAX as usize || !check_inverse(&rank_to_node, &node_order, node_count) {
            return None;
        }
        if !check_star(&forward_first_out, &forward_head, node_count, true) {
            return None;
        }
        if !check_star(&backward_first_out, &backward_head, node_count, false) {
            return None;
        }
        if !check_middles(&forward_first_out, &forward_head, &shortcut_middle, node_count) {
            return None;
        }
        if !check_slots(&original_edge_to_cch, forward_head.len()) {
            return None;
        }
        Some(
            CCHRouter {
                node_count,
                forward_first_out,
                forward_head,
                shortcut_middle,
                backward_first_out,
                backward_head,
                rank_to_node,
                node_order,
                original_edge_to_cch,
            },
        )
    }

    /// Forward edge position of each original road-graph edge.
    pub fn original_edge_to_cch(&self) -> (r: &Vec<usize>)
        ensures
            r@ == self.edge_slots(),
    {
        &self.original_edge_to_cch
    }

    /// Start offsets of the forward stars.
    pub fn forward_first_out(&self) -> (r: &Vec<u32>)
        ensures
            r@ == self.fw_first_out(),
    {
        &self.forward_first_out
    }

    /// Heads of the forward edges.
    pub fn forward_head(&self) -> (r: &Vec<u32>)
        ensures
            r@ == self.fw_head(),
    {
        &self.forward_head
    }

    /// Middle rank of each forward edge that is a shortcut.
    pub fn shortcut_middle(&self) -> (r: &Vec<Option<u32>>)
        ensures
            r@ == self.middle(),
    {
        &self.shortcut_middle
    }

    /// Start offsets of the backward stars.
    pub fn backward_first_out(&self) -> (r: &Vec<u32>)
        ensures
            r@ == self.bw_first_out(),
    {
        &self.backward_first_out
    }

    /// Tails of the backward edges (lower ranks with an edge up to each
    /// rank).
    pub fn backward_head(&self) -> (r: &Vec<u32>)
        ensures
            r@ == self.bw_head(),
    {
        &self.backward_head
    }

    /// Original node index of each rank.
    pub fn rank_to_node(&self) -> (r: &Vec<u32>)
        ensures
            r@ == self.rank_node(),
    {
        &self.rank_to_node
    }

    /// Rank of each original node.
    pub fn node_order(&self) -> (r: &Vec<u32>)
        ensures
            r@ == self.node_rank(),
    {
        &self.node_order
    }

    /// Number of nodes (and ranks).
    pub fn node_count(&self) -> (r: usize)
        ensures
            r == self.n(),
    {
        self.node_count
    }

    /// Find the position in the forward star of `from_rank` of the edge to
    /// `to_rank`.
    pub fn find_forward_pos(&self, from_rank: u32, to_rank: u32) -> (r: Option<usize>)
        requires
            self.wf(),
            from_rank < self.n(),
        ensures
            r matches Some(p) ==> self.fw_first_out()[from_rank as int] <= p < self.fw_first_out()[from_rank + 1]
                && self.fw_head()[p as int] == to_rank && p < self.fw_head().len(),
            r is None ==> forall|p: int|
                self.fw_first_out()[from_rank as int] <= p < self.fw_first_out()[from_rank + 1] ==> self.fw_head()[p]
                    != to_rank,
    {
        find_star_pos(&self.forward_first_out, &self.forward_head, Ghost(self.n() as int), from_rank, to_rank)
    }

    /// Find the position in the backward star of `at_rank` of the edge from
    /// `from_rank`.
    pub fn find_backward_pos(&self, at_rank: u32, from_rank: u32) -> (r: Option<usize>)
        requires
            self.wf(),
            at_rank < self.n(),
        ensures
            r matches Some(p) ==> self.bw_first_out()[at_rank as int] <= p < self.bw_first_out()[at_rank + 1]
                && self.bw_head()[p as int] == from_rank && p < self.bw_head().len(),
            r is None ==> forall|p: int|
                self.bw_first_out()[at_rank as int] <= p < self.bw_first_out()[at_rank + 1] ==> self.bw_head()[p]
                    != from_rank,
    {
        find_star_pos(&self.backward_first_out, &self.backward_head, Ghost(self.n() as int), at_rank, from_rank)
    }
}

/// Smaller of two ranks.
pub open spec fn min_rank(a: u32, b: u32) -> u32 {
    if a < b {
        a
    } else {
        b
    }
}

impl CCHRouter {
    /// Position of the forward edge `lo -> hi`, if there is one.
    pub open spec fn edge_pos(&self, lo: u32, hi: u32) -> Option<int> {
        let fo = self.fw_first_out();
        let h = self.fw_head();
        if lo < self.n() && exists|p: int| fo[lo as int] <= p < fo[lo + 1] && h[p] == hi {
            Some(choose|p: int| fo[lo as int] <= p < fo[lo + 1] && h[p] == hi)
        } else {
            None
        }
    }

    /// The ranks reached when the edge `from -> to` (in either direction of
    /// the hierarchy) is expanded into original edges, `from` excluded: a
    /// shortcut through `mid` expands to the expansion of `from -> mid`
    /// followed by that of `mid -> to`; an original edge, or a pair with no
    /// edge, to `to` alone.
    pub open spec fn unpacked_edge(&self, from: u32, to: u32) -> Seq<u32>
        decreases min_rank(from, to),
    {
        let lo = min_rank(from, to);
        let hi = if from < to { to } else { from };
        match self.edge_pos(lo, hi) {
            None => seq![to],
            Some(p) => match self.middle()[p] {
                None => seq![to],
                Some(m) => if m < lo {
                    self.unpacked_edge(from, m) + self.unpacked_edge(m, to)
                } else {
                    seq![to]
                },
            },
        }
    }

    /// A rank path with every hop expanded into original edges.
    pub open spec fn unpacked_path(&self, rank_path: Seq<u32>) -> Seq<u32>
        decreases rank_path.len(),
    {
        if rank_path.len() == 0 {
            Seq::empty()
        } else if rank_path.len() == 1 {
            seq![rank_path[0]]
        } else {
            self.unpacked_path(rank_path.drop_last()) + self.unpacked_edge(
                rank_path[rank_path.len() - 2],
                rank_path.last(),
            )
        }
    }

    /// Expanding an edge found at position `p`.
    proof fn lemma_unpacked_edge_found(&self, from: u32, to: u32, p: int)
        requires
            self.wf(),
            min_rank(from, to) < self.n(),
            self.fw_first_out()[min_rank(from, to) as int] <= p < self.fw_first_out()[min_rank(from, to) + 1],
            self.fw_head()[p] == (if from < to { to } else { from }),
        ensures
            self.middle()[p] is Some ==> self.middle()[p]->0 < min_rank(from, to),
            self.unpacked_edge(from, to) == (match self.middle()[p] {
                None => seq![to],
                Some(m) => self.unpacked_edge(from, m) + self.unpacked_edge(m, to),
            }),
    {
        let lo = min_rank(from, to);
        let hi = if from < to { to } else { from };
        self.lemma_edge_pos_found(lo, hi, p);
        let fo = self.fw_first_out();
        assert(fo[lo as int] <= p < fo[lo + 1]);
        if self.middle()[p] is Some {
            assert(self.middle()[p]->0 < lo);
        }
    }

    /// Expanding a pair that is not an edge of the hierarchy.
    proof fn lemma_unpacked_edge_missing(&self, from: u32, to: u32)
        requires
            self.wf(),
            min_rank(from, to) < self.n(),
            forall|p: int|
                self.fw_first_out()[min_rank(from, to) as int] <= p < self.fw_first_out()[min_rank(from, to) + 1]
                    ==> self.fw_head()[p] != (if from < to { to } else { from }),
        ensures
            self.unpacked_edge(from, to) == seq![to],
    {
    }

    proof fn lemma_edge_pos_found(&self, lo: u32, hi: u32, p: int)
        requires
            self.wf(),
            lo < self.n(),
            self.fw_first_out()[lo as int] <= p < self.fw_first_out()[lo + 1],
            self.fw_head()[p] == hi,
        ensures
            self.edge_pos(lo, hi) == Some(p),
    {
        let fo = self.fw_first_out();
        let h = self.fw_head();
        let q = choose|q: int| fo[lo as int] <= q < fo[lo + 1] && h[q] == hi;
        if q < p {
            assert(h[q] < h[p]);
        } else if p < q {
            assert(h[p] < h[q]);
        }
    }

    /// Unpack a single edge (from_rank, to_rank), adding intermediate ranks
    /// to `result`. The `from_rank` is already in `result`; `to_rank` and any
    /// intermediates are appended.
    pub fn unpack_edge(&self, from_rank: u32, to_rank: u32, result: &mut Vec<u32>)
        requires
            self.wf(),
            from_rank < self.n(),
            to_rank < self.n(),
        ensures
            final(result)@ == old(result)@ + self.unpacked_edge(from_rank, to_rank),
        decreases min_rank(from_rank, to_rank),
    {
        let (lo, hi) = if from_rank < to_rank {
            (from_rank, to_rank)
        } else {
            (to_rank, from_rank)
        };
        match self.find_forward_pos(lo, hi) {
            Some(pos) => {
                proof {
                    self.lemma_unpacked_edge_found(from_rank, to_rank, pos as int);
                }
                match self.shortcut_middle[pos] {
                    None => {
                        result.push(to_rank);
                    },
                    Some(mid_rank) => {
                        let ghost before = result@;
                        self.unpack_edge(from_rank, mid_rank, result);
                        self.unpack_edge(mid_rank, to_rank, result);
                        proof {
                            assert(result@ =~= before + (self.unpacked_edge(from_rank, mid_rank)
                                + self.unpacked_edge(mid_rank, to_rank)));
                        }
                    },
                }
            },
            None => {
                // Not an edge of the hierarchy: keep the hop as it is.
                proof {
                    self.lemma_unpacked_edge_missing(from_rank, to_rank);
                }
                result.push(to_rank);
            },
        }
    }

    /// Unpack a path of ranks, expanding shortcuts into original edge
    /// sequences.
    pub fn unpack_rank_path(&self, rank_path: &[u32]) -> (r: Vec<u32>)
        requires
            self.wf(),
            forall|k: int| 0 <= k < rank_path@.len() ==> #[trigger] rank_path@[k] < self.n(),
        ensures
            r@ == self.unpacked_path(rank_path@),
    {
        if rank_path.len() == 0 {
            return Vec::new();
        }
        let mut result: Vec<u32> = Vec::new();
        result.push(rank_path[0]);
        let mut k: usize = 1;
        proof {
            assert(rank_path@.take(1) =~= seq![rank_path@[0]]);
        }
        while k < rank_path.len()
            invariant
                self.wf(),
                forall|j: int| 0 <= j < rank_path@.len() ==> #[trigger] rank_path@[j] < self.n(),
                1 <= k <= rank_path@.len(),
                result@ == self.unpacked_path(rank_path@.take(k as int)),
            decreases rank_path@.len() - k,
        {
            self.unpack_edge(rank_path[k - 1], rank_path[k], &mut result);
            proof {
                let t = rank_path@.take(k + 1);
                assert(t.drop_last() =~= rank_path@.take(k as int));
                assert(t[t.len() - 2] == rank_path@[k - 1]);
                assert(t.last() == rank_path@[k as int]);
            }
            k = k + 1;
        }
        proof {
            assert(rank_path@.take(rank_path@.len() as int) =~= rank_path@);
        }
        result
    }
}

/// Every parent pointer is either unset (`u32::MAX`) or leads to a lower
/// rank, as in an upward search.
pub open spec fn parents_descend(parents: Seq<u32>) -> bool {
    forall|r: int| 0 <= r < parents.len() ==> (#[trigger] parents[r] == u32::MAX || parents[r] < r)
}

/// The ranks met following parent pointers from `r`: `r`, its parent, its
/// parent's parent, ... until an unset pointer.
pub open spec fn parent_chain(parents: Seq<u32>, r: u32) -> Seq<u32>
    decreases r,
{
    if r as int >= parents.len() {
        Seq::empty()
    } else if parents[r as int] < r {
        seq![r] + parent_chain(parents, parents[r as int])
    } else {
        seq![r]
    }
}

/// The rank path of a bidirectional search that met at `meeting`: the
/// forward parent chain from the meeting rank, reversed (so it starts at
/// the search origin), followed by the backward parent chain beyond the
/// meeting rank.
pub open spec fn search_rank_path(parent_forward: Seq<u32>, parent_backward: Seq<u32>, meeting: u32) -> Seq<u32> {
    parent_chain(parent_forward, meeting).reverse() + parent_chain(parent_backward, parent_backward[meeting as int])
}

/// A rank path follows a bidirectional search that met at `meeting`: the
/// meeting rank stands at some position `m`; before it, each rank is the
/// forward parent of the next, starting from a rank with no forward parent
/// (the source); from it on, each next rank is the backward parent of the
/// one before, ending at a rank with no backward parent (the target).
pub open spec fn follows_search(parent_forward: Seq<u32>, parent_backward: Seq<u32>, meeting: u32, path: Seq<u32>) -> bool {
    exists|m: int|
        0 <= m < path.len() && #[trigger] path[m] == meeting && {
            &&& forall|k: int| 0 <= k <= m ==> #[trigger] path[k] < parent_forward.len()
            &&& forall|k: int| m <= k < path.len() ==> #[trigger] path[k] < parent_backward.len()
            &&& forall|k: int| 0 <= k < m ==> #[trigger] path[k] == parent_forward[path[k + 1] as int]
            &&& forall|k: int| m <= k < path.len() - 1 ==> #[trigger] path[k + 1] == parent_backward[path[k] as int]
            &&& parent_forward[path[0] as int] == u32::MAX
            &&& parent_backward[path[path.len() - 1] as int] == u32::MAX
        }
}

/// The parent chain from a rank below the length starts at it, links each
/// rank to its parent, stays below the length, and ends at a rank with no
/// parent.
proof fn lemma_chain_links(parents: Seq<u32>, r: u32)
    requires
        parents_descend(parents),
        r < parents.len(),
    ensures
        parent_chain(parents, r).len() > 0,
        parent_chain(parents, r)[0] == r,
        forall|k: int| 0 <= k < parent_chain(parents, r).len() ==> #[trigger] parent_chain(parents, r)[k] < parents.len(),
        forall|k: int|
            0 <= k < parent_chain(parents, r).len() - 1 ==> #[trigger] parent_chain(parents, r)[k + 1]
                == parents[parent_chain(parents, r)[k] as int],
        parents[parent_chain(parents, r).last() as int] == u32::MAX,
    decreases r,
{
    let c = parent_chain(parents, r);
    if parents[r as int] < r {
        let next = parents[r as int];
        lemma_chain_links(parents, next);
        let rest = parent_chain(parents, next);
        assert(c == seq![r] + rest);
        assert forall|k: int| 0 <= k < c.len() implies #[trigger] c[k] < parents.len() by {
            if k > 0 {
                assert(c[k] == rest[k - 1]);
            }
        }
        assert forall|k: int| 0 <= k < c.len() - 1 implies #[trigger] c[k + 1] == parents[c[k] as int] by {
            assert(c[k + 1] == rest[k]);
            if k > 0 {
                assert(c[k] == rest[k - 1]);
                assert(rest[(k - 1) + 1] == parents[rest[k - 1] as int]);
            } else {
                assert(c[0] == r);
                assert(rest[0] == next);
            }
        }
        assert(c.last() == rest.last());
    } else {
        assert(c == seq![r]);
    }
}

/// Law: the rank path rebuilt from a bidirectional search runs from a rank
/// without forward parent, along forward parent pointers up to the meeting
/// rank, and on along backward parent pointers down to a rank without
/// backward parent.
pub proof fn law_search_rank_path_follows_parents(parent_forward: Seq<u32>, parent_backward: Seq<u32>, meeting: u32)
    requires
        parents_descend(parent_forward),
        parents_descend(parent_backward),
        meeting < parent_forward.len(),
        meeting < parent_backward.len(),
        parent_backward.len() < u32::MAX,
    ensures
        follows_search(parent_forward, parent_backward, meeting, search_rank_path(parent_forward, parent_backward, meeting)),
{
    let fw = parent_chain(parent_forward, meeting);
    let nb = parent_backward[meeting as int];
    let bw = parent_chain(parent_backward, nb);
    let path = search_rank_path(parent_forward, parent_backward, meeting);
    lemma_chain_links(parent_forward, meeting);
    let rf = fw.reverse();
    let m = fw.len() - 1;
    assert(path == rf + bw);
    assert(path.len() == fw.len() + bw.len());
    assert forall|k: int| 0 <= k < fw.len() implies #[trigger] path[k] == fw[fw.len() - 1 - k] by {}
    assert(path[m] == meeting);
    if nb == u32::MAX {
        assert(bw.len() == 0);
    } else {
        assert(nb < meeting);
        lemma_chain_links(parent_backward, nb);
        assert forall|k: int| fw.len() <= k < path.len() implies #[trigger] path[k] == bw[k - fw.len()] by {}
    }
    assert forall|k: int| 0 <= k <= m implies #[trigger] path[k] < parent_forward.len() by {
        assert(path[k] == fw[fw.len() - 1 - k]);
    }
    assert forall|k: int| m <= k < path.len() implies #[trigger] path[k] < parent_backward.len() by {
        if k > m {
            assert(path[k] == bw[k - fw.len()]);
        }
    }
    assert forall|k: int| 0 <= k < m implies #[trigger] path[k] == parent_forward[path[k + 1] as int] by {
        assert(path[k] == fw[fw.len() - 1 - k]);
        assert(path[k + 1] == fw[fw.len() - 1 - (k + 1)]);
        assert(fw[(fw.len() - 1 - (k + 1)) + 1] == parent_forward[fw[fw.len() - 1 - (k + 1)] as int]);
    }
    assert forall|k: int| m <= k < path.len() - 1 implies #[trigger] path[k + 1] == parent_backward[path[k] as int] by {
        assert(path[k + 1] == bw[k + 1 - fw.len()]);
        if k > m {
            assert(path[k] == bw[k - fw.len()]);
            assert(bw[(k - fw.len()) + 1] == parent_backward[bw[k - fw.len()] as int]);
        }
    }
    assert(path[0] == fw.last());
    if bw.len() > 0 {
        assert(path[path.len() - 1] == bw.last());
    } else {
        assert(path[path.len() - 1] == meeting);
    }
    assert(follows_search(parent_forward, parent_backward, meeting, path));
}

/// Whether every parent pointer is unset or leads to a lower rank.
pub fn parents_point_down(parents: &Vec<u32>) -> (r: bool)
    ensures
        r == parents_descend(parents@),
{
    let mut k: usize = 0;
    while k < parents.len()
        invariant
            0 <= k <= parents@.len(),
            forall|j: int| 0 <= j < k ==> (#[trigger] parents@[j] == u32::MAX || parents@[j] < j),
        decreases parents@.len() - k,
    {
        if parents[k] != u32::MAX && parents[k] as usize >= k {
            return false;
        }
        k = k + 1;
    }
    true
}

/// Follow parent pointers from `start`, collecting the ranks met.
fn collect_chain(parents: &Vec<u32>, start: u32) -> (r: Vec<u32>)
    requires
        parents_descend(parents@),
        start == u32::MAX || start < parents@.len(),
        parents@.len() < u32::MAX,
    ensures
        r@ == parent_chain(parents@, start),
{
    let mut out: Vec<u32> = Vec::new();
    let mut r = start;
    while r != u32::MAX
        invariant
            parents_descend(parents@),
            parents@.len() < u32::MAX,
            r == u32::MAX || r < parents@.len(),
            parent_chain(parents@, start) == out@ + parent_chain(parents@, r),
        decreases if r == u32::MAX { 0 } else { r + 1 },
    {
        let next = parents[r as usize];
        proof {
            assert(next == u32::MAX || next < r);
            assert(out@.push(r) + parent_chain(parents@, next) =~= out@ + parent_chain(parents@, r));
        }
        out.push(r);
        r = next;
    }
    proof {
        assert(out@ + parent_chain(parents@, r) =~= out@);
    }
    out
}

/// Reconstruct the rank path of a bidirectional search from its parent
/// pointers and meeting rank.
pub fn rank_path_from_parents(parent_forward: &Vec<u32>, parent_backward: &Vec<u32>, meeting_rank: u32) -> (r: Vec<u32>)
    requires
        parents_descend(parent_forward@),
        parents_descend(parent_backward@),
        meeting_rank < parent_forward@.len(),
        meeting_rank < parent_backward@.len(),
        parent_forward@.len() < u32::MAX,
        parent_backward@.len() < u32::MAX,
    ensures
        r@ == search_rank_path(parent_forward@, parent_backward@, meeting_rank),
        follows_search(parent_forward@, parent_backward@, meeting_rank, r@),
{
    proof {
        law_search_rank_path_follows_parents(parent_forward@, parent_backward@, meeting_rank);
    }
    let fw_segment = collect_chain(parent_forward, meeting_rank);
    let mut rank_path: Vec<u32> = Vec::new();
    let mut k = fw_segment.len();
    while k > 0
        invariant
            k <= fw_segment@.len(),
            rank_path@ == fw_segment@.skip(k as int).reverse(),
        decreases k,
    {
        k = k - 1;
        proof {
            assert(fw_segment@.skip(k as int).reverse() =~= fw_segment@.skip(k + 1).reverse().push(fw_segment@[k as int]));
        }
        rank_path.push(fw_segment[k]);
    }
    proof {
        assert(fw_segment@.skip(0) =~= fw_segment@);
    }
    let next = parent_backward[meeting_rank as usize];
    let bw_segment = collect_chain(parent_backward, next);
    let mut j: usize = 0;
    let ghost fw_rev = rank_path@;
    while j < bw_segment.len()
        invariant
            j <= bw_segment@.len(),
            rank_path@ == fw_rev + bw_segment@.take(j as int),
        decreases bw_segment@.len() - j,
    {
        proof {
            assert(bw_segment@.take(j + 1) =~= bw_segment@.take(j as int).push(bw_segment@[j as int]));
        }
        rank_path.push(bw_segment[j]);
        j = j + 1;
    }
    proof {
        assert(bw_segment@.take(j as int) =~= bw_segment@);
    }
    rank_path
}

proof fn lemma_chain_below(parents: Seq<u32>, r: u32)
    requires
        parents_descend(parents),
    ensures
        forall|k: int| 0 <= k < parent_chain(parents, r).len() ==> #[trigger] parent_chain(parents, r)[k] < parents.len(),
        forall|k: int| 0 <= k < parent_chain(parents, r).len() ==> #[trigger] parent_chain(parents, r)[k] <= r,
    decreases r,
{
    if (r as int) < parents.len() && parents[r as int] < r {
        let next = parents[r as int];
        lemma_chain_below(parents, next);
        let c = parent_chain(parents, r);
        let rest = parent_chain(parents, next);
        assert(c == seq![r] + rest);
        assert forall|k: int| 0 <= k < c.len() implies #[trigger] c[k] < parents.len() && c[k] <= r by {
            if k > 0 {
                assert(c[k] == rest[k - 1]);
            }
        }
    }
}

impl CCHRouter {
    /// The original node path of a bidirectional search that met at
    /// `meeting_rank`: the rank path from the parent pointers, with
    /// shortcuts expanded, each rank replaced by its node.
    pub open spec fn search_node_path(&self, parent_forward: Seq<u32>, parent_backward: Seq<u32>, meeting: u32) -> Seq<u32> {
        self.unpacked_path(search_rank_path(parent_forward, parent_backward, meeting)).map_values(
            |x: u32| self.rank_node()[x as int],
        )
    }

    /// Turn the outcome of a bidirectional search (parent pointers of both
    /// directions, indexed by rank, and the meeting rank) into the path of
    /// original node indices: the rank path is rebuilt, shortcuts are
    /// unpacked, and ranks are mapped back to nodes.
    pub fn node_path_from_search(&self, parent_forward: &Vec<u32>, parent_backward: &Vec<u32>, meeting_rank: u32) -> (r: Vec<u32>)
        requires
            self.wf(),
            parent_forward@.len() == self.n(),
            parent_backward@.len() == self.n(),
            parents_descend(parent_forward@),
            parents_descend(parent_backward@),
            meeting_rank < self.n(),
        ensures
            r@ == self.search_node_path(parent_forward@, parent_backward@, meeting_rank),
    {
        let rank_path = rank_path_from_parents(parent_forward, parent_backward, meeting_rank);
        proof {
            let fw = parent_chain(parent_forward@, meeting_rank);
            let bw = parent_chain(parent_backward@, parent_backward@[meeting_rank as int]);
            lemma_chain_below(parent_forward@, meeting_rank);
            lemma_chain_below(parent_backward@, parent_backward@[meeting_rank as int]);
            assert forall|k: int| 0 <= k < rank_path@.len() implies #[trigger] rank_path@[k] < self.n() by {
                if k < fw.len() {
                    assert(rank_path@[k] == fw[fw.len() - 1 - k]);
                } else {
                    assert(rank_path@[k] == bw[k - fw.len()]);
                }
            }
        }
        let unpacked = self.unpack_rank_path(rank_path.as_slice());
        proof {
            self.lemma_unpacked_path_below(rank_path@);
        }
        let mut nodes: Vec<u32> = Vec::new();
        let mut k: usize = 0;
        while k < unpacked.len()
            invariant
                self.wf(),
                k <= unpacked@.len(),
                forall|j: int| 0 <= j < unpacked@.len() ==> #[trigger] unpacked@[j] < self.n(),
                nodes@ == unpacked@.take(k as int).map_values(|x: u32| self.rank_node()[x as int]),
            decreases unpacked@.len() - k,
        {
            proof {
                assert(unpacked@.take(k + 1) =~= unpacked@.take(k as int).push(unpacked@[k as int]));
            }
            nodes.push(self.rank_to_node[unpacked[k] as usize]);
            proof {
                assert(nodes@ =~= unpacked@.take(k + 1).map_values(|x: u32| self.rank_node()[x as int]));
            }
            k = k + 1;
        }
        proof {
            assert(unpacked@.take(k as int) =~= unpacked@);
        }
        nodes
    }

    /// Expanding an edge between ranks below `n` only reaches ranks below `n`.
    proof fn lemma_unpacked_edge_below(&self, from: u32, to: u32)
        requires
            self.wf(),
            from < self.n(),
            to < self.n(),
        ensures
            forall|k: int| 0 <= k < self.unpacked_edge(from, to).len() ==> #[trigger] self.unpacked_edge(from, to)[k] < self.n(),
        decreases min_rank(from, to),
    {
        let lo = min_rank(from, to);
        let hi = if from < to { to } else { from };
        match self.edge_pos(lo, hi) {
            None => {},
            Some(p) => {
                match self.middle()[p] {
                    None => {},
                    Some(m) => {
                        if m < lo {
                            self.lemma_unpacked_edge_below(from, m);
                            self.lemma_unpacked_edge_below(m, to);
                            let a = self.unpacked_edge(from, m);
                            let b = self.unpacked_edge(m, to);
                            assert forall|k: int| 0 <= k < (a + b).len() implies #[trigger] (a + b)[k] < self.n() by {
                                if k >= a.len() {
                                    assert((a + b)[k] == b[k - a.len()]);
                                }
                            }
                        }
                    },
                }
            },
        }
    }

    proof fn lemma_unpacked_path_below(&self, rank_path: Seq<u32>)
        requires
            self.wf(),
            forall|k: int| 0 <= k < rank_path.len() ==> #[trigger] rank_path[k] < self.n(),
        ensures
            forall|k: int| 0 <= k < self.unpacked_path(rank_path).len() ==> #[trigger] self.unpacked_path(rank_path)[k] < self.n(),
        decreases rank_path.len(),
    {
        if rank_path.len() > 1 {
            let init = rank_path.drop_last();
            assert forall|k: int| 0 <= k < init.len() implies #[trigger] init[k] < self.n() by {
                assert(init[k] == rank_path[k]);
            }
            self.lemma_unpacked_path_below(init);
            let a = self.unpacked_path(init);
            let e = self.unpacked_edge(rank_path[rank_path.len() - 2], rank_path.last());
            self.lemma_unpacked_edge_below(rank_path[rank_path.len() - 2], rank_path.last());
            assert forall|k: int| 0 <= k < (a + e).len() implies #[trigger] (a + e)[k] < self.n() by {
                if k >= a.len() {
                    assert((a + e)[k] == e[k - a.len()]);
                }
            }
        }
    }

    /// Law: expanding an edge yields a non-empty run of ranks ending at the
    /// edge's target.
    pub proof fn law_unpacked_edge_ends_at_target(&self, from: u32, to: u32)
        ensures
            self.unpacked_edge(from, to).len() > 0,
            self.unpacked_edge(from, to).last() == to,
        decreases min_rank(from, to),
    {
        let lo = min_rank(from, to);
        let hi = if from < to { to } else { from };
        match self.edge_pos(lo, hi) {
            None => {},
            Some(p) => {
                match self.middle()[p] {
                    None => {},
                    Some(m) => {
                        if m < lo {
                            self.law_unpacked_edge_ends_at_target(from, m);
                            self.law_unpacked_edge_ends_at_target(m, to);
                        }
                    },
                }
            },
        }
    }

    /// Law: unpacking a rank path keeps its endpoints: the unpacked path
    /// starts at the first rank and ends at the last one.
    pub proof fn law_unpacked_path_keeps_endpoints(&self, rank_path: Seq<u32>)
        requires
            rank_path.len() > 0,
        ensures
            self.unpacked_path(rank_path).len() >= rank_path.len(),
            self.unpacked_path(rank_path)[0] == rank_path[0],
            self.unpacked_path(rank_path).last() == rank_path.last(),
        decreases rank_path.len(),
    {
        if rank_path.len() > 1 {
            let init = rank_path.drop_last();
            self.law_unpacked_path_keeps_endpoints(init);
            self.law_unpacked_edge_ends_at_target(rank_path[rank_path.len() - 2], rank_path.last());
        }
    }
}

/// Law: following parent pointers from a rank starts at that rank and
/// visits strictly decreasing ranks.
pub proof fn law_parent_chain_descends(parents: Seq<u32>, r: u32)
    requires
        parents_descend(parents),
        r < parents.len(),
    ensures
        parent_chain(parents, r).len() > 0,
        parent_chain(parents, r)[0] == r,
        forall|i: int, j: int| 0 <= i < j < parent_chain(parents, r).len() ==> #[trigger] parent_chain(parents, r)[i] > #[trigger] parent_chain(parents, r)[j],
    decreases r,
{
    if parents[r as int] < r {
        let next = parents[r as int];
        law_parent_chain_descends(parents, next);
        lemma_chain_below(parents, next);
        let c = parent_chain(parents, r);
        let rest = parent_chain(parents, next);
        assert forall|i: int, j: int| 0 <= i < j < c.len() implies #[trigger] c[i] > #[trigger] c[j] by {
            if i == 0 {
                assert(c[j] == rest[j - 1]);
            } else {
                assert(c[i] == rest[i - 1] && c[j] == rest[j - 1]);
            }
        }
    }
}

/// The position a lookup found, if any, as an integer.
pub open spec fn pos_of(o: Option<usize>) -> Option<int> {
    match o {
        Some(p) => Some(p as int),
        None => None,
    }
}

impl CCHRouter {
    /// Position of the backward edge into `at` from `from`, if there is one.
    pub open spec fn bw_edge_pos(&self, at: u32, from: u32) -> Option<int> {
        let fo = self.bw_first_out();
        let h = self.bw_head();
        if at < self.n() && exists|p: int| fo[at as int] <= p < fo[at + 1] && h[p] == from {
            Some(choose|p: int| fo[at as int] <= p < fo[at + 1] && h[p] == from)
        } else {
            None
        }
    }

    /// Number of upward edges of a rank.
    pub open spec fn up_degree(&self, rank: u32) -> int {
        self.fw_first_out()[rank + 1] - self.fw_first_out()[rank as int]
    }

    /// Head of the `i`-th upward edge of a rank.
    pub open spec fn up_head(&self, rank: u32, i: int) -> u32 {
        self.fw_head()[self.fw_first_out()[rank as int] + i]
    }

    proof fn lemma_bw_edge_pos_found(&self, at: u32, from: u32, p: int)
        requires
            self.wf(),
            at < self.n(),
            self.bw_first_out()[at as int] <= p < self.bw_first_out()[at + 1],
            self.bw_head()[p] == from,
        ensures
            self.bw_edge_pos(at, from) == Some(p),
    {
        let fo = self.bw_first_out();
        let h = self.bw_head();
        let q = choose|q: int| fo[at as int] <= q < fo[at + 1] && h[q] == from;
        if q < p {
            assert(h[q] < h[p]);
        } else if p < q {
            assert(h[p] < h[q]);
        }
    }

    /// Position of the forward edge `lo -> hi`.
    fn forward_edge_pos(&self, lo: u32, hi: u32) -> (r: Option<usize>)
        requires
            self.wf(),
            lo < self.n(),
        ensures
            pos_of(r) == self.edge_pos(lo, hi),
    {
        let r = self.find_forward_pos(lo, hi);
        proof {
            if let Some(p) = r {
                self.lemma_edge_pos_found(lo, hi, p as int);
            }
        }
        r
    }

    /// Position of the backward edge into `at` from `from`.
    fn backward_edge_pos(&self, at: u32, from: u32) -> (r: Option<usize>)
        requires
            self.wf(),
            at < self.n(),
        ensures
            pos_of(r) == self.bw_edge_pos(at, from),
    {
        let r = self.find_backward_pos(at, from);
        proof {
            if let Some(p) = r {
                self.lemma_bw_edge_pos_found(at, from, p as int);
            }
        }
        r
    }

    proof fn lemma_up_star(&self, rank: u32)
        requires
            self.wf(),
            rank < self.n(),
        ensures
            0 <= self.fw_first_out()[rank as int] <= self.fw_first_out()[rank + 1] <= self.fw_head().len(),
            forall|i: int| 0 <= i < self.up_degree(rank) ==> rank < #[trigger] self.up_head(rank, i) < self.n(),
            forall|i: int, j: int|
                0 <= i < j < self.up_degree(rank) ==> #[trigger] self.up_head(rank, i) < #[trigger] self.up_head(rank, j),
    {
        let fo = self.fw_first_out();
        let h = self.fw_head();
        lemma_first_out_bounded(fo, h, self.n() as int, rank + 1);
        assert forall|i: int| 0 <= i < self.up_degree(rank) implies rank < #[trigger] self.up_head(rank, i) < self.n() by {
            assert(fo[rank as int] <= fo[rank as int] + i < fo[rank + 1]);
            assert(h[fo[rank as int] + i] == self.up_head(rank, i));
        }
        assert forall|i: int, j: int| 0 <= i < j < self.up_degree(rank) implies #[trigger] self.up_head(rank, i)
            < #[trigger] self.up_head(rank, j) by {
            let p = fo[rank as int] + i;
            let q = fo[rank as int] + j;
            assert(fo[rank as int] <= p < q < fo[rank + 1]);
            assert(h[p] < h[q]);
        }
    }

    /// For each upward edge of `rank` (in star order), the position of its
    /// reverse in the backward star of its head, if there is one.
    pub fn upward_back_positions(&self, rank: u32) -> (r: Vec<Option<usize>>)
        requires
            self.wf(),
            rank < self.n(),
        ensures
            r@.len() == self.up_degree(rank),
            forall|i: int| 0 <= i < r@.len() ==> pos_of(#[trigger] r@[i]) == self.bw_edge_pos(self.up_head(rank, i), rank),
    {
        proof {
            self.lemma_up_star(rank);
        }
        let begin = self.forward_first_out[rank as usize] as usize;
        let end = self.forward_first_out[rank as usize + 1] as usize;
        let mut out: Vec<Option<usize>> = Vec::new();
        let mut p = begin;
        while p < end
            invariant
                self.wf(),
                rank < self.n(),
                begin == self.fw_first_out()[rank as int],
                end == self.fw_first_out()[rank + 1],
                begin <= p <= end <= self.fw_head().len(),
                out@.len() == p - begin,
                forall|i: int| 0 <= i < self.up_degree(rank) ==> rank < #[trigger] self.up_head(rank, i) < self.n(),
                forall|i: int| 0 <= i < out@.len() ==> pos_of(#[trigger] out@[i]) == self.bw_edge_pos(self.up_head(rank, i), rank),
            decreases end - p,
        {
            let target = self.forward_head[p];
            proof {
                assert(self.up_head(rank, p - begin) == target);
            }
            let bw = self.backward_edge_pos(target, rank);
            out.push(bw);
            p = p + 1;
        }
        out
    }

    /// The triangles below the upward edges of `rank`: for the `i`-th and
    /// `j`-th upward edges (`i < j`, so the head of the first is the lower
    /// rank `lo` and that of the second the higher rank `hi`), entry
    /// `[i][j - i - 1]` holds the positions of the forward edge `lo -> hi`
    /// and of the backward edge into `hi` from `lo`, where they exist.
    /// These are the shortcuts that a path through `rank` may improve when
    /// the hierarchy is customized.
    pub fn lower_triangles(&self, rank: u32) -> (r: Vec<Vec<(Option<usize>, Option<usize>)>>)
        requires
            self.wf(),
            rank < self.n(),
        ensures
            r@.len() == self.up_degree(rank),
            forall|i: int, j: int|
                0 <= i < j < self.up_degree(rank) ==> #[trigger] self.up_head(rank, i) < #[trigger] self.up_head(rank, j),
            forall|i: int| 0 <= i < r@.len() ==> (#[trigger] r@[i])@.len() == self.up_degree(rank) - 1 - i,
            forall|i: int, k: int|
                0 <= i < r@.len() && 0 <= k < r@[i]@.len() ==> {
                    let lo = self.up_head(rank, i);
                    let hi = self.up_head(rank, i + 1 + k);
                    &&& pos_of((#[trigger] r@[i]@[k]).0) == self.edge_pos(lo, hi)
                    &&& pos_of(r@[i]@[k].1) == self.bw_edge_pos(hi, lo)
                },
    {
        proof {
            self.lemma_up_star(rank);
        }
        let begin = self.forward_first_out[rank as usize] as usize;
        let end = self.forward_first_out[rank as usize + 1] as usize;
        let ghost d = self.up_degree(rank);
        let mut out: Vec<Vec<(Option<usize>, Option<usize>)>> = Vec::new();
        let mut p = begin;
        while p < end
            invariant
                self.wf(),
                rank < self.n(),
                begin == self.fw_first_out()[rank as int],
                end == self.fw_first_out()[rank + 1],
                d == end - begin,
                begin <= p <= end <= self.fw_head().len(),
                out@.len() == p - begin,
                forall|i: int| 0 <= i < d ==> rank < #[trigger] self.up_head(rank, i) < self.n(),
                forall|i: int| 0 <= i < out@.len() ==> (#[trigger] out@[i])@.len() == d - 1 - i,
                forall|i: int, k: int|
                    0 <= i < out@.len() && 0 <= k < out@[i]@.len() ==> {
                        let lo = self.up_head(rank, i);
                        let hi = self.up_head(rank, i + 1 + k);
                        &&& pos_of((#[trigger] out@[i]@[k]).0) == self.edge_pos(lo, hi)
                        &&& pos_of(out@[i]@[k].1) == self.bw_edge_pos(hi, lo)
                    },
            decreases end - p,
        {
            let i = p - begin;
            let lo = self.forward_head[p];
            proof {
                assert(self.up_head(rank, i as int) == lo);
            }
            let mut row: Vec<(Option<usize>, Option<usize>)> = Vec::new();
            let mut q = p + 1;
            while q < end
                invariant
                    self.wf(),
                    rank < self.n(),
                    begin == self.fw_first_out()[rank as int],
                    end == self.fw_first_out()[rank + 1],
                    d == end - begin,
                    i == p - begin,
                    begin <= p < end <= self.fw_head().len(),
                    p + 1 <= q <= end,
                    lo == self.up_head(rank, i as int),
                    row@.len() == q - p - 1,
                    forall|x: int| 0 <= x < d ==> rank < #[trigger] self.up_head(rank, x) < self.n(),
                    forall|k: int|
                        0 <= k < row@.len() ==> {
                            let hi = self.up_head(rank, i + 1 + k);
                            &&& pos_of((#[trigger] row@[k]).0) == self.edge_pos(lo, hi)
                            &&& pos_of(row@[k].1) == self.bw_edge_pos(hi, lo)
                        },
                decreases end - q,
            {
                let hi = self.forward_head[q];
                proof {
                    assert(self.up_head(rank, (q - begin) as int) == hi);
                    assert(i + 1 + (q - p - 1) == q - begin);
                    assert(lo < self.n());
                    assert(hi < self.n());
                }
                let fw = self.forward_edge_pos(lo, hi);
                let bw = self.backward_edge_pos(hi, lo);
                row.push((fw, bw));
                q = q + 1;
            }
            out.push(row);
            p = p + 1;
        }
        out
    }
}

/// The nodes an edge path passes, as the reroute step rebuilds a route
/// from edges: the source of the first edge (when its endpoints are known),
/// then the target of every edge whose endpoints are known.
pub open spec fn edge_path_nodes(ends: Seq<(u32, u32)>, edges: Seq<u32>) -> Seq<u32>
    decreases edges.len(),
{
    if edges.len() == 0 {
        Seq::empty()
    } else {
        let before = edge_path_nodes(ends, edges.drop_last());
        let e = edges.last();
        if e < ends.len() {
            if edges.len() == 1 {
                before.push(ends[e as int].0).push(ends[e as int].1)
            } else {
                before.push(ends[e as int].1)
            }
        } else {
            before
        }
    }
}

/// Source and target node of every road-graph edge, indexed by edge ID.
#[derive(Debug, Clone)]
pub struct EdgeNodeMap {
    endpoints: Vec<(u32, u32)>,
}

impl EdgeNodeMap {
    /// The `(source, target)` pairs, by edge ID.
    pub closed spec fn ends(&self) -> Seq<(u32, u32)> {
        self.endpoints@
    }

    /// A map from the endpoints of each edge, in edge ID order.
    pub fn new(endpoints: Vec<(u32, u32)>) -> (r: Self)
        ensures
            r.ends() == endpoints@,
    {
        EdgeNodeMap { endpoints }
    }

    /// Source and target node of an edge; `None` for an unknown edge ID.
    pub fn get(&self, edge_id: u32) -> (r: Option<(u32, u32)>)
        ensures
            r == if edge_id < self.ends().len() {
                Some(self.ends()[edge_id as int])
            } else {
                None
            },
    {
        if (edge_id as usize) < self.endpoints.len() {
            Some(self.endpoints[edge_id as usize])
        } else {
            None
        }
    }

    /// The node path of an edge path: the source of the first edge, then
    /// the target of each edge; edges with an unknown ID are passed over
    /// (and if the first one is unknown, no source is taken).
    pub fn node_path(&self, edges: &Vec<u32>) -> (r: Vec<u32>)
        ensures
            r@ == edge_path_nodes(self.ends(), edges@),
    {
        let mut out: Vec<u32> = Vec::new();
        let mut i: usize = 0;
        proof {
            assert(edges@.take(0) =~= Seq::<u32>::empty());
        }
        while i < edges.len()
            invariant
                0 <= i <= edges@.len(),
                out@ == edge_path_nodes(self.ends(), edges@.take(i as int)),
            decreases edges@.len() - i,
        {
            proof {
                assert(edges@.take(i + 1).drop_last() =~= edges@.take(i as int));
                assert(edges@.take(i + 1).last() == edges@[i as int]);
            }
            match self.get(edges[i]) {
                Some((src, tgt)) => {
                    if i == 0 {
                        out.push(src);
                    }
                    out.push(tgt);
                },
                None => {},
            }
            i = i + 1;
        }
        proof {
            assert(edges@.take(edges@.len() as int) =~= edges@);
        }
        out
    }
}

} // verus!
