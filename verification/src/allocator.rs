//! Allocators of virtual page ranges and of physical frames.
use vstd::prelude::*;
use std::collections::BTreeSet;
use crate::error::KernelError;

verus! {

/// A boundary in the list of page intervals: the interval `[vpn, next node's vpn)`
/// is occupied when `used` holds. The last node only closes the last interval.
pub struct PageNode {
    pub used: bool,
    pub vpn: usize,
}

/// Node vpns strictly increase along the list.
spec fn nodes_sorted(s: Seq<PageNode>) -> bool {
    forall|i: int, j: int| 0 <= i < j < s.len() ==> s[i].vpn < s[j].vpn
}

/// Two consecutive intervals never have the same state.
spec fn nodes_alternate(s: Seq<PageNode>) -> bool {
    forall|i: int| #![trigger s[i].used] 0 <= i && i + 2 < s.len() ==> s[i].used != s[i + 1].used
}

/// Page `v` lies in the interval opened by node `i`.
spec fn in_interval(s: Seq<PageNode>, i: int, v: int) -> bool {
    0 <= i && i + 1 < s.len() && s[i].vpn <= v && v < s[i + 1].vpn
}

/// Page `v` lies in an occupied interval.
spec fn used_at(s: Seq<PageNode>, v: int) -> bool {
    exists|i: int| #[trigger] in_interval(s, i, v) && s[i].used
}

proof fn lemma_used_at_index(s: Seq<PageNode>, i: int, v: int)
    requires
        nodes_sorted(s),
        in_interval(s, i, v),
    ensures
        used_at(s, v) == s[i].used,
{
    if used_at(s, v) {
        let j = choose|j: int| #[trigger] in_interval(s, j, v) && s[j].used;
        if j < i {
            assert(s[j + 1].vpn <= s[i].vpn);
        } else if j > i {
            assert(s[i + 1].vpn <= s[j].vpn);
        }
    }
}

proof fn lemma_interval_exists(s: Seq<PageNode>, v: int) -> (i: int)
    requires
        nodes_sorted(s),
        s.len() >= 2,
        s[0].vpn <= v < s[s.len() - 1].vpn,
    ensures
        in_interval(s, i, v),
    decreases s.len(),
{
    let n = s.len();
    if v >= s[n - 2].vpn {
        n - 2
    } else {
        let t = s.drop_last();
        assert(nodes_sorted(t));
        let i = lemma_interval_exists(t, v);
        assert(in_interval(t, i, v));
        i
    }
}

proof fn lemma_used_out_of_range(s: Seq<PageNode>, v: int)
    requires
        nodes_sorted(s),
        s.len() >= 2,
        v < s[0].vpn || v >= s[s.len() - 1].vpn,
    ensures
        !used_at(s, v),
{
    if used_at(s, v) {
        let j = choose|j: int| #[trigger] in_interval(s, j, v) && s[j].used;
        assert(s[0].vpn <= s[j].vpn);
        assert(s[j + 1].vpn <= s[s.len() - 1].vpn);
    }
}

/// Inserting a node strictly inside interval `k - 1` gives the pages from the new
/// node's vpn up to the old next boundary the new node's state.
proof fn lemma_insert_view(s: Seq<PageNode>, k: int, n: PageNode)
    requires
        nodes_sorted(s),
        s.len() >= 2,
        1 <= k <= s.len() - 1,
        s[k - 1].vpn < n.vpn < s[k].vpn,
    ensures
        nodes_sorted(s.insert(k, n)),
        s.insert(k, n).len() == s.len() + 1,
        s.insert(k, n)[0] == s[0],
        s.insert(k, n)[s.len() as int] == s[s.len() - 1],
        forall|v: int|
            #![trigger used_at(s.insert(k, n), v)]
            used_at(s.insert(k, n), v) == if n.vpn <= v < s[k].vpn {
                n.used
            } else {
                used_at(s, v)
            },
{
    let t = s.insert(k, n);
    s.insert_ensures(k, n);
    assert(nodes_sorted(t)) by {
        assert forall|i: int, j: int| 0 <= i < j < t.len() implies t[i].vpn < t[j].vpn by {
            if i < k && j > k {
                assert(t[j] == s[j - 1]);
            } else if i > k {
                assert(t[j] == s[j - 1]);
                assert(t[i] == s[i - 1]);
            } else if j > k {
                assert(t[j] == s[j - 1]);
            }
        }
    }
    assert forall|v: int| #[trigger] used_at(t, v) == if n.vpn <= v < s[k].vpn {
        n.used
    } else {
        used_at(s, v)
    } by {
        if v < s[0].vpn || v >= s[s.len() - 1].vpn {
            lemma_used_out_of_range(s, v);
            lemma_used_out_of_range(t, v);
        } else {
            let j = lemma_interval_exists(s, v);
            lemma_used_at_index(s, j, v);
            if j < k - 1 {
                assert(in_interval(t, j, v));
                lemma_used_at_index(t, j, v);
            } else if j == k - 1 {
                if v < n.vpn {
                    assert(in_interval(t, j, v));
                    lemma_used_at_index(t, j, v);
                } else {
                    assert(in_interval(t, k, v));
                    lemma_used_at_index(t, k, v);
                }
            } else {
                assert(t[j + 1] == s[j]);
                assert(t[j + 2] == s[j + 1]);
                assert(in_interval(t, j + 1, v));
                lemma_used_at_index(t, j + 1, v);
            }
        }
    }
}

/// Changing the state of node `k` changes the state of exactly its interval.
proof fn lemma_update_view(s: Seq<PageNode>, k: int, n: PageNode)
    requires
        nodes_sorted(s),
        s.len() >= 2,
        0 <= k < s.len() - 1,
        n.vpn == s[k].vpn,
    ensures
        nodes_sorted(s.update(k, n)),
        forall|v: int|
            #![trigger used_at(s.update(k, n), v)]
            used_at(s.update(k, n), v) == if s[k].vpn <= v < s[k + 1].vpn {
                n.used
            } else {
                used_at(s, v)
            },
{
    let t = s.update(k, n);
    assert forall|v: int| #[trigger] used_at(t, v) == if s[k].vpn <= v < s[k + 1].vpn {
        n.used
    } else {
        used_at(s, v)
    } by {
        if v < s[0].vpn || v >= s[s.len() - 1].vpn {
            lemma_used_out_of_range(s, v);
            lemma_used_out_of_range(t, v);
        } else {
            let j = lemma_interval_exists(s, v);
            lemma_used_at_index(s, j, v);
            assert(in_interval(t, j, v));
            lemma_used_at_index(t, j, v);
        }
    }
}

/// Removing an inner node whose state equals its predecessor's changes no page.
proof fn lemma_remove_view(s: Seq<PageNode>, m: int)
    requires
        nodes_sorted(s),
        0 < m < s.len() - 1,
        s[m].used == s[m - 1].used,
    ensures
        nodes_sorted(s.remove(m)),
        s.remove(m).len() == s.len() - 1,
        s.remove(m)[0] == s[0],
        s.remove(m)[s.len() - 2] == s[s.len() - 1],
        forall|v: int| #![trigger used_at(s.remove(m), v)] used_at(s.remove(m), v) == used_at(s, v),
{
    let t = s.remove(m);
    s.remove_ensures(m);
    assert(nodes_sorted(t)) by {
        assert forall|i: int, j: int| 0 <= i < j < t.len() implies t[i].vpn < t[j].vpn by {
            if j >= m {
                assert(t[j] == s[j + 1]);
            }
            if i >= m {
                assert(t[i] == s[i + 1]);
            }
        }
    }
    assert forall|v: int| #[trigger] used_at(t, v) == used_at(s, v) by {
        if v < s[0].vpn || v >= s[s.len() - 1].vpn {
            lemma_used_out_of_range(s, v);
            lemma_used_out_of_range(t, v);
        } else {
            let j = lemma_interval_exists(s, v);
            lemma_used_at_index(s, j, v);
            if j < m - 1 {
                assert(in_interval(t, j, v));
                lemma_used_at_index(t, j, v);
            } else if j == m - 1 || j == m {
                assert(t[m] == s[m + 1]);
                assert(in_interval(t, m - 1, v));
                lemma_used_at_index(t, m - 1, v);
            } else {
                assert(t[j - 1] == s[j]);
                assert(t[j] == s[j + 1]);
                assert(in_interval(t, j - 1, v));
                lemma_used_at_index(t, j - 1, v);
            }
        }
    }
}

/// The node at `index` has a previous and a next node and the previous interval's state.
pub open spec fn mergeable(s: Seq<PageNode>, index: int) -> bool {
    0 < index && index + 1 < s.len() && s[index].used == s[index - 1].used
}

/// The list after merging the interval of the node at `index` into the previous one.
pub open spec fn merged_nodes(s: Seq<PageNode>, index: int) -> Seq<PageNode> {
    if mergeable(s, index) {
        s.remove(index)
    } else {
        s
    }
}

spec fn nodes_wf(s: Seq<PageNode>) -> bool {
    &&& s.len() >= 2
    &&& nodes_sorted(s)
    &&& nodes_alternate(s)
}

/// What `change` needs about the interval `l` it works in.
spec fn change_pre(s: Seq<PageNode>, l: int, sv: int, ev: int, used: bool) -> bool {
    &&& nodes_wf(s)
    &&& 0 <= l && l + 1 < s.len()
    &&& s[l].vpn <= sv < ev <= s[l + 1].vpn
    &&& s[l].used != used
}

/// What `change` guarantees about the new list `t`.
spec fn change_post(s: Seq<PageNode>, t: Seq<PageNode>, sv: int, ev: int, used: bool) -> bool {
    &&& nodes_wf(t)
    &&& t[0].vpn == s[0].vpn
    &&& t[t.len() - 1].vpn == s[s.len() - 1].vpn
    &&& forall|v: int|
        #[trigger] used_at(t, v) == if sv <= v < ev {
            used
        } else {
            used_at(s, v)
        }
}

proof fn lemma_interval_state(s: Seq<PageNode>, l: int, sv: int, ev: int)
    requires
        nodes_sorted(s),
        0 <= l && l + 1 < s.len(),
        s[l].vpn <= sv,
        ev <= s[l + 1].vpn,
    ensures
        forall|v: int| sv <= v < ev ==> #[trigger] used_at(s, v) == s[l].used,
{
    assert forall|v: int| sv <= v < ev implies #[trigger] used_at(s, v) == s[l].used by {
        assert(in_interval(s, l, v));
        lemma_used_at_index(s, l, v);
    }
}

/// The range lies strictly inside interval `l`: two boundaries are inserted.
#[verifier::rlimit(40)]
proof fn lemma_change_inner(s: Seq<PageNode>, l: int, a: PageNode, b: PageNode)
    requires
        change_pre(s, l, a.vpn as int, b.vpn as int, a.used),
        s[l].vpn < a.vpn,
        b.vpn < s[l + 1].vpn,
        b.used == !a.used,
    ensures
        change_post(s, s.insert(l + 1, a).insert(l + 2, b), a.vpn as int, b.vpn as int, a.used),
{
    let s1 = s.insert(l + 1, a);
    let t = s1.insert(l + 2, b);
    lemma_insert_view(s, l + 1, a);
    lemma_insert_view(s1, l + 2, b);
    s.insert_ensures(l + 1, a);
    s1.insert_ensures(l + 2, b);
    lemma_interval_state(s, l, s[l].vpn as int, s[l + 1].vpn as int);
    assert forall|i: int| #![trigger t[i].used] 0 <= i && i + 2 < t.len() implies t[i].used
        != t[i + 1].used by {
        if i < l {
            assert(s[i].used != s[i + 1].used);
        } else if i > l + 2 {
            assert(t[i] == s[i - 2]);
            assert(t[i + 1] == s[i - 1]);
            assert(s[i - 2].used != s[i - 1].used);
        } else if i == l + 2 {
            assert(t[i + 1] == s[l + 1]);
            assert(s[l].used != s[l + 1].used);
        }
    }
}

/// The range ends at the end of interval `l`: one boundary is inserted and the
/// interval after the range may merge into it.
#[verifier::rlimit(40)]
proof fn lemma_change_upper(s: Seq<PageNode>, l: int, a: PageNode)
    requires
        change_pre(s, l, a.vpn as int, s[l + 1].vpn as int, a.used),
        s[l].vpn < a.vpn,
    ensures
        change_post(s, merged_nodes(s.insert(l + 1, a), l + 2), a.vpn as int, s[l + 1].vpn as int, a.used),
{
    let s1 = s.insert(l + 1, a);
    let t = merged_nodes(s1, l + 2);
    lemma_insert_view(s, l + 1, a);
    s.insert_ensures(l + 1, a);
    let merged = mergeable(s1, l + 2);
    if merged {
        lemma_remove_view(s1, l + 2);
        s1.remove_ensures(l + 2);
    } else if l + 2 < s.len() {
        assert(s[l].used != s[l + 1].used);
    }
    assert forall|i: int| #![trigger t[i].used] 0 <= i && i + 2 < t.len() implies t[i].used
        != t[i + 1].used by {
        if i < l {
            assert(s[i].used != s[i + 1].used);
        } else if i == l + 1 {
            assert(t[i + 1] == s[l + 2]);
            assert(s[l].used != s[l + 1].used);
            assert(s[l + 1].used != s[l + 2].used);
        } else if i > l + 1 {
            assert(t[i] == s[i]);
            assert(t[i + 1] == s[i + 1]);
            assert(s[i].used != s[i + 1].used);
        }
    }
}

/// The range starts at the start of interval `l`: its node changes state, one
/// boundary is inserted and the interval may merge into the previous one.
#[verifier::rlimit(40)]
proof fn lemma_change_lower(s: Seq<PageNode>, l: int, a: PageNode, b: PageNode)
    requires
        change_pre(s, l, s[l].vpn as int, b.vpn as int, a.used),
        a.vpn == s[l].vpn,
        b.vpn < s[l + 1].vpn,
        b.used == !a.used,
    ensures
        change_post(s, merged_nodes(s.update(l, a).insert(l + 1, b), l), a.vpn as int, b.vpn as int, a.used),
{
    let s1 = s.update(l, a);
    let s2 = s1.insert(l + 1, b);
    let t = merged_nodes(s2, l);
    lemma_update_view(s, l, a);
    lemma_insert_view(s1, l + 1, b);
    s1.insert_ensures(l + 1, b);
    lemma_interval_state(s, l, s[l].vpn as int, s[l + 1].vpn as int);
    let merged = mergeable(s2, l);
    if merged {
        lemma_remove_view(s2, l);
        s2.remove_ensures(l);
    } else if l > 0 {
        assert(s[l - 1].used != s[l].used);
    }
    assert forall|i: int| #![trigger t[i].used] 0 <= i && i + 2 < t.len() implies t[i].used
        != t[i + 1].used by {
        if merged {
            if i < l - 1 {
                assert(s[i].used != s[i + 1].used);
            } else if i == l - 1 {
                assert(t[i + 1] == b);
                assert(s[l - 1].used != s[l].used);
            } else if i == l {
                assert(t[i + 1] == s[l + 1]);
                assert(s[l].used != s[l + 1].used);
            } else {
                assert(t[i] == s[i]);
                assert(t[i + 1] == s[i + 1]);
                assert(s[i].used != s[i + 1].used);
            }
        } else {
            if i < l - 1 {
                assert(s[i].used != s[i + 1].used);
            } else if i == l + 1 {
                assert(t[i + 1] == s[l + 1]);
                assert(s[l].used != s[l + 1].used);
            } else if i > l + 1 {
                assert(t[i] == s[i - 1]);
                assert(t[i + 1] == s[i]);
                assert(s[i - 1].used != s[i].used);
            }
        }
    }
    assert forall|v: int| #[trigger] used_at(t, v) == if a.vpn <= v < b.vpn {
        a.used
    } else {
        used_at(s, v)
    } by {
        assert(used_at(s2, v) == if b.vpn <= v < s[l + 1].vpn {
            b.used
        } else {
            used_at(s1, v)
        });
        assert(used_at(s1, v) == if s[l].vpn <= v < s[l + 1].vpn {
            a.used
        } else {
            used_at(s, v)
        });
    }
}

/// The range is exactly interval `l`: its node changes state and the interval may
/// merge with both neighbours.
#[verifier::rlimit(40)]
proof fn lemma_change_whole(s: Seq<PageNode>, l: int, a: PageNode)
    requires
        change_pre(s, l, s[l].vpn as int, s[l + 1].vpn as int, a.used),
        a.vpn == s[l].vpn,
    ensures
        ({
            let s1 = s.update(l, a);
            let s2 = merged_nodes(s1, l);
            let ri = if mergeable(s1, l) { l } else { l + 1 };
            change_post(s, merged_nodes(s2, ri), s[l].vpn as int, s[l + 1].vpn as int, a.used)
        }),
{
    let n = s.len();
    let s1 = s.update(l, a);
    lemma_update_view(s, l, a);
    let merged = mergeable(s1, l);
    let s2 = merged_nodes(s1, l);
    if merged {
        lemma_remove_view(s1, l);
        s1.remove_ensures(l);
    } else if l > 0 {
        assert(s[l - 1].used != s[l].used);
    }
    let ri = if merged { l } else { l + 1 };
    assert(s2[ri] == s[l + 1]);
    let merged_right = mergeable(s2, ri);
    let t = merged_nodes(s2, ri);
    if merged_right {
        lemma_remove_view(s2, ri);
        s2.remove_ensures(ri);
    } else if l + 2 < n {
        assert(s[l].used != s[l + 1].used);
    }
    assert forall|i: int| #![trigger t[i].used] 0 <= i && i + 2 < t.len() implies t[i].used
        != t[i + 1].used by {
        let shift: int = (if merged { 1int } else { 0int }) + (if merged_right { 1int } else { 0int });
        if i + 1 < ri {
            assert(t[i] == s[i]);
            assert(t[i + 1] == s[i + 1]);
            assert(s[i].used != s[i + 1].used);
        } else if i + 1 == ri {
            if merged_right {
                assert(t[i + 1] == s[l + 2]);
                if merged {
                    assert(t[i] == s[l - 1]);
                    assert(s[l - 1].used != s[l].used);
                    assert(s[l].used != s[l + 1].used);
                    assert(s[l + 1].used != s[l + 2].used);
                } else {
                    assert(t[i] == a);
                    assert(s[l].used != s[l + 1].used);
                    assert(s[l + 1].used != s[l + 2].used);
                }
            } else {
                assert(t[i + 1] == s[l + 1]);
                if merged {
                    assert(t[i] == s[l - 1]);
                    assert(s[l - 1].used != s[l].used);
                } else {
                    assert(t[i] == a);
                }
            }
        } else {
            assert(t[i] == s[i + shift]);
            assert(t[i + 1] == s[i + 1 + shift]);
            assert(s[i + shift].used != s[i + 1 + shift].used);
        }
    }
}

impl PageNode {
    /// A node opening an interval at `vpn` in state `used`.
    pub fn new(used: bool, vpn: usize) -> (r: Self)
        ensures
            r.used == used,
            r.vpn == vpn,
    {
        Self { used, vpn }
    }

    /// Makes the node at `next` follow the node at `prev`, dropping the nodes between
    /// them from the list.
    pub fn link(nodes: &mut Vec<PageNode>, prev: usize, next: usize)
        requires
            prev < next < old(nodes)@.len(),
        ensures
            final(nodes)@ == old(nodes)@.subrange(0, prev + 1) + old(nodes)@.subrange(
                next as int,
                old(nodes)@.len() as int,
            ),
    {
        let count = next - prev - 1;
        let mut k: usize = 0;
        while k < count
            invariant
                prev < next < old(nodes)@.len(),
                count == next - prev - 1,
                k <= count,
                nodes@ == old(nodes)@.subrange(0, prev + 1) + old(nodes)@.subrange(
                    prev + 1 + k,
                    old(nodes)@.len() as int,
                ),
            decreases count - k,
        {
            nodes.remove(prev + 1);
            k = k + 1;
            assert(nodes@ =~= old(nodes)@.subrange(0, prev + 1) + old(nodes)@.subrange(
                prev + 1 + k,
                old(nodes)@.len() as int,
            ));
        }
    }

    /// Merges the interval of the node at `index` into the previous interval when both
    /// have the same state and the node has a previous and a next node. Returns
    /// whether the node was removed.
    pub fn merge_range(nodes: &mut Vec<PageNode>, index: usize) -> (merged: bool)
        requires
            index < old(nodes)@.len(),
        ensures
            merged == mergeable(old(nodes)@, index as int),
            final(nodes)@ == merged_nodes(old(nodes)@, index as int),
    {
        if index > 0 && index < nodes.len() - 1 && nodes[index].used == nodes[index - 1].used {
            Self::link(nodes, index - 1, index + 1);
            assert(nodes@ =~= old(nodes)@.remove(index as int));
            true
        } else {
            false
        }
    }
}

/// Virtual page ranges handed out from `[start, end)`, kept as a sorted list of
/// interval boundaries; consecutive intervals are never both occupied nor both free.
pub struct LinkedListPageRangeAllocator {
    nodes: Vec<PageNode>,
}

impl LinkedListPageRangeAllocator {
    /// The list is well formed: two or more boundaries, sorted, alternating.
    pub closed spec fn wf(&self) -> bool {
        &&& self.nodes@.len() >= 2
        &&& nodes_sorted(self.nodes@)
        &&& nodes_alternate(self.nodes@)
    }

    /// The first page the allocator manages.
    pub closed spec fn start(&self) -> usize {
        self.nodes@[0].vpn
    }

    /// The page after the last one the allocator manages.
    pub closed spec fn end(&self) -> usize {
        self.nodes@[self.nodes@.len() - 1].vpn
    }

    /// The boundaries of the intervals, in list order; each says whether the
    /// interval it opens is used.
    pub closed spec fn boundaries(&self) -> Seq<PageNode> {
        self.nodes@
    }

    /// The boundaries run from the allocator's first page to the page after its last,
    /// strictly increase, and two neighbouring intervals are never both used or both
    /// free; every operation keeps the allocator well formed, so this holds after any
    /// sequence of them.
    pub proof fn law_boundaries_ordered(&self)
        requires
            self.wf(),
        ensures
            self.boundaries().len() >= 2,
            self.boundaries()[0].vpn == self.start(),
            self.boundaries()[self.boundaries().len() - 1].vpn == self.end(),
            forall|i: int, j: int|
                0 <= i < j < self.boundaries().len() ==> #[trigger] self.boundaries()[i].vpn
                    < #[trigger] self.boundaries()[j].vpn,
            forall|i: int|
                #![trigger self.boundaries()[i].used]
                0 <= i && i + 2 < self.boundaries().len() ==> self.boundaries()[i].used != self.boundaries()[i
                    + 1].used,
    {
    }

    /// The occupied pages.
    pub closed spec fn view(&self) -> Set<usize> {
        Set::new(|v: usize| used_at(self.nodes@, v as int))
    }

    /// Occupied pages lie in `[start, end)`.
    pub proof fn lemma_view_bounds(&self)
        requires
            self.wf(),
        ensures
            forall|v: usize| #[trigger] self@.contains(v) ==> self.start() <= v < self.end(),
    {
        assert forall|v: usize| #[trigger] self@.contains(v) implies self.start() <= v < self.end() by {
            let j = choose|j: int| #[trigger] in_interval(self.nodes@, j, v as int) && self.nodes@[j].used;
            if j > 0 {
                assert(self.nodes@[0].vpn < self.nodes@[j].vpn);
            }
            if j + 1 < self.nodes@.len() - 1 {
                assert(self.nodes@[j + 1].vpn < self.nodes@[self.nodes@.len() - 1].vpn);
            }
        }
    }

    /// A manager of `[start_vpn, end_vpn)` with no page occupied.
    pub fn new(start_vpn: usize, end_vpn: usize) -> (r: Self)
        requires
            start_vpn < end_vpn,
        ensures
            r.wf(),
            r.start() == start_vpn,
            r.end() == end_vpn,
            r@ == Set::<usize>::empty(),
    {
        let mut nodes: Vec<PageNode> = Vec::new();
        nodes.push(PageNode::new(false, start_vpn));
        nodes.push(PageNode::new(false, end_vpn));
        let r = Self { nodes };
        assert forall|v: usize| !r@.contains(v) by {
            if used_at(r.nodes@, v as int) {
                let j = choose|j: int| #[trigger] in_interval(r.nodes@, j, v as int) && r.nodes@[j].used;
                assert(j == 0);
            }
        }
        assert(r@ =~= Set::<usize>::empty());
        r
    }

    /// The pair of consecutive boundaries whose interval contains `[start_vpn, end_vpn)`,
    /// as indices into the list; `None` when no interval contains it.
    fn find_range_nodes(&self, start_vpn: usize, end_vpn: usize) -> (r: Option<(usize, usize)>)
        requires
            self.wf(),
            start_vpn < end_vpn,
        ensures
            match r {
                Some((l, rr)) => rr == l + 1 && rr < self.nodes@.len() && self.nodes@[l as int].vpn
                    <= start_vpn && end_vpn <= self.nodes@[rr as int].vpn,
                None => forall|l: int|
                    0 <= l && l + 1 < self.nodes@.len() ==> !(self.nodes@[l].vpn <= start_vpn
                        && end_vpn <= #[trigger] self.nodes@[l + 1].vpn),
            },
    {
        let mut current: usize = 0;
        while current < self.nodes.len() - 1
            invariant
                self.wf(),
                start_vpn < end_vpn,
                current < self.nodes@.len(),
                forall|l: int| 0 <= l < current ==> #[trigger] self.nodes@[l + 1].vpn <= start_vpn,
            decreases self.nodes@.len() - current,
        {
            let current_vpn = self.nodes[current].vpn;
            let next_vpn = self.nodes[current + 1].vpn;
            if current_vpn <= start_vpn && next_vpn >= end_vpn {
                return Some((current, current + 1));
            } else if next_vpn <= start_vpn {
                current = current + 1;
            } else {
                assert forall|l: int|
                    0 <= l && l + 1 < self.nodes@.len() implies !(self.nodes@[l].vpn <= start_vpn
                        && end_vpn <= #[trigger] self.nodes@[l + 1].vpn) by {
                    if l > current {
                        assert(self.nodes@[current as int + 1].vpn <= self.nodes@[l].vpn);
                    }
                }
                return None;
            }
        }
        None
    }

    /// Sets the pages `[start_vpn, end_vpn)` to `used`. Succeeds exactly when the
    /// range is non-empty, inside the managed pages and entirely in the other state.
    fn change(&mut self, start_vpn: usize, end_vpn: usize, used: bool) -> (r: Option<()>)
        requires
            old(self).wf(),
        ensures
            final(self).wf(),
            final(self).start() == old(self).start(),
            final(self).end() == old(self).end(),
            r is Some <==> {
                &&& old(self).start() <= start_vpn
                &&& start_vpn < end_vpn
                &&& end_vpn <= old(self).end()
                &&& forall|v: int|
                    start_vpn <= v < end_vpn ==> #[trigger] used_at(old(self).nodes@, v) != used
            },
            r is Some ==> forall|v: int|
                #[trigger] used_at(final(self).nodes@, v) == if start_vpn <= v < end_vpn {
                    used
                } else {
                    used_at(old(self).nodes@, v)
                },
            r is None ==> final(self).nodes@ == old(self).nodes@,
    {
        let ghost s = self.nodes@;
        let ghost n = s.len();
        if start_vpn >= end_vpn {
            return None;
        }
        let found = self.find_range_nodes(start_vpn, end_vpn);
        let (left, right) = match found {
            Some(p) => p,
            None => {
                proof {
                    if s[0].vpn <= start_vpn && end_vpn <= s[n - 1].vpn && forall|v: int|
                        start_vpn <= v < end_vpn ==> #[trigger] used_at(s, v) != used {
                        let j = lemma_interval_exists(s, start_vpn as int);
                        lemma_used_at_index(s, j, start_vpn as int);
                        assert(!(s[j].vpn <= start_vpn && end_vpn <= s[j + 1].vpn));
                        assert(j + 1 < n - 1);
                        let w = s[j + 1].vpn as int;
                        assert(in_interval(s, j + 1, w));
                        lemma_used_at_index(s, j + 1, w);
                        assert(used_at(s, w) != used);
                    }
                }
                return None;
            },
        };
        let left_vpn = self.nodes[left].vpn;
        let right_vpn = self.nodes[right].vpn;
        let left_used = self.nodes[left].used;
        proof {
            assert(in_interval(s, left as int, start_vpn as int));
            lemma_used_at_index(s, left as int, start_vpn as int);
            assert forall|v: int| start_vpn <= v < end_vpn implies #[trigger] used_at(s, v)
                == left_used by {
                assert(in_interval(s, left as int, v));
                lemma_used_at_index(s, left as int, v);
            }
            assert(s[0].vpn <= s[left as int].vpn);
            assert(s[right as int].vpn <= s[n - 1].vpn);
        }
        if left_used == used {
            return None;
        }
        proof {
            assert(s[left as int].vpn < s[right as int].vpn);
        }
        if left_vpn != start_vpn && right_vpn != end_vpn {
            let a = PageNode::new(used, start_vpn);
            self.nodes.insert(left + 1, a);
            let _len = self.nodes.len();
            let b = PageNode::new(!used, end_vpn);
            self.nodes.insert(left + 2, b);
            proof {
                lemma_change_inner(s, left as int, a, b);
            }
        } else if left_vpn != start_vpn && right_vpn == end_vpn {
            let a = PageNode::new(used, start_vpn);
            self.nodes.insert(left + 1, a);
            let _len = self.nodes.len();
            PageNode::merge_range(&mut self.nodes, left + 2);
            proof {
                lemma_change_upper(s, left as int, a);
            }
        } else if left_vpn == start_vpn && right_vpn != end_vpn {
            let a = PageNode::new(used, left_vpn);
            self.nodes.set(left, a);
            let b = PageNode::new(!used, end_vpn);
            self.nodes.insert(left + 1, b);
            PageNode::merge_range(&mut self.nodes, left);
            proof {
                lemma_change_lower(s, left as int, a, b);
            }
        } else {
            let a = PageNode::new(used, left_vpn);
            self.nodes.set(left, a);
            let merged = PageNode::merge_range(&mut self.nodes, left);
            let right_index = if merged {
                left
            } else {
                left + 1
            };
            PageNode::merge_range(&mut self.nodes, right_index);
            proof {
                lemma_change_whole(s, left as int, a);
            }
        }
        Some(())
    }

    /// Occupies the pages `[start_vpn, end_vpn)`. Succeeds exactly when the range is
    /// non-empty, inside the managed pages and entirely free; otherwise nothing changes.
    pub fn allocate(&mut self, start_vpn: usize, end_vpn: usize) -> (r: Option<()>)
        requires
            old(self).wf(),
        ensures
            final(self).wf(),
            final(self).start() == old(self).start(),
            final(self).end() == old(self).end(),
            r is Some <==> {
                &&& old(self).start() <= start_vpn
                &&& start_vpn < end_vpn
                &&& end_vpn <= old(self).end()
                &&& forall|v: usize| start_vpn <= v < end_vpn ==> !#[trigger] old(self)@.contains(v)
            },
            r is Some ==> final(self)@ == old(self)@.union(
                Set::new(|v: usize| start_vpn <= v < end_vpn),
            ),
            r is None ==> final(self)@ == old(self)@,
    {
        let r = self.change(start_vpn, end_vpn, true);
        proof {
            if r is Some {
                assert(final(self)@ =~= old(self)@.union(
                    Set::new(|v: usize| start_vpn <= v < end_vpn),
                ));
            } else {
                assert(final(self)@ =~= old(self)@);
                if old(self).start() <= start_vpn && start_vpn < end_vpn && end_vpn <= old(self).end()
                    && forall|v: usize| start_vpn <= v < end_vpn ==> !#[trigger] old(self)@.contains(v) {
                    assert forall|v: int| start_vpn <= v < end_vpn implies #[trigger] used_at(
                        old(self).nodes@,
                        v,
                    ) != true by {
                        assert(!old(self)@.contains(v as usize));
                    }
                }
            }
        }
        r
    }

    /// Frees the pages `[start_vpn, end_vpn)`. Succeeds exactly when the range is
    /// non-empty, inside the managed pages and entirely occupied; otherwise nothing
    /// changes.
    pub fn dealloc(&mut self, start_vpn: usize, end_vpn: usize) -> (r: Option<()>)
        requires
            old(self).wf(),
        ensures
            final(self).wf(),
            final(self).start() == old(self).start(),
            final(self).end() == old(self).end(),
            r is Some <==> {
                &&& old(self).start() <= start_vpn
                &&& start_vpn < end_vpn
                &&& end_vpn <= old(self).end()
                &&& forall|v: usize| start_vpn <= v < end_vpn ==> #[trigger] old(self)@.contains(v)
            },
            r is Some ==> final(self)@ == old(self)@.difference(
                Set::new(|v: usize| start_vpn <= v < end_vpn),
            ),
            r is None ==> final(self)@ == old(self)@,
    {
        let r = self.change(start_vpn, end_vpn, false);
        proof {
            if r is Some {
                assert(final(self)@ =~= old(self)@.difference(
                    Set::new(|v: usize| start_vpn <= v < end_vpn),
                ));
            } else {
                assert(final(self)@ =~= old(self)@);
                if old(self).start() <= start_vpn && start_vpn < end_vpn && end_vpn <= old(self).end()
                    && forall|v: usize| start_vpn <= v < end_vpn ==> #[trigger] old(self)@.contains(v) {
                    assert forall|v: int| start_vpn <= v < end_vpn implies #[trigger] used_at(
                        old(self).nodes@,
                        v,
                    ) != false by {
                        assert(old(self)@.contains(v as usize));
                    }
                }
            }
        }
        r
    }
}

} // verus!

verus! {

broadcast use vstd::laws_cmp::group_laws_cmp;

/// Removes and returns the smallest element of `set` with `BTreeSet::pop_first` of
/// std, whose documentation says it removes the first element, which is always the
/// minimum, and returns `None` when the set is empty.
#[verifier::external_body]
fn pop_first(set: &mut BTreeSet<usize>) -> (r: Option<usize>)
    ensures
        match r {
            None => old(set)@ == Set::<usize>::empty() && final(set)@ == old(set)@,
            Some(k) => {
                &&& old(set)@.contains(k)
                &&& forall|x: usize| #[trigger] old(set)@.contains(x) ==> k <= x
                &&& final(set)@ == old(set)@.remove(k)
            },
        },
{
    set.pop_first()
}

/// Physical frames handed out from `[current_ppn, end_ppn)`; released frames are
/// kept in `recycled` and handed out again first, smallest first.
pub struct BTreeSetFrameAllocator {
    current_ppn: usize,
    end_ppn: usize,
    recycled: BTreeSet<usize>,
}

impl BTreeSetFrameAllocator {
    /// The next frame never handed out so far.
    pub closed spec fn spec_current_ppn(&self) -> usize {
        self.current_ppn
    }

    /// The frame after the last one the allocator manages.
    pub closed spec fn spec_end_ppn(&self) -> usize {
        self.end_ppn
    }

    /// The released frames that wait to be handed out again.
    pub closed spec fn recycled(&self) -> Set<usize> {
        self.recycled@
    }

    /// Released frames all come from below `current_ppn`.
    pub open spec fn wf(&self) -> bool {
        &&& self.spec_current_ppn() <= self.spec_end_ppn()
        &&& self.recycled().finite()
        &&& forall|p: usize| #[trigger] self.recycled().contains(p) ==> p < self.spec_current_ppn()
    }

    /// The frames that are handed out and not released.
    pub open spec fn handed_out(&self, ppn: usize) -> bool {
        ppn < self.spec_current_ppn() && !self.recycled().contains(ppn)
    }

    /// The number of frames that can still be handed out.
    pub open spec fn available(&self) -> int {
        self.recycled().len() + if self.spec_end_ppn() >= self.spec_current_ppn() {
            self.spec_end_ppn() - self.spec_current_ppn()
        } else {
            0
        }
    }

    /// An allocator with no frame to hand out.
    pub fn new() -> (r: Self)
        ensures
            r.wf(),
            r.spec_current_ppn() == 0,
            r.spec_end_ppn() == 0,
            r.recycled() == Set::<usize>::empty(),
    {
        Self { current_ppn: 0, end_ppn: 0, recycled: BTreeSet::new() }
    }

    /// The next frame never handed out so far.
    pub fn current_ppn(&self) -> (r: usize)
        ensures
            r == self.spec_current_ppn(),
    {
        self.current_ppn
    }

    /// The number of frames that can still be handed out: the released ones and
    /// those never handed out.
    pub fn free_frames(&self) -> (r: u128)
        ensures
            r == self.available(),
    {
        broadcast use vstd::std_specs::btree::axiom_spec_btree_set_len;
        let released = self.recycled.len() as u128;
        if self.end_ppn >= self.current_ppn {
            released + (self.end_ppn - self.current_ppn) as u128
        } else {
            released
        }
    }

    /// The frame after the last one the allocator manages.
    pub fn end_ppn(&self) -> (r: usize)
        ensures
            r == self.spec_end_ppn(),
    {
        self.end_ppn
    }

    /// Makes the allocator hand out `[current_ppn, end_ppn)`; released frames stay.
    pub fn init(&mut self, current_ppn: usize, end_ppn: usize)
        requires
            current_ppn < end_ppn,
        ensures
            final(self).spec_current_ppn() == current_ppn,
            final(self).spec_end_ppn() == end_ppn,
            final(self).recycled() == old(self).recycled(),
            (forall|p: usize| #[trigger] old(self).recycled().contains(p) ==> p < current_ppn)
                && old(self).recycled().finite() ==> final(self).wf(),
    {
        self.current_ppn = current_ppn;
        self.end_ppn = end_ppn;
    }

    /// Hands out a frame: the smallest released one if any, else `current_ppn`, which
    /// then moves up; `FrameExhausted` when neither exists.
    pub fn alloc_ppn(&mut self) -> (r: Result<usize, KernelError>)
        requires
            old(self).wf(),
        ensures
            final(self).wf(),
            final(self).spec_end_ppn() == old(self).spec_end_ppn(),
            old(self).recycled() != Set::<usize>::empty() ==> {
                &&& r is Ok
                &&& old(self).recycled().contains(r->Ok_0)
                &&& forall|x: usize| #[trigger] old(self).recycled().contains(x) ==> r->Ok_0 <= x
                &&& final(self).recycled() == old(self).recycled().remove(r->Ok_0)
                &&& final(self).spec_current_ppn() == old(self).spec_current_ppn()
            },
            old(self).recycled() == Set::<usize>::empty() && old(self).spec_current_ppn()
                < old(self).spec_end_ppn() ==> {
                &&& r == Ok::<usize, KernelError>(old(self).spec_current_ppn())
                &&& final(self).spec_current_ppn() == old(self).spec_current_ppn() + 1
                &&& final(self).recycled() == old(self).recycled()
            },
            old(self).recycled() == Set::<usize>::empty() && old(self).spec_current_ppn()
                >= old(self).spec_end_ppn() ==> {
                &&& r == Err::<usize, KernelError>(KernelError::FrameExhausted)
                &&& final(self).spec_current_ppn() == old(self).spec_current_ppn()
                &&& final(self).recycled() == old(self).recycled()
            },
            r is Ok ==> !old(self).handed_out(r->Ok_0) && final(self).handed_out(r->Ok_0),
            r is Ok ==> forall|p: usize| p != r->Ok_0 ==> #[trigger] final(self).handed_out(p)
                == old(self).handed_out(p),
            r is Ok ==> final(self).available() == old(self).available() - 1,
            r is Err <==> old(self).available() == 0,
    {
        match pop_first(&mut self.recycled) {
            Some(ppn) => {
                proof {
                    broadcast use vstd::set::group_set_axioms;
                }
                Ok(ppn)
            },
            None => {
                proof {
                    assert(old(self).recycled().len() == 0);
                }
                let ppn = self.current_ppn;
                if ppn >= self.end_ppn {
                    Err(KernelError::FrameExhausted)
                } else {
                    self.current_ppn = self.current_ppn + 1;
                    Ok(ppn)
                }
            },
        }
    }

    /// Takes a frame back. `FrameNotDeallocable(ppn)` when the frame was never handed
    /// out or is already released; then nothing changes.
    pub fn dealloc(&mut self, ppn: usize) -> (r: Result<(), KernelError>)
        requires
            old(self).wf(),
        ensures
            final(self).wf(),
            final(self).spec_current_ppn() == old(self).spec_current_ppn(),
            final(self).spec_end_ppn() == old(self).spec_end_ppn(),
            r is Ok <==> old(self).handed_out(ppn),
            r is Ok ==> final(self).recycled() == old(self).recycled().insert(ppn),
            r is Err ==> r == Err::<(), KernelError>(KernelError::FrameNotDeallocable(ppn))
                && final(self).recycled() == old(self).recycled(),
            forall|p: usize| p != ppn ==> #[trigger] final(self).handed_out(p) == old(self).handed_out(p),
            !final(self).handed_out(ppn),
            r is Ok ==> final(self).available() == old(self).available() + 1,
    {
        if ppn >= self.current_ppn {
            Err(KernelError::FrameNotDeallocable(ppn))
        } else if !self.recycled.insert(ppn) {
            Err(KernelError::FrameNotDeallocable(ppn))
        } else {
            Ok(())
        }
    }
}

/// Allocating a free range and deallocating it again gives back what the manager
/// held: while the range is allocated every page of it is taken, so a second
/// allocation of it is refused and its deallocation is accepted.
pub proof fn law_allocate_then_dealloc(a: &LinkedListPageRangeAllocator, start_vpn: usize, end_vpn: usize)
    requires
        a.wf(),
        a.start() <= start_vpn,
        start_vpn < end_vpn,
        end_vpn <= a.end(),
        forall|v: usize| start_vpn <= v < end_vpn ==> !#[trigger] a@.contains(v),
    ensures
        ({
            let range = Set::new(|v: usize| start_vpn <= v < end_vpn);
            let taken = a@.union(range);
            &&& forall|v: usize| start_vpn <= v < end_vpn ==> #[trigger] taken.contains(v)
            &&& !(forall|v: usize| start_vpn <= v < end_vpn ==> !#[trigger] taken.contains(v))
            &&& taken.difference(range) == a@
        }),
{
    let range = Set::new(|v: usize| start_vpn <= v < end_vpn);
    let taken = a@.union(range);
    assert(taken.contains(start_vpn));
    assert(taken.difference(range) =~= a@);
}

/// A released frame that is smaller than every other released frame is the next
/// one handed out; a frame is never handed out while it is still handed out.
pub proof fn law_dealloc_then_alloc(f: &BTreeSetFrameAllocator, ppn: usize)
    requires
        f.wf(),
        f.handed_out(ppn),
        forall|q: usize| #[trigger] f.recycled().contains(q) ==> ppn < q,
    ensures
        f.recycled().insert(ppn) != Set::<usize>::empty(),
        f.recycled().insert(ppn).contains(ppn),
        forall|x: usize| #[trigger] f.recycled().insert(ppn).contains(x) ==> ppn <= x,
        !f.recycled().contains(ppn),
{
    assert(f.recycled().insert(ppn).contains(ppn));
}

} // verus!
