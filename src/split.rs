use vstd::prelude::*;
use crate::geometry::{DropAction, SplitDirection, SplitMoveDirection};
use crate::tabs::{
    clamp_active, contains_item, insertion_index, kept_by_kind, moved, opened, ChildItem, EditorTabGroup,
    TabCloseKind,
};

verus! {

/// What fills one slot of a split node: a tab group or a nested split,
/// each named by its index in the tree's arena.
#[derive(Clone, Copy, Debug, PartialEq, Eq, Structural)]
pub enum SplitContent {
    TabGroup(usize),
    Split(usize),
}

/// One slot of a split node. Its share of the node's extent is `weight`
/// divided by the sum of the weights of all slots of the node.
#[derive(Clone, Copy, Debug, PartialEq, Eq, Structural)]
pub struct SplitChild {
    pub weight: u64,
    pub content: SplitContent,
}

/// An internal node of the layout tree. A node taken out of the tree stays
/// in the arena with `alive` false.
#[derive(Debug)]
pub struct SplitNode {
    pub alive: bool,
    pub direction: SplitDirection,
    pub parent: Option<usize>,
    pub children: Vec<SplitChild>,
}

/// A leaf of the layout tree: a tab group and the split node that holds it.
#[derive(Debug)]
pub struct GroupSlot {
    pub alive: bool,
    pub parent: usize,
    pub group: EditorTabGroup,
}

/// Why a layout change was refused; a refused change leaves the tree as it was.
#[derive(Clone, Copy, Debug, PartialEq, Eq, Structural)]
pub enum LayoutError {
    /// The weights of a split node would no longer fit in 64 bits.
    WeightOverflow,
    /// The change would take the last tab group out of the tree.
    LastGroup,
    /// A resize would shrink a pane to nothing or past it.
    OutOfRange,
    /// The moved tab's item is already open in the target group.
    AlreadyOpen,
    /// A tab cannot be moved into a new split beside its own group when it
    /// is that group's only tab.
    SoleTab,
}

/// The layout of one workspace tab: an arena of split nodes and tab groups
/// forming a tree under `root`.
pub struct SplitTree {
    pub root: usize,
    pub splits: Vec<SplitNode>,
    pub groups: Vec<GroupSlot>,
    /// Strictly greater on a node than on any split node below it, which
    /// rules out cycles.
    pub rank: Ghost<Seq<int>>,
}

pub open spec fn weight_sum(s: Seq<SplitChild>) -> int
    decreases s.len(),
{
    if s.len() == 0 {
        0
    } else {
        weight_sum(s.drop_last()) + s.last().weight
    }
}

/// Every weight scaled by `n`.
pub open spec fn scaled(s: Seq<SplitChild>, n: int) -> Seq<SplitChild> {
    Seq::new(
        s.len(),
        |i: int| SplitChild { weight: (s[i].weight * n) as u64, content: s[i].content },
    )
}

pub open spec fn slot_of(s: Seq<SplitChild>, c: SplitContent) -> int {
    choose|k: int| 0 <= k < s.len() && s[k].content == c
}

pub open spec fn has_content(s: Seq<SplitChild>, c: SplitContent) -> bool {
    exists|k: int| 0 <= k < s.len() && s[k].content == c
}

pub open spec fn distinct_contents(s: Seq<SplitChild>) -> bool {
    forall|i: int, j: int| 0 <= i < s.len() && 0 <= j < s.len() && i != j ==> s[i].content != s[j].content
}

pub open spec fn positive_weights(s: Seq<SplitChild>) -> bool {
    forall|i: int| 0 <= i < s.len() ==> s[i].weight > 0
}

pub proof fn lemma_weight_sum_concat(a: Seq<SplitChild>, b: Seq<SplitChild>)
    ensures
        weight_sum(a + b) == weight_sum(a) + weight_sum(b),
    decreases b.len(),
{
    if b.len() == 0 {
        assert(a + b =~= a);
    } else {
        lemma_weight_sum_concat(a, b.drop_last());
        assert((a + b).drop_last() =~= a + b.drop_last());
    }
}

pub proof fn lemma_weight_sum_nonneg(s: Seq<SplitChild>)
    ensures
        weight_sum(s) >= 0,
        positive_weights(s) && s.len() > 0 ==> weight_sum(s) > 0,
        positive_weights(s) ==> weight_sum(s) >= s.len(),
    decreases s.len(),
{
    if s.len() > 0 {
        lemma_weight_sum_nonneg(s.drop_last());
    }
}

pub proof fn lemma_weight_sum_split(s: Seq<SplitChild>, k: int)
    requires
        0 <= k < s.len(),
    ensures
        weight_sum(s) == weight_sum(s.subrange(0, k)) + s[k].weight + weight_sum(
            s.subrange(k + 1, s.len() as int),
        ),
{
    let a = s.subrange(0, k);
    let b = s.subrange(k + 1, s.len() as int);
    let m = seq![s[k]];
    assert(s =~= a + m + b);
    lemma_weight_sum_concat(a + m, b);
    lemma_weight_sum_concat(a, m);
    assert(m.drop_last() =~= Seq::<SplitChild>::empty());
    assert(weight_sum(m.drop_last()) == 0);
    assert(weight_sum(m) == s[k].weight);
}

pub proof fn lemma_weight_sum_remove(s: Seq<SplitChild>, k: int)
    requires
        0 <= k < s.len(),
    ensures
        weight_sum(s.remove(k)) == weight_sum(s) - s[k].weight,
{
    lemma_weight_sum_split(s, k);
    assert(s.remove(k) =~= s.subrange(0, k) + s.subrange(k + 1, s.len() as int));
    lemma_weight_sum_concat(s.subrange(0, k), s.subrange(k + 1, s.len() as int));
}

pub proof fn lemma_weight_sum_insert(s: Seq<SplitChild>, k: int, c: SplitChild)
    requires
        0 <= k <= s.len(),
    ensures
        weight_sum(s.insert(k, c)) == weight_sum(s) + c.weight,
{
    let t = s.insert(k, c);
    lemma_weight_sum_remove(t, k);
    assert(t.remove(k) =~= s);
}

pub proof fn lemma_weight_sum_update(s: Seq<SplitChild>, k: int, c: SplitChild)
    requires
        0 <= k < s.len(),
    ensures
        weight_sum(s.update(k, c)) == weight_sum(s) - s[k].weight + c.weight,
{
    lemma_weight_sum_remove(s, k);
    lemma_weight_sum_remove(s.update(k, c), k);
    assert(s.update(k, c).remove(k) =~= s.remove(k));
}

pub proof fn lemma_weight_sum_scaled(s: Seq<SplitChild>, n: int)
    requires
        n >= 0,
        weight_sum(s) * n <= u64::MAX,
    ensures
        weight_sum(scaled(s, n)) == weight_sum(s) * n,
    decreases s.len(),
{
    if s.len() > 0 {
        lemma_weight_sum_nonneg(s.drop_last());
        assert(weight_sum(s.drop_last()) * n <= weight_sum(s) * n) by (nonlinear_arith)
            requires
                weight_sum(s.drop_last()) <= weight_sum(s),
                n >= 0,
        ;
        lemma_weight_sum_scaled(s.drop_last(), n);
        assert(scaled(s, n).drop_last() =~= scaled(s.drop_last(), n));
        assert(s.last().weight * n <= weight_sum(s) * n) by (nonlinear_arith)
            requires
                s.last().weight <= weight_sum(s),
                n >= 0,
        ;
        assert(weight_sum(s) * n == weight_sum(s.drop_last()) * n + s.last().weight * n)
            by (nonlinear_arith)
            requires
                weight_sum(s) == weight_sum(s.drop_last()) + s.last().weight,
        ;
    }
}

pub proof fn lemma_weight_le_sum(s: Seq<SplitChild>, k: int)
    requires
        0 <= k < s.len(),
    ensures
        s[k].weight <= weight_sum(s),
{
    lemma_weight_sum_split(s, k);
    lemma_weight_sum_nonneg(s.subrange(0, k));
    lemma_weight_sum_nonneg(s.subrange(k + 1, s.len() as int));
}

pub proof fn lemma_weight_sum_prefix(s: Seq<SplitChild>, i: int)
    requires
        0 <= i < s.len(),
    ensures
        weight_sum(s.subrange(0, i + 1)) == weight_sum(s.subrange(0, i)) + s[i].weight,
        weight_sum(s.subrange(0, i + 1)) <= weight_sum(s),
{
    assert(s.subrange(0, i + 1).drop_last() =~= s.subrange(0, i));
    assert(s =~= s.subrange(0, i + 1) + s.subrange(i + 1, s.len() as int));
    lemma_weight_sum_concat(s.subrange(0, i + 1), s.subrange(i + 1, s.len() as int));
    lemma_weight_sum_nonneg(s.subrange(i + 1, s.len() as int));
}

impl SplitTree {
    pub open spec fn split_alive(&self, s: int) -> bool {
        0 <= s < self.splits@.len() && self.splits@[s].alive
    }

    pub open spec fn group_alive(&self, g: int) -> bool {
        0 <= g < self.groups@.len() && self.groups@[g].alive
    }

    pub open spec fn kids(&self, s: int) -> Seq<SplitChild> {
        self.splits@[s].children@
    }

    /// The content refers to a live entry of the arena whose parent is `s`.
    pub open spec fn child_ok(&self, s: int, c: SplitContent) -> bool {
        match c {
            SplitContent::TabGroup(g) => g < self.groups@.len() && self.groups@[g as int].alive
                && self.groups@[g as int].parent == s,
            SplitContent::Split(m) => m < self.splits@.len() && self.splits@[m as int].alive
                && self.splits@[m as int].parent == Some(s as usize) && self.rank@[m as int]
                < self.rank@[s],
        }
    }

    pub open spec fn node_ok(&self, s: int) -> bool {
        &&& self.node_shape(s)
        &&& (s != self.root ==> self.kids(s).len() >= 2)
    }

    /// All that a live split node must satisfy but for holding two slots
    /// when it is not the root.
    pub open spec fn node_shape(&self, s: int) -> bool {
        let kids = self.kids(s);
        &&& kids.len() >= 1
        &&& positive_weights(kids)
        &&& weight_sum(kids) <= u64::MAX
        &&& distinct_contents(kids)
        &&& forall|k: int| 0 <= k < kids.len() ==> self.child_ok(s, #[trigger] kids[k].content)
        &&& self.rank@[s] <= self.rank@[self.root as int]
        &&& (s == self.root ==> self.splits@[s].parent.is_none())
        &&& (s != self.root ==> {
            &&& self.splits@[s].parent.is_some()
            &&& self.splits@[s].parent.unwrap() < self.splits@.len()
            &&& self.splits@[self.splits@[s].parent.unwrap() as int].alive
            &&& has_content(
                self.kids(self.splits@[s].parent.unwrap() as int),
                SplitContent::Split(s as usize),
            )
        })
    }

    pub open spec fn group_ok(&self, g: int) -> bool {
        let p = self.groups@[g].parent as int;
        &&& 0 <= p < self.splits@.len()
        &&& self.splits@[p].alive
        &&& has_content(self.kids(p), SplitContent::TabGroup(g as usize))
        &&& self.groups@[g].group.wf()
        &&& self.groups@[g].group.id == g
    }

    pub open spec fn wf(&self) -> bool {
        &&& self.rank@.len() == self.splits@.len()
        &&& self.split_alive(self.root as int)
        &&& forall|s: int| #[trigger] self.split_alive(s) ==> self.node_ok(s)
        &&& forall|g: int| #[trigger] self.group_alive(g) ==> self.group_ok(g)
    }

    /// `wf` but for the split node `p`, which may be left with a single slot.
    pub open spec fn wf_but(&self, p: int) -> bool {
        &&& self.rank@.len() == self.splits@.len()
        &&& self.split_alive(self.root as int)
        &&& forall|s: int| #[trigger]
            self.split_alive(s) ==> self.node_shape(s) && (s != self.root && s != p
                ==> self.kids(s).len() >= 2)
        &&& forall|g: int| #[trigger] self.group_alive(g) ==> self.group_ok(g)
    }

    /// A tree holding one empty tab group.
    pub fn new() -> (r: Self)
        ensures
            r.wf(),
            r.root == 0,
            r.splits@.len() == 1,
            r.groups@.len() == 1,
            r.kids(0) == seq![SplitChild { weight: 1, content: SplitContent::TabGroup(0) }],
            r.groups@[0].group.children@.len() == 0,
    {
        let root = SplitNode {
            alive: true,
            direction: SplitDirection::Vertical,
            parent: None,
            children: vec![SplitChild { weight: 1, content: SplitContent::TabGroup(0) }],
        };
        let group = GroupSlot { alive: true, parent: 0, group: EditorTabGroup::new(0) };
        let ghost rank = seq![0int];
        let r = SplitTree { root: 0, splits: vec![root], groups: vec![group], rank: Ghost(rank) };
        proof {
            let kids = r.kids(0);
            assert(kids.drop_last() =~= Seq::<SplitChild>::empty());
            assert(weight_sum(kids.drop_last()) == 0);
            assert(weight_sum(kids) == 1);
            assert(r.child_ok(0, kids[0].content));
            assert(distinct_contents(kids));
            assert(r.node_ok(0));
            assert(has_content(r.kids(0), SplitContent::TabGroup(0)));
            assert(r.group_ok(0));
        }
        r
    }

    /// The position of `c` among the children of the live split node `s`.
    pub fn slot(&self, s: usize, c: SplitContent) -> (r: usize)
        requires
            self.split_alive(s as int),
            has_content(self.kids(s as int), c),
        ensures
            r < self.kids(s as int).len(),
            self.kids(s as int)[r as int].content == c,
    {
        let kids = &self.splits[s].children;
        let mut i: usize = 0;
        while i < kids.len()
            invariant
                kids@ == self.kids(s as int),
                has_content(kids@, c),
                i <= kids@.len(),
                forall|j: int| 0 <= j < i ==> kids@[j].content != c,
            decreases kids@.len() - i,
        {
            if kids[i].content == c {
                return i;
            }
            i = i + 1;
        }
        proof {
            let k = choose|k: int| 0 <= k < kids@.len() && kids@[k].content == c;
            assert(kids@[k].content != c);
        }
        0
    }
}


/// What opening the new group `g` beside `target` does (see
/// `SplitTree::split_group`): it joins the node holding `target` when that
/// node runs in `direction` and its weights still fit, and is nested with
/// `target` in a new node otherwise.
pub open spec fn group_split(
    before: SplitTree,
    after: SplitTree,
    target: usize,
    direction: SplitDirection,
    first: bool,
    g: usize,
) -> bool {
    let p = before.groups@[target as int].parent as int;
    let kids = before.kids(p);
    let k = slot_of(kids, SplitContent::TabGroup(target));
    let n = kids.len() as int;
    let total = weight_sum(kids);
    let divides = total % n == 0 && total + total / n <= u64::MAX;
    let join = before.splits@[p].direction == direction && (divides || total * (n + 1)
        <= u64::MAX);
    &&& g == before.groups@.len()
    &&& after.groups@.len() == g + 1
    &&& after.group_alive(g as int)
    &&& after.groups@[g as int].group.children@.len() == 0
    &&& after.same_elsewhere(&before, p)
    &&& after.groups@[g as int].parent == after.groups@[target as int].parent
    &&& join ==> {
        &&& after.splits@.len() == before.splits@.len()
        &&& after.kids(p) == if divides {
            kids.insert(
                if first {
                    k
                } else {
                    k + 1
                },
                SplitChild { weight: (total / n) as u64, content: SplitContent::TabGroup(g) },
            )
        } else {
            scaled(kids, n).insert(
                if first {
                    k
                } else {
                    k + 1
                },
                SplitChild { weight: total as u64, content: SplitContent::TabGroup(g) },
            )
        }
        &&& after.groups@[g as int].parent == p
    }
    &&& !join ==> {
        let m = before.splits@.len() as int;
        &&& after.splits@.len() == m + 1
        &&& after.kids(p) == kids.update(
            k,
            SplitChild { weight: kids[k].weight, content: SplitContent::Split(m as usize) },
        )
        &&& after.splits@[m].direction == direction
        &&& after.kids(m) == if first {
            seq![
                SplitChild { weight: 1, content: SplitContent::TabGroup(g) },
                SplitChild { weight: 1, content: SplitContent::TabGroup(target) },
            ]
        } else {
            seq![
                SplitChild { weight: 1, content: SplitContent::TabGroup(target) },
                SplitChild { weight: 1, content: SplitContent::TabGroup(g) },
            ]
        }
        &&& after.groups@[g as int].parent == m
        &&& after.groups@[target as int].parent == m
    }
}

/// What taking the live group `g` out of the tree does (see
/// `SplitTree::remove_group`).
pub open spec fn group_removed(
    before: SplitTree,
    after: SplitTree,
    g: usize,
    r: Result<Vec<SplitContent>, LayoutError>,
) -> bool {
    let p = before.groups@[g as int].parent as int;
    let kids = before.kids(p);
    let k = slot_of(kids, SplitContent::TabGroup(g));
    let last = p == before.root && kids.len() == 1;
    let spliced = p != before.root && kids.len() == 2;
    match r {
        Err(e) => e == LayoutError::LastGroup && last && after == before,
        Ok(d) => {
            &&& !last
            &&& !after.group_alive(g as int)
            &&& after.root == before.root
            &&& after.groups@.len() == before.groups@.len()
            &&& after.splits@.len() == before.splits@.len()
            &&& forall|h: int|
                0 <= h < before.groups@.len() ==> #[trigger] after.groups@[h].group == before.groups@[h].group
            &&& forall|h: int|
                0 <= h < before.groups@.len() && h != g ==> #[trigger] after.groups@[h].alive == before.groups@[h].alive
            &&& forall|h: int|
                0 <= h < before.groups@.len() && h != g && !(spliced
                    && kids.remove(k)[0].content == SplitContent::TabGroup(h as usize))
                    ==> #[trigger] after.groups@[h].parent == before.groups@[h].parent
            &&& forall|s: int|
                0 <= s < before.splits@.len() && s != p && !(spliced && s
                    == before.splits@[p].parent.unwrap() as int) ==> #[trigger] after.kids(s)
                    == before.kids(s) && after.splits@[s].alive == before.splits@[s].alive
            &&& spliced ==> {
                let gp = before.splits@[p].parent.unwrap() as int;
                let gk = before.kids(gp);
                let j = slot_of(gk, SplitContent::Split(p as usize));
                &&& d@ == seq![SplitContent::TabGroup(g), SplitContent::Split(p as usize)]
                &&& !after.split_alive(p)
                &&& after.kids(gp) == gk.update(
                    j,
                    SplitChild { weight: gk[j].weight, content: kids.remove(k)[0].content },
                )
            }
            &&& !spliced ==> {
                &&& d@ == seq![SplitContent::TabGroup(g)]
                &&& after.split_alive(p)
                &&& after.kids(p) == kids.remove(k)
            }
        },
    }
}

impl SplitTree {
    /// Everything outside split node `p` and outside the arena entries
    /// added after `old` is as in `old`.
    pub open spec fn same_elsewhere(&self, old: &SplitTree, p: int) -> bool {
        &&& self.root == old.root
        &&& self.splits@.len() >= old.splits@.len()
        &&& self.groups@.len() >= old.groups@.len()
        &&& forall|s: int|
            0 <= s < old.splits@.len() && s != p ==> #[trigger] self.splits@[s] == old.splits@[s]
        &&& forall|g: int| 0 <= g < old.groups@.len() ==> #[trigger] self.groups@[g].group
            == old.groups@[g].group
        &&& forall|g: int| 0 <= g < old.groups@.len() ==> #[trigger] self.groups@[g].alive
            == old.groups@[g].alive
    }

    /// The sum of the weights of the children of `s`.
    pub fn total_weight(&self, s: usize) -> (r: u64)
        requires
            self.wf(),
            self.split_alive(s as int),
        ensures
            r == weight_sum(self.kids(s as int)),
    {
        let kids = &self.splits[s].children;
        proof {
            assert(self.node_ok(s as int));
        }
        let mut sum: u64 = 0;
        let mut i: usize = 0;
        while i < kids.len()
            invariant
                kids@ == self.kids(s as int),
                weight_sum(kids@) <= u64::MAX,
                i <= kids@.len(),
                sum == weight_sum(kids@.subrange(0, i as int)),
            decreases kids@.len() - i,
        {
            proof {
                lemma_weight_sum_prefix(kids@, i as int);
            }
            sum = sum + kids[i].weight;
            i = i + 1;
        }
        proof {
            assert(kids@.subrange(0, i as int) =~= kids@);
        }
        sum
    }

    /// Opens a new empty tab group beside the live group `target`, before it
    /// or after it. Where the split node holding `target` runs in
    /// `direction`, the new group joins it with a share of 1/(n+1) of its n
    /// slots, the others keeping their proportions: when n divides the total
    /// weight the new slot weighs total/n and no other weight changes, else
    /// every weight is scaled by n and the new slot weighs the old total.
    /// Else, or where the weights would no longer fit in 64 bits, `target`'s slot is
    /// given to a new split node in `direction` holding the two groups at
    /// equal shares. Returns the index of the new group.
    pub fn split_group(&mut self, target: usize, direction: SplitDirection, before: bool) -> (g: usize)
        requires
            old(self).wf(),
            old(self).group_alive(target as int),
            old(self).groups@.len() < usize::MAX,
            old(self).splits@.len() < usize::MAX,
        ensures
            final(self).wf(),
            group_split(*old(self), *final(self), target, direction, before, g),
    {
        proof {
            assert(self.group_ok(target as int));
        }
        let p = self.groups[target].parent;
        proof {
            assert(self.split_alive(p as int));
            assert(self.node_ok(p as int));
        }
        let k = self.slot(p, SplitContent::TabGroup(target));
        let ghost kids = self.kids(p as int);
        proof {
            assert(distinct_contents(kids));
            assert(k as int == slot_of(kids, SplitContent::TabGroup(target)));
        }
        if self.splits[p].direction == direction {
            let n = self.splits[p].children.len() as u64;
            let total = self.total_weight(p);
            proof {
                lemma_weight_sum_nonneg(kids);
                assert(n >= 1);
            }
            if total % n == 0 && total / n <= u64::MAX - total {
                // the new slot gets total / n and the others keep theirs
                proof {
                    assert(scaled(kids, 1) =~= kids);
                    assert(total / n > 0) by (nonlinear_arith)
                        requires total >= n, n >= 1, total % n == 0;
                }
                return self.join_with(target, p, k, before, 1, total / n);
            }
            if n < u64::MAX {
                match total.checked_mul(n + 1) {
                    Some(_) => {
                        proof {
                            assert(total * n + total == total * (n + 1)) by (nonlinear_arith);
                        }
                        return self.join_with(target, p, k, before, n, total);
                    },
                    None => {},
                }
            } else {
                proof {
                    assert(total * (n + 1) > u64::MAX) by (nonlinear_arith)
                        requires total >= n, n == u64::MAX;
                }
            }
            self.nest_beside(target, p, k, direction, before)
        } else {
            self.nest_beside(target, p, k, direction, before)
        }
    }

    #[verifier::rlimit(80)]
    fn join_with(&mut self, target: usize, p: usize, k: usize, before: bool, f: u64, x: u64) -> (g: usize)
        requires
            old(self).wf(),
            old(self).group_alive(target as int),
            p == old(self).groups@[target as int].parent,
            old(self).split_alive(p as int),
            k < old(self).kids(p as int).len(),
            old(self).kids(p as int)[k as int].content == SplitContent::TabGroup(target),
            old(self).groups@.len() < usize::MAX,
            old(self).splits@.len() < usize::MAX,
            f >= 1,
            x > 0,
            weight_sum(old(self).kids(p as int)) * f + x <= u64::MAX,
        ensures
            final(self).wf(),
            ({
                let kids = old(self).kids(p as int);
                &&& g == old(self).groups@.len()
                &&& final(self).groups@.len() == g + 1
                &&& final(self).group_alive(g as int)
                &&& final(self).groups@[g as int].group.children@.len() == 0
                &&& final(self).same_elsewhere(old(self), p as int)
                &&& final(self).splits@.len() == old(self).splits@.len()
                &&& final(self).kids(p as int) == scaled(kids, f as int).insert(
                    if before { k as int } else { k + 1 },
                    SplitChild { weight: x, content: SplitContent::TabGroup(g) },
                )
                &&& final(self).groups@[g as int].parent == p
                &&& final(self).groups@[target as int].parent == p
            }),
    {
        let ghost kids = self.kids(p as int);
        proof {
            assert(self.node_ok(p as int));
        }
        let g = self.groups.len();
        let n = self.splits[p].children.len();
        let total = self.total_weight(p);
        proof {
            lemma_weight_sum_nonneg(kids);
        }
        proof {
            assert(total * f <= u64::MAX);
            lemma_weight_sum_scaled(kids, f as int);
        }
        let mut scaled_kids: Vec<SplitChild> = Vec::new();
        let mut i: usize = 0;
        while i < n
            invariant
                n == kids.len(),
                kids == self.kids(p as int),
                self.split_alive(p as int),
                total == weight_sum(kids),
                total * f <= u64::MAX,
                f >= 1,
                i <= n,
                scaled_kids@ == scaled(kids, f as int).subrange(0, i as int),
            decreases n - i,
        {
            let c = self.splits[p].children[i];
            proof {
                lemma_weight_le_sum(kids, i as int);
                assert(c.weight * f <= total * f) by (nonlinear_arith)
                    requires c.weight <= total, f >= 0;
            }
            scaled_kids.push(SplitChild { weight: c.weight * f, content: c.content });
            proof {
                assert(scaled_kids@ =~= scaled(kids, f as int).subrange(0, i + 1));
            }
            i = i + 1;
        }
        proof {
            assert(scaled_kids@ =~= scaled(kids, f as int));
        }
        let at: usize = if before {
            k
        } else {
            k + 1
        };
        scaled_kids.insert(at, SplitChild { weight: x, content: SplitContent::TabGroup(g) });
        let ghost old_tree = *self;
        let dir = self.splits[p].direction;
        let par = self.splits[p].parent;
        self.splits.set(p, SplitNode { alive: true, direction: dir, parent: par, children: scaled_kids });
        self.groups.push(GroupSlot { alive: true, parent: p, group: EditorTabGroup::new(g as u64) });
        proof {
            assert(self.groups@[target as int] == old_tree.groups@[target as int]);
            let new_kids = self.kids(p as int);
            let sk = scaled(kids, f as int);
            lemma_weight_sum_insert(sk, at as int, SplitChild { weight: x, content: SplitContent::TabGroup(g) });
            assert(forall|j: int| 0 <= j < kids.len() ==> #[trigger] sk[j].content == kids[j].content);
            // every old content is still there
            assert forall|c: SplitContent| has_content(kids, c) implies has_content(new_kids, c) by {
                let j = choose|j: int| 0 <= j < kids.len() && kids[j].content == c;
                let jj = if j < at { j } else { j + 1 };
                assert(new_kids[jj].content == c);
            }
            assert forall|j: int| 0 <= j < new_kids.len() implies new_kids[j].weight > 0 by {
                if j != at {
                    let oj = if j < at { j } else { j - 1 };
                    assert(new_kids[j] == sk[oj]);
                    assert(kids[oj].weight > 0);
                    lemma_weight_le_sum(kids, oj);
                    assert(kids[oj].weight * f <= total * f) by (nonlinear_arith)
                        requires kids[oj].weight <= total, f >= 0;
                    assert(kids[oj].weight * f > 0) by (nonlinear_arith)
                        requires kids[oj].weight > 0, f > 0;
                }
            }
            assert forall|x: int, y: int|
                0 <= x < new_kids.len() && 0 <= y < new_kids.len() && x != y
                implies new_kids[x].content != new_kids[y].content by {
                if x != at && y != at {
                    let ox = if x < at { x } else { x - 1 };
                    let oy = if y < at { y } else { y - 1 };
                    assert(new_kids[x].content == kids[ox].content);
                    assert(new_kids[y].content == kids[oy].content);
                } else if x == at {
                    let oy = if y < at { y } else { y - 1 };
                    assert(new_kids[y].content == kids[oy].content);
                    assert(old_tree.child_ok(p as int, kids[oy].content));
                } else {
                    let ox = if x < at { x } else { x - 1 };
                    assert(new_kids[x].content == kids[ox].content);
                    assert(old_tree.child_ok(p as int, kids[ox].content));
                }
            }
            assert forall|j: int| 0 <= j < new_kids.len()
                implies self.child_ok(p as int, #[trigger] new_kids[j].content) by {
                if j != at {
                    let oj = if j < at { j } else { j - 1 };
                    assert(new_kids[j].content == kids[oj].content);
                    assert(old_tree.child_ok(p as int, kids[oj].content));
                }
            }
            assert(weight_sum(new_kids) <= u64::MAX);
            assert(self.rank@ == old_tree.rank@);
            assert(self.node_ok(p as int));
            assert forall|s: int| #[trigger] self.split_alive(s) implies self.node_ok(s) by {
                if s != p {
                    assert(old_tree.split_alive(s));
                    assert(old_tree.node_ok(s));
                    let ks = self.kids(s);
                    assert forall|j: int| 0 <= j < ks.len()
                        implies self.child_ok(s, #[trigger] ks[j].content) by {
                        assert(old_tree.child_ok(s, ks[j].content));
                    }
                }
            }
            assert forall|h: int| #[trigger] self.group_alive(h) implies self.group_ok(h) by {
                if h != g {
                    assert(old_tree.group_alive(h));
                    assert(old_tree.group_ok(h));
                } else {
                    assert(new_kids[at as int].content == SplitContent::TabGroup(g));
                }
            }
        }
        g
    }

    fn nest_beside(&mut self, target: usize, p: usize, k: usize, direction: SplitDirection, before: bool) -> (g: usize)
        requires
            old(self).wf(),
            old(self).group_alive(target as int),
            p == old(self).groups@[target as int].parent,
            old(self).split_alive(p as int),
            k < old(self).kids(p as int).len(),
            old(self).kids(p as int)[k as int].content == SplitContent::TabGroup(target),
            old(self).groups@.len() < usize::MAX,
            old(self).splits@.len() < usize::MAX,
        ensures
            final(self).wf(),
            ({
                let kids = old(self).kids(p as int);
                let m = old(self).splits@.len() as int;
                &&& g == old(self).groups@.len()
                &&& final(self).groups@.len() == g + 1
                &&& final(self).group_alive(g as int)
                &&& final(self).groups@[g as int].group.children@.len() == 0
                &&& final(self).same_elsewhere(old(self), p as int)
                &&& final(self).splits@.len() == m + 1
                &&& final(self).kids(p as int) == kids.update(
                    k as int,
                    SplitChild { weight: kids[k as int].weight, content: SplitContent::Split(m as usize) },
                )
                &&& final(self).splits@[m].direction == direction
                &&& final(self).kids(m) == if before {
                    seq![
                        SplitChild { weight: 1, content: SplitContent::TabGroup(g) },
                        SplitChild { weight: 1, content: SplitContent::TabGroup(target) },
                    ]
                } else {
                    seq![
                        SplitChild { weight: 1, content: SplitContent::TabGroup(target) },
                        SplitChild { weight: 1, content: SplitContent::TabGroup(g) },
                    ]
                }
                &&& final(self).groups@[g as int].parent == m
                &&& final(self).groups@[target as int].parent == m
            }),
    {
        let ghost kids = self.kids(p as int);
        proof {
            assert(self.node_ok(p as int));
            assert(distinct_contents(kids));
        }
        let g = self.groups.len();
        let m = self.splits.len();
        let ghost old_tree = *self;
        let w = self.splits[p].children[k].weight;
        self.splits[p].children.set(k, SplitChild { weight: w, content: SplitContent::Split(m) });
        let kids_m = if before {
            vec![
                SplitChild { weight: 1, content: SplitContent::TabGroup(g) },
                SplitChild { weight: 1, content: SplitContent::TabGroup(target) },
            ]
        } else {
            vec![
                SplitChild { weight: 1, content: SplitContent::TabGroup(target) },
                SplitChild { weight: 1, content: SplitContent::TabGroup(g) },
            ]
        };
        self.splits.push(SplitNode { alive: true, direction, parent: Some(p), children: kids_m });
        let ghost new_rank = self.rank@.push(self.rank@[p as int] - 1);
        self.rank = Ghost(new_rank);
        self.groups[target].parent = m;
        self.groups.push(GroupSlot { alive: true, parent: m, group: EditorTabGroup::new(g as u64) });
        proof {
            let new_kids = self.kids(p as int);
            lemma_weight_sum_update(kids, k as int, SplitChild { weight: w, content: SplitContent::Split(m) });
            let km = self.kids(m as int);
            assert(km.drop_last().drop_last() =~= Seq::<SplitChild>::empty());
            assert(weight_sum(km.drop_last().drop_last()) == 0);
            assert(weight_sum(km.drop_last()) == 1);
            assert(weight_sum(km) == 2);
            assert(new_kids[k as int].content == SplitContent::Split(m));
            assert(has_content(new_kids, SplitContent::Split(m)));
            assert forall|c: SplitContent| has_content(kids, c) && c != SplitContent::TabGroup(target)
                implies has_content(new_kids, c) by {
                let j = choose|j: int| 0 <= j < kids.len() && kids[j].content == c;
                assert(new_kids[j].content == c);
            }
            assert forall|x: int, y: int|
                0 <= x < new_kids.len() && 0 <= y < new_kids.len() && x != y
                implies new_kids[x].content != new_kids[y].content by {
                if x != k && y != k {
                } else if x == k {
                    assert(old_tree.child_ok(p as int, kids[y].content));
                } else {
                    assert(old_tree.child_ok(p as int, kids[x].content));
                }
            }
            assert forall|j: int| 0 <= j < new_kids.len()
                implies self.child_ok(p as int, #[trigger] new_kids[j].content) by {
                if j != k {
                    assert(old_tree.child_ok(p as int, kids[j].content));
                    assert(kids[j].content != SplitContent::TabGroup(target));
                }
            }
            assert(self.node_ok(p as int));
            assert(has_content(km, SplitContent::TabGroup(target)));
            assert(has_content(km, SplitContent::TabGroup(g)));
            assert forall|j: int| 0 <= j < km.len()
                implies self.child_ok(m as int, #[trigger] km[j].content) by {
            }
            assert(self.node_ok(m as int));
            assert forall|s: int| #[trigger] self.split_alive(s) implies self.node_ok(s) by {
                if s != p && s != m {
                    assert(old_tree.split_alive(s));
                    assert(old_tree.node_ok(s));
                    let ks = self.kids(s);
                    assert forall|j: int| 0 <= j < ks.len()
                        implies self.child_ok(s, #[trigger] ks[j].content) by {
                        assert(old_tree.child_ok(s, ks[j].content));
                        if ks[j].content == SplitContent::TabGroup(target) {
                            assert(has_content(kids, SplitContent::TabGroup(target)));
                        }
                    }
                    if self.splits@[s].parent is Some && self.splits@[s].parent.unwrap() as int == p {
                        assert(has_content(kids, SplitContent::Split(s as usize)));
                    }
                }
            }
            assert forall|h: int| #[trigger] self.group_alive(h) implies self.group_ok(h) by {
                if h != g && h != target {
                    assert(old_tree.group_alive(h));
                    assert(old_tree.group_ok(h));
                    if self.groups@[h].parent as int == p {
                        assert(has_content(kids, SplitContent::TabGroup(h as usize)));
                    }
                }
            }
        }
        g
    }
}


impl SplitTree {
    /// Takes slot `k`, holding the live group `g`, out of its split node `p`.
    fn take_out(&mut self, g: usize, p: usize, k: usize)
        requires
            old(self).wf(),
            old(self).group_alive(g as int),
            p == old(self).groups@[g as int].parent,
            old(self).split_alive(p as int),
            k < old(self).kids(p as int).len(),
            old(self).kids(p as int)[k as int].content == SplitContent::TabGroup(g),
            !(p == old(self).root && old(self).kids(p as int).len() == 1),
        ensures
            final(self).wf_but(p as int),
            final(self).split_alive(p as int),
            final(self).root == old(self).root,
            final(self).rank == old(self).rank,
            final(self).kids(p as int) == old(self).kids(p as int).remove(k as int),
            final(self).splits@[p as int].parent == old(self).splits@[p as int].parent,
            final(self).splits@.len() == old(self).splits@.len(),
            forall|s: int|
                0 <= s < old(self).splits@.len() && s != p ==> #[trigger] final(self).splits@[s]
                    == old(self).splits@[s],
            final(self).groups@.len() == old(self).groups@.len(),
            forall|h: int|
                0 <= h < old(self).groups@.len() && h != g ==> #[trigger] final(self).groups@[h]
                    == old(self).groups@[h],
            final(self).groups@[g as int].group == old(self).groups@[g as int].group,
            !final(self).groups@[g as int].alive,
    {
        let ghost old_tree = *self;
        let ghost kids = self.kids(p as int);
        proof {
            assert(self.groups@.len() == self.groups.len());
            assert(self.splits@.len() == self.splits.len());
        }
        proof {
            assert(old_tree.node_ok(p as int));
        }
        self.splits[p].children.remove(k);
        self.groups[g].alive = false;
        proof {
            let nk = self.kids(p as int);
            lemma_weight_sum_remove(kids, k as int);
            assert forall|j: int| 0 <= j < nk.len() implies nk[j] == kids[if j < k {
                j
            } else {
                j + 1
            }] by {}
            assert forall|x: int, y: int|
                0 <= x < nk.len() && 0 <= y < nk.len() && x != y implies nk[x].content
                    != nk[y].content by {
                assert(nk[x] == kids[if x < k { x } else { x + 1 }]);
                assert(nk[y] == kids[if y < k { y } else { y + 1 }]);
            }
            assert forall|j: int| 0 <= j < nk.len() implies self.child_ok(
                p as int,
                #[trigger] nk[j].content,
            ) by {
                let oj = if j < k {
                    j
                } else {
                    j + 1
                };
                assert(nk[j] == kids[oj]);
                assert(old_tree.child_ok(p as int, kids[oj].content));
                assert(kids[oj].content != SplitContent::TabGroup(g));
            }
            assert forall|c: SplitContent|
                has_content(kids, c) && c != SplitContent::TabGroup(g) implies has_content(
                nk,
                c,
            ) by {
                let j = choose|j: int| 0 <= j < kids.len() && kids[j].content == c;
                let nj = if j < k {
                    j
                } else {
                    j - 1
                };
                assert(nk[nj] == kids[j]);
            }
            assert forall|s: int| #[trigger] self.split_alive(s) implies self.node_shape(s) && (s
                != self.root && s != p ==> self.kids(s).len() >= 2) by {
                assert(old_tree.split_alive(s));
                assert(old_tree.node_ok(s));
                let ks = self.kids(s);
                if s != p {
                    assert forall|j: int| 0 <= j < ks.len() implies self.child_ok(
                        s,
                        #[trigger] ks[j].content,
                    ) by {
                        assert(old_tree.child_ok(s, ks[j].content));
                    }
                }
            }
            assert forall|h: int| #[trigger] self.group_alive(h) implies self.group_ok(h) by {
                assert(old_tree.group_alive(h));
                assert(old_tree.group_ok(h));
                let q = old_tree.groups@[h].parent as int;
                if q == p {
                    assert(has_content(kids, SplitContent::TabGroup(h as usize)));
                    assert(SplitContent::TabGroup(h as usize) != SplitContent::TabGroup(g));
                } else {
                    assert(self.kids(q) == old_tree.kids(q));
                }
            }
        }
    }

    /// Replaces the non-root split node `p`, left with one slot, by that
    /// slot's content in the slot of its parent.
    fn splice(&mut self, p: usize)
        requires
            old(self).wf_but(p as int),
            old(self).split_alive(p as int),
            p != old(self).root,
            old(self).kids(p as int).len() == 1,
        ensures
            final(self).wf(),
            ({
                let c = old(self).kids(p as int)[0].content;
                let gp = old(self).splits@[p as int].parent.unwrap() as int;
                let gk = old(self).kids(gp);
                let j = slot_of(gk, SplitContent::Split(p));
                &&& final(self).root == old(self).root
                &&& !final(self).split_alive(p as int)
                &&& final(self).kids(gp) == gk.update(
                    j,
                    SplitChild { weight: gk[j].weight, content: c },
                )
                &&& final(self).splits@.len() == old(self).splits@.len()
                &&& final(self).groups@.len() == old(self).groups@.len()
                &&& forall|h: int|
                    0 <= h < old(self).groups@.len() ==> #[trigger] final(self).groups@[h].group
                        == old(self).groups@[h].group
                &&& forall|h: int|
                    0 <= h < old(self).groups@.len() ==> #[trigger] final(self).groups@[h].alive
                        == old(self).groups@[h].alive
                &&& forall|h: int|
                    0 <= h < old(self).groups@.len() && c != SplitContent::TabGroup(h as usize)
                        ==> #[trigger] final(self).groups@[h].parent == old(self).groups@[h].parent
                &&& forall|s: int|
                    0 <= s < old(self).splits@.len() && s != p && s != gp ==> #[trigger] final(self).kids(s)
                        == old(self).kids(s) && final(self).splits@[s].alive == old(self).splits@[s].alive
            }),
    {
        let ghost old_tree = *self;
        proof {
            assert(self.groups@.len() == self.groups.len());
            assert(self.splits@.len() == self.splits.len());
        }
        proof {
            assert(old_tree.node_shape(p as int));
        }
        let gp = self.splits[p].parent.unwrap();
        proof {
            assert(old_tree.split_alive(gp as int));
            assert(old_tree.node_ok(gp as int));
        }
        let j = self.slot(gp, SplitContent::Split(p));
        let ghost gk = self.kids(gp as int);
        let ghost pk = self.kids(p as int);
        proof {
            assert(distinct_contents(gk));
            assert(j as int == slot_of(gk, SplitContent::Split(p)));
            assert(old_tree.child_ok(p as int, pk[0].content));
            assert(old_tree.child_ok(gp as int, gk[j as int].content));
        }
        let c = self.splits[p].children[0].content;
        let w = self.splits[gp].children[j].weight;
        self.splits[gp].children.set(j, SplitChild { weight: w, content: c });
        match c {
            SplitContent::TabGroup(h) => {
                self.groups[h].parent = gp;
            },
            SplitContent::Split(m) => {
                self.splits[m].parent = Some(gp);
            },
        }
        self.splits[p].alive = false;
        self.splits[p].children = Vec::new();
        proof {
            let nk = self.kids(gp as int);
            lemma_weight_sum_update(gk, j as int, SplitChild { weight: w, content: c });
            // c hung under p, so no slot of gp held it
            assert forall|x: int| 0 <= x < gk.len() implies gk[x].content != c by {
                assert(old_tree.child_ok(gp as int, gk[x].content));
            }
            assert forall|x: int, y: int|
                0 <= x < nk.len() && 0 <= y < nk.len() && x != y implies nk[x].content
                    != nk[y].content by {}
            assert forall|x: int| 0 <= x < nk.len() implies self.child_ok(
                gp as int,
                #[trigger] nk[x].content,
            ) by {
                if x != j {
                    assert(old_tree.child_ok(gp as int, gk[x].content));
                }
            }
            assert(nk[j as int].content == c);
            assert forall|x: SplitContent|
                has_content(gk, x) && x != SplitContent::Split(p) implies has_content(nk, x) by {
                let y = choose|y: int| 0 <= y < gk.len() && gk[y].content == x;
                assert(nk[y] == gk[y]);
            }
            assert(self.node_ok(gp as int));
            assert forall|s: int| #[trigger] self.split_alive(s) implies self.node_ok(s) by {
                assert(old_tree.split_alive(s));
                assert(old_tree.node_shape(s));
                let ks = self.kids(s);
                if s != gp {
                    assert(ks == old_tree.kids(s));
                    assert forall|y: int| 0 <= y < ks.len() implies self.child_ok(
                        s,
                        #[trigger] ks[y].content,
                    ) by {
                        assert(old_tree.child_ok(s, ks[y].content));
                        if ks[y].content == SplitContent::Split(p) {
                            assert(s == gp);
                        }
                        if ks[y].content == c {
                            assert(s == p);
                        }
                    }
                    if s != self.root {
                        let q = old_tree.splits@[s].parent.unwrap() as int;
                        if c != SplitContent::Split(s as usize) && q == p {
                            let y = choose|y: int|
                                0 <= y < pk.len() && pk[y].content == SplitContent::Split(
                                    s as usize,
                                );
                            assert(y == 0);
                        }
                    }
                }
            }
            assert forall|h: int| #[trigger] self.group_alive(h) implies self.group_ok(h) by {
                assert(old_tree.group_alive(h));
                assert(old_tree.group_ok(h));
                let q = old_tree.groups@[h].parent as int;
                if c != SplitContent::TabGroup(h as usize) && q == p {
                    let y = choose|y: int|
                        0 <= y < pk.len() && pk[y].content == SplitContent::TabGroup(h as usize);
                    assert(y == 0);
                } else if c == SplitContent::TabGroup(h as usize) {
                    assert(nk[j as int].content == c);
                } else if q == gp {
                    assert(has_content(gk, SplitContent::TabGroup(h as usize)));
                } else {
                    assert(self.kids(q) == old_tree.kids(q));
                }
            }
        }
    }
}


impl SplitTree {
    /// Takes the live tab group `g` out of the tree. Its split node gives
    /// up the slot, the remaining slots keeping their proportions; a
    /// non-root node left with one slot is replaced by that slot's content.
    /// Returns what was taken out of the tree, each entry once. Refused
    /// when `g` is the root's only slot.
    pub fn remove_group(&mut self, g: usize) -> (r: Result<Vec<SplitContent>, LayoutError>)
        requires
            old(self).wf(),
            old(self).group_alive(g as int),
        ensures
            final(self).wf(),
            group_removed(*old(self), *final(self), g, r),
    {
        proof {
            assert(self.group_ok(g as int));
        }
        let p = self.groups[g].parent;
        proof {
            assert(self.split_alive(p as int));
            assert(self.node_ok(p as int));
        }
        let k = self.slot(p, SplitContent::TabGroup(g));
        proof {
            assert(distinct_contents(self.kids(p as int)));
            assert(k as int == slot_of(self.kids(p as int), SplitContent::TabGroup(g)));
        }
        if p == self.root && self.splits[p].children.len() == 1 {
            return Err(LayoutError::LastGroup);
        }
        let ghost before = *self;
        self.take_out(g, p, k);
        let ghost mid = *self;
        if p != self.root && self.splits[p].children.len() == 1 {
            self.splice(p);
            proof {
                let gp = mid.splits@[p as int].parent.unwrap() as int;
                assert forall|s: int|
                    0 <= s < before.splits@.len() && s != p && s != gp implies #[trigger] self.kids(s)
                        == before.kids(s) && self.splits@[s].alive == before.splits@[s].alive by {
                    assert(mid.splits@[s] == before.splits@[s]);
                    assert(mid.kids(s) == before.kids(s));
                    assert(self.kids(s) == mid.kids(s));
                }
            }
            let d = vec![SplitContent::TabGroup(g), SplitContent::Split(p)];
            assert(d@ =~= seq![SplitContent::TabGroup(g), SplitContent::Split(p)]);
            Ok(d)
        } else {
            proof {
                assert forall|s: int|
                    0 <= s < before.splits@.len() && s != p implies #[trigger] self.kids(s)
                        == before.kids(s) && self.splits@[s].alive == before.splits@[s].alive by {
                    assert(self.splits@[s] == before.splits@[s]);
                }
            }
            let d = vec![SplitContent::TabGroup(g)];
            assert(d@ =~= seq![SplitContent::TabGroup(g)]);
            Ok(d)
        }
    }
}


/// The slots of a split node with their weights replaced by `sizes`.
pub open spec fn with_weights(kids: Seq<SplitChild>, sizes: Seq<u64>) -> Seq<SplitChild> {
    Seq::new(kids.len(), |i: int| SplitChild { weight: sizes[i], content: kids[i].content })
}

/// The weights after dragging the border before slot `index` by `delta`:
/// the two slots beside the border trade `delta` pixels, the others keep
/// their pixel sizes.
pub open spec fn resized_weight(sizes: Seq<u64>, index: int, delta: int, i: int) -> int {
    if i == index - 1 {
        sizes[i] + delta
    } else if i == index {
        sizes[i] - delta
    } else {
        sizes[i] as int
    }
}

pub open spec fn resize_fits(sizes: Seq<u64>, index: int, delta: int) -> bool {
    forall|i: int| 0 <= i < sizes.len() ==> #[trigger] resized_weight(sizes, index, delta, i) > 0
}

impl SplitTree {
    /// Two trees with the same shape and the same live groups, each of them
    /// well formed, are both well formed or both not.
    proof fn lemma_same_shape(a: &SplitTree, b: &SplitTree)
        requires
            a.wf(),
            a.root == b.root,
            a.splits == b.splits,
            a.rank == b.rank,
            a.groups@.len() == b.groups@.len(),
            forall|h: int|
                0 <= h < a.groups@.len() ==> #[trigger] b.groups@[h].alive == a.groups@[h].alive,
            forall|h: int|
                0 <= h < a.groups@.len() ==> #[trigger] b.groups@[h].parent == a.groups@[h].parent,
            forall|h: int|
                0 <= h < a.groups@.len() && a.groups@[h].alive ==> #[trigger] b.groups@[h].group.wf()
                    && b.groups@[h].group.id == h,
        ensures
            b.wf(),
    {
        assert forall|s: int| #[trigger] b.split_alive(s) implies b.node_ok(s) by {
            assert(a.split_alive(s));
            assert(a.node_ok(s));
            let ks = b.kids(s);
            assert forall|j: int| 0 <= j < ks.len() implies b.child_ok(s, #[trigger] ks[j].content) by {
                assert(a.child_ok(s, ks[j].content));
                match ks[j].content {
                    SplitContent::TabGroup(g) => {
                        assert(b.groups@[g as int].alive == a.groups@[g as int].alive);
                    },
                    SplitContent::Split(m) => {},
                }
            }
        }
        assert forall|h: int| #[trigger] b.group_alive(h) implies b.group_ok(h) by {
            assert(a.group_alive(h));
            assert(a.group_ok(h));
        }
    }

    /// Following parents from a live split node other than the root reaches
    /// a split node held by a slot of the root.
    pub proof fn lemma_reaches_root(&self, s: int)
        requires
            self.wf(),
            self.split_alive(s),
            s != self.root,
        ensures
            exists|m: int| #[trigger] has_content(self.kids(self.root as int), SplitContent::Split(m as usize)) && self.split_alive(m),
        decreases self.rank@[self.root as int] - self.rank@[s],
    {
        assert(self.splits@.len() == self.splits.len());
        assert(self.node_ok(s));
        let q = self.splits@[s].parent.unwrap() as int;
        let k = choose|k: int|
            0 <= k < self.kids(q).len() && self.kids(q)[k].content == SplitContent::Split(s as usize);
        assert(self.split_alive(q));
        assert(self.node_ok(q));
        assert(self.child_ok(q, self.kids(q)[k].content));
        if q == self.root {
            assert(has_content(self.kids(self.root as int), SplitContent::Split(s as usize)));
        } else {
            self.lemma_reaches_root(q);
        }
    }

    /// When the root's only slot holds the group `g`, no other group is live.
    pub proof fn lemma_lone_group(&self, g: usize, h: int)
        requires
            self.wf(),
            self.kids(self.root as int) == seq![self.kids(self.root as int)[0]],
            self.kids(self.root as int)[0].content == SplitContent::TabGroup(g),
            self.group_alive(h),
        ensures
            h == g,
    {
        assert(self.groups@.len() == self.groups.len());
        assert(self.splits@.len() == self.splits.len());
        assert(self.group_ok(h));
        let q = self.groups@[h].parent as int;
        if q == self.root {
            let k = choose|k: int|
                0 <= k < self.kids(q).len() && self.kids(q)[k].content == SplitContent::TabGroup(h as usize);
            assert(k == 0);
        } else {
            assert(self.split_alive(q));
            self.lemma_reaches_root(q);
            let m = choose|m: int| #[trigger] has_content(self.kids(self.root as int), SplitContent::Split(m as usize)) && self.split_alive(m);
            let k = choose|k: int|
                0 <= k < self.kids(self.root as int).len() && self.kids(self.root as int)[k].content == SplitContent::Split(m as usize);
            assert(k == 0);
        }
    }
}


/// What moving the tab at `index` of group `from` to position `to_index`
/// of group `to` does (see `SplitTree::move_tab`).
pub open spec fn tab_moved(
    before: SplitTree,
    after: SplitTree,
    from: usize,
    index: usize,
    to: usize,
    to_index: usize,
    r: Result<Vec<SplitContent>, LayoutError>,
) -> bool {
    let src = before.groups@[from as int].group.children@;
    let dst = before.groups@[to as int].group.children@;
    let e = src[index as int];
    &&& after.groups@.len() == before.groups@.len()
    &&& forall|h: int|
        0 <= h < before.groups@.len() && h != from && h != to ==> #[trigger] after.groups@[h].group == before.groups@[h].group
    &&& from == to ==> {
        &&& r matches Ok(d) && d@.len() == 0
        &&& after.groups@[from as int].group.children@ == moved(
            src,
            index as int,
            to_index as int,
        )
        &&& after.groups@[from as int].group.active as int == insertion_index(
            index as int,
            to_index as int,
        )
        &&& after.splits == before.splits
    }
    &&& from != to && contains_item(dst, e.item) ==> r == Err::<
        Vec<SplitContent>,
        LayoutError,
    >(LayoutError::AlreadyOpen) && after == before
    &&& from != to && !contains_item(dst, e.item) ==> {
        &&& r is Ok
        &&& after.groups@[to as int].group.children@ == dst.insert(
            to_index as int,
            e,
        )
        &&& after.groups@[to as int].group.active == to_index
        &&& after.group_alive(to as int)
        &&& after.groups@[from as int].group.children@ == src.remove(index as int)
        &&& after.group_alive(from as int) == (src.len() > 1)
        &&& src.len() > 1 ==> r.unwrap()@.len() == 0 && after.splits == before.splits
        &&& src.len() == 1 ==> r.unwrap()@.len() >= 1 && r.unwrap()@[0]
            == SplitContent::TabGroup(from)
        &&& src.len() == 1 ==> exists|m: SplitTree|
            #[trigger] group_removed(m, after, from, r) && m.splits == before.splits && m.root
                == before.root && m.groups@[from as int].parent == before.groups@[from as int].parent
    }
}

/// Taking the tab at `index` out of group `from`, and nothing else.
pub open spec fn tab_taken(before: SplitTree, after: SplitTree, from: usize, index: usize) -> bool {
    &&& after.wf()
    &&& after.root == before.root
    &&& after.splits == before.splits
    &&& after.rank == before.rank
    &&& after.groups@.len() == before.groups@.len()
    &&& forall|h: int|
        0 <= h < before.groups@.len() && h != from ==> #[trigger] after.groups@[h]
            == before.groups@[h]
    &&& after.groups@[from as int].alive == before.groups@[from as int].alive
    &&& after.groups@[from as int].parent == before.groups@[from as int].parent
    &&& after.groups@[from as int].group.children@ == before.groups@[from as int].group.children@.remove(
        index as int,
    )
}

/// The steps of moving a tab into a new split, through the states between
/// them: the tab leaves its group (`m1`); a group so emptied leaves the tree
/// (`m2`); the new group opens beside `target` (`m3`); the tab enters it.
pub open spec fn tab_split_steps(
    before: SplitTree,
    m1: SplitTree,
    m2: SplitTree,
    m3: SplitTree,
    after: SplitTree,
    from: usize,
    index: usize,
    target: usize,
    side: SplitMoveDirection,
    r: Result<(usize, Vec<SplitContent>), LayoutError>,
) -> bool {
    let src = before.groups@[from as int].group.children@;
    let g = r.unwrap().0;
    &&& r is Ok
    &&& tab_taken(before, m1, from, index)
    &&& src.len() > 1 ==> m2 == m1 && r.unwrap().1@.len() == 0
    &&& src.len() == 1 ==> group_removed(m1, m2, from, Ok(r.unwrap().1))
    &&& group_split(m2, m3, target, side.spec_direction(), side.spec_before(), g)
    &&& after.root == m3.root
    &&& after.splits == m3.splits
    &&& after.rank == m3.rank
    &&& after.groups@.len() == m3.groups@.len()
    &&& forall|h: int|
        0 <= h < m3.groups@.len() && h != g ==> #[trigger] after.groups@[h] == m3.groups@[h]
    &&& after.groups@[g as int].alive == m3.groups@[g as int].alive
    &&& after.groups@[g as int].parent == m3.groups@[g as int].parent
    &&& after.groups@[g as int].group.children@ == seq![src[index as int]]
}

/// What moving the tab at `index` of group `from` into a new group beside
/// `target` does (see `SplitTree::move_tab_to_new_split`).
pub open spec fn tab_moved_to_split(
    before: SplitTree,
    after: SplitTree,
    from: usize,
    index: usize,
    target: usize,
    side: SplitMoveDirection,
    r: Result<(usize, Vec<SplitContent>), LayoutError>,
) -> bool {
    let src = before.groups@[from as int].group.children@;
    let sole = from == target && src.len() == 1;
    &&& sole ==> r == Err::<(usize, Vec<SplitContent>), LayoutError>(LayoutError::SoleTab)
        && after == before
    &&& !sole ==> exists|m1: SplitTree, m2: SplitTree, m3: SplitTree|
        #[trigger] tab_split_steps(before, m1, m2, m3, after, from, index, target, side, r)
}

impl SplitTree {
    /// The tab group `g`.
    pub fn group(&self, g: usize) -> (r: &EditorTabGroup)
        requires
            g < self.groups@.len(),
        ensures
            *r == self.groups@[g as int].group,
    {
        &self.groups[g].group
    }

    pub fn is_group_alive(&self, g: usize) -> (r: bool)
        ensures
            r == self.group_alive(g as int),
    {
        g < self.groups.len() && self.groups[g].alive
    }

    /// The slots of the split node `s`.
    pub fn children_of(&self, s: usize) -> (r: &Vec<SplitChild>)
        requires
            s < self.splits@.len(),
        ensures
            r@ == self.kids(s as int),
    {
        &self.splits[s].children
    }

    /// The split node that holds the group `g`.
    pub fn parent_of_group(&self, g: usize) -> (r: usize)
        requires
            g < self.groups@.len(),
        ensures
            r == self.groups@[g as int].parent,
    {
        self.groups[g].parent
    }

    /// Moves the tab at `index` of group `from` into group `to`, before the
    /// tab that stood at `to_index`, and makes it active there. Within one
    /// group this is a reorder. A group emptied by the move is taken out of
    /// the tree; the entries taken out are returned. Refused when the item
    /// is already open in `to`.
    pub fn move_tab(&mut self, from: usize, index: usize, to: usize, to_index: usize) -> (r: Result<
        Vec<SplitContent>,
        LayoutError,
    >)
        requires
            old(self).wf(),
            old(self).group_alive(from as int),
            old(self).group_alive(to as int),
            index < old(self).groups@[from as int].group.children@.len(),
            to_index <= old(self).groups@[to as int].group.children@.len(),
        ensures
            final(self).wf(),
            tab_moved(*old(self), *final(self), from, index, to, to_index, r),
    {
        let ghost old_tree = *self;
        proof {
            assert(self.groups@.len() == self.groups.len());
        }
        proof {
            assert(old_tree.group_ok(from as int));
            assert(old_tree.group_ok(to as int));
        }
        if from == to {
            self.groups[from].group.reorder(index, to_index);
            proof {
                assert forall|h: int| 0 <= h < old_tree.groups@.len() implies #[trigger] self.groups@[h].alive
                    == old_tree.groups@[h].alive by {
                    if h != from {
                        assert(self.groups@[h] == old_tree.groups@[h]);
                    }
                }
                assert forall|h: int| 0 <= h < old_tree.groups@.len() implies #[trigger] self.groups@[h].parent
                    == old_tree.groups@[h].parent by {
                    if h != from {
                        assert(self.groups@[h] == old_tree.groups@[h]);
                    }
                }
                assert forall|h: int| 0 <= h < old_tree.groups@.len() && old_tree.groups@[h].alive implies #[trigger] self.groups@[h].group.wf()
                    && self.groups@[h].group.id == h by {
                    assert(old_tree.group_alive(h));
                    assert(old_tree.group_ok(h));
                    if h != from {
                        assert(self.groups@[h] == old_tree.groups@[h]);
                    }
                }
                SplitTree::lemma_same_shape(&old_tree, self);
            }
            return Ok(Vec::new());
        }
        let e = self.groups[from].group.children[index];
        if self.groups[to].group.find(e.item).is_some() {
            return Err(LayoutError::AlreadyOpen);
        }
        let entry = self.groups[from].group.remove_at(index);
        self.groups[to].group.insert_at(to_index, entry);
        proof {
                assert forall|h: int| 0 <= h < old_tree.groups@.len() implies #[trigger] self.groups@[h].alive
                    == old_tree.groups@[h].alive by {
                    if h != from && h != to {
                        assert(self.groups@[h] == old_tree.groups@[h]);
                    }
                }
                assert forall|h: int| 0 <= h < old_tree.groups@.len() implies #[trigger] self.groups@[h].parent
                    == old_tree.groups@[h].parent by {
                    if h != from && h != to {
                        assert(self.groups@[h] == old_tree.groups@[h]);
                    }
                }
                assert forall|h: int| 0 <= h < old_tree.groups@.len() && old_tree.groups@[h].alive implies #[trigger] self.groups@[h].group.wf()
                    && self.groups@[h].group.id == h by {
                    assert(old_tree.group_alive(h));
                    assert(old_tree.group_ok(h));
                    if h != from && h != to {
                        assert(self.groups@[h] == old_tree.groups@[h]);
                    }
                }
            SplitTree::lemma_same_shape(&old_tree, self);
        }
        if self.groups[from].group.children.len() == 0 {
            let ghost mid = *self;
            proof {
                let p = mid.groups@[from as int].parent as int;
                if p == mid.root && mid.kids(p).len() == 1 {
                    assert(mid.group_ok(from as int));
                    let k = choose|k: int|
                        0 <= k < mid.kids(p).len() && mid.kids(p)[k].content == SplitContent::TabGroup(
                            from,
                        );
                    assert(mid.kids(p) =~= seq![mid.kids(p)[0]]);
                    mid.lemma_lone_group(from, to as int);
                }
            }
            let d = self.remove_group(from);
            proof {
                assert(mid.splits == old_tree.splits);
                assert(mid.groups@[from as int].parent == old_tree.groups@[from as int].parent);
                assert(group_removed(mid, *self, from, d));
            }
            d
        } else {
            Ok(Vec::new())
        }
    }

    /// Moves the tab at `index` of group `from` into a new group opened
    /// beside `target` on `side` (see `split_group`). As in a removal, the
    /// tab first leaves its group, and a group so emptied leaves the tree,
    /// before the new group opens. Returns the new group and the entries
    /// taken out of the tree.
    pub fn move_tab_to_new_split(
        &mut self,
        from: usize,
        index: usize,
        target: usize,
        side: SplitMoveDirection,
    ) -> (r: Result<(usize, Vec<SplitContent>), LayoutError>)
        requires
            old(self).wf(),
            old(self).group_alive(from as int),
            old(self).group_alive(target as int),
            index < old(self).groups@[from as int].group.children@.len(),
            old(self).groups@.len() < usize::MAX,
            old(self).splits@.len() < usize::MAX,
        ensures
            final(self).wf(),
            tab_moved_to_split(*old(self), *final(self), from, index, target, side, r),
    {
        proof {
            assert(self.groups@.len() == self.groups.len());
        }
        if from == target && self.groups[from].group.children.len() == 1 {
            return Err(LayoutError::SoleTab);
        }
        let ghost b = *self;
        proof {
            assert(b.group_ok(from as int));
        }
        let entry = self.groups[from].group.remove_at(index);
        proof {
            assert forall|h: int| 0 <= h < b.groups@.len() implies #[trigger] self.groups@[h].alive
                == b.groups@[h].alive by {
                if h != from {
                    assert(self.groups@[h] == b.groups@[h]);
                }
            }
            assert forall|h: int| 0 <= h < b.groups@.len() implies #[trigger] self.groups@[h].parent
                == b.groups@[h].parent by {
                if h != from {
                    assert(self.groups@[h] == b.groups@[h]);
                }
            }
            assert forall|h: int| 0 <= h < b.groups@.len() && b.groups@[h].alive implies #[trigger] self.groups@[h].group.wf()
                && self.groups@[h].group.id == h by {
                assert(b.group_alive(h));
                assert(b.group_ok(h));
                if h != from {
                    assert(self.groups@[h] == b.groups@[h]);
                }
            }
            SplitTree::lemma_same_shape(&b, self);
        }
        let ghost m1 = *self;
        let d: Vec<SplitContent> = if self.groups[from].group.children.len() == 0 {
            proof {
                let p = m1.groups@[from as int].parent as int;
                assert(m1.group_alive(target as int));
                if p == m1.root && m1.kids(p).len() == 1 {
                    assert(m1.group_ok(from as int));
                    let k = choose|k: int|
                        0 <= k < m1.kids(p).len() && m1.kids(p)[k].content == SplitContent::TabGroup(
                            from,
                        );
                    assert(m1.kids(p) =~= seq![m1.kids(p)[0]]);
                    m1.lemma_lone_group(from, target as int);
                }
            }
            match self.remove_group(from) {
                Ok(d) => d,
                Err(_) => Vec::new(),
            }
        } else {
            Vec::new()
        };
        let ghost m2 = *self;
        proof {
            assert(m2.groups@[target as int].alive == m1.groups@[target as int].alive);
            assert(m2.group_alive(target as int));
        }
        let g = self.split_group(target, side.direction(), side.before());
        let ghost m3 = *self;
        proof {
            assert(m3.group_ok(g as int));
            assert(!contains_item(self.groups@[g as int].group.children@, entry.item));
        }
        self.groups[g].group.insert_at(0, entry);
        proof {
            assert(self.groups@[g as int].group.children@ =~= seq![entry]);
            assert forall|h: int| 0 <= h < m3.groups@.len() implies #[trigger] self.groups@[h].alive
                == m3.groups@[h].alive by {
                if h != g {
                    assert(self.groups@[h] == m3.groups@[h]);
                }
            }
            assert forall|h: int| 0 <= h < m3.groups@.len() implies #[trigger] self.groups@[h].parent
                == m3.groups@[h].parent by {
                if h != g {
                    assert(self.groups@[h] == m3.groups@[h]);
                }
            }
            assert forall|h: int| 0 <= h < m3.groups@.len() && m3.groups@[h].alive implies #[trigger] self.groups@[h].group.wf()
                && self.groups@[h].group.id == h by {
                assert(m3.group_alive(h));
                assert(m3.group_ok(h));
                if h != g {
                    assert(self.groups@[h] == m3.groups@[h]);
                }
            }
            SplitTree::lemma_same_shape(&m3, self);
            let r: Result<(usize, Vec<SplitContent>), LayoutError> = Ok((g, d));
            assert(tab_split_steps(b, m1, m2, m3, *self, from, index, target, side, r));
        }
        Ok((g, d))
    }

    /// Drags the border before slot `index` of the split node `s` by
    /// `delta` pixels, given the pixel size of each slot along the node's
    /// axis: the two slots beside the border become `sizes[index - 1] +
    /// delta` and `sizes[index] - delta`, and each other slot its pixel
    /// size, all over the unchanged pixel total. Refused when the total
    /// does not fit in 64 bits or a slot would end up without extent.
    pub fn resize(&mut self, s: usize, index: usize, delta: i64, sizes: &Vec<u64>) -> (r: Result<
        (),
        LayoutError,
    >)
        requires
            old(self).wf(),
            old(self).split_alive(s as int),
            sizes@.len() == old(self).kids(s as int).len(),
            1 <= index < sizes@.len(),
        ensures
            final(self).wf(),
            ({
                let kids = old(self).kids(s as int);
                let base = with_weights(kids, sizes@);
                let heavy = weight_sum(base) > u64::MAX;
                let fits = resize_fits(sizes@, index as int, delta as int);
                &&& heavy ==> r == Err::<(), LayoutError>(LayoutError::WeightOverflow) && *final(self) == *old(self)
                &&& !heavy && !fits ==> r == Err::<(), LayoutError>(LayoutError::OutOfRange)
                    && *final(self) == *old(self)
                &&& !heavy && fits ==> {
                    &&& r is Ok
                    &&& final(self).kids(s as int) == Seq::new(
                        kids.len(),
                        |i: int|
                            SplitChild {
                                weight: resized_weight(sizes@, index as int, delta as int, i) as u64,
                                content: kids[i].content,
                            },
                    )
                    &&& weight_sum(final(self).kids(s as int)) == weight_sum(base)
                    &&& final(self).splits@[s as int].direction == old(self).splits@[s as int].direction
                    &&& final(self).splits@[s as int].parent == old(self).splits@[s as int].parent
                    &&& final(self).splits@[s as int].alive == old(self).splits@[s as int].alive
                    &&& final(self).groups == old(self).groups
                    &&& final(self).splits@.len() == old(self).splits@.len()
                    &&& forall|x: int|
                        0 <= x < old(self).splits@.len() && x != s ==> #[trigger] final(self).splits@[x] == old(self).splits@[x]
                }
            }),
    {
        let ghost old_tree = *self;
        let ghost kids = self.kids(s as int);
        let ghost base = with_weights(kids, sizes@);
        let n = sizes.len();
        let mut total: u64 = 0;
        let mut i: usize = 0;
        while i < n
            invariant
                n == sizes@.len(),
                *self == old_tree,
                old_tree.wf(),
                old_tree.split_alive(s as int),
                kids == old_tree.kids(s as int),
                base.len() == n,
                base == with_weights(kids, sizes@),
                i <= n,
                total == weight_sum(base.subrange(0, i as int)),
            decreases n - i,
        {
            proof {
                lemma_weight_sum_prefix(base, i as int);
                lemma_weight_sum_nonneg(base.subrange(i + 1, n as int));
                lemma_weight_sum_concat(base.subrange(0, i + 1), base.subrange(i + 1, n as int));
                assert(base =~= base.subrange(0, i + 1) + base.subrange(i + 1, n as int));
            }
            match total.checked_add(sizes[i]) {
                Some(t) => {
                    total = t;
                },
                None => {
                    return Err(LayoutError::WeightOverflow);
                },
            }
            i = i + 1;
        }
        proof {
            assert(base.subrange(0, n as int) =~= base);
        }
        let mut next: Vec<SplitChild> = Vec::new();
        let mut j: usize = 0;
        while j < n
            invariant
                n == sizes@.len(),
                n == kids.len(),
                kids == old_tree.kids(s as int),
                *self == old_tree,
                old_tree.wf(),
                old_tree.split_alive(s as int),
                1 <= index < n,
                j <= n,
                forall|x: int| 0 <= x < j ==> #[trigger] resized_weight(sizes@, index as int, delta as int, x) > 0,
                next@.len() == j,
                forall|x: int|
                    0 <= x < j ==> #[trigger] next@[x] == (SplitChild {
                        weight: resized_weight(sizes@, index as int, delta as int, x) as u64,
                        content: kids[x].content,
                    }),
                weight_sum(base) <= u64::MAX,
                base == with_weights(kids, sizes@),
            decreases n - j,
        {
            let sz = sizes[j] as i128;
            let w: i128 = if j == index - 1 {
                sz + delta as i128
            } else if j == index {
                sz - delta as i128
            } else {
                sz
            };
            proof {
                assert(w == resized_weight(sizes@, index as int, delta as int, j as int));
            }
            if w <= 0 {
                return Err(LayoutError::OutOfRange);
            }
            proof {
                lemma_weight_le_sum(base, index - 1);
                lemma_weight_le_sum(base, index as int);
                lemma_weight_sum_split(base, index - 1);
                lemma_weight_sum_split(base.subrange(index as int, n as int), 0);
                lemma_weight_sum_nonneg(base.subrange(0, index - 1));
                lemma_weight_sum_nonneg(base.subrange(index + 1, n as int));
                assert(base.subrange(index as int, n as int).subrange(1, n - index) =~= base.subrange(index + 1, n as int));
                assert(base.subrange(index as int, n as int).subrange(0, 0) =~= Seq::<SplitChild>::empty());
                assert(sizes@[index - 1] + sizes@[index as int] <= weight_sum(base));
            }
            let c = self.splits[s].children[j].content;
            next.push(SplitChild { weight: w as u64, content: c });
            j = j + 1;
        }
        proof {
            assert(resize_fits(sizes@, index as int, delta as int));
        }
        proof {
            lemma_weight_sum_split(base, index - 1);
            lemma_weight_sum_split(base.subrange(index as int, n as int), 0);
            lemma_weight_sum_nonneg(base.subrange(0, index - 1));
            lemma_weight_sum_nonneg(base.subrange(index + 1, n as int));
            assert(base.subrange(index as int, n as int).subrange(1, n - index) =~= base.subrange(
                index + 1,
                n as int,
            ));
            assert(base.subrange(index as int, n as int).subrange(0, 0) =~= Seq::<
                SplitChild,
            >::empty());
            assert(sizes@[index - 1] + sizes@[index as int] <= weight_sum(base));
            assert(resized_weight(sizes@, index as int, delta as int, index - 1) > 0);
            assert(resized_weight(sizes@, index as int, delta as int, index as int) > 0);
            assert(next@[index - 1].weight == sizes@[index - 1] + delta);
            assert(next@[index as int].weight == sizes@[index as int] - delta);
        }
        self.splits[s].children = next;
        proof {
            let nk = self.kids(s as int);
            let a = base.update(index - 1, nk[index - 1]);
            lemma_weight_sum_update(base, index - 1, nk[index - 1]);
            lemma_weight_sum_update(a, index as int, nk[index as int]);
            assert(nk =~= a.update(index as int, nk[index as int]));
            assert(weight_sum(nk) == weight_sum(base));
            assert(old_tree.node_ok(s as int));
            assert forall|x: int| 0 <= x < nk.len() implies self.child_ok(s as int, #[trigger] nk[x].content) by {
                assert(old_tree.child_ok(s as int, kids[x].content));
            }
            assert forall|x: int, y: int| 0 <= x < nk.len() && 0 <= y < nk.len() && x != y implies nk[x].content != nk[y].content by {
                assert(kids[x].content != kids[y].content);
            }
            assert forall|c: SplitContent| has_content(kids, c) implies has_content(nk, c) by {
                let y = choose|y: int| 0 <= y < kids.len() && kids[y].content == c;
                assert(nk[y].content == c);
            }
            assert(self.node_ok(s as int));
            assert forall|x: int| #[trigger] self.split_alive(x) implies self.node_ok(x) by {
                assert(old_tree.split_alive(x));
                assert(old_tree.node_ok(x));
                if x != s {
                    let ks = self.kids(x);
                    assert forall|y: int| 0 <= y < ks.len() implies self.child_ok(x, #[trigger] ks[y].content) by {
                        assert(old_tree.child_ok(x, ks[y].content));
                    }
                }
            }
            assert forall|h: int| #[trigger] self.group_alive(h) implies self.group_ok(h) by {
                assert(old_tree.group_alive(h));
                assert(old_tree.group_ok(h));
            }
            assert(self.kids(s as int) =~= Seq::new(
                kids.len(),
                |i: int|
                    SplitChild {
                        weight: resized_weight(sizes@, index as int, delta as int, i) as u64,
                        content: kids[i].content,
                    },
            ));
        }
        Ok(())
    }
}


/// The share of slot `k` of a split node: its weight over the node's total.
pub open spec fn share(kids: Seq<SplitChild>, k: int) -> (int, int) {
    (kids[k].weight as int, weight_sum(kids))
}

/// The sum of the shares' numerators over the first `len` slots.
pub open spec fn share_numerators(kids: Seq<SplitChild>, len: int) -> int
    decreases len,
{
    if len <= 0 {
        0
    } else {
        share_numerators(kids, len - 1) + share(kids, len - 1).0
    }
}

proof fn lemma_share_numerators(kids: Seq<SplitChild>, len: int)
    requires
        0 <= len <= kids.len(),
    ensures
        share_numerators(kids, len) == weight_sum(kids.subrange(0, len)),
    decreases len,
{
    if len > 0 {
        lemma_share_numerators(kids, len - 1);
        lemma_weight_sum_prefix(kids, len - 1);
    } else {
        assert(kids.subrange(0, 0) =~= Seq::<SplitChild>::empty());
    }
}

impl SplitTree {
    /// In a well-formed tree every live split node gives each slot a
    /// positive share, all over one positive denominator, and the shares
    /// add up to exactly one. Every change the tree offers keeps it well
    /// formed, so this holds after any sequence of them.
    pub proof fn lemma_shares_sum_to_one(&self, s: int)
        requires
            self.wf(),
            self.split_alive(s),
        ensures
            weight_sum(self.kids(s)) > 0,
            forall|k: int|
                0 <= k < self.kids(s).len() ==> #[trigger] share(self.kids(s), k).0 > 0
                    && share(self.kids(s), k).1 == weight_sum(self.kids(s)),
            share_numerators(self.kids(s), self.kids(s).len() as int) == weight_sum(self.kids(s)),
    {
        assert(self.node_ok(s));
        lemma_weight_sum_nonneg(self.kids(s));
        lemma_share_numerators(self.kids(s), self.kids(s).len() as int);
        assert(self.kids(s).subrange(0, self.kids(s).len() as int) =~= self.kids(s));
    }

    /// No content sits in two slots of a well-formed tree: two slots of live
    /// split nodes holding the same content are one slot.
    pub proof fn lemma_single_slot(&self, s1: int, k1: int, s2: int, k2: int)
        requires
            self.wf(),
            self.split_alive(s1),
            self.split_alive(s2),
            0 <= k1 < self.kids(s1).len(),
            0 <= k2 < self.kids(s2).len(),
            self.kids(s1)[k1].content == self.kids(s2)[k2].content,
        ensures
            s1 == s2,
            k1 == k2,
    {
        assert(self.splits@.len() == self.splits.len());
        assert(self.node_ok(s1));
        assert(self.node_ok(s2));
        assert(self.child_ok(s1, self.kids(s1)[k1].content));
        assert(self.child_ok(s2, self.kids(s2)[k2].content));
    }

    /// Every live split node has a slot, and one other than the root has at
    /// least two: a node is never left empty or with a lone slot below the
    /// root. Each split node in a slot ranks strictly below the node that
    /// holds it, so no node lies below itself.
    pub proof fn lemma_node_shape(&self, s: int)
        requires
            self.wf(),
            self.split_alive(s),
        ensures
            self.kids(s).len() >= 1,
            s != self.root ==> self.kids(s).len() >= 2,
            forall|k: int|
                0 <= k < self.kids(s).len() ==> match #[trigger] self.kids(s)[k].content {
                    SplitContent::Split(m) => self.rank@[m as int] < self.rank@[s],
                    SplitContent::TabGroup(_) => true,
                },
    {
        assert(self.node_ok(s));
        assert forall|k: int| 0 <= k < self.kids(s).len() implies match #[trigger] self.kids(s)[k].content {
            SplitContent::Split(m) => self.rank@[m as int] < self.rank@[s],
            SplitContent::TabGroup(_) => true,
        } by {
            assert(self.child_ok(s, self.kids(s)[k].content));
        }
    }
}


impl SplitTree {
    /// Opens `item` in the live group `g` and makes it the active tab there
    /// (see `EditorTabGroup::open`).
    pub fn open_in_group(&mut self, g: usize, item: ChildItem, confirmed: bool)
        requires
            old(self).wf(),
            old(self).group_alive(g as int),
            old(self).groups@[g as int].group.children@.len() < usize::MAX,
        ensures
            final(self).wf(),
            final(self).splits == old(self).splits,
            final(self).groups@.len() == old(self).groups@.len(),
            (final(self).groups@[g as int].group.children@, final(self).groups@[g as int].group.active as nat)
                == opened(
                old(self).groups@[g as int].group.children@,
                old(self).groups@[g as int].group.active as nat,
                item,
                confirmed,
            ),
            forall|h: int|
                0 <= h < old(self).groups@.len() && h != g ==> #[trigger] final(self).groups@[h]
                    == old(self).groups@[h],
    {
        let ghost old_tree = *self;
        proof {
            assert(self.groups@.len() == self.groups.len());
        }
        proof {
            assert(old_tree.group_ok(g as int));
        }
        self.groups[g].group.open(item, confirmed);
        proof {
            assert forall|h: int| 0 <= h < old_tree.groups@.len() implies #[trigger] self.groups@[h].alive
                == old_tree.groups@[h].alive by {
                if h != g {
                    assert(self.groups@[h] == old_tree.groups@[h]);
                }
            }
            assert forall|h: int| 0 <= h < old_tree.groups@.len() implies #[trigger] self.groups@[h].parent
                == old_tree.groups@[h].parent by {
                if h != g {
                    assert(self.groups@[h] == old_tree.groups@[h]);
                }
            }
            assert forall|h: int| 0 <= h < old_tree.groups@.len() && old_tree.groups@[h].alive implies #[trigger] self.groups@[h].group.wf()
                && self.groups@[h].group.id == h by {
                assert(old_tree.group_alive(h));
                assert(old_tree.group_ok(h));
                if h != g {
                    assert(self.groups@[h] == old_tree.groups@[h]);
                }
            }
            SplitTree::lemma_same_shape(&old_tree, self);
        }
    }
}


impl SplitTree {
    /// Closes the tabs that `kind` selects around the tab showing
    /// `reference` in the live group `g` (see
    /// `EditorTabGroup::close_by_kind`); the group keeps the reference tab.
    pub fn close_in_group(&mut self, g: usize, reference: ChildItem, kind: TabCloseKind) -> (r: bool)
        requires
            old(self).wf(),
            old(self).group_alive(g as int),
        ensures
            final(self).wf(),
            final(self).splits == old(self).splits,
            final(self).groups@.len() == old(self).groups@.len(),
            r == contains_item(old(self).groups@[g as int].group.children@, reference),
            !r ==> final(self).groups@[g as int].group.children@ == old(self).groups@[g as int].group.children@,
            r ==> exists|i: int|
                0 <= i < old(self).groups@[g as int].group.children@.len()
                    && old(self).groups@[g as int].group.children@[i].item == reference
                    && final(self).groups@[g as int].group.children@ == kept_by_kind(
                    old(self).groups@[g as int].group.children@,
                    i,
                    kind,
                ) && final(self).groups@[g as int].group.active as nat == clamp_active(
                    old(self).groups@[g as int].group.active as nat,
                    final(self).groups@[g as int].group.children@.len(),
                ),
            !r ==> final(self).groups@[g as int].group.active == old(self).groups@[g as int].group.active,
            final(self).group_alive(g as int),
            final(self).groups@[g as int].parent == old(self).groups@[g as int].parent,
            forall|h: int|
                0 <= h < old(self).groups@.len() && h != g ==> #[trigger] final(self).groups@[h]
                    == old(self).groups@[h],
    {
        let ghost old_tree = *self;
        proof {
            assert(self.groups@.len() == self.groups.len());
            assert(old_tree.group_ok(g as int));
        }
        let r = self.groups[g].group.close_by_kind(reference, kind);
        proof {
            assert forall|h: int| 0 <= h < old_tree.groups@.len() implies #[trigger] self.groups@[h].alive
                == old_tree.groups@[h].alive by {
                if h != g {
                    assert(self.groups@[h] == old_tree.groups@[h]);
                }
            }
            assert forall|h: int| 0 <= h < old_tree.groups@.len() implies #[trigger] self.groups@[h].parent
                == old_tree.groups@[h].parent by {
                if h != g {
                    assert(self.groups@[h] == old_tree.groups@[h]);
                }
            }
            assert forall|h: int| 0 <= h < old_tree.groups@.len() && old_tree.groups@[h].alive implies #[trigger] self.groups@[h].group.wf()
                && self.groups@[h].group.id == h by {
                assert(old_tree.group_alive(h));
                assert(old_tree.group_ok(h));
                if h != g {
                    assert(self.groups@[h] == old_tree.groups@[h]);
                }
            }
            SplitTree::lemma_same_shape(&old_tree, self);
        }
        r
    }
}


impl SplitTree {
    /// Carries out the drop of the tab at `index` of group `from` onto the
    /// group `target`: into that group at the given position (at most its
    /// end), or into a new split beside it. Returns the group that now holds
    /// the tab and the entries taken out of the tree.
    pub fn drop_tab(&mut self, from: usize, index: usize, target: usize, action: DropAction) -> (r:
        Result<(usize, Vec<SplitContent>), LayoutError>)
        requires
            old(self).wf(),
            old(self).group_alive(from as int),
            old(self).group_alive(target as int),
            index < old(self).groups@[from as int].group.children@.len(),
            old(self).groups@.len() < usize::MAX,
            old(self).splits@.len() < usize::MAX,
        ensures
            final(self).wf(),
            match action {
                DropAction::IntoGroup(at) => {
                    let len = old(self).groups@[target as int].group.children@.len();
                    let to_index = if at <= len {
                        at
                    } else {
                        len as usize
                    };
                    match r {
                        Ok((holder, d)) => holder == target && tab_moved(
                            *old(self),
                            *final(self),
                            from,
                            index,
                            target,
                            to_index,
                            Ok(d),
                        ),
                        Err(e) => tab_moved(*old(self), *final(self), from, index, target, to_index, Err(e)),
                    }
                },
                DropAction::NewSplit(side) => tab_moved_to_split(
                    *old(self),
                    *final(self),
                    from,
                    index,
                    target,
                    side,
                    r,
                ),
            },
    {
        match action {
            DropAction::IntoGroup(at) => {
                let len = self.groups[target].group.children.len();
                let to_index = if at <= len {
                    at
                } else {
                    len
                };
                match self.move_tab(from, index, target, to_index) {
                    Ok(d) => Ok((target, d)),
                    Err(e) => Err(e),
                }
            },
            DropAction::NewSplit(side) => self.move_tab_to_new_split(from, index, target, side),
        }
    }
}

} // verus!
