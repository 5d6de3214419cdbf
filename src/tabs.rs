use vstd::prelude::*;

verus! {

/// Something a tab group can show; its identity is its key when tabs are
/// reordered or compared.
#[derive(Clone, Copy, Debug, PartialEq, Eq, Structural)]
pub enum ChildItem {
    Editor(u64),
    DiffEditor(u64),
    Settings,
    ThemeSettings,
    Keymap,
    PluginInfo(u64),
}

/// One tab: the item it shows, and whether it is pinned against being
/// replaced by the next preview open.
#[derive(Clone, Copy, Debug, PartialEq, Eq, Structural)]
pub struct TabEntry {
    pub item: ChildItem,
    pub confirmed: bool,
}

/// Which tabs around a reference tab a close command removes.
#[derive(Clone, Copy, Debug, PartialEq, Eq, Structural)]
pub enum TabCloseKind {
    CloseOther,
    CloseToLeft,
    CloseToRight,
}

/// An ordered group of tabs sharing one pane. A tab's order index is its
/// position in `children`.
#[derive(Debug)]
pub struct EditorTabGroup {
    pub id: u64,
    pub active: usize,
    pub children: Vec<TabEntry>,
}

/// No item appears twice.
pub open spec fn unique_items(s: Seq<TabEntry>) -> bool {
    forall|i: int, j: int| 0 <= i < s.len() && 0 <= j < s.len() && i != j ==> s[i].item != s[j].item
}

pub open spec fn contains_item(s: Seq<TabEntry>, item: ChildItem) -> bool {
    exists|i: int| 0 <= i < s.len() && s[i].item == item
}

/// The active index brought back into `0..len` (0 for an empty group).
pub open spec fn clamp_active(active: nat, len: nat) -> nat {
    if len == 0 {
        0
    } else if active >= len {
        (len - 1) as nat
    } else {
        active
    }
}

/// The position an element removed from `from` is inserted at, so that it
/// lands before the element that stood at `to` before the removal.
pub open spec fn insertion_index(from: int, to: int) -> int {
    if to > from {
        to - 1
    } else {
        to
    }
}

/// `s` with the element at `from` taken out and put back before the element
/// that stood at `to`.
pub open spec fn moved<T>(s: Seq<T>, from: int, to: int) -> Seq<T> {
    s.remove(from).insert(insertion_index(from, to), s[from])
}

/// The tabs that a close command keeps, for a reference tab at `i`.
pub open spec fn kept_by_kind(s: Seq<TabEntry>, i: int, kind: TabCloseKind) -> Seq<TabEntry> {
    match kind {
        TabCloseKind::CloseOther => seq![s[i]],
        TabCloseKind::CloseToLeft => s.subrange(i, s.len() as int),
        TabCloseKind::CloseToRight => s.subrange(0, i + 1),
    }
}

/// The tabs and active index after opening `item`: an open tab of it is
/// activated (and pinned if `confirmed`); else a preview open replaces an
/// unpinned active tab; else the new tab goes right after the active one.
pub open spec fn opened(s: Seq<TabEntry>, active: nat, item: ChildItem, confirmed: bool) -> (Seq<
    TabEntry,
>, nat) {
    if contains_item(s, item) {
        let i = choose|i: int| 0 <= i < s.len() && s[i].item == item;
        (
            if confirmed {
                s.update(i, TabEntry { item, confirmed: true })
            } else {
                s
            },
            i as nat,
        )
    } else if !confirmed && s.len() > 0 && !s[active as int].confirmed {
        (s.update(active as int, TabEntry { item, confirmed: false }), active)
    } else {
        let at: int = if s.len() == 0 {
            0
        } else {
            active + 1int
        };
        (s.insert(at, TabEntry { item, confirmed }), at as nat)
    }
}

pub proof fn lemma_unique_index(s: Seq<TabEntry>, i: int, j: int)
    requires
        unique_items(s),
        0 <= i < s.len(),
        0 <= j < s.len(),
        s[i].item == s[j].item,
    ensures
        i == j,
{
}

/// Moving a tab onto its own position, before itself or right after itself,
/// leaves every tab where it was.
pub proof fn lemma_move_to_own_position<T>(s: Seq<T>, i: int)
    requires
        0 <= i < s.len(),
    ensures
        moved(s, i, i) == s,
        moved(s, i, i + 1) == s,
{
    assert(moved(s, i, i) =~= s);
    assert(moved(s, i, i + 1) =~= s);
}

/// The tabs closed to the left of a reference tab and those kept form the
/// whole group in order, and likewise for the tabs kept and those closed to
/// the right; closing the others keeps the reference tab alone.
pub proof fn lemma_close_partition(s: Seq<TabEntry>, i: int)
    requires
        0 <= i < s.len(),
    ensures
        kept_by_kind(s, i, TabCloseKind::CloseOther) == seq![s[i]],
        s.subrange(0, i) + kept_by_kind(s, i, TabCloseKind::CloseToLeft) == s,
        kept_by_kind(s, i, TabCloseKind::CloseToRight) + s.subrange(i + 1, s.len() as int) == s,
        kept_by_kind(s, i, TabCloseKind::CloseToLeft)[0] == s[i],
        kept_by_kind(s, i, TabCloseKind::CloseToRight).last() == s[i],
{
    assert(s.subrange(0, i) + kept_by_kind(s, i, TabCloseKind::CloseToLeft) =~= s);
    assert(kept_by_kind(s, i, TabCloseKind::CloseToRight) + s.subrange(i + 1, s.len() as int)
        =~= s);
}

impl EditorTabGroup {
    pub open spec fn wf(&self) -> bool {
        &&& unique_items(self.children@)
        &&& (self.children@.len() == 0 ==> self.active == 0)
        &&& (self.children@.len() > 0 ==> self.active < self.children@.len())
    }

    pub fn new(id: u64) -> (r: Self)
        ensures
            r.wf(),
            r.id == id,
            r.active == 0,
            r.children@.len() == 0,
    {
        EditorTabGroup { id, active: 0, children: Vec::new() }
    }

    pub fn len(&self) -> (r: usize)
        ensures
            r == self.children@.len(),
    {
        self.children.len()
    }

    /// The position of the tab that shows `item`.
    pub fn find(&self, item: ChildItem) -> (r: Option<usize>)
        ensures
            match r {
                Some(i) => i < self.children@.len() && self.children@[i as int].item == item,
                None => !contains_item(self.children@, item),
            },
    {
        let mut i: usize = 0;
        while i < self.children.len()
            invariant
                i <= self.children@.len(),
                forall|j: int| 0 <= j < i ==> self.children@[j].item != item,
            decreases self.children@.len() - i,
        {
            if self.children[i].item == item {
                return Some(i);
            }
            i = i + 1;
        }
        None
    }

    /// Opens `item` and makes it the active tab.
    pub fn open(&mut self, item: ChildItem, confirmed: bool)
        requires
            old(self).wf(),
            old(self).children@.len() < usize::MAX,
        ensures
            final(self).wf(),
            final(self).id == old(self).id,
            (final(self).children@, final(self).active as nat) == opened(
                old(self).children@,
                old(self).active as nat,
                item,
                confirmed,
            ),
            final(self).children@[final(self).active as int].item == item,
    {
        let ghost s = self.children@;
        match self.find(item) {
            Some(i) => {
                proof {
                    let k = choose|k: int| 0 <= k < s.len() && s[k].item == item;
                    lemma_unique_index(s, i as int, k);
                }
                if confirmed {
                    self.children.set(i, TabEntry { item, confirmed: true });
                }
                self.active = i;
                proof {
                    assert forall|a: int, b: int|
                        0 <= a < self.children@.len() && 0 <= b < self.children@.len() && a != b
                        implies self.children@[a].item != self.children@[b].item by {
                        assert(self.children@[a].item == s[a].item);
                        assert(self.children@[b].item == s[b].item);
                    }
                }
            },
            None => {
                let n = self.children.len();
                if !confirmed && n > 0 && !self.children[self.active].confirmed {
                    let a = self.active;
                    self.children.set(a, TabEntry { item, confirmed: false });
                    proof {
                        assert forall|x: int, y: int|
                            0 <= x < self.children@.len() && 0 <= y < self.children@.len() && x
                                != y implies self.children@[x].item != self.children@[y].item by {
                            if x != a && y != a {
                                assert(self.children@[x] == s[x]);
                                assert(self.children@[y] == s[y]);
                            } else if x == a {
                                assert(self.children@[y] == s[y]);
                            } else {
                                assert(self.children@[x] == s[x]);
                            }
                        }
                    }
                } else {
                    let at: usize = if n == 0 {
                        0
                    } else {
                        self.active + 1
                    };
                    self.children.insert(at, TabEntry { item, confirmed });
                    self.active = at;
                    proof {
                        let t = self.children@;
                        assert forall|x: int, y: int|
                            0 <= x < t.len() && 0 <= y < t.len() && x != y implies t[x].item
                                != t[y].item by {
                            if x != at && y != at {
                                let ox = if x < at { x } else { x - 1 };
                                let oy = if y < at { y } else { y - 1 };
                                assert(t[x] == s[ox]);
                                assert(t[y] == s[oy]);
                            } else if x == at {
                                let oy = if y < at { y } else { y - 1 };
                                assert(t[y] == s[oy]);
                            } else {
                                let ox = if x < at { x } else { x - 1 };
                                assert(t[x] == s[ox]);
                            }
                        }
                    }
                }
            },
        }
    }

    /// Pins the tab at `index` (a double click on it).
    pub fn confirm(&mut self, index: usize)
        requires
            old(self).wf(),
            index < old(self).children@.len(),
        ensures
            final(self).wf(),
            final(self).id == old(self).id,
            final(self).active == old(self).active,
            final(self).children@ == old(self).children@.update(
                index as int,
                TabEntry { item: old(self).children@[index as int].item, confirmed: true },
            ),
    {
        let item = self.children[index].item;
        self.children.set(index, TabEntry { item, confirmed: true });
        proof {
            let s = old(self).children@;
            assert forall|a: int, b: int|
                0 <= a < self.children@.len() && 0 <= b < self.children@.len() && a != b
                implies self.children@[a].item != self.children@[b].item by {
                assert(self.children@[a].item == s[a].item);
                assert(self.children@[b].item == s[b].item);
            }
        }
    }

    /// Moves the tab at `from` so that it lands before the tab that stood at
    /// `to` (`to == len` puts it last), and makes it the active tab.
    pub fn reorder(&mut self, from: usize, to: usize)
        requires
            old(self).wf(),
            from < old(self).children@.len(),
            to <= old(self).children@.len(),
        ensures
            final(self).wf(),
            final(self).id == old(self).id,
            final(self).children@ == moved(old(self).children@, from as int, to as int),
            final(self).active as int == insertion_index(from as int, to as int),
    {
        let ghost s = self.children@;
        let entry = self.children.remove(from);
        let at: usize = if to > from {
            to - 1
        } else {
            to
        };
        self.children.insert(at, entry);
        self.active = at;
        proof {
            let t = self.children@;
            let r = s.remove(from as int);
            assert(t == r.insert(at as int, s[from as int]));
            assert forall|x: int, y: int|
                0 <= x < t.len() && 0 <= y < t.len() && x != y implies t[x].item != t[y].item by {
                let ox = if x == at {
                    from as int
                } else {
                    let rx = if x < at { x } else { x - 1 };
                    if rx < from { rx } else { rx + 1 }
                };
                let oy = if y == at {
                    from as int
                } else {
                    let ry = if y < at { y } else { y - 1 };
                    if ry < from { ry } else { ry + 1 }
                };
                assert(t[x] == s[ox]);
                assert(t[y] == s[oy]);
            }
        }
    }

    /// Removes the tab at `index` and brings the active index back in range.
    pub fn remove_at(&mut self, index: usize) -> (r: TabEntry)
        requires
            old(self).wf(),
            index < old(self).children@.len(),
        ensures
            final(self).wf(),
            final(self).id == old(self).id,
            r == old(self).children@[index as int],
            final(self).children@ == old(self).children@.remove(index as int),
            final(self).active as nat == clamp_active(
                old(self).active as nat,
                final(self).children@.len(),
            ),
    {
        let ghost s = self.children@;
        let r = self.children.remove(index);
        let n = self.children.len();
        if n == 0 {
            self.active = 0;
        } else if self.active >= n {
            self.active = n - 1;
        }
        proof {
            let t = self.children@;
            assert forall|x: int, y: int|
                0 <= x < t.len() && 0 <= y < t.len() && x != y implies t[x].item != t[y].item by {
                let ox = if x < index { x } else { x + 1 };
                let oy = if y < index { y } else { y + 1 };
                assert(t[x] == s[ox]);
                assert(t[y] == s[oy]);
            }
        }
        r
    }

    /// Inserts a tab at `index` and makes it the active tab.
    pub fn insert_at(&mut self, index: usize, entry: TabEntry)
        requires
            old(self).wf(),
            index <= old(self).children@.len(),
            !contains_item(old(self).children@, entry.item),
        ensures
            final(self).wf(),
            final(self).id == old(self).id,
            final(self).children@ == old(self).children@.insert(index as int, entry),
            final(self).active == index,
    {
        let ghost s = self.children@;
        self.children.insert(index, entry);
        self.active = index;
        proof {
            let t = self.children@;
            assert forall|x: int, y: int|
                0 <= x < t.len() && 0 <= y < t.len() && x != y implies t[x].item != t[y].item by {
                if x != index && y != index {
                    let ox = if x < index { x } else { x - 1 };
                    let oy = if y < index { y } else { y - 1 };
                    assert(t[x] == s[ox]);
                    assert(t[y] == s[oy]);
                } else if x == index {
                    let oy = if y < index { y } else { y - 1 };
                    assert(t[y] == s[oy]);
                } else {
                    let ox = if x < index { x } else { x - 1 };
                    assert(t[x] == s[ox]);
                }
            }
        }
    }

    /// Closes the tabs that `kind` selects around the tab that shows
    /// `reference`; returns false, changing nothing, if no tab shows it.
    pub fn close_by_kind(&mut self, reference: ChildItem, kind: TabCloseKind) -> (r: bool)
        requires
            old(self).wf(),
        ensures
            final(self).wf(),
            final(self).id == old(self).id,
            r == contains_item(old(self).children@, reference),
            !r ==> final(self).children@ == old(self).children@ && final(self).active
                == old(self).active,
            r ==> exists|i: int|
                0 <= i < old(self).children@.len() && old(self).children@[i].item == reference
                    && final(self).children@ == kept_by_kind(old(self).children@, i, kind)
                    && final(self).active as nat == clamp_active(
                    old(self).active as nat,
                    final(self).children@.len(),
                ),
    {
        let ghost s = self.children@;
        match self.find(reference) {
            None => false,
            Some(i) => {
                match kind {
                    TabCloseKind::CloseOther => {
                        let entry = self.children[i];
                        self.children = vec![entry];
                        assert(self.children@ =~= seq![s[i as int]]);
                    },
                    TabCloseKind::CloseToLeft => {
                        let tail = self.children.split_off(i);
                        self.children = tail;
                    },
                    TabCloseKind::CloseToRight => {
                        let n0 = self.children.len();
                        assert(i < n0);
                        self.children.truncate(i + 1);
                    },
                }
                let n = self.children.len();
                if self.active >= n {
                    self.active = n - 1;
                }
                proof {
                    let t = self.children@;
                    assert(t == kept_by_kind(s, i as int, kind));
                    assert forall|x: int, y: int|
                        0 <= x < t.len() && 0 <= y < t.len() && x != y implies t[x].item
                            != t[y].item by {
                        let off: int = if kind == TabCloseKind::CloseToLeft {
                            i as int
                        } else if kind == TabCloseKind::CloseOther {
                            i as int
                        } else {
                            0
                        };
                        assert(t[x] == s[x + off]);
                        assert(t[y] == s[y + off]);
                    }
                }
                true
            },
        }
    }
}

} // verus!
