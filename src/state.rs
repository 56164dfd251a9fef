use vstd::prelude::*;

use crate::identifier::{copy_identifier, get_without_leaf, parent_of, same_identifier};
use crate::tree::{
    flatten, id_set, identifiers, lemma_visible_nonempty, lemma_visible_shape, sized, visible,
    Flattened, TreeItem,
};
use crate::window::{compute_window, window_of};

verus! {

/// The identifiers of the visible entries of `items`, in order.
pub open spec fn visible_ids<A>(opened: Set<Seq<usize>>, items: Seq<TreeItem<A>>) -> Seq<Seq<usize>> {
    visible(opened, items, seq![]).map_values(|e: (Seq<usize>, TreeItem<A>)| e.0)
}

/// `i` is the first place where `id` stands in `ids`.
pub open spec fn first_index(ids: Seq<Seq<usize>>, id: Seq<usize>, i: int) -> bool {
    &&& 0 <= i < ids.len()
    &&& ids[i] == id
    &&& forall|j: int| 0 <= j < i ==> ids[j] != id
}

/// The identifier selected after one step up (`down == false`) or down
/// (`down == true`) from `selected` in the visible identifiers `ids`: the
/// neighbour of the first place where `selected` stands, kept inside `ids`,
/// or the first entry where `selected` is not visible.
pub open spec fn stepped(ids: Seq<Seq<usize>>, selected: Seq<usize>, down: bool) -> Seq<usize> {
    if exists|i: int| first_index(ids, selected, i) {
        let i = choose|i: int| first_index(ids, selected, i);
        let t = if down {
            if i + 1 < ids.len() { i + 1 } else { ids.len() - 1 }
        } else {
            if i > 0 { i - 1 } else { 0 }
        };
        ids[t]
    } else {
        ids[0]
    }
}

/// The opened identifiers after opening `id`: the empty identifier is never
/// opened.
pub open spec fn after_open(opened: Set<Seq<usize>>, id: Seq<usize>) -> Set<Seq<usize>> {
    if id.len() == 0 { opened } else { opened.insert(id) }
}

/// The opened identifiers after closing `id`.
pub open spec fn after_close(opened: Set<Seq<usize>>, id: Seq<usize>) -> Set<Seq<usize>> {
    opened.remove(id)
}

/// The opened identifiers after toggling `id`.
pub open spec fn after_toggle(opened: Set<Seq<usize>>, id: Seq<usize>) -> Set<Seq<usize>> {
    if opened.contains(id) { after_close(opened, id) } else { after_open(opened, id) }
}

/// The offset kept once `selected` has been selected: selecting nothing
/// scrolls back to the top.
pub open spec fn offset_after_select(offset: usize, selected: Seq<usize>) -> usize {
    if selected.len() == 0 { 0 } else { offset }
}

/// A copy of each identifier of `v`, in order.
fn copy_all(v: &Vec<Vec<usize>>) -> (r: Vec<Vec<usize>>)
    ensures
        r@.len() == v@.len(),
        forall|j: int| 0 <= j < v@.len() ==> #[trigger] r@[j]@ == v@[j]@,
{
    let mut r: Vec<Vec<usize>> = Vec::new();
    let mut i: usize = 0;
    while i < v.len()
        invariant
            i <= v@.len(),
            r@.len() == i,
            forall|j: int| 0 <= j < i ==> #[trigger] r@[j]@ == v@[j]@,
        decreases v@.len() - i,
    {
        r.push(copy_identifier(v[i].as_slice()));
        i += 1;
    }
    r
}

/// Two lists holding the same identifiers in the same places hold the same set.
proof fn lemma_same_id_set(a: Seq<Vec<usize>>, b: Seq<Vec<usize>>)
    requires
        a.len() == b.len(),
        forall|j: int| 0 <= j < a.len() ==> #[trigger] a[j]@ == b[j]@,
    ensures
        id_set(a) == id_set(b),
{
    assert forall|s: Seq<usize>| id_set(a).contains(s) implies id_set(b).contains(s) by {
        let k = choose|k: int| 0 <= k < a.len() && a[k]@ == s;
        assert(b[k]@ == s);
    }
    assert forall|s: Seq<usize>| id_set(b).contains(s) implies id_set(a).contains(s) by {
        let k = choose|k: int| 0 <= k < b.len() && b[k]@ == s;
        assert(a[k]@ == s);
    }
    assert(id_set(a) =~= id_set(b));
}

/// What is selected and opened in a tree, and the first visible index drawn.
#[derive(Debug)]
pub struct TreeState {
    offset: usize,
    opened: Vec<Vec<usize>>,
    selected: Vec<usize>,
}

impl Clone for TreeState {
    fn clone(&self) -> (r: Self)
        ensures
            self.wf() ==> r.wf(),
            r.spec_offset() == self.spec_offset(),
            r.spec_opened() == self.spec_opened(),
            r.spec_selected() == self.spec_selected(),
    {
        let r = TreeState {
            offset: self.offset,
            opened: copy_all(&self.opened),
            selected: copy_identifier(self.selected.as_slice()),
        };
        proof {
            lemma_same_id_set(r.opened@, self.opened@);
            if self.wf() {
                assert forall|a: int, b: int| 0 <= a < b < r.opened@.len() implies #[trigger] r.opened@[a]@ != #[trigger] r.opened@[b]@ by {
                    assert(r.opened@[a]@ == self.opened@[a]@);
                    assert(r.opened@[b]@ == self.opened@[b]@);
                }
                assert forall|a: int| 0 <= a < r.opened@.len() implies (#[trigger] r.opened@[a])@.len() > 0 by {
                    assert(r.opened@[a]@ == self.opened@[a]@);
                }
            }
        }
        r
    }
}

impl Default for TreeState {
    fn default() -> (r: Self)
        ensures
            r.wf(),
            r.spec_offset() == 0,
            r.spec_opened() == Set::<Seq<usize>>::empty(),
            r.spec_selected() == Seq::<usize>::empty(),
    {
        let r = TreeState { offset: 0, opened: Vec::new(), selected: Vec::new() };
        assert(id_set(r.opened@) =~= Set::<Seq<usize>>::empty());
        assert(r.selected@ =~= Seq::<usize>::empty());
        r
    }
}

impl TreeState {
    /// Well-formed: each opened identifier is held once, and none is empty.
    pub closed spec fn wf(&self) -> bool {
        &&& forall|i: int, j: int|
            0 <= i < j < self.opened@.len() ==> #[trigger] self.opened@[i]@ != #[trigger] self.opened@[j]@
        &&& forall|i: int| 0 <= i < self.opened@.len() ==> (#[trigger] self.opened@[i])@.len() > 0
    }

    /// The first visible index drawn in the previous frame.
    pub closed spec fn spec_offset(&self) -> usize {
        self.offset
    }

    /// The identifiers whose children are shown.
    pub closed spec fn spec_opened(&self) -> Set<Seq<usize>> {
        id_set(self.opened@)
    }

    /// The selected identifier; empty when nothing is selected.
    pub closed spec fn spec_selected(&self) -> Seq<usize> {
        self.selected@
    }

    pub fn get_offset(&self) -> (r: usize)
        ensures
            r == self.spec_offset(),
    {
        self.offset
    }

    /// Every opened identifier, each once.
    pub fn get_all_opened(&self) -> (r: Vec<Vec<usize>>)
        requires
            self.wf(),
        ensures
            id_set(r@) == self.spec_opened(),
            forall|i: int, j: int| 0 <= i < j < r@.len() ==> #[trigger] r@[i]@ != #[trigger] r@[j]@,
    {
        let r = copy_all(&self.opened);
        proof {
            lemma_same_id_set(r@, self.opened@);
        }
        assert forall|a: int, b: int| 0 <= a < b < r@.len() implies #[trigger] r@[a]@ != #[trigger] r@[b]@ by {
            assert(r@[a]@ == self.opened@[a]@);
            assert(r@[b]@ == self.opened@[b]@);
        }
        r
    }

    pub fn selected(&self) -> (r: Vec<usize>)
        ensures
            r@ == self.spec_selected(),
    {
        copy_identifier(self.selected.as_slice())
    }

    /// Selects `identifier`, whether or not a node sits there. Selecting the
    /// empty identifier also scrolls back to the top.
    pub fn select(&mut self, identifier: Vec<usize>)
        requires
            old(self).wf(),
        ensures
            final(self).wf(),
            final(self).spec_selected() == identifier@,
            final(self).spec_opened() == old(self).spec_opened(),
            final(self).spec_offset() == offset_after_select(old(self).spec_offset(), identifier@),
    {
        self.selected = identifier;
        if self.selected.len() == 0 {
            self.offset = 0;
        }
    }

    /// Opens a node. Returns `true` if it was closed and has been opened,
    /// `false` if it was already open or the identifier is empty.
    pub fn open(&mut self, identifier: Vec<usize>) -> (r: bool)
        requires
            old(self).wf(),
        ensures
            final(self).wf(),
            r == (identifier@.len() > 0 && !old(self).spec_opened().contains(identifier@)),
            final(self).spec_opened() == after_open(old(self).spec_opened(), identifier@),
            final(self).spec_selected() == old(self).spec_selected(),
            final(self).spec_offset() == old(self).spec_offset(),
    {
        if identifier.len() == 0 {
            return false;
        }
        if crate::tree::is_opened(self.opened.as_slice(), identifier.as_slice()) {
            return false;
        }
        let ghost before = self.opened@;
        let ghost id = identifier@;
        self.opened.push(identifier);
        assert(id_set(self.opened@) =~= id_set(before).insert(id)) by {
            assert forall|s: Seq<usize>| id_set(self.opened@).contains(s) implies id_set(before).insert(id).contains(s) by {
                let k = choose|k: int| 0 <= k < self.opened@.len() && self.opened@[k]@ == s;
                if k < before.len() {
                    assert(before[k]@ == s);
                }
            }
            assert forall|s: Seq<usize>| id_set(before).insert(id).contains(s) implies id_set(self.opened@).contains(s) by {
                if s == id {
                    assert(self.opened@[before.len() as int]@ == s);
                } else {
                    let k = choose|k: int| 0 <= k < before.len() && before[k]@ == s;
                    assert(self.opened@[k]@ == s);
                }
            }
        }
        assert forall|a: int, b: int| 0 <= a < b < self.opened@.len() implies #[trigger] self.opened@[a]@ != #[trigger] self.opened@[b]@ by {
            if b == before.len() {
                assert(!id_set(before).contains(id));
                assert(self.opened@[a]@ == before[a]@);
            } else {
                assert(self.opened@[a] == before[a]);
                assert(self.opened@[b] == before[b]);
            }
        }
        true
    }

    /// Closes a node. Returns `true` if it was open and has been closed,
    /// `false` if it was already closed.
    pub fn close(&mut self, identifier: &[usize]) -> (r: bool)
        requires
            old(self).wf(),
        ensures
            final(self).wf(),
            r == old(self).spec_opened().contains(identifier@),
            final(self).spec_opened() == after_close(old(self).spec_opened(), identifier@),
            final(self).spec_selected() == old(self).spec_selected(),
            final(self).spec_offset() == old(self).spec_offset(),
    {
        let ghost before = self.opened@;
        let ghost id = identifier@;
        let mut i: usize = 0;
        while i < self.opened.len()
            invariant
                before == self.opened@,
                before == old(self).opened@,
                id == identifier@,
                self.selected == old(self).selected,
                self.offset == old(self).offset,
                forall|a: int, b: int| 0 <= a < b < before.len() ==> #[trigger] before[a]@ != #[trigger] before[b]@,
                forall|a: int| 0 <= a < before.len() ==> (#[trigger] before[a])@.len() > 0,
                i <= before.len(),
                forall|j: int| 0 <= j < i ==> before[j]@ != id,
            decreases before.len() - i,
        {
            if same_identifier(self.opened[i].as_slice(), identifier) {
                assert(id_set(before).contains(id)) by {
                    assert(before[i as int]@ == id);
                }
                self.opened.remove(i);
                assert(id_set(self.opened@) =~= id_set(before).remove(id)) by {
                    assert forall|s: Seq<usize>| id_set(self.opened@).contains(s) implies id_set(before).remove(id).contains(s) by {
                        let k = choose|k: int| 0 <= k < self.opened@.len() && self.opened@[k]@ == s;
                        if k < i {
                            assert(before[k]@ == s);
                        } else {
                            assert(before[k + 1]@ == s);
                            assert(before[i as int]@ != before[k + 1]@);
                        }
                    }
                    assert forall|s: Seq<usize>| id_set(before).remove(id).contains(s) implies id_set(self.opened@).contains(s) by {
                        let k = choose|k: int| 0 <= k < before.len() && before[k]@ == s;
                        if k < i {
                            assert(self.opened@[k]@ == s);
                        } else {
                            assert(k != i);
                            assert(self.opened@[k - 1]@ == s);
                        }
                    }
                }
                assert forall|a: int, b: int| 0 <= a < b < self.opened@.len() implies #[trigger] self.opened@[a]@ != #[trigger] self.opened@[b]@ by {
                    let a2 = if a < i { a } else { a + 1 };
                    let b2 = if b < i { b } else { b + 1 };
                    assert(self.opened@[a] == before[a2]);
                    assert(self.opened@[b] == before[b2]);
                }
                assert forall|a: int| 0 <= a < self.opened@.len() implies (#[trigger] self.opened@[a])@.len() > 0 by {
                    let a2 = if a < i { a } else { a + 1 };
                    assert(self.opened@[a] == before[a2]);
                }
                return true;
            }
            i += 1;
        }
        assert(id_set(before).remove(id) =~= id_set(before));
        false
    }

    /// Toggles a node: closes it if it is open, else opens it.
    pub fn toggle(&mut self, identifier: Vec<usize>)
        requires
            old(self).wf(),
        ensures
            final(self).wf(),
            final(self).spec_opened() == after_toggle(old(self).spec_opened(), identifier@),
            final(self).spec_selected() == old(self).spec_selected(),
            final(self).spec_offset() == old(self).spec_offset(),
    {
        if crate::tree::is_opened(self.opened.as_slice(), identifier.as_slice()) {
            self.close(identifier.as_slice());
        } else {
            self.open(identifier);
        }
    }

    /// Toggles the selected node.
    pub fn toggle_selected(&mut self)
        requires
            old(self).wf(),
        ensures
            final(self).wf(),
            final(self).spec_opened() == after_toggle(old(self).spec_opened(), old(self).spec_selected()),
            final(self).spec_selected() == old(self).spec_selected(),
            final(self).spec_offset() == old(self).spec_offset(),
    {
        let selected = self.selected();
        self.toggle(selected);
    }

    /// Closes every node.
    pub fn close_all(&mut self)
        requires
            old(self).wf(),
        ensures
            final(self).wf(),
            final(self).spec_opened() == Set::<Seq<usize>>::empty(),
            final(self).spec_selected() == old(self).spec_selected(),
            final(self).spec_offset() == old(self).spec_offset(),
    {
        self.opened.clear();
        assert(id_set(self.opened@) =~= Set::<Seq<usize>>::empty());
    }

    /// Closes the selected node if it is open; otherwise moves the selection
    /// to its parent.
    pub fn key_left(&mut self)
        requires
            old(self).wf(),
        ensures
            final(self).wf(),
            old(self).spec_opened().contains(old(self).spec_selected()) ==> {
                &&& final(self).spec_opened() == after_close(old(self).spec_opened(), old(self).spec_selected())
                &&& final(self).spec_selected() == old(self).spec_selected()
                &&& final(self).spec_offset() == old(self).spec_offset()
            },
            !old(self).spec_opened().contains(old(self).spec_selected()) ==> {
                &&& final(self).spec_opened() == old(self).spec_opened()
                &&& final(self).spec_selected() == parent_of(old(self).spec_selected())
                &&& final(self).spec_offset() == offset_after_select(
                    old(self).spec_offset(),
                    parent_of(old(self).spec_selected()),
                )
            },
    {
        let selected = self.selected();
        if !self.close(selected.as_slice()) {
            let (head, _) = get_without_leaf(selected.as_slice());
            self.select(head);
        }
    }

    /// Opens the selected node.
    pub fn key_right(&mut self)
        requires
            old(self).wf(),
        ensures
            final(self).wf(),
            final(self).spec_opened() == after_open(old(self).spec_opened(), old(self).spec_selected()),
            final(self).spec_selected() == old(self).spec_selected(),
            final(self).spec_offset() == old(self).spec_offset(),
    {
        let selected = self.selected();
        self.open(selected);
    }

    /// Selects the last visible entry of `items`, or nothing if there is none.
    pub fn select_last<A>(&mut self, items: &[TreeItem<A>])
        requires
            old(self).wf(),
        ensures
            final(self).wf(),
            ({
                let ids = visible_ids(old(self).spec_opened(), items@);
                final(self).spec_selected() == if ids.len() == 0 { Seq::<usize>::empty() } else { ids.last() }
            }),
            final(self).spec_opened() == old(self).spec_opened(),
            final(self).spec_offset() == offset_after_select(old(self).spec_offset(), final(self).spec_selected()),
    {
        let opened = self.get_all_opened();
        let visible = flatten(opened.as_slice(), items);
        let n = visible.len();
        let new_identifier = if n == 0 {
            Vec::new()
        } else {
            copy_identifier(visible[n - 1].identifier.as_slice())
        };
        self.select(new_identifier);
    }

    /// Moves the selection one visible entry up, or to the first entry if the
    /// selection is not visible.
    pub fn key_up<A>(&mut self, items: &[TreeItem<A>])
        requires
            old(self).wf(),
            items@.len() > 0,
        ensures
            final(self).wf(),
            final(self).spec_selected() == stepped(visible_ids(old(self).spec_opened(), items@), old(self).spec_selected(), false),
            final(self).spec_opened() == old(self).spec_opened(),
            final(self).spec_offset() == offset_after_select(old(self).spec_offset(), final(self).spec_selected()),
    {
        self.step(items, false);
    }

    /// Moves the selection one visible entry down, or to the first entry if
    /// the selection is not visible.
    pub fn key_down<A>(&mut self, items: &[TreeItem<A>])
        requires
            old(self).wf(),
            items@.len() > 0,
        ensures
            final(self).wf(),
            final(self).spec_selected() == stepped(visible_ids(old(self).spec_opened(), items@), old(self).spec_selected(), true),
            final(self).spec_opened() == old(self).spec_opened(),
            final(self).spec_offset() == offset_after_select(old(self).spec_offset(), final(self).spec_selected()),
    {
        self.step(items, true);
    }

    fn step<A>(&mut self, items: &[TreeItem<A>], down: bool)
        requires
            old(self).wf(),
            items@.len() > 0,
        ensures
            final(self).wf(),
            final(self).spec_selected() == stepped(visible_ids(old(self).spec_opened(), items@), old(self).spec_selected(), down),
            final(self).spec_opened() == old(self).spec_opened(),
            final(self).spec_offset() == offset_after_select(old(self).spec_offset(), final(self).spec_selected()),
    {
        let opened = self.get_all_opened();
        let visible = flatten(opened.as_slice(), items);
        let ghost ids = visible_ids(self.spec_opened(), items@);
        proof {
            lemma_visible_nonempty(self.spec_opened(), items@, seq![]);
        }
        assert(ids.len() == visible@.len());
        assert(forall|j: int| 0 <= j < ids.len() ==> ids[j] == #[trigger] visible@[j].identifier@);
        let n = visible.len();
        let mut i: usize = 0;
        let mut found = false;
        while i < n && !found
            invariant
                n == visible@.len(),
                n == ids.len(),
                i <= n,
                found ==> i < n && ids[i as int] == self.selected@,
                forall|j: int| 0 <= j < ids.len() ==> ids[j] == #[trigger] visible@[j].identifier@,
                forall|j: int| 0 <= j < i ==> ids[j] != self.selected@,
            decreases n - i + (if found { 0int } else { 1int }),
        {
            if same_identifier(visible[i].identifier.as_slice(), self.selected.as_slice()) {
                found = true;
            } else {
                i += 1;
            }
        }
        let target: usize = if !found {
            0
        } else if down {
            if i + 1 < n { i + 1 } else { n - 1 }
        } else {
            if i > 0 { i - 1 } else { 0 }
        };
        proof {
            if found {
                assert(first_index(ids, self.selected@, i as int));
                let c = choose|c: int| first_index(ids, self.selected@, c);
                assert(c == i) by {
                    if c < i {
                        assert(ids[c] != self.selected@);
                    } else if c > i {
                        assert(ids[i as int] == self.selected@);
                    }
                }
            } else {
                assert(!exists|c: int| first_index(ids, self.selected@, c));
            }
        }
        let new_identifier = copy_identifier(visible[target].identifier.as_slice());
        self.select(new_identifier);
    }

    /// Chooses the window of `visible` to draw in `budget` rows, where
    /// `heights` are the row heights of the entries, and keeps its first index
    /// as the new offset. The window holds the selection, or the first entry
    /// when the selection is empty or not visible.
    pub fn scroll_to_selection<A>(&mut self, visible: &[Flattened<'_, A>], heights: &[usize], budget: usize) -> (r: (usize, usize))
        requires
            old(self).wf(),
            visible@.len() > 0,
            heights@.len() == visible@.len(),
            budget >= 1,
        ensures
            final(self).wf(),
            ({
                let ids = identifiers(visible@);
                let sel = old(self).spec_selected();
                let index = if sel.len() > 0 && exists|i: int| first_index(ids, sel, i) {
                    choose|i: int| first_index(ids, sel, i)
                } else {
                    0
                };
                window_of(heights@, budget as int, old(self).spec_offset() as int, Some(index as usize), r)
            }),
            final(self).spec_offset() == r.0,
            final(self).spec_opened() == old(self).spec_opened(),
            final(self).spec_selected() == old(self).spec_selected(),
    {
        let ghost ids = identifiers(visible@);
        let n = visible.len();
        let mut i: usize = 0;
        let mut found = false;
        if self.selected.len() > 0 {
            while i < n && !found
                invariant
                    n == visible@.len(),
                    n == ids.len(),
                    i <= n,
                    found ==> i < n && ids[i as int] == self.selected@,
                    forall|j: int| 0 <= j < ids.len() ==> ids[j] == #[trigger] visible@[j].identifier@,
                    forall|j: int| 0 <= j < i ==> ids[j] != self.selected@,
                    self.offset == old(self).offset,
                    self.selected == old(self).selected,
                    self.opened == old(self).opened,
                decreases n - i + (if found { 0int } else { 1int }),
            {
                if same_identifier(visible[i].identifier.as_slice(), self.selected.as_slice()) {
                    found = true;
                } else {
                    i += 1;
                }
            }
        }
        let index: usize = if found { i } else { 0 };
        proof {
            if found {
                assert(first_index(ids, self.selected@, i as int));
                let c = choose|c: int| first_index(ids, self.selected@, c);
                assert(c == i) by {
                    if c < i {
                        assert(ids[c] != self.selected@);
                    } else if c > i {
                        assert(ids[i as int] == self.selected@);
                    }
                }
            } else if self.selected@.len() > 0 {
                assert(!exists|c: int| first_index(ids, self.selected@, c));
            }
        }
        let r = compute_window(heights, budget, self.offset, Some(index));
        proof {
            let chosen = if self.selected@.len() > 0 && exists|c: int| first_index(ids, self.selected@, c) {
                choose|c: int| first_index(ids, self.selected@, c)
            } else {
                0
            };
            assert(index == chosen);
            assert(self.selected@ == old(self).spec_selected());
        }
        self.offset = r.0;
        r
    }

    /// Selects the first root, whether or not the tree has one.
    pub fn select_first(&mut self)
        requires
            old(self).wf(),
        ensures
            final(self).wf(),
            final(self).spec_selected() == seq![0usize],
            final(self).spec_opened() == old(self).spec_opened(),
            final(self).spec_offset() == old(self).spec_offset(),
    {
        self.select(vec![0]);
    }
}


/// Opening an identifier that is not open and then closing it leaves the
/// opened identifiers as they were.
pub proof fn lemma_open_then_close(state: TreeState, id: Seq<usize>)
    requires
        state.wf(),
        id.len() > 0,
        !state.spec_opened().contains(id),
    ensures
        after_close(after_open(state.spec_opened(), id), id) == state.spec_opened(),
{
    assert(after_close(after_open(state.spec_opened(), id), id) =~= state.spec_opened());
}

/// Toggling the same identifier twice leaves the opened identifiers as they
/// were.
pub proof fn lemma_toggle_twice(state: TreeState, id: Seq<usize>)
    requires
        state.wf(),
    ensures
        after_toggle(after_toggle(state.spec_opened(), id), id) == state.spec_opened(),
{
    let s = state.spec_opened();
    if id.len() == 0 {
        assert(!s.contains(id)) by {
            if s.contains(id) {
                let k = choose|k: int| 0 <= k < state.opened@.len() && state.opened@[k]@ == id;
                assert(state.opened@[k]@.len() > 0);
            }
        }
    } else if s.contains(id) {
        assert(after_toggle(after_toggle(s, id), id) =~= s);
    } else {
        assert(after_toggle(after_toggle(s, id), id) =~= s);
    }
}

/// A step up from the first visible entry stays on it.
pub proof fn lemma_up_from_first<A>(opened: Set<Seq<usize>>, items: Seq<TreeItem<A>>)
    requires
        items.len() > 0,
    ensures
        stepped(visible_ids(opened, items), visible_ids(opened, items)[0], false) == visible_ids(opened, items)[0],
{
    let ids = visible_ids(opened, items);
    lemma_visible_nonempty(opened, items, seq![]);
    assert(first_index(ids, ids[0], 0));
    let c = choose|c: int| first_index(ids, ids[0], c);
    assert(c == 0);
}

/// A step down from the last visible entry stays on it.
pub proof fn lemma_down_from_last<A>(opened: Set<Seq<usize>>, items: Seq<TreeItem<A>>)
    requires
        items.len() > 0,
        sized(items),
    ensures
        stepped(visible_ids(opened, items), visible_ids(opened, items).last(), true) == visible_ids(opened, items).last(),
{
    let ids = visible_ids(opened, items);
    let vis = visible(opened, items, seq![]);
    lemma_visible_nonempty(opened, items, seq![]);
    lemma_visible_shape(opened, items, seq![]);
    let n = ids.len() as int;
    assert forall|j: int| 0 <= j < n - 1 implies #[trigger] ids[j] != ids[n - 1] by {
        assert(ids[j] == vis[j].0);
        assert(ids[n - 1] == vis[n - 1].0);
    }
    assert(first_index(ids, ids.last(), n - 1));
    let c = choose|c: int| first_index(ids, ids.last(), c);
    assert(c == n - 1) by {
        if c < n - 1 {
            assert(ids[c] != ids[n - 1]);
        }
    }
}

} // verus!
