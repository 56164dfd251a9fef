use vstd::prelude::*;

use tui::style::Style;
use tui::text::Text;

use crate::identifier::copy_identifier;

verus! {

/// tui's `Style`, carried as an opaque value.
#[verifier::external_type_specification]
#[verifier::external_body]
pub struct ExStyle(tui::style::Style);

/// tui's `Text`, carried as an opaque value.
#[verifier::external_type_specification]
#[verifier::external_body]
pub struct ExText<'a>(tui::text::Text<'a>);

/// Relies on tui's `Style: Clone`, derived beside `Copy`: a clone is the same style.
pub assume_specification[ <tui::style::Style as core::clone::Clone>::clone ](s: &tui::style::Style) -> (r: tui::style::Style)
    ensures
        r == *s,
;

/// Relies on tui's `Style::default`: the style that changes nothing.
#[verifier::external_body]
pub(crate) fn plain_style() -> (r: Style) {
    Style::default()
}

/// Relies on tui's `Text::from(&str)` to build the text of a string.
#[verifier::external_body]
fn text_of_str<'a>(s: &'a str) -> (r: Text<'a>) {
    Text::from(s)
}

/// Relies on tui's `Text::height` for the number of lines of a text.
#[verifier::external_body]
fn text_height(t: &Text) -> (r: usize) {
    t.height()
}

/// Something that can be shown as the text of a tree item.
pub trait TreeItemRender {
    fn as_text(&self) -> Text<'_>;
}

impl TreeItemRender for &str {
    fn as_text(&self) -> Text<'_> {
        text_of_str(*self)
    }
}

/// One item inside a tree: a payload, a style and zero or more children.
#[derive(Debug)]
pub struct TreeItem<A> {
    elem: A,
    style: Style,
    children: Vec<TreeItem<A>>,
}

impl<A: Clone> TreeItem<A> {
    /// A copy of this item and all its descendants.
    fn deep_clone(&self) -> (r: Self)
        ensures
            r.spec_children().len() == self.spec_children().len(),
            r.spec_style() == self.spec_style(),
        decreases self,
    {
        let mut children: Vec<TreeItem<A>> = Vec::new();
        let mut i: usize = 0;
        while i < self.children.len()
            invariant
                i <= self.children@.len(),
                children@.len() == i,
            decreases self.children@.len() - i,
        {
            proof {
                assert(decreases_to!(self => self.children));
                assert(decreases_to!(self.children => self.children@[i as int]));
            }
            children.push(self.children[i].deep_clone());
            i += 1;
        }
        TreeItem { elem: self.elem.clone(), style: self.style, children }
    }
}

impl<A: Clone> Clone for TreeItem<A> {
    fn clone(&self) -> (r: Self)
        ensures
            r.spec_children().len() == self.spec_children().len(),
            r.spec_style() == self.spec_style(),
    {
        self.deep_clone()
    }
}

impl<A> TreeItem<A> {
    /// The children of this item, in order.
    pub closed spec fn spec_children(&self) -> Seq<TreeItem<A>> {
        self.children@
    }

    /// The payload of this item.
    pub closed spec fn spec_elem(&self) -> A {
        self.elem
    }

    /// The style of this item.
    pub closed spec fn spec_style(&self) -> Style {
        self.style
    }
}

impl<A: TreeItemRender> TreeItem<A> {
    /// An item without children, in the plain style.
    pub fn new_leaf(elem: A) -> (r: Self)
        ensures
            r.spec_elem() == elem,
            r.spec_children() == Seq::<TreeItem<A>>::empty(),
    {
        TreeItem { style: plain_style(), children: Vec::new(), elem }
    }

    /// An item with the given children, in the plain style.
    pub fn new(elem: A, children: Vec<TreeItem<A>>) -> (r: Self)
        ensures
            r.spec_elem() == elem,
            r.spec_children() == children@,
    {
        TreeItem { style: plain_style(), children, elem }
    }

    pub fn children(&self) -> (r: &[TreeItem<A>])
        ensures
            r@ == self.spec_children(),
    {
        self.children.as_slice()
    }

    pub fn children_mut(&mut self) -> (r: &mut [TreeItem<A>])
        ensures
            r@ == old(self).spec_children(),
            final(r)@ == final(self).spec_children(),
            final(self).spec_elem() == old(self).spec_elem(),
            final(self).spec_style() == old(self).spec_style(),
    {
        self.children.as_mut_slice()
    }

    /// The child at `index`, if there is one.
    pub fn child(&self, index: usize) -> (r: Option<&Self>)
        ensures
            r.is_some() == (index < self.spec_children().len()),
            r matches Some(c) ==> *c == self.spec_children()[index as int],
    {
        if index < self.children.len() {
            Some(&self.children[index])
        } else {
            None
        }
    }

    /// The child at `index`, if there is one, to change in place.
    pub fn child_mut(&mut self, index: usize) -> (r: Option<&mut Self>)
        ensures
            r.is_some() == (index < old(self).spec_children().len()),
            r matches Some(c) ==> {
                &&& *c == old(self).spec_children()[index as int]
                &&& final(self).spec_children() == old(self).spec_children().update(index as int, *final(c))
            },
            r is None ==> *final(self) == *old(self),
            final(self).spec_elem() == old(self).spec_elem(),
            final(self).spec_style() == old(self).spec_style(),
    {
        if index < self.children.len() {
            Some(&mut self.children[index])
        } else {
            None
        }
    }

    /// The number of rows the payload takes when drawn.
    pub fn height(&self) -> usize {
        text_height(&self.elem.as_text())
    }

    /// This item, drawn in `style`.
    pub fn style(self, style: Style) -> (r: Self)
        ensures
            r.spec_style() == style,
            r.spec_elem() == self.spec_elem(),
            r.spec_children() == self.spec_children(),
    {
        let mut r = self;
        r.style = style;
        r
    }

    /// The payload of this item.
    pub fn elem(&self) -> (r: &A)
        ensures
            *r == self.spec_elem(),
    {
        &self.elem
    }

    /// The style this item is drawn in.
    pub fn item_style(&self) -> (r: Style)
        ensures
            r == self.spec_style(),
    {
        self.style
    }

    /// Appends `child` after the existing children.
    pub fn add_child(&mut self, child: TreeItem<A>)
        ensures
            final(self).spec_children() == old(self).spec_children().push(child),
            final(self).spec_elem() == old(self).spec_elem(),
            final(self).spec_style() == old(self).spec_style(),
    {
        self.children.push(child);
    }
}

/// The identifier of the child at `index` of the node at `prefix`.
pub open spec fn child_id(prefix: Seq<usize>, index: int) -> Seq<usize> {
    prefix.push(index as usize)
}

/// The identifiers held in a list of opened identifiers, as a set.
pub open spec fn id_set(opened: Seq<Vec<usize>>) -> Set<Seq<usize>> {
    Set::new(|s: Seq<usize>| exists|i: int| 0 <= i < opened.len() && opened[i]@ == s)
}

/// The visible entries of the forest `items` whose parent sits at `prefix`,
/// in pre-order: each item, then, if its identifier is opened, the visible
/// entries of its children.
pub open spec fn visible<A>(opened: Set<Seq<usize>>, items: Seq<TreeItem<A>>, prefix: Seq<usize>) -> Seq<(Seq<usize>, TreeItem<A>)>
    decreases items,
{
    if items.len() == 0 {
        seq![]
    } else {
        let last = items.len() - 1;
        let id = child_id(prefix, last);
        let below = if opened.contains(id) {
            visible(opened, items[last].spec_children(), id)
        } else {
            seq![]
        };
        visible(opened, items.drop_last(), prefix).push((id, items[last])) + below
    }
}

/// A forest with at least one root has at least one visible entry.
pub proof fn lemma_visible_nonempty<A>(opened: Set<Seq<usize>>, items: Seq<TreeItem<A>>, prefix: Seq<usize>)
    requires
        items.len() > 0,
    ensures
        visible(opened, items, prefix).len() >= 1,
{
    let last = items.len() - 1;
    let id = child_id(prefix, last);
    assert(visible(opened, items, prefix).len() >= visible(opened, items.drop_last(), prefix).push((id, items[last])).len());
}

/// One visible entry of a flattened tree: where it sits and the item itself.
pub struct Flattened<'a, A> {
    pub identifier: Vec<usize>,
    pub item: &'a TreeItem<A>,
}

impl<'a, A> Flattened<'a, A> {
    /// Depth below the roots: 0 for a root.
    pub fn depth(&self) -> (r: usize)
        requires
            self.identifier@.len() > 0,
        ensures
            r == self.identifier@.len() - 1,
    {
        self.identifier.len() - 1
    }
}

/// The model of a sequence of flattened entries.
pub open spec fn entries<'a, A>(v: Seq<Flattened<'a, A>>) -> Seq<(Seq<usize>, TreeItem<A>)> {
    v.map_values(|f: Flattened<'a, A>| (f.identifier@, *f.item))
}

/// The identifiers of a sequence of flattened entries.
pub open spec fn identifiers<'a, A>(v: Seq<Flattened<'a, A>>) -> Seq<Seq<usize>> {
    v.map_values(|f: Flattened<'a, A>| f.identifier@)
}

/// Whether `identifier` is among `opened`.
pub fn is_opened(opened: &[Vec<usize>], identifier: &[usize]) -> (r: bool)
    ensures
        r == id_set(opened@).contains(identifier@),
{
    let mut i: usize = 0;
    while i < opened.len()
        invariant
            i <= opened@.len(),
            forall|j: int| 0 <= j < i ==> opened@[j]@ != identifier@,
        decreases opened@.len() - i,
    {
        if crate::identifier::same_identifier(opened[i].as_slice(), identifier) {
            return true;
        }
        i += 1;
    }
    false
}

fn flatten_below<'a, A>(opened: &[Vec<usize>], items: &'a [TreeItem<A>], prefix: &[usize]) -> (r: Vec<Flattened<'a, A>>)
    ensures
        entries(r@) == visible(id_set(opened@), items@, prefix@),
    decreases items@,
{
    let mut result: Vec<Flattened<'a, A>> = Vec::new();
    let mut i: usize = 0;
    while i < items.len()
        invariant
            i <= items@.len(),
            entries(result@) == visible(id_set(opened@), items@.subrange(0, i as int), prefix@),
        decreases items@.len() - i,
    {
        let ghost done = items@.subrange(0, i as int + 1);
        assert(done.drop_last() =~= items@.subrange(0, i as int));
        let mut id = copy_identifier(prefix);
        id.push(i);
        let item = &items[i];
        result.push(Flattened { identifier: copy_identifier(id.as_slice()), item });
        assert(entries(result@) =~= visible(id_set(opened@), items@.subrange(0, i as int), prefix@).push((id@, items@[i as int])));
        if is_opened(opened, id.as_slice()) {
            proof {
                assert(decreases_to!(items@ => items@[i as int]));
                assert(decreases_to!(items@[i as int] => items@[i as int].children));
                assert(decreases_to!(items@[i as int].children => items@[i as int].children@));
            }
            let mut below = flatten_below(opened, item.children.as_slice(), id.as_slice());
            let ghost before = result@;
            let ghost added = below@;
            result.append(&mut below);
            assert(entries(result@) =~= entries(before) + entries(added));
        }
        i += 1;
    }
    assert(items@.subrange(0, items@.len() as int) =~= items@);
    result
}

/// The visible entries of the forest `items`, in the order a reader scans
/// them: every root, and below each node whose identifier is in `opened`
/// its children, recursively.
pub fn flatten<'a, A>(opened: &[Vec<usize>], items: &'a [TreeItem<A>]) -> (r: Vec<Flattened<'a, A>>)
    ensures
        entries(r@) == visible(id_set(opened@), items@, seq![]),
{
    let root: Vec<usize> = Vec::new();
    flatten_below(opened, items, root.as_slice())
}


/// Every list of children in `items`, at any depth, has a length that fits
/// in `usize`, as it does for a tree held in vectors.
pub open spec fn sized<A>(items: Seq<TreeItem<A>>) -> bool
    decreases items, items.len() + 1,
{
    &&& items.len() <= usize::MAX
    &&& sized_upto(items, items.len() as int)
}

/// The children of each of the first `n` items of `items` are `sized`.
pub open spec fn sized_upto<A>(items: Seq<TreeItem<A>>, n: int) -> bool
    decreases items, n,
{
    if n <= 0 || n > items.len() {
        true
    } else {
        sized_upto(items, n - 1) && sized(items[n - 1].spec_children())
    }
}

/// What `sized_upto` says of one item.
pub proof fn lemma_sized_upto<A>(items: Seq<TreeItem<A>>, n: int, i: int)
    requires
        sized_upto(items, n),
        0 <= i < n <= items.len(),
    ensures
        sized(items[i].spec_children()),
    decreases n,
{
    if i < n - 1 {
        lemma_sized_upto(items, n - 1, i);
    }
}

/// `sized_upto` holds of a front part of `items` when it holds of `items`.
pub proof fn lemma_sized_upto_front<A>(items: Seq<TreeItem<A>>, n: int, m: int)
    requires
        sized_upto(items, n),
        0 <= m <= n <= items.len(),
    ensures
        sized_upto(items.subrange(0, m), m),
    decreases m,
{
    if m > 0 {
        lemma_sized_upto(items, n, m - 1);
        lemma_sized_upto_front(items, n, m - 1);
        assert(items.subrange(0, m).subrange(0, m - 1) =~= items.subrange(0, m - 1));
        lemma_sized_upto_same(items.subrange(0, m - 1), items.subrange(0, m), m - 1);
        assert(items.subrange(0, m)[m - 1] == items[m - 1]);
    }
}

/// `sized_upto` only reads the first `n` items.
pub proof fn lemma_sized_upto_same<A>(a: Seq<TreeItem<A>>, b: Seq<TreeItem<A>>, n: int)
    requires
        sized_upto(a, n),
        0 <= n <= a.len(),
        n <= b.len(),
        forall|i: int| 0 <= i < n ==> a[i] == b[i],
    ensures
        sized_upto(b, n),
    decreases n,
{
    if n > 0 {
        lemma_sized_upto_same(a, b, n - 1);
    }
}

/// The entries of `visible` are the identifiers below `prefix`: each extends
/// `prefix` by an index of `items`, no two are the same, and one that lies
/// deeper than a child of `prefix` sits below an opened identifier.
pub proof fn lemma_visible_shape<A>(opened: Set<Seq<usize>>, items: Seq<TreeItem<A>>, prefix: Seq<usize>)
    requires
        sized(items),
    ensures
        forall|k: int| 0 <= k < visible(opened, items, prefix).len() ==> {
            let id = #[trigger] visible(opened, items, prefix)[k].0;
            &&& id.len() > prefix.len()
            &&& id.subrange(0, prefix.len() as int) == prefix
            &&& id[prefix.len() as int] < items.len()
            &&& id.len() > prefix.len() + 1 ==> opened.contains(id.drop_last())
        },
        forall|a: int, b: int| 0 <= a < b < visible(opened, items, prefix).len() ==>
            #[trigger] visible(opened, items, prefix)[a].0 != #[trigger] visible(opened, items, prefix)[b].0,
    decreases items,
{
    if items.len() > 0 {
        let p = prefix.len() as int;
        let last = items.len() - 1;
        let id = child_id(prefix, last);
        let front = visible(opened, items.drop_last(), prefix);
        let head = front.push((id, items[last]));
        let below = if opened.contains(id) {
            visible(opened, items[last].spec_children(), id)
        } else {
            seq![]
        };
        let all = visible(opened, items, prefix);
        assert(all == head + below);
        lemma_sized_upto_front(items, items.len() as int, last);
        assert(items.drop_last() =~= items.subrange(0, last));
        lemma_sized_upto(items, items.len() as int, last);
        lemma_visible_shape(opened, items.drop_last(), prefix);
        if opened.contains(id) {
            assert(decreases_to!(items => items[last]));
            lemma_visible_shape(opened, items[last].spec_children(), id);
        }
        assert(id.subrange(0, p) =~= prefix);
        assert(id[p] == last);
        assert forall|k: int| 0 <= k < below.len() implies {
            let e = #[trigger] below[k].0;
            &&& e.len() > p + 1
            &&& e.subrange(0, p) == prefix
            &&& e[p] == last
            &&& opened.contains(e.subrange(0, p + 1))
        } by {
            assert(opened.contains(id));
            let kids = visible(opened, items[last].spec_children(), id);
            assert(below[k] == kids[k]);
            let e = kids[k].0;
            assert(e.len() > id.len());
            assert(e.subrange(0, p + 1) == id);
            assert(e.subrange(0, p) =~= e.subrange(0, p + 1).subrange(0, p));
            assert(e[p] == e.subrange(0, p + 1)[p]);
        }
        assert forall|k: int| 0 <= k < all.len() implies {
            let e = #[trigger] all[k].0;
            &&& e.len() > p
            &&& e.subrange(0, p) == prefix
            &&& e[p] < items.len()
            &&& e.len() > p + 1 ==> opened.contains(e.drop_last())
        } by {
            if k < front.len() {
                assert(all[k] == front[k]);
            } else if k == front.len() {
                assert(all[k].0 == id);
            } else {
                let j = k - head.len();
                assert(all[k] == below[j]);
                let e = below[j].0;
                if e.len() == p + 2 {
                    assert(e.drop_last() =~= e.subrange(0, p + 1));
                }
            }
        }
        assert forall|a: int, b: int| 0 <= a < b < all.len() implies #[trigger] all[a].0 != #[trigger] all[b].0 by {
            if b < front.len() {
                assert(all[a] == front[a] && all[b] == front[b]);
            } else if a < front.len() {
                assert(all[a] == front[a]);
                assert(front[a].0[p] < last);
                if b == front.len() {
                    assert(all[b].0 == id);
                } else {
                    assert(all[b] == below[b - head.len()]);
                }
            } else if a == front.len() {
                assert(all[b] == below[b - head.len()]);
            } else {
                assert(all[a] == below[a - head.len()] && all[b] == below[b - head.len()]);
            }
        }
    }
}


/// The number of nodes of `items` reached from `prefix` by descending only
/// through opened nodes, the items themselves included.
pub open spec fn reachable_count<A>(opened: Set<Seq<usize>>, items: Seq<TreeItem<A>>, prefix: Seq<usize>) -> nat
    decreases items,
{
    if items.len() == 0 {
        0
    } else {
        let last = items.len() - 1;
        let id = child_id(prefix, last);
        let below = if opened.contains(id) {
            reachable_count(opened, items[last].spec_children(), id)
        } else {
            0
        };
        reachable_count(opened, items.drop_last(), prefix) + 1 + below
    }
}

/// Flattening emits exactly the nodes reached through opened nodes: as many
/// entries as there are such nodes, every item of `items` among them, and
/// no entry below a node that is not opened.
pub proof fn lemma_flatten_reaches<A>(opened: Set<Seq<usize>>, items: Seq<TreeItem<A>>, prefix: Seq<usize>)
    requires
        sized(items),
    ensures
        visible(opened, items, prefix).len() == reachable_count(opened, items, prefix),
        forall|i: int| 0 <= i < items.len() ==>
            exists|k: int| 0 <= k < visible(opened, items, prefix).len()
                && #[trigger] visible(opened, items, prefix)[k] == (child_id(prefix, i), #[trigger] items[i]),
        forall|k: int| 0 <= k < visible(opened, items, prefix).len()
            && (#[trigger] visible(opened, items, prefix)[k]).0.len() > prefix.len() + 1
            ==> opened.contains(visible(opened, items, prefix)[k].0.drop_last()),
    decreases items,
{
    lemma_visible_shape(opened, items, prefix);
    if items.len() > 0 {
        let last = items.len() - 1;
        let id = child_id(prefix, last);
        let front = visible(opened, items.drop_last(), prefix);
        let head = front.push((id, items[last]));
        let below = if opened.contains(id) {
            visible(opened, items[last].spec_children(), id)
        } else {
            seq![]
        };
        let all = visible(opened, items, prefix);
        assert(all == head + below);
        lemma_sized_upto_front(items, items.len() as int, last);
        assert(items.drop_last() =~= items.subrange(0, last));
        lemma_sized_upto(items, items.len() as int, last);
        lemma_flatten_reaches(opened, items.drop_last(), prefix);
        if opened.contains(id) {
            assert(decreases_to!(items => items[last]));
            lemma_flatten_reaches(opened, items[last].spec_children(), id);
        }
        assert forall|i: int| 0 <= i < items.len() implies
            exists|k: int| 0 <= k < all.len() && #[trigger] all[k] == (child_id(prefix, i), #[trigger] items[i]) by {
            if i == last {
                assert(all[front.len() as int] == (child_id(prefix, i), items[i]));
            } else {
                assert(items.drop_last()[i] == items[i]);
                let k = choose|k: int| 0 <= k < front.len() && #[trigger] front[k] == (child_id(prefix, i), items.drop_last()[i]);
                assert(0 <= k < front.len() && front[k] == (child_id(prefix, i), items[i]));
                assert(all[k] == front[k]);
            }
        }
    }
}


/// Flattening the same forest with the same opened identifiers twice gives
/// the same entries in the same order.
pub proof fn lemma_flatten_twice<'a, A>(
    opened: Seq<Vec<usize>>,
    items: Seq<TreeItem<A>>,
    first: Seq<Flattened<'a, A>>,
    second: Seq<Flattened<'a, A>>,
)
    requires
        entries(first) == visible(id_set(opened), items, seq![]),
        entries(second) == visible(id_set(opened), items, seq![]),
    ensures
        first.len() == second.len(),
        forall|i: int| 0 <= i < first.len() ==> {
            &&& (#[trigger] first[i]).identifier@ == second[i].identifier@
            &&& *first[i].item == *second[i].item
        },
{
    assert(entries(first).len() == entries(second).len());
    assert forall|i: int| 0 <= i < first.len() implies {
        &&& (#[trigger] first[i]).identifier@ == second[i].identifier@
        &&& *first[i].item == *second[i].item
    } by {
        assert(entries(first)[i] == (first[i].identifier@, *first[i].item));
        assert(entries(second)[i] == (second[i].identifier@, *second[i].item));
        assert(entries(first)[i] == entries(second)[i]);
    }
}

} // verus!
