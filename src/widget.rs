use vstd::prelude::*;

use tui::layout::Corner;
use tui::style::Style;
use tui::widgets::Block;

use crate::tree::{plain_style, TreeItem};

verus! {

/// tui's `Block`, carried as an opaque value.
#[verifier::external_type_specification]
#[verifier::external_body]
pub struct ExBlock<'a>(tui::widgets::Block<'a>);

/// tui's `Corner`, carried as an opaque value.
#[verifier::external_type_specification]
#[verifier::external_body]
pub struct ExCorner(tui::layout::Corner);

/// Relies on tui's `Corner: Clone`, derived beside `Copy`: a clone is the same corner.
pub assume_specification[ <tui::layout::Corner as core::clone::Clone>::clone ](c: &tui::layout::Corner) -> (r: tui::layout::Corner)
    ensures
        r == *c,
;

/// Relies on tui's `Block: Clone`, which copies the block.
pub assume_specification<'a>[ <tui::widgets::Block<'a> as core::clone::Clone>::clone ](b: &tui::widgets::Block<'a>) -> (r: tui::widgets::Block<'a>);

/// Relies on tui's `Corner::TopLeft`: rows are laid out from the top.
#[verifier::external_body]
fn top_left() -> (r: Corner) {
    Corner::TopLeft
}

/// A tree to be drawn: its items and how they look.
#[derive(Debug, Clone)]
pub struct Tree<'a, A> {
    block: Option<Block<'a>>,
    items: Vec<TreeItem<A>>,
    /// Style used as a base style for the widget
    style: Style,
    start_corner: Corner,
    /// Style used to render selected item
    highlight_style: Style,
    /// Symbol in front of the selected item (Shift all items to the right)
    highlight_symbol: Option<&'a str>,
}

impl<'a, A> Tree<'a, A> {
    /// The items drawn.
    pub closed spec fn spec_items(&self) -> Seq<TreeItem<A>> {
        self.items@
    }

    /// The symbol drawn in front of the selected item.
    pub closed spec fn spec_highlight_symbol(&self) -> Option<&'a str> {
        self.highlight_symbol
    }

    /// Whether a block is drawn around the tree.
    pub closed spec fn spec_has_block(&self) -> bool {
        self.block.is_some()
    }

    /// A tree of `items`, with no block, no highlight symbol and plain styles,
    /// laid out from the top.
    pub fn new(items: Vec<TreeItem<A>>) -> (r: Self)
        ensures
            r.spec_items() == items@,
            r.spec_highlight_symbol().is_none(),
            !r.spec_has_block(),
    {
        Tree {
            block: None,
            style: plain_style(),
            items,
            start_corner: top_left(),
            highlight_style: plain_style(),
            highlight_symbol: None,
        }
    }

    pub fn block(self, block: Block<'a>) -> (r: Self)
        ensures
            r.spec_items() == self.spec_items(),
            r.spec_has_block(),
            r.spec_highlight_symbol() == self.spec_highlight_symbol(),
    {
        let mut r = self;
        r.block = Some(block);
        r
    }

    pub fn style(self, style: Style) -> (r: Self)
        ensures
            r.spec_items() == self.spec_items(),
            r.spec_has_block() == self.spec_has_block(),
            r.spec_highlight_symbol() == self.spec_highlight_symbol(),
    {
        let mut r = self;
        r.style = style;
        r
    }

    pub fn highlight_symbol(self, highlight_symbol: &'a str) -> (r: Self)
        ensures
            r.spec_items() == self.spec_items(),
            r.spec_has_block() == self.spec_has_block(),
            r.spec_highlight_symbol() == Some(highlight_symbol),
    {
        let mut r = self;
        r.highlight_symbol = Some(highlight_symbol);
        r
    }

    pub fn highlight_style(self, style: Style) -> (r: Self)
        ensures
            r.spec_items() == self.spec_items(),
            r.spec_has_block() == self.spec_has_block(),
            r.spec_highlight_symbol() == self.spec_highlight_symbol(),
    {
        let mut r = self;
        r.highlight_style = style;
        r
    }

    pub fn start_corner(self, corner: Corner) -> (r: Self)
        ensures
            r.spec_items() == self.spec_items(),
            r.spec_has_block() == self.spec_has_block(),
            r.spec_highlight_symbol() == self.spec_highlight_symbol(),
    {
        let mut r = self;
        r.start_corner = corner;
        r
    }

    /// The parts of this tree, for drawing: the block, the items, the base
    /// style, the corner rows start from, the highlight style and symbol.
    pub fn into_parts(self) -> (r: (Option<Block<'a>>, Vec<TreeItem<A>>, Style, Corner, Style, Option<&'a str>))
        ensures
            r.1@ == self.spec_items(),
            r.0.is_some() == self.spec_has_block(),
            r.5 == self.spec_highlight_symbol(),
    {
        (self.block, self.items, self.style, self.start_corner, self.highlight_style, self.highlight_symbol)
    }
}

} // verus!
