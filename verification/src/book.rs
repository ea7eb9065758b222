//! The metrics of the pages of a book.
use vstd::prelude::*;
use vstd::std_specs::ops::SubSpec;

verus! {

/// Whether `a - b - c` can be computed in `L`: for a type whose subtraction
/// is specified, both steps must be defined; for any other type, taking `c`
/// from any length must be.
pub open spec fn subtractable<L: core::ops::Sub<Output = L>>(a: L, b: L, c: L) -> bool {
    &&& a.sub_req(b)
    &&& if L::obeys_sub_spec() {
        a.sub_spec(b).sub_req(c)
    } else {
        forall|x: L| #[trigger] x.sub_req(c)
    }
}

/// The measures of a page, in some unit of length `L`.
pub struct PageMetrics<L> {
    /// Overall width of the final page.
    pub width: L,
    /// Overall height of the final page.
    pub height: L,
    /// Space between the binding and the text.
    pub margin_inner: L,
    /// Space between the text and the edge of the page.
    pub margin_outer: L,
    pub margin_top: L,
    pub margin_bottom: L,
}

impl<L: Copy + core::ops::Sub<Output = L>> PageMetrics<L> {
    /// The width of the text: the page's width less both side margins.
    pub fn text_width(&self) -> (w: L)
        requires
            subtractable(self.width, self.margin_inner, self.margin_outer),
        ensures
            L::obeys_sub_spec() ==> w == self.width.sub_spec(self.margin_inner).sub_spec(
                self.margin_outer,
            ),
    {
        self.width - self.margin_inner - self.margin_outer
    }

    /// The height of the text: the page's height less the top and bottom
    /// margins.
    pub fn text_height(&self) -> (h: L)
        requires
            subtractable(self.height, self.margin_top, self.margin_bottom),
        ensures
            L::obeys_sub_spec() ==> h == self.height.sub_spec(self.margin_top).sub_spec(
                self.margin_bottom,
            ),
    {
        self.height - self.margin_top - self.margin_bottom
    }
}

impl<L: Copy> PageMetrics<L> {
    /// The size of the whole page, as width and height.
    pub fn page_size(&self) -> (r: (L, L))
        ensures
            r == (self.width, self.height),
    {
        (self.width, self.height)
    }

    /// The margin on the left of page `nr`: the outer margin on even pages,
    /// the inner one on odd pages.
    pub fn margin_left(&self, nr: usize) -> (m: L)
        ensures
            m == (if nr % 2 == 0 {
                self.margin_outer
            } else {
                self.margin_inner
            }),
    {
        if nr % 2 == 0 {
            self.margin_outer
        } else {
            self.margin_inner
        }
    }
}

} // verus!
