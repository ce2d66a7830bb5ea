//! Domain types: pixels, canvases, and the canvas collection, together with
//! their mathematical models and the pixel-patch semantics.

use vstd::prelude::*;

verus! {

/// A rectangular grid of color cells: a sequence of rows, each row a
/// sequence of color tokens.
pub type GridV = Seq<Seq<Seq<char>>>;

/// A single-cell color assignment targeting coordinates `(x, y)`.
#[derive(Debug)]
pub struct Pixel {
    /// Column index.
    pub x: usize,
    /// Row index.
    pub y: usize,
    /// Opaque color token; not validated for format.
    pub color: String,
}

/// Mathematical model of a [`Pixel`].
#[verifier::ext_equal]
pub struct PixelV {
    pub x: nat,
    pub y: nat,
    pub color: Seq<char>,
}

impl View for Pixel {
    type V = PixelV;

    open spec fn view(&self) -> PixelV {
        PixelV { x: self.x as nat, y: self.y as nat, color: self.color@ }
    }
}

impl DeepView for Pixel {
    type V = PixelV;

    open spec fn deep_view(&self) -> PixelV {
        self.view()
    }
}

/// A batch of pixel assignments applied to one canvas in one transaction.
#[derive(Debug)]
pub struct Pixels {
    pub pixels: Vec<Pixel>,
}

/// A canvas as a caller submits it: content only, the id is assigned by the
/// service on creation.
#[derive(Debug)]
pub struct ReqCanvas {
    pub content: Vec<Vec<String>>,
}

/// One named rectangular grid of color cells.
#[derive(Debug)]
pub struct Canvas {
    /// Identifier, unique across the collection.
    pub id: u32,
    /// Rows of color cells.
    pub content: Vec<Vec<String>>,
}

/// Mathematical model of a [`Canvas`].
#[verifier::ext_equal]
pub struct CanvasV {
    pub id: u32,
    pub content: GridV,
}

impl View for Canvas {
    type V = CanvasV;

    open spec fn view(&self) -> CanvasV {
        CanvasV { id: self.id, content: self.content.deep_view() }
    }
}

impl DeepView for Canvas {
    type V = CanvasV;

    open spec fn deep_view(&self) -> CanvasV {
        self.view()
    }
}

impl Canvas {
    /// Builds a canvas with the given id and content.
    pub fn new(id: u32, content: Vec<Vec<String>>) -> (r: Self)
        ensures
            r@ == (CanvasV { id, content: content.deep_view() }),
    {
        Canvas { id, content }
    }
}

/// The full durable set of canvases: the unit of load and save.
#[derive(Debug)]
pub struct Canvases {
    /// The canvases, in insertion order.
    pub canvases: Vec<Canvas>,
}

impl View for Canvases {
    type V = Seq<CanvasV>;

    open spec fn view(&self) -> Seq<CanvasV> {
        self.canvases.deep_view()
    }
}

impl Canvases {
    /// Builds a collection from the given list of canvases.
    pub fn new(canvases: Vec<Canvas>) -> (r: Self)
        ensures
            r@ == canvases.deep_view(),
    {
        Canvases { canvases }
    }
}

/// No two canvases of the collection share an id.
pub open spec fn ids_unique(s: Seq<CanvasV>) -> bool {
    forall|i: int, j: int| 0 <= i < j < s.len() ==> s[i].id != s[j].id
}

/// Some canvas of the collection has the given id.
pub open spec fn has_id(s: Seq<CanvasV>, id: u32) -> bool {
    exists|i: int| 0 <= i < s.len() && #[trigger] s[i].id == id
}

/// Index of the first canvas with the given id, or `-1` if there is none.
pub open spec fn idx_of_id(s: Seq<CanvasV>, id: u32) -> int
    decreases s.len(),
{
    if s.len() == 0 {
        -1
    } else if s[0].id == id {
        0
    } else {
        let t = idx_of_id(s.subrange(1, s.len() as int), id);
        if t == -1 {
            -1
        } else {
            t + 1
        }
    }
}

/// `idx_of_id` finds exactly the first index carrying the id, and finds one
/// if and only if the collection has the id.
pub proof fn lemma_idx_of_id(s: Seq<CanvasV>, id: u32)
    ensures
        has_id(s, id) <==> 0 <= idx_of_id(s, id) < s.len(),
        !has_id(s, id) ==> idx_of_id(s, id) == -1,
        has_id(s, id) ==> s[idx_of_id(s, id)].id == id,
        forall|j: int| 0 <= j < idx_of_id(s, id) ==> s[j].id != id,
    decreases s.len(),
{
    if s.len() > 0 {
        let tail = s.subrange(1, s.len() as int);
        lemma_idx_of_id(tail, id);
        assert(forall|i: int| 0 <= i < tail.len() ==> tail[i] == s[i + 1]);
        if s[0].id != id {
            if has_id(s, id) {
                let i = choose|i: int| 0 <= i < s.len() && #[trigger] s[i].id == id;
                assert(tail[i - 1].id == id);
            }
            if has_id(tail, id) {
                let i = choose|i: int| 0 <= i < tail.len() && #[trigger] tail[i].id == id;
                assert(s[i + 1].id == id);
            }
        }
        assert forall|j: int| 0 <= j < idx_of_id(s, id) implies s[j].id != id by {
            if j > 0 {
                assert(tail[j - 1] == s[j]);
                assert(tail[j - 1].id != id);
            }
        }
    }
}

/// The pixel's coordinates fall inside the grid's current dimensions.
pub open spec fn pixel_in_bounds(g: GridV, p: PixelV) -> bool {
    p.y < g.len() && p.x < g[p.y as int].len()
}

/// The grid after one pixel assignment: cell `(x, y)` holds the pixel's
/// color, every other cell is unchanged.
pub open spec fn apply_pixel(g: GridV, p: PixelV) -> GridV {
    g.update(p.y as int, g[p.y as int].update(p.x as int, p.color))
}

/// The grid after a batch of pixel assignments, applied in list order, so a
/// later pixel overrides an earlier one that targets the same cell.
pub open spec fn apply_pixels(g: GridV, ps: Seq<PixelV>) -> GridV
    decreases ps.len(),
{
    if ps.len() == 0 {
        g
    } else {
        apply_pixels(apply_pixel(g, ps[0]), ps.subrange(1, ps.len() as int))
    }
}

/// Every pixel of the batch falls inside the grid's dimensions.
pub open spec fn all_in_bounds(g: GridV, ps: Seq<PixelV>) -> bool {
    forall|k: int| 0 <= k < ps.len() ==> pixel_in_bounds(g, #[trigger] ps[k])
}

/// One in-bounds pixel assignment keeps the grid's dimensions.
pub proof fn lemma_apply_pixel_shape(g: GridV, p: PixelV)
    requires
        pixel_in_bounds(g, p),
    ensures
        apply_pixel(g, p).len() == g.len(),
        forall|y: int| 0 <= y < g.len() ==> #[trigger] apply_pixel(g, p)[y].len() == g[y].len(),
{
}

/// An in-bounds batch keeps the grid's dimensions.
pub proof fn lemma_apply_pixels_shape(g: GridV, ps: Seq<PixelV>)
    requires
        all_in_bounds(g, ps),
    ensures
        apply_pixels(g, ps).len() == g.len(),
        forall|y: int| 0 <= y < g.len() ==> #[trigger] apply_pixels(g, ps)[y].len() == g[y].len(),
    decreases ps.len(),
{
    if ps.len() > 0 {
        let g1 = apply_pixel(g, ps[0]);
        let tail = ps.subrange(1, ps.len() as int);
        assert(pixel_in_bounds(g, ps[0]));
        lemma_apply_pixel_shape(g, ps[0]);
        assert forall|k: int| 0 <= k < tail.len() implies pixel_in_bounds(g1, #[trigger] tail[k]) by {
            assert(tail[k] == ps[k + 1]);
            assert(pixel_in_bounds(g, ps[k + 1]));
        }
        lemma_apply_pixels_shape(g1, tail);
    }
}

/// Folding a batch extended by one pixel equals folding the batch and then
/// applying that pixel.
pub proof fn lemma_apply_pixels_snoc(g: GridV, ps: Seq<PixelV>, p: PixelV)
    ensures
        apply_pixels(g, ps.push(p)) == apply_pixel(apply_pixels(g, ps), p),
    decreases ps.len(),
{
    if ps.len() == 0 {
        assert(ps.push(p)[0] == p);
        assert(ps.push(p).subrange(1, 1) =~= Seq::<PixelV>::empty());
        assert(apply_pixels(apply_pixel(g, p), Seq::<PixelV>::empty()) == apply_pixel(g, p));
    } else {
        let tail = ps.subrange(1, ps.len() as int);
        assert(ps.push(p)[0] == ps[0]);
        assert(ps.push(p).subrange(1, ps.len() as int + 1) =~= tail.push(p));
        lemma_apply_pixels_snoc(apply_pixel(g, ps[0]), tail, p);
    }
}

} // verus!
