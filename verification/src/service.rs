//! The canvas service: create, delete, read and patch operations on the
//! in-memory collection, and the identifier freshness rules.
//!
//! Every operation works on a [`Canvases`] value; loading it from and saving
//! it to the durable document is the store's concern, and running the whole
//! load-transform-save sequence under one mutual-exclusion boundary is the
//! caller's.

use vstd::prelude::*;

use crate::canvas::Canvas;
use crate::canvas::CanvasV;
use crate::canvas::Canvases;
use crate::canvas::GridV;
use crate::canvas::Pixel;
use crate::canvas::PixelV;
use crate::canvas::ReqCanvas;
use crate::canvas::all_in_bounds;
use crate::canvas::apply_pixel;
use crate::canvas::apply_pixels;
use crate::canvas::has_id;
use crate::canvas::ids_unique;
use crate::canvas::idx_of_id;
use crate::canvas::lemma_apply_pixels_shape;
use crate::canvas::lemma_apply_pixels_snoc;
use crate::canvas::lemma_idx_of_id;
use crate::canvas::pixel_in_bounds;
use vstd::set_lib::lemma_int_range;
use vstd::set_lib::lemma_len_subset;
use vstd::set_lib::set_int_range;

verus! {

/// A failure of one service operation.
#[derive(Clone, Copy, Debug, PartialEq, Eq, Structural)]
pub enum CanvasError {
    /// The referenced canvas id does not exist in the collection.
    NotFound,
    /// A pixel coordinate falls outside the target canvas's dimensions.
    OutOfBounds,
}

/// The collection after deleting every canvas with the given id.
pub open spec fn remove_id(s: Seq<CanvasV>, id: u32) -> Seq<CanvasV> {
    s.filter(|cv: CanvasV| cv.id != id)
}

/// Whether some canvas of the collection carries the given id.
pub fn contains_id(c: &Canvases, id: u32) -> (r: bool)
    ensures
        r == has_id(c@, id),
{
    let mut i: usize = 0;
    while i < c.canvases.len()
        invariant
            i <= c@.len(),
            c@.len() == c.canvases.len(),
            forall|j: int| 0 <= j < i ==> #[trigger] c@[j].id != id,
        decreases c@.len() - i,
    {
        if c.canvases[i].id == id {
            proof {
                assert(c@[i as int].id == id);
            }
            return true;
        }
        i += 1;
    }
    false
}

/// Index of the first canvas with the given id, if any.
fn find_idx(c: &Canvases, id: u32) -> (r: Option<usize>)
    ensures
        r matches Some(i) ==> i < c@.len() && i == idx_of_id(c@, id) && c@[i as int].id == id,
        r is None ==> !has_id(c@, id),
{
    let mut i: usize = 0;
    while i < c.canvases.len()
        invariant
            i <= c@.len(),
            c@.len() == c.canvases.len(),
            forall|j: int| 0 <= j < i ==> #[trigger] c@[j].id != id,
        decreases c@.len() - i,
    {
        if c.canvases[i].id == id {
            proof {
                assert(c@[i as int].id == id);
                lemma_idx_of_id(c@, id);
            }
            return Some(i);
        }
        i += 1;
    }
    None
}

/// Copies one row of color cells.
fn clone_row(row: &Vec<String>) -> (r: Vec<String>)
    ensures
        r@ == row@,
{
    let mut r: Vec<String> = Vec::new();
    let mut i: usize = 0;
    while i < row.len()
        invariant
            i <= row@.len(),
            r@ == row@.subrange(0, i as int),
        decreases row@.len() - i,
    {
        r.push(row[i].clone());
        proof {
            assert(row@.subrange(0, i + 1) =~= row@.subrange(0, i as int).push(row@[i as int]));
        }
        i += 1;
    }
    proof {
        assert(row@.subrange(0, row@.len() as int) =~= row@);
    }
    r
}

/// Copies a whole grid of color cells.
fn clone_grid(g: &Vec<Vec<String>>) -> (r: Vec<Vec<String>>)
    ensures
        r.deep_view() == g.deep_view(),
{
    let mut r: Vec<Vec<String>> = Vec::new();
    let mut i: usize = 0;
    while i < g.len()
        invariant
            i <= g@.len(),
            r@.len() == i,
            forall|j: int| 0 <= j < i ==> #[trigger] r@[j]@ == g@[j]@,
        decreases g@.len() - i,
    {
        r.push(clone_row(&g[i]));
        i += 1;
    }
    proof {
        assert forall|j: int| 0 <= j < g@.len() implies r.deep_view()[j] =~~= g.deep_view()[j] by {
            assert(r@[j]@ == g@[j]@);
        }
        assert(r.deep_view() =~~= g.deep_view());
    }
    r
}

/// Copies one canvas.
fn clone_canvas(canvas: &Canvas) -> (r: Canvas)
    ensures
        r@ == canvas@,
{
    Canvas { id: canvas.id, content: clone_grid(&canvas.content) }
}

/// Returns a copy of the content of the canvas with the given id, and
/// `NotFound` exactly when no canvas has that id. A pure read: the
/// collection is not touched.
pub fn get_canvas_content(c: &Canvases, id: u32) -> (r: Result<Vec<Vec<String>>, CanvasError>)
    ensures
        has_id(c@, id) ==> (r matches Ok(g) && g.deep_view() == c@[idx_of_id(c@, id)].content),
        !has_id(c@, id) ==> r == Err::<Vec<Vec<String>>, CanvasError>(CanvasError::NotFound),
{
    match find_idx(c, id) {
        Some(i) => Ok(clone_grid(&c.canvases[i].content)),
        None => Err(CanvasError::NotFound),
    }
}

/// Removes every canvas with the given id from the collection, keeping the
/// others in order. Deleting an id that is not present is a no-op, so the
/// operation is idempotent and always succeeds.
pub fn delete_canvas(c: &mut Canvases, id: u32)
    ensures
        final(c)@ == remove_id(old(c)@, id),
{
    let mut kept: Vec<Canvas> = Vec::new();
    let n = c.canvases.len();
    let mut i: usize = 0;
    proof {
        reveal(Seq::filter);
        assert(kept.deep_view() =~= remove_id(old(c)@.subrange(0, 0), id));
    }
    while i < n
        invariant
            i <= n,
            n == c.canvases.len(),
            c@ == old(c)@,
            kept.deep_view() == remove_id(old(c)@.subrange(0, i as int), id),
        decreases n - i,
    {
        let keep = c.canvases[i].id != id;
        proof {
            assert(c@[i as int] == c.canvases@[i as int]@);
            assert(keep == (old(c)@[i as int].id != id));
        }
        if keep {
            kept.push(clone_canvas(&c.canvases[i]));
        }
        proof {
            reveal(Seq::filter);
            let s2 = old(c)@.subrange(0, i + 1);
            assert(s2.drop_last() =~= old(c)@.subrange(0, i as int));
            assert(s2.last() == old(c)@[i as int]);
            assert(remove_id(s2, id) == if keep {
                remove_id(old(c)@.subrange(0, i as int), id).push(old(c)@[i as int])
            } else {
                remove_id(old(c)@.subrange(0, i as int), id)
            });
            assert(kept.deep_view() =~= remove_id(s2, id));
        }
        i += 1;
    }
    proof {
        assert(old(c)@.subrange(0, n as int) =~= old(c)@);
    }
    c.canvases = kept;
}

/// Writes one color into cell `(x, y)` of the grid.
fn set_cell(g: &mut Vec<Vec<String>>, y: usize, x: usize, color: String)
    requires
        y < old(g).deep_view().len(),
        x < old(g).deep_view()[y as int].len(),
    ensures
        final(g).deep_view() == apply_pixel(
            old(g).deep_view(),
            PixelV { x: x as nat, y: y as nat, color: color@ },
        ),
{
    g[y][x] = color;
    proof {
        let pv = PixelV { x: x as nat, y: y as nat, color: color@ };
        assert(g.deep_view() =~~= apply_pixel(old(g).deep_view(), pv));
    }
}

/// Applies a batch of pixel assignments to the canvas with the given id, in
/// list order, all-or-nothing: it fails with `NotFound` exactly when no
/// canvas has that id, with `OutOfBounds` exactly when some pixel of the
/// batch falls outside that canvas's dimensions, and on either failure the
/// collection is left unchanged. On success it returns the canvas id, only
/// cell contents change, and only in the targeted canvas.
pub fn update_canvas_content(c: &mut Canvases, id: u32, pixels: &Vec<Pixel>) -> (r: Result<
    u32,
    CanvasError,
>)
    ensures
        !has_id(old(c)@, id) ==> r == Err::<u32, CanvasError>(CanvasError::NotFound) && final(c)@
            == old(c)@,
        has_id(old(c)@, id) && !all_in_bounds(
            old(c)@[idx_of_id(old(c)@, id)].content,
            pixels.deep_view(),
        ) ==> r == Err::<u32, CanvasError>(CanvasError::OutOfBounds) && final(c)@ == old(c)@,
        has_id(old(c)@, id) && all_in_bounds(
            old(c)@[idx_of_id(old(c)@, id)].content,
            pixels.deep_view(),
        ) ==> r == Ok::<u32, CanvasError>(id) && final(c)@ == old(c)@.update(
            idx_of_id(old(c)@, id),
            CanvasV {
                id,
                content: apply_pixels(old(c)@[idx_of_id(old(c)@, id)].content, pixels.deep_view()),
            },
        ),
{
    let idx = match find_idx(c, id) {
        Some(i) => i,
        None => {
            return Err(CanvasError::NotFound);
        },
    };
    proof {
        assert(old(c)@[idx as int].id == id);
        assert(has_id(old(c)@, id));
    }
    let ghost g0: GridV = c@[idx as int].content;
    let ghost pd: Seq<PixelV> = pixels.deep_view();

    // Bounds check first: no cell is written unless the whole batch fits.
    let mut k: usize = 0;
    while k < pixels.len()
        invariant
            k <= pd.len(),
            pd.len() == pixels.len(),
            pd == pixels.deep_view(),
            idx < c@.len(),
            c@ == old(c)@,
            has_id(old(c)@, id),
            idx == idx_of_id(old(c)@, id),
            g0 == old(c)@[idx as int].content,
            forall|j: int| 0 <= j < k ==> pixel_in_bounds(g0, #[trigger] pd[j]),
        decreases pd.len() - k,
    {
        let p = &pixels[k];
        proof {
            assert(c@[idx as int] == c.canvases@[idx as int]@);
            assert(pd[k as int] == pixels@[k as int]@);
        }
        let row_count = c.canvases[idx].content.len();
        if p.y >= row_count {
            proof {
                assert(!pixel_in_bounds(g0, pd[k as int]));
                assert(!all_in_bounds(g0, pd));
            }
            return Err(CanvasError::OutOfBounds);
        }
        let row_len = c.canvases[idx].content[p.y].len();
        if p.x >= row_len {
            proof {
                assert(!pixel_in_bounds(g0, pd[k as int]));
                assert(!all_in_bounds(g0, pd));
            }
            return Err(CanvasError::OutOfBounds);
        }
        proof {
            assert(pixel_in_bounds(g0, pd[k as int]));
        }
        k += 1;
    }
    proof {
        assert(all_in_bounds(g0, pd));
        assert(apply_pixels(g0, pd.subrange(0, 0)) == g0);
        assert(CanvasV { id, content: g0 } =~= old(c)@[idx as int]);
        assert(old(c)@.update(idx as int, old(c)@[idx as int]) =~= old(c)@);
    }

    // Apply the batch in list order; a later pixel overrides an earlier one.
    let mut k: usize = 0;
    while k < pixels.len()
        invariant
            k <= pd.len(),
            pd.len() == pixels.len(),
            pd == pixels.deep_view(),
            idx < c@.len(),
            c@.len() == old(c)@.len(),
            c@.len() == c.canvases.len(),
            all_in_bounds(g0, pd),
            g0 == old(c)@[idx as int].content,
            idx == idx_of_id(old(c)@, id),
            old(c)@[idx as int].id == id,
            c@ == old(c)@.update(
                idx as int,
                CanvasV { id, content: apply_pixels(g0, pd.subrange(0, k as int)) },
            ),
        decreases pd.len() - k,
    {
        let ghost gk: GridV = apply_pixels(g0, pd.subrange(0, k as int));
        proof {
            assert(all_in_bounds(g0, pd.subrange(0, k as int)));
            lemma_apply_pixels_shape(g0, pd.subrange(0, k as int));
            assert(pixel_in_bounds(g0, pd[k as int]));
            assert(c@[idx as int].content == gk);
        }
        let p = &pixels[k];
        proof {
            assert(pd[k as int] == pixels@[k as int]@);
        }
        let ghost prec: Seq<Canvas> = c.canvases@;
        let ghost precv: Seq<CanvasV> = c@;
        set_cell(&mut c.canvases[idx].content, p.y, p.x, p.color.clone());
        proof {
            assert(c.canvases@.len() == prec.len());
            assert forall|j: int| 0 <= j < prec.len() && j != idx as int implies c@[j] == old(
                c,
            )@[j] by {
                assert(c.canvases@[j] == prec[j]);
                assert(c@[j] == c.canvases@[j]@);
                assert(precv[j] == prec[j]@);
                assert(precv[j] == old(c)@[j]);
            }
            assert(PixelV { x: p.x as nat, y: p.y as nat, color: p.color@ } =~= pd[k as int]);
            assert(c.canvases@[idx as int].content.deep_view() == apply_pixel(gk, pd[k as int]));
            assert(c.canvases@[idx as int].id == id);
            assert(pd.subrange(0, k + 1) =~= pd.subrange(0, k as int).push(pd[k as int]));
            lemma_apply_pixels_snoc(g0, pd.subrange(0, k as int), pd[k as int]);
            assert(apply_pixel(gk, pd[k as int]) == apply_pixels(g0, pd.subrange(0, k + 1)));
            assert(c@[idx as int] =~= CanvasV {
                id,
                content: apply_pixels(g0, pd.subrange(0, k + 1)),
            });
            assert(c@ =~= old(c)@.update(
                idx as int,
                CanvasV { id, content: apply_pixels(g0, pd.subrange(0, k + 1)) },
            ));
        }
        k += 1;
    }
    proof {
        assert(pd.subrange(0, pd.len() as int) =~= pd);
    }
    Ok(id)
}

/// Relies on `rand::random` of the `rand` crate: one sample of the standard
/// distribution. Nothing is assumed of the value: identifier freshness is
/// enforced below by checking against the collection, never by the
/// generator.
pub assume_specification<T>[ rand::random::<T> ]() -> (r: T)
    where
        rand::distributions::Standard: rand::distributions::Distribution<T>,
;

/// A collection smaller than the id space leaves some id in `0 ..= len`
/// unused.
proof fn lemma_exists_fresh_id(s: Seq<CanvasV>)
    requires
        s.len() < 0xFFFF_FFFF,
    ensures
        exists|id: u32| id as int <= s.len() && !(#[trigger] has_id(s, id)),
{
    broadcast use vstd::seq_lib::seq_to_set_is_finite;

    let idseq = s.map_values(|cv: CanvasV| cv.id as int);
    let ids = idseq.to_set();
    idseq.lemma_cardinality_of_set();
    let n = s.len() as int;
    let range = set_int_range(0, n + 1);
    lemma_int_range(0, n + 1);
    if forall|id: u32| id as int <= n ==> #[trigger] has_id(s, id) {
        assert forall|x: int| range.contains(x) implies ids.contains(x) by {
            let id = x as u32;
            assert(has_id(s, id));
            let i = choose|i: int| 0 <= i < s.len() && #[trigger] s[i].id == id;
            assert(idseq[i] == x);
            assert(idseq.contains(x));
        }
        lemma_len_subset(range, ids);
        assert(false);
    }
}

/// Draws random candidate identifiers, rejecting ones the collection
/// already uses; if a run of draws all collide, falls back to the smallest
/// unused id, which exists because the collection is smaller than the id
/// space. Either way the returned id is unused.
pub fn fresh_id(c: &Canvases) -> (r: u32)
    requires
        c@.len() < 0xFFFF_FFFF,
    ensures
        !has_id(c@, r),
{
    let mut tries: usize = 0;
    while tries < 16
        invariant
            tries <= 16,
        decreases 16 - tries,
    {
        let id: u32 = rand::random();
        if !contains_id(c, id) {
            return id;
        }
        tries += 1;
    }
    let mut cand: u32 = 0;
    loop
        invariant
            c@.len() < 0xFFFF_FFFF,
            cand as int <= c@.len() + 1,
            forall|j: u32| j < cand ==> #[trigger] has_id(c@, j),
        decreases c@.len() + 1 - cand,
    {
        if !contains_id(c, cand) {
            return cand;
        }
        proof {
            lemma_exists_fresh_id(c@);
            let f = choose|id: u32| id as int <= c@.len() && !(#[trigger] has_id(c@, id));
            assert(f > cand);
        }
        cand = cand + 1;
    }
}

/// Appends a new canvas holding the submitted content under a freshly drawn
/// id, and returns that id. The id differs from every id already present,
/// so id uniqueness of the collection is preserved.
pub fn create_canvas(c: &mut Canvases, req: ReqCanvas) -> (id: u32)
    requires
        old(c)@.len() < 0xFFFF_FFFF,
    ensures
        !has_id(old(c)@, id),
        final(c)@ == old(c)@.push(CanvasV { id, content: req.content.deep_view() }),
        ids_unique(old(c)@) ==> ids_unique(final(c)@),
{
    let id = fresh_id(c);
    let ghost cv = CanvasV { id, content: req.content.deep_view() };
    let canvas = Canvas::new(id, req.content);
    c.canvases.push(canvas);
    proof {
        assert(c@ =~= old(c)@.push(cv));
        if ids_unique(old(c)@) {
            assert forall|i: int, j: int| 0 <= i < j < c@.len() implies c@[i].id != c@[j].id by {
                if j == old(c)@.len() {
                    assert(c@[i] == old(c)@[i]);
                }
            }
        }
    }
    id
}

/// Position in the candidate list of the first id that the collection does
/// not yet use, or `-1` if every candidate collides.
pub open spec fn first_fresh(s: Seq<CanvasV>, cands: Seq<u32>) -> int
    decreases cands.len(),
{
    if cands.len() == 0 {
        -1
    } else if !has_id(s, cands[0]) {
        0
    } else {
        let t = first_fresh(s, cands.subrange(1, cands.len() as int));
        if t == -1 {
            -1
        } else {
            t + 1
        }
    }
}

/// `first_fresh` finds exactly the first non-colliding candidate, and finds
/// one if and only if some candidate does not collide.
pub proof fn lemma_first_fresh(s: Seq<CanvasV>, cands: Seq<u32>)
    ensures
        first_fresh(s, cands) == -1 ==> forall|j: int|
            0 <= j < cands.len() ==> has_id(s, #[trigger] cands[j]),
        first_fresh(s, cands) != -1 ==> 0 <= first_fresh(s, cands) < cands.len() && !has_id(
            s,
            cands[first_fresh(s, cands)],
        ),
        forall|j: int| 0 <= j < first_fresh(s, cands) ==> has_id(s, #[trigger] cands[j]),
    decreases cands.len(),
{
    if cands.len() > 0 {
        let tail = cands.subrange(1, cands.len() as int);
        lemma_first_fresh(s, tail);
        assert(forall|i: int| 0 <= i < tail.len() ==> tail[i] == cands[i + 1]);
        if has_id(s, cands[0]) {
            if first_fresh(s, cands) == -1 {
                assert forall|j: int| 0 <= j < cands.len() implies has_id(
                    s,
                    #[trigger] cands[j],
                ) by {
                    if j > 0 {
                        assert(has_id(s, tail[j - 1]));
                    }
                }
            } else {
                assert(!has_id(s, tail[first_fresh(s, cands) - 1]));
            }
            assert forall|j: int| 0 <= j < first_fresh(s, cands) implies has_id(
                s,
                #[trigger] cands[j],
            ) by {
                if j > 0 {
                    assert(has_id(s, tail[j - 1]));
                }
            }
        }
    }
}

/// Appends a new canvas as [`create_canvas`] does, but draws ids from the
/// given candidate list instead of the random generator: candidates are
/// tried in order, a candidate already used by the collection is rejected
/// and the next one is tried, and the first unused candidate becomes the new
/// canvas's id. Returns `None`, leaving the collection unchanged, exactly
/// when every candidate collides.
pub fn create_canvas_with_ids(c: &mut Canvases, req: ReqCanvas, candidates: &Vec<u32>) -> (r:
    Option<u32>)
    ensures
        first_fresh(old(c)@, candidates@) == -1 ==> r is None && final(c)@ == old(c)@,
        first_fresh(old(c)@, candidates@) != -1 ==> ({
            let id = candidates@[first_fresh(old(c)@, candidates@)];
            r == Some(id) && !has_id(old(c)@, id) && final(c)@ == old(c)@.push(
                CanvasV { id, content: req.content.deep_view() },
            )
        }),
        ids_unique(old(c)@) && r is Some ==> ids_unique(final(c)@),
{
    let mut k: usize = 0;
    while k < candidates.len()
        invariant
            k <= candidates@.len(),
            candidates@.len() == candidates.len(),
            c@ == old(c)@,
            forall|j: int| 0 <= j < k ==> has_id(old(c)@, #[trigger] candidates@[j]),
        decreases candidates@.len() - k,
    {
        let id = candidates[k];
        if !contains_id(c, id) {
            proof {
                lemma_first_fresh(old(c)@, candidates@);
                assert(first_fresh(old(c)@, candidates@) == k);
            }
            let ghost cv = CanvasV { id, content: req.content.deep_view() };
            let canvas = Canvas::new(id, req.content);
            c.canvases.push(canvas);
            proof {
                assert(c@ =~= old(c)@.push(cv));
                if ids_unique(old(c)@) {
                    assert forall|i: int, j: int| 0 <= i < j < c@.len() implies c@[i].id
                        != c@[j].id by {
                        if j == old(c)@.len() {
                            assert(c@[i] == old(c)@[i]);
                        }
                    }
                }
            }
            return Some(id);
        }
        k += 1;
    }
    proof {
        lemma_first_fresh(old(c)@, candidates@);
    }
    None
}

} // verus!
