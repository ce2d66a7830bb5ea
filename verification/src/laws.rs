//! Laws tying the service operations together, stated over the collection
//! model and proved once for every input.

use vstd::prelude::*;

use crate::canvas::CanvasV;
use crate::canvas::GridV;
use crate::canvas::PixelV;
use crate::canvas::apply_pixel;
use crate::canvas::apply_pixels;
use crate::canvas::has_id;
use crate::canvas::ids_unique;
use crate::canvas::idx_of_id;
use crate::canvas::pixel_in_bounds;
use crate::service::remove_id;

verus! {

/// Creating then reading: appending a canvas under an unused id makes that
/// canvas the one found for the id, holding exactly the submitted content.
pub proof fn lemma_create_then_get(s: Seq<CanvasV>, id: u32, g: GridV)
    requires
        !has_id(s, id),
    ensures
        has_id(s.push(CanvasV { id, content: g }), id),
        idx_of_id(s.push(CanvasV { id, content: g }), id) == s.len(),
        s.push(CanvasV { id, content: g })[idx_of_id(s.push(CanvasV { id, content: g }), id)].content == g,
    decreases s.len(),
{
    let x = CanvasV { id, content: g };
    let s2 = s.push(x);
    assert(s2[s.len() as int].id == id);
    if s.len() == 0 {
    } else {
        assert(s[0].id != id);
        let tail = s.subrange(1, s.len() as int);
        if has_id(tail, id) {
            let i = choose|i: int| 0 <= i < tail.len() && #[trigger] tail[i].id == id;
            assert(s[i + 1].id == id);
        }
        lemma_create_then_get(tail, id, g);
        assert(s2.subrange(1, s2.len() as int) =~= tail.push(x));
    }
}

/// Every element of a filtered collection satisfies the predicate, so a
/// collection whose elements all satisfy it is left whole.
proof fn lemma_filter_all(s: Seq<CanvasV>, pred: spec_fn(CanvasV) -> bool)
    requires
        forall|i: int| 0 <= i < s.len() ==> pred(#[trigger] s[i]),
    ensures
        s.filter(pred) == s,
    decreases s.len(),
{
    reveal(Seq::filter);
    if s.len() == 0 {
        assert(s.filter(pred) =~= s);
    } else {
        lemma_filter_all(s.drop_last(), pred);
        assert(pred(s.last()));
        assert(s.filter(pred) =~= s);
    }
}

/// Deleting then reading: after a delete the collection no longer has the
/// id, so a read fails; deleting the same id again changes nothing.
pub proof fn lemma_delete_then_get(s: Seq<CanvasV>, id: u32)
    ensures
        !has_id(remove_id(s, id), id),
        remove_id(remove_id(s, id), id) == remove_id(s, id),
{
    broadcast use vstd::seq_lib::group_filter_ensures;

    let pred = |cv: CanvasV| cv.id != id;
    let r1 = s.filter(pred);
    if has_id(r1, id) {
        let i = choose|i: int| 0 <= i < r1.len() && #[trigger] r1[i].id == id;
        assert(pred(r1[i]));
        assert(false);
    }
    assert(forall|i: int| 0 <= i < r1.len() ==> pred(#[trigger] r1[i]));
    lemma_filter_all(r1, pred);
}

/// Patching a single pixel changes only its own cell: the dimensions and
/// every other cell are unchanged, and the cell holds the new color.
pub proof fn lemma_patch_isolation(g: GridV, p: PixelV)
    requires
        pixel_in_bounds(g, p),
    ensures
        apply_pixels(g, seq![p]).len() == g.len(),
        forall|y: int|
            0 <= y < g.len() ==> #[trigger] apply_pixels(g, seq![p])[y].len() == g[y].len(),
        apply_pixels(g, seq![p])[p.y as int][p.x as int] == p.color,
        forall|y: int, x: int|
            0 <= y < g.len() && 0 <= x < g[y].len() && !(y == p.y as int && x == p.x as int)
                ==> apply_pixels(g, seq![p])[y][x] == g[y][x],
{
    assert(seq![p][0] == p);
    assert(seq![p].subrange(1, 1) =~= Seq::<PixelV>::empty());
    assert(apply_pixels(apply_pixel(g, p), Seq::<PixelV>::empty()) == apply_pixel(g, p));
    let g2 = apply_pixel(g, p);
    assert forall|y: int, x: int|
        0 <= y < g.len() && 0 <= x < g[y].len() && !(y == p.y as int && x == p.x as int) implies g2[y][x]
        == g[y][x] by {
        if y == p.y as int {
            assert(g2[y] == g[y].update(p.x as int, p.color));
        } else {
            assert(g2[y] == g[y]);
        }
    }
}

/// Two pixels of one batch targeting the same cell: the one later in the
/// list decides the cell's final color.
pub proof fn lemma_patch_order(g: GridV, p1: PixelV, p2: PixelV)
    requires
        pixel_in_bounds(g, p1),
        p1.x == p2.x,
        p1.y == p2.y,
    ensures
        apply_pixels(g, seq![p1, p2])[p2.y as int][p2.x as int] == p2.color,
{
    reveal_with_fuel(apply_pixels, 4);
    let s = seq![p1, p2];
    assert(s[0] == p1);
    assert(s.subrange(1, 2) =~= seq![p2]);
    let g1 = apply_pixel(g, p1);
    assert(seq![p2][0] == p2);
    assert(seq![p2].subrange(1, 1) =~= Seq::<PixelV>::empty());
    assert(apply_pixels(apply_pixel(g1, p2), Seq::<PixelV>::empty()) == apply_pixel(g1, p2));
    assert(apply_pixels(g, s) == apply_pixel(g1, p2));
    assert(g1[p2.y as int] == g[p1.y as int].update(p1.x as int, p1.color));
    assert(apply_pixel(g1, p2)[p2.y as int][p2.x as int] == p2.color);
}

/// A canvas appended under an unused id keeps the collection's ids unique,
/// so a run of creates, each checking its drawn id, yields distinct ids.
pub proof fn lemma_unique_after_create(s: Seq<CanvasV>, id: u32, g: GridV)
    requires
        ids_unique(s),
        !has_id(s, id),
    ensures
        ids_unique(s.push(CanvasV { id, content: g })),
{
    let s2 = s.push(CanvasV { id, content: g });
    assert forall|i: int, j: int| 0 <= i < j < s2.len() implies s2[i].id != s2[j].id by {
        if j == s.len() {
            assert(s2[i] == s[i]);
        }
    }
}

/// A filtered collection holds only members of the unfiltered one.
proof fn lemma_filter_sub(s: Seq<CanvasV>, pred: spec_fn(CanvasV) -> bool)
    ensures
        forall|x: CanvasV| #[trigger] s.filter(pred).contains(x) ==> s.contains(x),
    decreases s.len(),
{
    reveal(Seq::filter);
    if s.len() > 0 {
        let d = s.drop_last();
        lemma_filter_sub(d, pred);
        assert forall|x: CanvasV| #[trigger] s.filter(pred).contains(x) implies s.contains(x) by {
            let f = s.filter(pred);
            let fd = d.filter(pred);
            let i = choose|i: int| 0 <= i < f.len() && f[i] == x;
            if pred(s.last()) && i == f.len() - 1 {
                assert(x == s.last());
                assert(s[s.len() - 1] == x);
            } else {
                assert(fd[i] == x);
                assert(fd.contains(x));
                assert(d.contains(x));
                let m = choose|m: int| 0 <= m < d.len() && d[m] == x;
                assert(s[m] == x);
            }
        }
    }
}

/// Deleting preserves id uniqueness.
pub proof fn lemma_unique_after_delete(s: Seq<CanvasV>, id: u32)
    requires
        ids_unique(s),
    ensures
        ids_unique(remove_id(s, id)),
    decreases s.len(),
{
    reveal(Seq::filter);
    let pred = |cv: CanvasV| cv.id != id;
    if s.len() > 0 {
        let d = s.drop_last();
        assert(ids_unique(d));
        lemma_unique_after_delete(d, id);
        lemma_filter_sub(d, pred);
        let rd = d.filter(pred);
        if pred(s.last()) {
            let r = rd.push(s.last());
            assert forall|i: int, j: int| 0 <= i < j < r.len() implies r[i].id != r[j].id by {
                if j == rd.len() {
                    assert(rd[i] == r[i]);
                    assert(rd.contains(r[i]));
                    assert(d.contains(r[i]));
                    let m = choose|m: int| 0 <= m < d.len() && d[m] == r[i];
                    assert(s[m] == r[i]);
                    assert(s[m].id != s.last().id);
                }
            }
        }
    }
}

/// Patching preserves every canvas's id, so also id uniqueness.
pub proof fn lemma_unique_after_patch(s: Seq<CanvasV>, id: u32, ps: Seq<PixelV>)
    requires
        ids_unique(s),
        has_id(s, id),
    ensures
        ids_unique(
            s.update(
                idx_of_id(s, id),
                CanvasV { id, content: apply_pixels(s[idx_of_id(s, id)].content, ps) },
            ),
        ),
{
    crate::canvas::lemma_idx_of_id(s, id);
    let i0 = idx_of_id(s, id);
    let s2 = s.update(i0, CanvasV { id, content: apply_pixels(s[i0].content, ps) });
    assert forall|i: int, j: int| 0 <= i < j < s2.len() implies s2[i].id != s2[j].id by {
        assert(s2[i].id == s[i].id);
        assert(s2[j].id == s[j].id);
    }
}

} // verus!
