//! The page-assignment engine: partitions the working set of descriptors
//! across an ordered sequence of fixed-size pages by repeated rectangle
//! packing, until every descriptor is placed or nothing fits on an empty
//! page.

use vstd::prelude::*;
use vstd::pervasive::VecAdditionalExecFns;
use vstd::multiset::Multiset;
use vstd::seq_lib::lemma_multiset_commutative;
use crate::images::{ImageDesc, ImageToPack};

verus! {

broadcast use vstd::seq_lib::group_to_multiset_ensures, vstd::multiset::group_multiset_axioms;

/// A rectangle handed to the packer: `id` names the item to be placed,
/// `w` and `h` give its placement size in pixels.
#[derive(Clone, Copy, Debug, PartialEq, Eq, Structural)]
pub struct RectToPack {
    pub id: usize,
    pub w: usize,
    pub h: usize,
}

/// A rectangle the packer placed: `id` names the item placed there; the
/// position and size are in the page's pixel space. The size equals the
/// item's size, or that size with width and height swapped when the packer
/// rotated the item a quarter turn.
#[derive(Clone, Copy, Debug, PartialEq, Eq, Structural)]
pub struct PackedRect {
    pub id: usize,
    pub x: usize,
    pub y: usize,
    pub w: usize,
    pub h: usize,
}

/// One image assigned its place on one page.
#[derive(Debug)]
pub struct PlacedItem {
    pub data: ImageToPack,
    pub rect: PackedRect,
}

/// The fatal failure of the packing loop: some image cannot fit on a page
/// even alone.
#[derive(Debug, PartialEq, Eq, Structural)]
pub enum PackError {
    ImageTooLargeForPage,
}

/// A placed rectangle keeps the size of the item it places, possibly with
/// width and height swapped.
pub open spec fn placed_matches(p: PackedRect, it: RectToPack) -> bool {
    &&& p.id == it.id
    &&& ((p.w == it.w && p.h == it.h) || (p.w == it.h && p.h == it.w))
}

/// The rectangle lies inside a container of the given size.
pub open spec fn rect_within(r: PackedRect, width: int, height: int) -> bool {
    r.x + r.w <= width && r.y + r.h <= height
}

/// Two placed rectangles do not overlap: they are separated along an axis.
pub open spec fn rects_disjoint(a: PackedRect, b: PackedRect) -> bool {
    ||| a.x + a.w <= b.x
    ||| b.x + b.w <= a.x
    ||| a.y + a.h <= b.y
    ||| b.y + b.h <= a.y
}

/// The rectangle has the placement size of the descriptor, kept or rotated
/// a quarter turn.
pub open spec fn dims_match(d: ImageDesc, r: PackedRect) -> bool {
    ||| (r.w == d.width && r.h == d.height)
    ||| (r.w == d.height && r.h == d.width)
}

/// A well-formed page: at least one item, every rectangle inside the page's
/// content area, every rectangle of its own item's (possibly rotated)
/// placement size, and no two rectangles overlapping.
pub open spec fn page_wf(page: Seq<PlacedItem>, width: int, height: int) -> bool {
    &&& page.len() > 0
    &&& forall|i: int| 0 <= i < page.len() ==> rect_within(#[trigger] page[i].rect, width, height)
    &&& forall|i: int| 0 <= i < page.len() ==> dims_match(page[i].data@, #[trigger] page[i].rect)
    &&& forall|i: int, j: int|
        0 <= i < page.len() && 0 <= j < page.len() && i != j ==> rects_disjoint(
            #[trigger] page[i].rect,
            #[trigger] page[j].rect,
        )
}

/// The descriptor's placement rectangle stays within the packer's
/// arithmetic range: the packer scores an item by its area plus its longest
/// side, which must not overflow.
pub open spec fn fits_packer(d: ImageDesc) -> bool {
    d.width * d.height + d.width + d.height <= usize::MAX
}

/// A size of `w` by `h` fits a container in some axis-aligned orientation:
/// as given, or rotated a quarter turn.
pub open spec fn fits_in(w: int, h: int, width: int, height: int) -> bool {
    (w <= width && h <= height) || (h <= width && w <= height)
}

/// The models of a sequence of descriptors.
pub open spec fn models_of(s: Seq<ImageToPack>) -> Seq<ImageDesc> {
    s.map_values(|it: ImageToPack| it@)
}

/// The models of the descriptors placed on one page.
pub open spec fn page_models(page: Seq<PlacedItem>) -> Seq<ImageDesc> {
    page.map_values(|it: PlacedItem| it.data@)
}

/// The models of all descriptors placed across a sequence of pages.
pub open spec fn placed_models(pages: Seq<Vec<PlacedItem>>) -> Seq<ImageDesc>
    decreases pages.len(),
{
    if pages.len() == 0 {
        Seq::empty()
    } else {
        placed_models(pages.drop_last()) + page_models(pages.last()@)
    }
}

/// Some descriptor in the sequence has this source identifier.
pub open spec fn has_path(s: Seq<ImageDesc>, p: Seq<char>) -> bool {
    exists|i: int| 0 <= i < s.len() && (#[trigger] s[i]).path == p
}

/// All source identifiers in the sequence differ.
pub open spec fn paths_distinct(s: Seq<ImageDesc>) -> bool {
    forall|i: int, j: int|
        0 <= i < j < s.len() ==> (#[trigger] s[i]).path != (#[trigger] s[j]).path
}

/// The index of a descriptor with this source identifier, in a sequence
/// that holds one.
pub open spec fn path_index(s: Seq<ImageDesc>, p: Seq<char>) -> int {
    choose|i: int| 0 <= i < s.len() && (#[trigger] s[i]).path == p
}

/// The input collapsed to one entry per source identifier, as an
/// insertion-ordered map would leave it: an entry stands at the position
/// of its identifier's first occurrence and holds the latest descriptor
/// given for that identifier.
pub open spec fn dedup_by_path(s: Seq<ImageDesc>) -> Seq<ImageDesc>
    decreases s.len(),
{
    if s.len() == 0 {
        Seq::empty()
    } else {
        let init = dedup_by_path(s.drop_last());
        if has_path(init, s.last().path) {
            init.update(path_index(init, s.last().path), s.last())
        } else {
            init.push(s.last())
        }
    }
}

/// Collapsing duplicates leaves every identifier of the input, each exactly
/// once.
pub proof fn lemma_dedup_by_path_props(s: Seq<ImageDesc>)
    ensures
        paths_distinct(dedup_by_path(s)),
        forall|p: Seq<char>| has_path(dedup_by_path(s), p) <==> has_path(s, p),
    decreases s.len(),
{
    if s.len() > 0 {
        lemma_dedup_by_path_props(s.drop_last());
        let init = dedup_by_path(s.drop_last());
        let d = dedup_by_path(s);
        let p_last = s.last().path;
        if has_path(init, p_last) {
            let pi = path_index(init, p_last);
            assert(0 <= pi < init.len() && init[pi].path == p_last);
            assert forall|i: int| 0 <= i < d.len() implies (#[trigger] d[i]).path == init[i].path by {
                if i == pi {
                    assert(d[i].path == p_last);
                }
            }
            assert forall|i: int, j: int| 0 <= i < j < d.len() implies (#[trigger] d[i]).path != (
            #[trigger] d[j]).path by {
                assert(init[i].path != init[j].path);
            }
        }
        assert forall|p: Seq<char>| has_path(d, p) <==> has_path(s, p) by {
            if has_path(d, p) {
                let i = choose|i: int| 0 <= i < d.len() && (#[trigger] d[i]).path == p;
                assert(init[i].path == p || (i == d.len() - 1 && p == p_last));
                if init.len() > i && init[i].path == p {
                    assert(has_path(init, p));
                    assert(has_path(s.drop_last(), p));
                    let k = choose|k: int|
                        0 <= k < s.drop_last().len() && (#[trigger] s.drop_last()[k]).path == p;
                    assert(s[k].path == p);
                } else {
                    assert(s[s.len() - 1].path == p);
                }
            }
            if has_path(s, p) {
                let i = choose|i: int| 0 <= i < s.len() && (#[trigger] s[i]).path == p;
                if i < s.len() - 1 {
                    assert(s.drop_last()[i].path == p);
                    assert(has_path(s.drop_last(), p));
                    assert(has_path(init, p));
                    let k = choose|k: int| 0 <= k < init.len() && (#[trigger] init[k]).path == p;
                    assert(d[k].path == p);
                } else {
                    if has_path(init, p_last) {
                        let pi = path_index(init, p_last);
                        assert(d[pi].path == p);
                    } else {
                        assert(d[d.len() - 1].path == p);
                    }
                }
            }
        }
        if !has_path(init, p_last) {
            assert forall|i: int, j: int| 0 <= i < j < d.len() implies (#[trigger] d[i]).path != (
            #[trigger] d[j]).path by {
                if j == d.len() - 1 {
                    assert(d[i] == init[i]);
                    assert(!has_path(init, p_last));
                    assert(init[i].path != p_last);
                }
            }
        }
    }
}

/// The collapsed input holds every descriptor at most once, so a successful
/// run — whose placed descriptors form the same multiset — places each
/// descriptor on exactly one page: no loss and no duplication.
pub proof fn lemma_dedup_by_path_no_duplicates(s: Seq<ImageDesc>)
    ensures
        forall|d: ImageDesc|
            dedup_by_path(s).to_multiset().contains(d) ==> dedup_by_path(s).to_multiset().count(d)
                == 1,
{
    lemma_dedup_by_path_props(s);
    let dd = dedup_by_path(s);
    assert(dd.no_duplicates()) by {
        assert forall|i: int, j: int|
            0 <= i < dd.len() && 0 <= j < dd.len() && i != j implies dd[i] != dd[j] by {
            if i < j {
                assert(dd[i].path != dd[j].path);
            } else {
                assert(dd[j].path != dd[i].path);
            }
        }
    }
    dd.lemma_multiset_has_no_duplicates();
}

/// The index of the working-set descriptor with this source identifier,
/// where one is there.
fn find_path(v: &Vec<ImageToPack>, path: &String) -> (r: Option<usize>)
    ensures
        match r {
            Some(i) => i < v@.len() && models_of(v@)[i as int].path == path@ && has_path(
                models_of(v@),
                path@,
            ),
            None => !has_path(models_of(v@), path@),
        },
{
    let mut i: usize = 0;
    while i < v.len()
        invariant
            0 <= i <= v@.len(),
            forall|j: int| 0 <= j < i ==> (#[trigger] models_of(v@)[j]).path != path@,
        decreases v@.len() - i,
    {
        if v[i].path == *path {
            assert(models_of(v@)[i as int].path == path@);
            return Some(i);
        }
        i = i + 1;
    }
    None
}

/// What the packer returns for a given container and item list. Its result
/// depends on those arguments alone — the packer sorts its items with a
/// stable sort by size and walks its node tree deterministically, with no
/// randomness, hashing, time or environment — so the same call always
/// yields the same placements, which keeps page assignment deterministic
/// for a fixed input order.
pub uninterp spec fn crunch_packing(width: int, height: int, items: Seq<RectToPack>) -> Seq<
    PackedRect,
>;

/// Relies on crunch::pack (crunch 0.5.3), the rectangle-packing primitive.
/// Its packing loop takes each input item at most once and keeps the item's
/// size or swaps its width and height (rotation is allowed for every item);
/// its documentation asserts that every packed rectangle is contained in
/// the container and that no two packed rectangles overlap. It packs items
/// largest-first and, at the first item that fits the container in neither
/// orientation, returns what it packed so far, which the caller treats the
/// same as a full result — so an empty result from a non-empty input means
/// some item fits in neither orientation. The caller keeps the container's
/// area and every item's area-plus-longest-side within the packer's
/// arithmetic range, so none of its size computations can overflow.
#[verifier::external_body]
fn pack_rects(width: usize, height: usize, items: &Vec<RectToPack>) -> (r: Vec<PackedRect>)
    requires
        width * height <= usize::MAX,
        forall|k: int|
            0 <= k < items@.len() ==> (#[trigger] items@[k]).w * items@[k].h + items@[k].w
                + items@[k].h <= usize::MAX,
        forall|k1: int, k2: int| 0 <= k1 < k2 < items@.len() ==> items@[k1].id != items@[k2].id,
    ensures
        r@ == crunch_packing(width as int, height as int, items@),
        r@.len() == 0 && items@.len() > 0 ==> exists|k: int|
            0 <= k < items@.len() && !fits_in(
                (#[trigger] items@[k]).w as int,
                items@[k].h as int,
                width as int,
                height as int,
            ),
        r@.len() <= items@.len(),
        forall|j: int|
            0 <= j < r@.len() ==> exists|k: int|
                0 <= k < items@.len() && placed_matches(#[trigger] r@[j], items@[k]),
        forall|j1: int, j2: int| 0 <= j1 < j2 < r@.len() ==> r@[j1].id != r@[j2].id,
        forall|j: int| 0 <= j < r@.len() ==> rect_within(#[trigger] r@[j], width as int, height as int),
        forall|j1: int, j2: int|
            #![trigger r@[j1], r@[j2]]
            0 <= j1 < r@.len() && 0 <= j2 < r@.len() && j1 != j2 ==> rects_disjoint(r@[j1], r@[j2]),
{
    let container = crunch::Rect::of_size(width, height);
    let input: Vec<crunch::Item<usize>> = items
        .iter()
        .map(|it| crunch::Item::new(it.id, it.w, it.h, crunch::Rotation::Allowed))
        .collect();
    let packed = match crunch::pack(container, input) {
        Ok(v) => v,
        Err(v) => v,
    };
    packed
        .into_iter()
        .map(|p| PackedRect { id: p.data, x: p.rect.x, y: p.rect.y, w: p.rect.w, h: p.rect.h })
        .collect()
}

/// Partitions the descriptors across as many fixed-size pages as needed.
///
/// Descriptors with a duplicate source identifier collapse to one
/// working-set entry, at the position of the identifier's first occurrence
/// and holding the latest descriptor given for it. On success every kept
/// descriptor stands on exactly one page (no loss, no duplication) and
/// every page is well formed: non-empty, within the container, item sizes
/// kept or rotated, no overlap. The run fails only when the packer places
/// nothing of a non-empty working set; that names an input image that fits
/// the container in neither orientation — so whenever every image fits in
/// some orientation, the run succeeds. No pages are returned on failure.
#[verifier::loop_isolation(false)]
pub fn pack_images(width: usize, height: usize, images: Vec<ImageToPack>) -> (r: Result<
    Vec<Vec<PlacedItem>>,
    PackError,
>)
    requires
        width * height <= usize::MAX,
        forall|k: int| 0 <= k < images@.len() ==> fits_packer((#[trigger] images@[k])@),
    ensures
        match r {
            Ok(pages) => {
                &&& forall|p: int|
                    0 <= p < pages@.len() ==> page_wf(
                        #[trigger] pages@[p]@,
                        width as int,
                        height as int,
                    )
                &&& placed_models(pages@).to_multiset() == dedup_by_path(
                    models_of(images@),
                ).to_multiset()
            },
            Err(e) => {
                &&& e == PackError::ImageTooLargeForPage
                &&& exists|j: int|
                    0 <= j < images@.len() && !fits_in(
                        (#[trigger] images@[j])@.width as int,
                        images@[j]@.height as int,
                        width as int,
                        height as int,
                    )
            },
        },
{
    // The working set: not-yet-placed descriptors, keyed uniquely by source
    // identifier, in the order the identifiers first appeared; a later
    // descriptor for a seen identifier replaces the kept one.
    let mut working: Vec<ImageToPack> = Vec::new();
    let mut n: usize = 0;
    while n < images.len()
        invariant
            0 <= n <= images@.len(),
            models_of(working@) == dedup_by_path(models_of(images@.take(n as int))),
            forall|k: int| 0 <= k < working@.len() ==> fits_packer((#[trigger] working@[k])@),
            forall|k: int|
                0 <= k < working@.len() ==> models_of(images@).contains((#[trigger] working@[k])@),
        decreases images@.len() - n,
    {
        let ghost old_working = working@;
        let path = images[n].path.clone();
        let found = find_path(&working, &path);
        let item = images[n].clone();
        match found {
            Some(i) => {
                working.set(i, item);
            },
            None => {
                working.push(item);
            },
        }
        proof {
            let prev = models_of(images@.take(n as int));
            let cur = models_of(images@.take(n + 1));
            assert(cur.drop_last() =~= prev);
            assert(cur.last() == images@[n as int]@);
            match found {
                Some(i) => {
                    lemma_dedup_by_path_props(prev);
                    let pi = path_index(dedup_by_path(prev), cur.last().path);
                    assert(has_path(dedup_by_path(prev), cur.last().path));
                    assert(0 <= pi < dedup_by_path(prev).len() && dedup_by_path(prev)[pi].path
                        == cur.last().path);
                    assert(pi == i as int);
                    assert(models_of(working@) =~= dedup_by_path(prev).update(
                        i as int,
                        images@[n as int]@,
                    ));
                },
                None => {
                    assert(models_of(working@) =~= dedup_by_path(prev).push(images@[n as int]@));
                },
            }
            assert(models_of(working@) =~= dedup_by_path(cur));
            assert(models_of(images@)[n as int] == images@[n as int]@);
            assert forall|k: int| 0 <= k < working@.len() implies models_of(images@).contains((
            #[trigger] working@[k])@) by {
                if k < old_working.len() && working@[k] == old_working[k] {
                    assert(models_of(images@).contains(old_working[k]@));
                } else {
                    assert(working@[k]@ == images@[n as int]@);
                }
            }
        }
        n = n + 1;
    }
    proof {
        assert(images@.take(images@.len() as int) =~= images@);
    }
    let ghost input_ms = dedup_by_path(models_of(images@)).to_multiset();

    let mut pages: Vec<Vec<PlacedItem>> = Vec::new();
    proof {
        assert(placed_models(pages@).to_multiset().add(models_of(working@).to_multiset())
            =~= input_ms);
    }
    while working.len() > 0
        invariant
            placed_models(pages@).to_multiset().add(models_of(working@).to_multiset())
                == input_ms,
            forall|p: int|
                0 <= p < pages@.len() ==> page_wf(#[trigger] pages@[p]@, width as int, height as int),
            forall|k: int| 0 <= k < working@.len() ==> fits_packer((#[trigger] working@[k])@),
            forall|k: int|
                0 <= k < working@.len() ==> models_of(images@).contains((#[trigger] working@[k])@),
        decreases working@.len(),
    {
        // The packing input for this page, one rectangle per descriptor
        // still in the working set.
        let mut rects: Vec<RectToPack> = Vec::new();
        let mut i: usize = 0;
        while i < working.len()
            invariant
                0 <= i <= working@.len(),
                rects@.len() == i as int,
                forall|k: int|
                    0 <= k < i ==> (#[trigger] rects@[k]).id == k && rects@[k].w
                        == working@[k]@.width && rects@[k].h == working@[k]@.height,
            decreases working@.len() - i,
        {
            rects.push(
                RectToPack { id: i, w: working[i].width as usize, h: working[i].height as usize },
            );
            i = i + 1;
        }

        let packed = pack_rects(width, height, &rects);
        if packed.len() == 0 {
            proof {
                // the packer names an item that fits in neither orientation;
                // its descriptor came from the input
                let k = choose|k: int|
                    0 <= k < rects@.len() && !fits_in(
                        (#[trigger] rects@[k]).w as int,
                        rects@[k].h as int,
                        width as int,
                        height as int,
                    );
                assert(models_of(images@).contains(working@[k]@));
                let j = choose|j: int|
                    0 <= j < models_of(images@).len() && models_of(images@)[j] == working@[k]@;
                assert(images@[j]@ == working@[k]@);
                assert(!fits_in(
                    (#[trigger] images@[j])@.width as int,
                    images@[j]@.height as int,
                    width as int,
                    height as int,
                ));
            }
            return Err(PackError::ImageTooLargeForPage);
        }

        // Where each working-set index was placed, if anywhere.
        let mut assigned: Vec<Option<PackedRect>> = Vec::new();
        let mut i: usize = 0;
        while i < working.len()
            invariant
                0 <= i <= working@.len(),
                assigned@.len() == i as int,
                forall|k: int| 0 <= k < i ==> (#[trigger] assigned@[k]) is None,
            decreases working@.len() - i,
        {
            assigned.push(None);
            i = i + 1;
        }

        let mut j: usize = 0;
        while j < packed.len()
            invariant
                0 <= j <= packed@.len(),
                assigned@.len() == working@.len(),
                forall|t: int|
                    0 <= t < j ==> assigned@[(#[trigger] packed@[t]).id as int] == Some(
                        packed@[t],
                    ),
                forall|k: int|
                    0 <= k < assigned@.len() ==> match #[trigger] assigned@[k] {
                        Some(q) => exists|t: int| 0 <= t < j && packed@[t] == q && q.id == k,
                        None => true,
                    },
            decreases packed@.len() - j,
        {
            let q = packed[j];
            proof {
                let k = choose|k: int|
                    0 <= k < rects@.len() && placed_matches(packed@[j as int], rects@[k]);
                assert(q.id == k);
            }
            assigned.set(q.id, Some(q));
            j = j + 1;
        }

        // Partition the working set: placed descriptors become this page,
        // the others stay for the next round.
        let mut page: Vec<PlacedItem> = Vec::new();
        let mut rest: Vec<ImageToPack> = Vec::new();
        let mut i: usize = 0;
        while i < working.len()
            invariant
                0 <= i <= working@.len(),
                page@.len() + rest@.len() == i as int,
                page_models(page@).to_multiset().add(models_of(rest@).to_multiset())
                    == models_of(working@.take(i as int)).to_multiset(),
                forall|a: int|
                    0 <= a < page@.len() ==> {
                        &&& (#[trigger] page@[a]).rect.id < i
                        &&& (exists|t: int| 0 <= t < packed@.len() && packed@[t] == page@[a].rect)
                        &&& page@[a].data@ == working@[page@[a].rect.id as int]@
                    },
                forall|a: int, b: int|
                    0 <= a < b < page@.len() ==> (#[trigger] page@[a]).rect.id != (
                    #[trigger] page@[b]).rect.id,
                forall|k: int| 0 <= k < rest@.len() ==> fits_packer((#[trigger] rest@[k])@),
                forall|k: int|
                    0 <= k < rest@.len() ==> models_of(images@).contains((#[trigger] rest@[k])@),
                page@.len() > 0 || (forall|k: int| 0 <= k < i ==> (#[trigger] assigned@[k]) is None),
            decreases working@.len() - i,
        {
            let ghost old_page = page@;
            let ghost old_rest = rest@;
            let item = working[i].clone();
            match assigned[i] {
                Some(q) => {
                    proof {
                        assert(q.id == i);
                    }
                    page.push(PlacedItem { data: item, rect: q });
                    proof {
                        assert(page_models(page@) =~= page_models(old_page).push(
                            working@[i as int]@,
                        ));
                    }
                },
                None => {
                    rest.push(item);
                    proof {
                        assert(models_of(rest@) =~= models_of(old_rest).push(
                            working@[i as int]@,
                        ));
                        assert(models_of(images@).contains(working@[i as int]@));
                    }
                },
            }
            proof {
                let cur = models_of(working@.take(i + 1));
                assert(cur =~= models_of(working@.take(i as int)).push(working@[i as int]@));
                assert(page_models(page@).to_multiset().add(models_of(rest@).to_multiset())
                    =~= cur.to_multiset());
            }
            i = i + 1;
        }
        proof {
            assert(working@.take(working@.len() as int) =~= working@);
            // the page holds at least one item: the packer's first
            // placement was assigned to its index
            assert(assigned@[(packed@[0]).id as int] == Some(packed@[0]));
            assert(page@.len() > 0);
            // the page is well formed
            assert forall|a: int| 0 <= a < page@.len() implies rect_within(
                page@[a].rect,
                width as int,
                height as int,
            ) && dims_match(page@[a].data@, page@[a].rect) by {
                let t = choose|t: int| 0 <= t < packed@.len() && packed@[t] == page@[a].rect;
                assert(rect_within(packed@[t], width as int, height as int));
                let k = choose|k: int|
                    0 <= k < rects@.len() && placed_matches(packed@[t], rects@[k]);
                assert(k == page@[a].rect.id);
            }
            assert forall|a: int, b: int|
                0 <= a < page@.len() && 0 <= b < page@.len() && a != b implies rects_disjoint(
                page@[a].rect,
                page@[b].rect,
            ) by {
                let ta = choose|t: int| 0 <= t < packed@.len() && packed@[t] == page@[a].rect;
                let tb = choose|t: int| 0 <= t < packed@.len() && packed@[t] == page@[b].rect;
                assert(page@[a].rect.id != page@[b].rect.id);
                assert(ta != tb);
                assert(rects_disjoint(packed@[ta], packed@[tb]));
            }
            assert(page_wf(page@, width as int, height as int));
        }
        let ghost old_pages = pages@;
        let ghost gpage = page@;
        working = rest;
        pages.push(page);
        proof {
            assert(pages@.drop_last() =~= old_pages);
            assert(pages@.last()@ == gpage);
            assert(placed_models(pages@) == placed_models(old_pages) + page_models(gpage));
            lemma_multiset_commutative(placed_models(old_pages), page_models(gpage));
            assert(placed_models(pages@).to_multiset().add(models_of(working@).to_multiset())
                =~= input_ms);
            // the page was non-empty, so the working set strictly shrank
            assert(working@.len() < gpage.len() + working@.len());
        }
    }
    proof {
        assert(models_of(working@).to_multiset() =~= Multiset::<ImageDesc>::empty());
        assert(placed_models(pages@).to_multiset() =~= input_ms);
    }
    Ok(pages)
}

} // verus!
