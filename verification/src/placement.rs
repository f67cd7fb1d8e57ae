//! Placement geometry for one packed item: the rotation inference and the
//! physical embed position on the page.

use vstd::prelude::*;
use crate::packing::PackedRect;
use crate::packing::PlacedItem;
use crate::sizes::lemma_px_roundtrip_exact;
use crate::sizes::mm_of_px;
use crate::sizes::px_of_mm;
use crate::sizes::to_mm;

verus! {

/// The resolved geometry of one item on its page: the embed position in
/// thousandths of a millimeter from the page corner, and whether the image
/// content must be rotated a quarter turn before embedding.
#[derive(Clone, Copy, Debug, PartialEq, Eq, Structural)]
pub struct Placement {
    pub x_mm: u64,
    pub y_mm: u64,
    pub rotated: bool,
}

/// The rotation inference: an image whose content is wider than tall,
/// placed into a rectangle that is no wider than tall, was rotated by the
/// packer. The comparison is exactly `width > height` against
/// `rect.w <= rect.h`, with no tolerance band for near-square images.
pub open spec fn spec_was_rotated(width: int, height: int, rect: PackedRect) -> bool {
    width > height && rect.w <= rect.h
}

/// Whether the packer rotated an image of the given natural content size
/// into its packed rectangle.
pub fn was_rotated(width: u32, height: u32, rect: &PackedRect) -> (r: bool)
    ensures
        r == spec_was_rotated(width as int, height as int, *rect),
{
    width > height && rect.w <= rect.h
}

/// The physical embed coordinate of a packed pixel offset: the page border
/// plus the packer-assigned offset and the item's margin, converted to
/// thousandths of a millimeter at the given resolution.
pub open spec fn spec_embed_mm(px: int, margin: int, border_mm: int, dpi: int) -> int {
    border_mm + mm_of_px(px + margin, dpi)
}

/// Resolves the final geometry of one placed item: the embed position on
/// both axes and the rotation decision, taken on the item's natural content
/// size (its placement size minus the margin on every side).
pub fn resolve_placement(item: &PlacedItem, border_mm: u64, dpi: u32) -> (p: Placement)
    requires
        1 <= dpi,
        item.data@.wf(),
        (item.rect.x + item.data.margin) * 25400 + dpi / 2 <= u64::MAX,
        (item.rect.y + item.data.margin) * 25400 + dpi / 2 <= u64::MAX,
        border_mm + mm_of_px(item.rect.x + item.data.margin, dpi as int) <= u64::MAX,
        border_mm + mm_of_px(item.rect.y + item.data.margin, dpi as int) <= u64::MAX,
    ensures
        p.x_mm == spec_embed_mm(
            item.rect.x as int,
            item.data@.margin as int,
            border_mm as int,
            dpi as int,
        ),
        p.y_mm == spec_embed_mm(
            item.rect.y as int,
            item.data@.margin as int,
            border_mm as int,
            dpi as int,
        ),
        p.rotated == spec_was_rotated(
            item.data@.width - 2 * item.data@.margin,
            item.data@.height - 2 * item.data@.margin,
            item.rect,
        ),
{
    let margin = item.data.margin;
    let content_w = item.data.width - 2 * margin;
    let content_h = item.data.height - 2 * margin;
    let rotated = was_rotated(content_w, content_h, &item.rect);
    let x_mm = border_mm + to_mm(item.rect.x as u64 + margin as u64, dpi);
    let y_mm = border_mm + to_mm(item.rect.y as u64 + margin as u64, dpi);
    Placement { x_mm, y_mm, rotated }
}

/// The coordinate transform is invertible: recovering the pixel offset from
/// the physical embed position — the border subtracted, the length converted
/// back to pixels, the margin subtracted — reproduces the packer-assigned
/// offset exactly, for any resolution below 25400 dots per inch.
pub proof fn lemma_embed_position_invertible(px: int, margin: int, border_mm: int, dpi: int)
    requires
        0 <= px,
        0 <= margin,
        1 <= dpi < 25400,
    ensures
        px_of_mm(spec_embed_mm(px, margin, border_mm, dpi) - border_mm, dpi) - margin == px,
{
    lemma_px_roundtrip_exact(px + margin, dpi);
}

} // verus!
