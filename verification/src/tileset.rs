//! The integer arithmetic of a spritesheet tileset: where a tile's
//! texture region starts inside the sheet. The rendering layer turns
//! the result into its own rectangle type and issues the draw calls.

use vstd::prelude::*;

verus! {

/// The top-left corner, in sheet pixels, of the region for sprite `ix`
/// in a sheet laid out in `columns` columns of `tile_width` by
/// `tile_height` tiles, with `spacing` pixels between tiles and a
/// `margin` border.
pub fn sprite_rect_px(
    ix: u32,
    columns: u32,
    tile_width: u32,
    tile_height: u32,
    spacing: u32,
    margin: u32,
) -> (r: (u32, u32))
    requires
        columns > 0,
        (columns - 1) * (tile_width + spacing) + margin <= u32::MAX,
        (ix as int / columns as int) * (tile_height + spacing) + margin <= u32::MAX,
        tile_width + spacing <= u32::MAX,
        tile_height + spacing <= u32::MAX,
    ensures
        r.0 == (ix as int % columns as int) * (tile_width + spacing) + margin,
        r.1 == (ix as int / columns as int) * (tile_height + spacing) + margin,
{
    proof {
        vstd::arithmetic::div_mod::lemma_mod_bound(ix as int, columns as int);
        vstd::arithmetic::div_mod::lemma_div_pos_is_pos(ix as int, columns as int);
        vstd::arithmetic::mul::lemma_mul_inequality(
            ix as int % columns as int,
            columns - 1,
            tile_width + spacing,
        );
    }
    let sx: u32 = (ix % columns) * (tile_width + spacing) + margin;
    let sy: u32 = (ix / columns) * (tile_height + spacing) + margin;
    (sx, sy)
}

} // verus!
