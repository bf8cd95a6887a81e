use crate::config::{in_ranges, Config};
use crate::tile::{
    disjoint, lemma_turned_layout_sound, locate, turned, within, AnyTile, Flipped, LeftPrimary,
    Monocle, Padded, Params, Rect, Rotated, Tile, TileType,
};
use vstd::prelude::*;

verus! {

/// The base layout that `c` describes, before any orientation.
pub open spec fn base_tile(c: Config) -> LeftPrimary {
    LeftPrimary { inner: c.inner, outer: c.outer, ratio: c.ratio, main: c.main, dim: 0 }
}

/// The base layout turned to put the primary region on the side `c.tile` names.
pub open spec fn oriented(c: Config) -> AnyTile {
    turned(base_tile(c), c.tile)
}

/// For a configuration within its ranges and at least one window, the oriented layout keeps
/// every window inside the usable area, and no two windows of one region overlap.
pub proof fn lemma_oriented_layout_sound(c: Config, p: Params, i: int, j: int)
    requires
        in_ranges(c),
        p.view_count >= 1,
        0 <= i < p.view_count,
        0 <= j < p.view_count,
    ensures
        locate(oriented(c), p, i) is Some ==> within(locate(oriented(c), p, i)->Some_0, p),
        i != j && (i < c.main <==> j < c.main) && locate(oriented(c), p, i) is Some && locate(
            oriented(c),
            p,
            j,
        ) is Some ==> disjoint(locate(oriented(c), p, i)->Some_0, locate(oriented(c), p, j)->Some_0),
{
    lemma_turned_layout_sound(base_tile(c), c.tile, p, i, j);
}

/// How much a smart gap differs from the gap that would otherwise surround a lone window.
pub open spec fn smart_pad(smart: Option<u32>, existing: int) -> int {
    match smart {
        Some(v) => v - existing,
        None => 0,
    }
}

pub open spec fn fits_i32(v: int) -> bool {
    i32::MIN <= v <= i32::MAX
}

/// `t` with a lone primary region centred, where `c.pad` is set and no window goes to the
/// stack: padded by half the width (or height) the stack would have taken. `None` where the
/// ratio leaves no room to centre.
pub open spec fn centred(c: Config, p: Params, t: AnyTile) -> Option<AnyTile> {
    let across = c.tile == TileType::Left || c.tile == TileType::Right;
    if c.pad && p.view_count <= c.main {
        let side: int = if across {
            p.usable_width as int
        } else {
            p.usable_height as int
        };
        let center = side * c.ratio / 100;
        if center > side {
            None
        } else if across {
            Some(AnyTile::Padded(Padded { wrapped: Box::new(t), h_pad: ((side - center) / 2) as i32, v_pad: 0 }))
        } else {
            Some(AnyTile::Padded(Padded { wrapped: Box::new(t), h_pad: 0, v_pad: ((side - center) / 2) as i32 }))
        }
    } else {
        Some(t)
    }
}

/// `t` in monocle, where `c.monocle` is set.
pub open spec fn with_monocle(c: Config, t: AnyTile) -> AnyTile {
    if c.monocle {
        AnyTile::Monocle(Monocle { wrapped: Box::new(t) })
    } else {
        t
    }
}

/// `t` with the smart gaps around a lone window, where one is set. `None` where a margin
/// leaves the range of `i32`.
pub open spec fn with_smart_gaps(c: Config, p: Params, t: AnyTile) -> Option<AnyTile> {
    if p.view_count == 1 && (c.smart_h is Some || c.smart_v is Some) {
        let h = smart_pad(c.smart_h, c.inner + c.outer);
        let v = smart_pad(c.smart_v, c.inner + c.outer);
        if fits_i32(h) && fits_i32(v) {
            Some(AnyTile::Padded(Padded { wrapped: Box::new(t), h_pad: h as i32, v_pad: v as i32 }))
        } else {
            None
        }
    } else {
        Some(t)
    }
}

/// The tile that lays out a query of `p` under `c`: the oriented base layout, then the
/// centring, then monocle, then the smart gaps, each wrapping what came before.
pub open spec fn assembled(c: Config, p: Params) -> Option<AnyTile> {
    match centred(c, p, oriented(c)) {
        Some(t) => with_smart_gaps(c, p, with_monocle(c, t)),
        None => None,
    }
}

/// The name shown for the layout of `c`.
pub open spec fn name_of(c: Config) -> Seq<char> {
    if c.monocle {
        "M"@
    } else {
        match c.tile {
            TileType::Left => "\u{2190}"@,
            TileType::Top => "\u{2191}"@,
            TileType::Right => "\u{2192}"@,
            TileType::Bottom => "\u{2193}"@,
        }
    }
}

/// `r` answers a request of `p` under `c`: one rectangle per window, each where the tile that
/// `c` assembles puts it, or `None` exactly where no tile can be assembled or some window has
/// no place.
pub open spec fn lays_out(c: Config, p: Params, r: Option<LayoutPlan>) -> bool {
    match assembled(c, p) {
        None => r is None,
        Some(t) => {
            &&& r is Some <==> forall|i: int| 0 <= i < p.view_count ==> #[trigger] locate(t, p, i) is Some
            &&& r matches Some(plan) ==> {
                &&& plan.name@ == name_of(c)
                &&& plan.views@.len() == p.view_count
                &&& forall|i: int| 0 <= i < p.view_count ==> plan.views@[i] == #[trigger] locate(t, p, i)->Some_0
            }
        },
    }
}

/// The windows of one layout request, in index order, and the name of the layout.
pub struct LayoutPlan {
    pub name: &'static str,
    pub views: Vec<Rect>,
}

pub fn layout_name(config: &Config) -> (r: &'static str)
    ensures
        r@ == name_of(*config),
{
    if config.monocle {
        return "M";
    }
    match config.tile {
        TileType::Left => "\u{2190}",
        TileType::Top => "\u{2191}",
        TileType::Right => "\u{2192}",
        TileType::Bottom => "\u{2193}",
    }
}

fn smart_margin(smart: Option<u32>, existing: i64) -> (r: i64)
    requires
        0 <= existing <= 2 * u32::MAX as i64,
    ensures
        r == smart_pad(smart, existing as int),
{
    match smart {
        Some(v) => v as i64 - existing,
        None => 0,
    }
}

/// Builds the tile that `assembled` describes.
pub fn build_tile(config: &Config, params: &Params) -> (r: Option<AnyTile>)
    ensures
        r == assembled(*config, *params),
{
    let base = AnyTile::Base(LeftPrimary::new(config.inner, config.outer, config.ratio, config.main, 0));
    let across = config.tile == TileType::Left || config.tile == TileType::Right;
    let tile = match config.tile {
        TileType::Left => base,
        TileType::Top => AnyTile::Rotated(Rotated::new(base)),
        TileType::Right => AnyTile::Flipped(Flipped::new(base)),
        TileType::Bottom => AnyTile::Rotated(Rotated::new(AnyTile::Flipped(Flipped::new(base)))),
    };
    let tile = if config.pad && params.view_count <= config.main {
        let side = if across {
            params.usable_width
        } else {
            params.usable_height
        };
        assert(side as u64 * config.ratio as u64 <= u32::MAX as u64 * u32::MAX as u64) by (nonlinear_arith)
            requires
                side <= u32::MAX,
                config.ratio <= u32::MAX,
        ;
        let center = (side as u64 * config.ratio as u64) / 100;
        if center > side as u64 {
            return None;
        }
        let pad = ((side as u64 - center) / 2) as i32;
        if across {
            AnyTile::Padded(Padded::new(tile, pad, 0))
        } else {
            AnyTile::Padded(Padded::new(tile, 0, pad))
        }
    } else {
        tile
    };
    let tile = if config.monocle {
        AnyTile::Monocle(Monocle::new(tile))
    } else {
        tile
    };
    if params.view_count == 1 && (config.smart_h.is_some() || config.smart_v.is_some()) {
        let existing = config.inner as i64 + config.outer as i64;
        let h = smart_margin(config.smart_h, existing);
        let v = smart_margin(config.smart_v, existing);
        if h < i32::MIN as i64 || h > i32::MAX as i64 || v < i32::MIN as i64 || v > i32::MAX as i64 {
            return None;
        }
        Some(AnyTile::Padded(Padded::new(tile, h as i32, v as i32)))
    } else {
        Some(tile)
    }
}

/// Lays out `view_count` windows in the given area under `config`: one rectangle per window
/// index, in order, or `None` where the area cannot hold the layout.
pub fn generate_layout(config: &Config, view_count: u32, usable_width: u32, usable_height: u32) -> (r:
    Option<LayoutPlan>)
    ensures
        lays_out(*config, Params { view_count, usable_width, usable_height }, r),
{
    let params = Params { view_count, usable_width, usable_height };
    let tile = match build_tile(config, &params) {
        Some(t) => t,
        None => return None,
    };
    let mut views: Vec<Rect> = Vec::new();
    let mut index: u32 = 0;
    while index < view_count
        invariant
            index <= view_count,
            params == (Params { view_count, usable_width, usable_height }),
            assembled(*config, params) == Some(tile),
            views@.len() == index,
            forall|i: int| 0 <= i < index ==> #[trigger] locate(tile, params, i) is Some && views@[i] == locate(tile, params, i)->Some_0,
        decreases view_count - index,
    {
        assert(tile.model() == tile);
        match tile.rect(&params, index) {
            Some(r) => views.push(r),
            None => {
                assert(locate(tile, params, index as int) is None);
                return None;
            },
        }
        index = index + 1;
    }
    Some(LayoutPlan { name: layout_name(config), views })
}

} // verus!
