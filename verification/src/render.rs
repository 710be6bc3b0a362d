//! Web-Mercator tiling and dot rasterization.
//!
//! Positions reaching this module are global Mercator coordinates: fractions
//! of the world's width and height scaled by 2^32, so a coordinate lies in
//! `[0, 2^32]`. The longitude axis is an exact rational function of the
//! fixed-point longitude (ten million units per degree) and is computed
//! here; the latitude axis needs transcendental arithmetic and is handed in
//! by the caller. At zoom `z` the world is a `2^z` by `2^z` grid of square
//! tiles of 256 pixels a side; a coordinate's tile and pixel indices are
//! floors of its scaled fraction, as in the standard slippy-map scheme.

use vstd::arithmetic::div_mod::{lemma_fundamental_div_mod, lemma_fundamental_div_mod_converse};
use vstd::arithmetic::power2::{lemma2_to64, lemma_pow2_adds, lemma_pow2_pos, pow2};
use vstd::bits::{lemma_u64_pow2_no_overflow, lemma_u64_shl_is_mul};
use vstd::prelude::*;
use vstd::string::StringSliceAdditionalSpecFns;
use vstd::utf8::encode_utf8;
use crate::config::DatasetConfig;
use crate::types::{str_eq, Dot};

verus! {

/// Tile edge length in pixels.
pub const TILE_SIZE: u32 = 256;

/// Fixed-point units per degree of longitude or latitude.
pub const COORD_SCALE: i64 = 10_000_000;

/// One half-turn of longitude in fixed-point units.
pub const LON_LIMIT: i64 = 1_800_000_000;

/// The Mercator scale: world width and height in Mercator units.
pub const MERC_ONE: u64 = 0x1_0000_0000;

/// Deepest zoom level the integer tiling supports: tile and pixel indices
/// at zoom `z` need `z + 8` bits of a Mercator coordinate's 32.
pub const MAX_ZOOM: u8 = 24;

/// An RGBA colour at full opacity unless transparent.
#[derive(Clone, Copy, PartialEq, Eq, Structural, Debug)]
pub struct Color {
    pub red: u8,
    pub green: u8,
    pub blue: u8,
    pub alpha: u8,
}

/// The fully transparent colour that empty pixels hold.
pub open spec fn transparent() -> Color {
    Color { red: 0, green: 0, blue: 0, alpha: 0 }
}

/// The Mercator x-coordinate of a fixed-point longitude: the fraction
/// `(lon + 180 degrees) / 360 degrees` of the world's width, scaled by 2^32
/// and floored.
pub open spec fn merc_x_spec(lon: int) -> int {
    (lon + 1_800_000_000) * 0x1_0000_0000 / 3_600_000_000
}

/// Projects a fixed-point longitude onto the Mercator x-axis, exactly.
pub fn merc_x(lon: i64) -> (r: u64)
    requires
        -LON_LIMIT <= lon <= LON_LIMIT,
    ensures
        r == merc_x_spec(lon as int),
        r <= MERC_ONE,
{
    let num: u128 = ((lon + 1_800_000_000) as u128) * 0x1_0000_0000;
    let r: u128 = num / 3_600_000_000;
    proof {
        assert(num <= 3_600_000_000 * 0x1_0000_0000);
        lemma_fundamental_div_mod(num as int, 3_600_000_000);
        if r > MERC_ONE {
            assert(3_600_000_000 * (num as int / 3_600_000_000) > 3_600_000_000 * 0x1_0000_0000)
                by (nonlinear_arith)
                requires
                    num as int / 3_600_000_000 > 0x1_0000_0000,
            ;
        }
    }
    r as u64
}

/// The tile index that Mercator coordinate `m` falls in at zoom `z`.
pub open spec fn tile_index(m: int, z: nat) -> int {
    m / pow2((32 - z) as nat) as int
}

/// The pixel index within its tile that `m` falls at, at zoom `z`.
pub open spec fn pixel_index(m: int, z: nat) -> int {
    (m / pow2((24 - z) as nat) as int) % 256
}

/// Splits a Mercator coordinate into its tile and pixel indices at zoom
/// `z`. The tile index is at most `2^z` (the right world edge maps onto the
/// first column outside the grid, as the floor formula says).
pub fn tile_pixel(m: u64, zoom: u8) -> (r: (u32, u32))
    requires
        zoom <= MAX_ZOOM,
        m <= MERC_ONE,
    ensures
        r.0 == tile_index(m as int, zoom as nat),
        r.1 == pixel_index(m as int, zoom as nat),
        r.0 <= pow2(zoom as nat),
        r.1 < 256,
{
    proof {
        lemma_u64_pow2_no_overflow((32 - zoom) as nat);
        lemma_u64_pow2_no_overflow((24 - zoom) as nat);
        lemma_u64_shl_is_mul(1u64, (32 - zoom) as u64);
        lemma_u64_shl_is_mul(1u64, (24 - zoom) as u64);
        lemma_pow2_pos((32 - zoom) as nat);
        lemma_pow2_pos((24 - zoom) as nat);
    }
    let tile_div: u64 = 1u64 << ((32 - zoom) as u64);
    let pix_div: u64 = 1u64 << ((24 - zoom) as u64);
    let t: u64 = m / tile_div;
    let g: u64 = m / pix_div;
    let p: u64 = g % 256;
    proof {
        assert(tile_div == pow2((32 - zoom) as nat));
        assert(pix_div == pow2((24 - zoom) as nat));
        assert(t == tile_index(m as int, zoom as nat));
        assert(p == pixel_index(m as int, zoom as nat));
        // The tile index stays within the grid, or one past it at the far
        // world edge.
        lemma_pow2_adds(zoom as nat, (32 - zoom) as nat);
        lemma_fundamental_div_mod(m as int, tile_div as int);
        lemma2_to64();
        if t > pow2(zoom as nat) {
            assert(tile_div as int * (m as int / tile_div as int) >= tile_div as int * (pow2(
                zoom as nat,
            ) + 1)) by (nonlinear_arith)
                requires
                    m as int / tile_div as int >= pow2(zoom as nat) + 1,
                    tile_div as int > 0,
            ;
            assert(tile_div as int * (pow2(zoom as nat) + 1) == pow2(32) + tile_div)
                by (nonlinear_arith)
                requires
                    tile_div as int * pow2(zoom as nat) == pow2(32),
            ;
            assert(false);
        }
    }
    (t as u32, p as u32)
}

/// The Mercator coordinate of the centre of tile `t` at zoom `z`, on
/// either axis.
pub open spec fn tile_center_spec(t: int, z: nat) -> int {
    t * pow2((32 - z) as nat) + pow2((31 - z) as nat)
}

/// The centre of tile `t` at zoom `z` in Mercator units.
pub fn tile_center(t: u32, zoom: u8) -> (r: u64)
    requires
        zoom <= MAX_ZOOM,
        t < pow2(zoom as nat),
    ensures
        r == tile_center_spec(t as int, zoom as nat),
        r <= MERC_ONE,
{
    proof {
        lemma_u64_pow2_no_overflow((32 - zoom) as nat);
        lemma_u64_pow2_no_overflow((31 - zoom) as nat);
        lemma_u64_shl_is_mul(1u64, (32 - zoom) as u64);
        lemma_u64_shl_is_mul(1u64, (31 - zoom) as u64);
        lemma_pow2_pos((31 - zoom) as nat);
        lemma_pow2_adds(zoom as nat, (32 - zoom) as nat);
        lemma2_to64();
        assert((t as int) * (pow2((32 - zoom) as nat) as int) + pow2((31 - zoom) as nat)
            <= 0x1_0000_0000) by (nonlinear_arith)
            requires
                t as int <= pow2(zoom as nat) - 1,
                pow2((32 - zoom) as nat) > 0,
                2 * pow2((31 - zoom) as nat) == pow2((32 - zoom) as nat),
                pow2(zoom as nat) * pow2((32 - zoom) as nat) == 0x1_0000_0000,
        ;
        assert(2 * pow2((31 - zoom) as nat) == pow2((32 - zoom) as nat)) by {
            lemma_pow2_adds(1, (31 - zoom) as nat);
            lemma2_to64();
        }
    }
    (t as u64) * (1u64 << ((32 - zoom) as u64)) + (1u64 << ((31 - zoom) as u64))
}

/// Re-projecting a tile's centre lands in the same tile: the forward tiling
/// transform is stable at every zoom level over the centres it produces.
pub proof fn lemma_tile_center_stable(t: int, z: nat)
    requires
        z <= MAX_ZOOM,
        0 <= t < pow2(z),
    ensures
        tile_index(tile_center_spec(t, z), z) == t,
{
    let d = pow2((32 - z) as nat) as int;
    let h = pow2((31 - z) as nat) as int;
    lemma_pow2_pos((32 - z) as nat);
    lemma_pow2_pos((31 - z) as nat);
    assert(2 * h == d) by {
        lemma_pow2_adds(1, (31 - z) as nat);
        lemma2_to64();
    }
    lemma_fundamental_div_mod_converse(t * d + h, d, t, h);
}

/// Whether a byte is an ASCII hex digit.
pub open spec fn is_hex_digit(c: u8) -> bool {
    (48 <= c <= 57) || (97 <= c <= 102) || (65 <= c <= 70)
}

/// The value of an ASCII hex digit, zero for anything else.
pub open spec fn hex_digit_val(c: u8) -> u8 {
    if 48 <= c <= 57 {
        (c - 48) as u8
    } else if 97 <= c <= 102 {
        (c - 87) as u8
    } else if 65 <= c <= 70 {
        (c - 55) as u8
    } else {
        0
    }
}

/// The channel value of two hex digits; a malformed pair counts zero.
pub open spec fn byte_pair_val(h: u8, l: u8) -> u8 {
    if is_hex_digit(h) && is_hex_digit(l) {
        (16 * hex_digit_val(h) + hex_digit_val(l)) as u8
    } else {
        0
    }
}

/// The bytes left after stripping every leading `#`.
pub open spec fn strip_hash(s: Seq<u8>) -> Seq<u8>
    decreases s.len(),
{
    if s.len() > 0 && s[0] == 35 {
        strip_hash(s.drop_first())
    } else {
        s
    }
}

/// The colour a hex code denotes: its first three stripped byte pairs as
/// red, green and blue, fully opaque.
pub open spec fn color_of_hex(s: Seq<u8>) -> Color {
    let t = strip_hash(s);
    Color {
        red: byte_pair_val(t[0], t[1]),
        green: byte_pair_val(t[2], t[3]),
        blue: byte_pair_val(t[4], t[5]),
        alpha: 255,
    }
}

/// The value of one hex digit byte, zero for anything else.
fn hex_digit(c: u8) -> (v: u8)
    ensures
        v == hex_digit_val(c),
        v < 16 || !is_hex_digit(c),
{
    if 48 <= c && c <= 57 {
        c - 48
    } else if 97 <= c && c <= 102 {
        c - 87
    } else if 65 <= c && c <= 70 {
        c - 55
    } else {
        0
    }
}

/// One colour channel from two hex digit bytes.
fn hex_pair(h: u8, l: u8) -> (v: u8)
    ensures
        v == byte_pair_val(h, l),
{
    let dh = if (48 <= h && h <= 57) || (97 <= h && h <= 102) || (65 <= h && h <= 70) {
        true
    } else {
        false
    };
    let dl = if (48 <= l && l <= 57) || (97 <= l && l <= 102) || (65 <= l && l <= 70) {
        true
    } else {
        false
    };
    if dh && dl {
        16 * hex_digit(h) + hex_digit(l)
    } else {
        0
    }
}

/// Parses a `#rrggbb` hex code into a colour, stripping any leading `#`
/// signs; each malformed channel pair falls back to zero. The code must
/// keep six bytes after stripping.
pub fn hex_to_rgba(hex: &str) -> (c: Color)
    requires
        strip_hash(hex.spec_bytes()).len() >= 6,
    ensures
        c == color_of_hex(hex.spec_bytes()),
{
    let bytes = hex.as_bytes();
    let n = bytes.len();
    let mut i: usize = 0;
    proof {
        assert(bytes@.skip(0) =~= bytes@);
    }
    while i < n && bytes[i] == 35
        invariant
            0 <= i <= n,
            n == bytes@.len(),
            bytes@ == hex.spec_bytes(),
            strip_hash(hex.spec_bytes()) == strip_hash(bytes@.skip(i as int)),
        decreases n - i,
    {
        proof {
            assert(bytes@.skip(i as int)[0] == bytes@[i as int]);
            assert(bytes@.skip(i as int).drop_first() =~= bytes@.skip(i + 1));
        }
        i = i + 1;
    }
    proof {
        assert(strip_hash(bytes@.skip(i as int)) == bytes@.skip(i as int));
        assert(bytes@.skip(i as int).len() >= 6);
    }
    let red = hex_pair(bytes[i], bytes[i + 1]);
    let green = hex_pair(bytes[i + 2], bytes[i + 3]);
    let blue = hex_pair(bytes[i + 4], bytes[i + 5]);
    proof {
        assert(forall|t: int|
            0 <= t < 6 ==> #[trigger] bytes@.skip(i as int)[t] == bytes@[i + t]);
    }
    Color { red, green, blue, alpha: 255 }
}

/// A dot already projected onto the Mercator plane, tagged with its
/// category.
#[derive(Clone, Debug)]
pub struct MercDot {
    pub mx: u64,
    pub my: u64,
    pub category: String,
}

/// One category's display colour.
#[derive(Clone, Debug)]
pub struct CategoryColor {
    pub name: String,
    pub color: Color,
}

/// Whether a Mercator dot lies on the world square.
pub open spec fn dot_ok(d: MercDot) -> bool {
    d.mx <= MERC_ONE && d.my <= MERC_ONE
}

/// The colour registered for a category, the last entry winning when a
/// name repeats.
pub open spec fn color_lookup(colors: Seq<CategoryColor>, name: Seq<char>) -> Option<Color>
    decreases colors.len(),
{
    if colors.len() == 0 {
        None
    } else if colors.last().name@ == name {
        Some(colors.last().color)
    } else {
        color_lookup(colors.drop_last(), name)
    }
}

/// Looks a category's colour up, the last entry winning.
pub fn lookup_color(colors: &Vec<CategoryColor>, name: &String) -> (r: Option<Color>)
    ensures
        r == color_lookup(colors@, name@),
{
    let n = colors.len();
    let mut i: usize = n;
    proof {
        assert(colors@.take(n as int) =~= colors@);
    }
    while i > 0
        invariant
            0 <= i <= n,
            n == colors@.len(),
            color_lookup(colors@, name@) == color_lookup(colors@.take(i as int), name@),
        decreases i,
    {
        proof {
            assert(colors@.take(i as int).last() == colors@[i - 1]);
            assert(colors@.take(i as int).drop_last() =~= colors@.take(i - 1));
        }
        if crate::types::str_eq(&colors[i - 1].name, name.as_str()) {
            return Some(colors[i - 1].color);
        }
        i = i - 1;
    }
    None
}

/// A 256 by 256 image of colours, row-major.
#[derive(Clone, Debug)]
pub struct TileImage {
    pub pixels: Vec<Color>,
}

impl TileImage {
    /// A well-formed image holds one colour per pixel of the square tile.
    pub open spec fn wf(self) -> bool {
        self.pixels@.len() == 65536
    }

    /// The colour at column `x`, row `y`.
    pub open spec fn spec_pixel(self, x: int, y: int) -> Color {
        self.pixels@[y * 256 + x]
    }

    /// A fresh, fully transparent tile image.
    pub fn new_tile() -> (t: TileImage)
        ensures
            t.wf(),
            forall|x: int, y: int|
                0 <= x < 256 && 0 <= y < 256 ==> #[trigger] t.spec_pixel(x, y) == transparent(),
    {
        let mut pixels: Vec<Color> = Vec::new();
        let mut q: usize = 0;
        while q < 65536
            invariant
                q == pixels@.len(),
                q <= 65536,
                forall|t: int|
                    0 <= t < q ==> #[trigger] pixels@[t] == (Color {
                        red: 0,
                        green: 0,
                        blue: 0,
                        alpha: 0,
                    }),
            decreases 65536 - q,
        {
            pixels.push(Color { red: 0, green: 0, blue: 0, alpha: 0 });
            q = q + 1;
        }
        let t = TileImage { pixels };
        proof {
            assert forall|x: int, y: int|
                0 <= x < 256 && 0 <= y < 256 implies #[trigger] t.spec_pixel(x, y)
                == transparent() by {
                assert(0 <= y * 256 + x < 65536) by (nonlinear_arith)
                    requires
                        0 <= x < 256,
                        0 <= y < 256,
                ;
            }
        }
        t
    }

    /// Sets one pixel.
    pub fn put_pixel(&mut self, x: u32, y: u32, c: Color)
        requires
            old(self).wf(),
            x < 256,
            y < 256,
        ensures
            final(self).wf(),
            final(self).spec_pixel(x as int, y as int) == c,
            forall|xx: int, yy: int|
                0 <= xx < 256 && 0 <= yy < 256 && !(xx == x && yy == y)
                    ==> #[trigger] final(self).spec_pixel(xx, yy) == old(self).spec_pixel(xx, yy),
    {
        let idx: usize = (y as usize) * 256 + (x as usize);
        proof {
            assert(idx < 65536) by (nonlinear_arith)
                requires
                    idx == y * 256 + x,
                    0 <= x < 256,
                    0 <= y < 256,
            ;
        }
        let elem = &mut self.pixels[idx];
        *elem = c;
        proof {
            assert forall|xx: int, yy: int|
                0 <= xx < 256 && 0 <= yy < 256 && !(xx == x && yy == y) implies #[trigger] self
                .spec_pixel(xx, yy) == old(self).spec_pixel(xx, yy) by {
                assert(yy * 256 + xx != y * 256 + x) by (nonlinear_arith)
                    requires
                        0 <= xx < 256,
                        0 <= yy < 256,
                        0 <= x < 256,
                        0 <= y < 256,
                        !(xx == x && yy == y),
                ;
                assert(0 <= yy * 256 + xx < 65536) by (nonlinear_arith)
                    requires
                        0 <= xx < 256,
                        0 <= yy < 256,
                ;
            }
        }
    }

    /// Reads one pixel.
    pub fn get_pixel(&self, x: u32, y: u32) -> (c: Color)
        requires
            self.wf(),
            x < 256,
            y < 256,
        ensures
            c == self.spec_pixel(x as int, y as int),
    {
        let idx: usize = (y as usize) * 256 + (x as usize);
        proof {
            assert(idx < 65536) by (nonlinear_arith)
                requires
                    idx == y * 256 + x,
                    0 <= x < 256,
                    0 <= y < 256,
            ;
        }
        self.pixels[idx]
    }
}

/// One rendered tile of the pyramid.
#[derive(Clone, Debug)]
pub struct TileOut {
    pub tile_x: u32,
    pub tile_y: u32,
    pub image: TileImage,
}

/// The tile a Mercator dot falls in at zoom `z`.
pub open spec fn dot_tile(d: MercDot, z: nat) -> (int, int) {
    (tile_index(d.mx as int, z), tile_index(d.my as int, z))
}

/// The pixel, within its tile, that a Mercator dot falls at.
pub open spec fn dot_pixel(d: MercDot, z: nat) -> (int, int) {
    (pixel_index(d.mx as int, z), pixel_index(d.my as int, z))
}

/// The pixels painted by the first `n` dots, keyed by tile and pixel
/// indices: each coloured dot overwrites its pixel in turn, so the last
/// writer wins, and dots of unregistered categories paint nothing.
pub open spec fn paint(dots: Seq<MercDot>, colors: Seq<CategoryColor>, z: nat, n: int) -> Map<
    (int, int, int, int),
    Color,
>
    decreases n,
{
    if n <= 0 {
        Map::empty()
    } else {
        let m = paint(dots, colors, z, n - 1);
        let d = dots[n - 1];
        match color_lookup(colors, d.category@) {
            Some(c) => m.insert(
                (dot_tile(d, z).0, dot_tile(d, z).1, dot_pixel(d, z).0, dot_pixel(d, z).1),
                c,
            ),
            None => m,
        }
    }
}

/// The tiles that the first `n` colour-configured dots fall in. A dot
/// whose category has no colour is dropped entirely and creates no tile,
/// keeping the pyramid sparse.
pub open spec fn touched(dots: Seq<MercDot>, colors: Seq<CategoryColor>, z: nat, n: int) -> Set<
    (int, int),
>
    decreases n,
{
    if n <= 0 {
        Set::empty()
    } else {
        let pre = touched(dots, colors, z, n - 1);
        match color_lookup(colors, dots[n - 1].category@) {
            Some(c) => pre.insert(dot_tile(dots[n - 1], z)),
            None => pre,
        }
    }
}

/// How a finished tile vector relates to the paint map and touched set of
/// the dots rendered into it: one well-formed tile per touched tile index,
/// each pixel holding its painted colour or staying transparent.
pub open spec fn tiles_represent(
    tiles: Seq<TileOut>,
    pm: Map<(int, int, int, int), Color>,
    ts: Set<(int, int)>,
) -> bool {
    &&& forall|a: int, b: int|
        0 <= a < b < tiles.len() ==> !(tiles[a].tile_x == tiles[b].tile_x && tiles[a].tile_y
            == tiles[b].tile_y)
    &&& forall|a: int|
        0 <= a < tiles.len() ==> (#[trigger] tiles[a].image).wf() && ts.contains(
            (tiles[a].tile_x as int, tiles[a].tile_y as int),
        )
    &&& forall|t: (int, int)| #[trigger]
        ts.contains(t) ==> exists|a: int|
            0 <= a < tiles.len() && (#[trigger] tiles[a]).tile_x == t.0 && tiles[a].tile_y == t.1
    &&& forall|a: int, px: int, py: int|
        0 <= a < tiles.len() && 0 <= px < 256 && 0 <= py < 256 ==> #[trigger] tiles[a].image
            .spec_pixel(px, py) == {
            let key = (tiles[a].tile_x as int, tiles[a].tile_y as int, px, py);
            if pm.contains_key(key) {
                pm[key]
            } else {
                transparent()
            }
        }
}

/// Recording a tile that is already present only grows the touched set.
proof fn lemma_represent_known_tile(
    tiles: Seq<TileOut>,
    pm: Map<(int, int, int, int), Color>,
    ts: Set<(int, int)>,
    idx: int,
)
    requires
        tiles_represent(tiles, pm, ts),
        0 <= idx < tiles.len(),
    ensures
        tiles_represent(
            tiles,
            pm,
            ts.insert((tiles[idx].tile_x as int, tiles[idx].tile_y as int)),
        ),
{
    let key = (tiles[idx].tile_x as int, tiles[idx].tile_y as int);
    let ts2 = ts.insert(key);
    assert forall|t: (int, int)| #[trigger] ts2.contains(t) implies exists|a: int|
        0 <= a < tiles.len() && (#[trigger] tiles[a]).tile_x == t.0 && tiles[a].tile_y
            == t.1 by {
        if t == key {
            assert(0 <= idx < tiles.len() && tiles[idx].tile_x == t.0 && tiles[idx].tile_y
                == t.1);
        } else {
            assert(ts.contains(t));
        }
    }
}

/// Appending a fresh, transparent, unpainted tile keeps the
/// representation, with its key added to the touched set.
proof fn lemma_represent_push(
    tiles: Seq<TileOut>,
    fresh: TileOut,
    pm: Map<(int, int, int, int), Color>,
    ts: Set<(int, int)>,
)
    requires
        tiles_represent(tiles, pm, ts),
        fresh.image.wf(),
        forall|x: int, y: int|
            0 <= x < 256 && 0 <= y < 256 ==> #[trigger] fresh.image.spec_pixel(x, y)
                == transparent(),
        forall|px: int, py: int|
            0 <= px < 256 && 0 <= py < 256 ==> !(#[trigger] pm.contains_key(
                (fresh.tile_x as int, fresh.tile_y as int, px, py),
            )),
        forall|a: int|
            0 <= a < tiles.len() ==> !((#[trigger] tiles[a]).tile_x == fresh.tile_x && tiles[a]
                .tile_y == fresh.tile_y),
    ensures
        tiles_represent(
            tiles.push(fresh),
            pm,
            ts.insert((fresh.tile_x as int, fresh.tile_y as int)),
        ),
{
    let tiles2 = tiles.push(fresh);
    let key = (fresh.tile_x as int, fresh.tile_y as int);
    let ts2 = ts.insert(key);
    assert(tiles2[tiles.len() as int] == fresh);
    assert(forall|a: int| 0 <= a < tiles.len() ==> tiles2[a] == tiles[a]);
    assert forall|t: (int, int)| #[trigger] ts2.contains(t) implies exists|a: int|
        0 <= a < tiles2.len() && (#[trigger] tiles2[a]).tile_x == t.0 && tiles2[a].tile_y
            == t.1 by {
        if t == key {
            assert(tiles2[tiles.len() as int].tile_x == t.0 && tiles2[tiles.len() as int].tile_y
                == t.1);
        } else {
            assert(ts.contains(t));
            let a = choose|a: int|
                0 <= a < tiles.len() && (#[trigger] tiles[a]).tile_x == t.0 && tiles[a].tile_y
                    == t.1;
            assert(tiles2[a].tile_x == t.0 && tiles2[a].tile_y == t.1);
        }
    }
    assert forall|a: int, px: int, py: int|
        0 <= a < tiles2.len() && 0 <= px < 256 && 0 <= py < 256 implies #[trigger] tiles2[a].image
        .spec_pixel(px, py) == {
        let k = (tiles2[a].tile_x as int, tiles2[a].tile_y as int, px, py);
        if pm.contains_key(k) {
            pm[k]
        } else {
            transparent()
        }
    } by {
        if a < tiles.len() {
            assert(tiles[a].image.spec_pixel(px, py) == {
                let k = (tiles[a].tile_x as int, tiles[a].tile_y as int, px, py);
                if pm.contains_key(k) {
                    pm[k]
                } else {
                    transparent()
                }
            });
        } else {
            assert(!pm.contains_key((fresh.tile_x as int, fresh.tile_y as int, px, py)));
        }
    }
}

/// Painting one pixel of the tile at `idx` tracks an insertion into the
/// paint map.
proof fn lemma_represent_paint(
    tiles: Seq<TileOut>,
    tiles2: Seq<TileOut>,
    pm: Map<(int, int, int, int), Color>,
    ts: Set<(int, int)>,
    idx: int,
    px: int,
    py: int,
    c: Color,
)
    requires
        tiles_represent(tiles, pm, ts),
        0 <= idx < tiles.len(),
        0 <= px < 256,
        0 <= py < 256,
        tiles2.len() == tiles.len(),
        forall|a: int| 0 <= a < tiles.len() && a != idx ==> #[trigger] tiles2[a] == tiles[a],
        tiles2[idx].tile_x == tiles[idx].tile_x,
        tiles2[idx].tile_y == tiles[idx].tile_y,
        tiles2[idx].image.wf(),
        tiles2[idx].image.spec_pixel(px, py) == c,
        forall|xx: int, yy: int|
            0 <= xx < 256 && 0 <= yy < 256 && !(xx == px && yy == py)
                ==> #[trigger] tiles2[idx].image.spec_pixel(xx, yy) == tiles[idx].image.spec_pixel(
                xx,
                yy,
            ),
    ensures
        tiles_represent(
            tiles2,
            pm.insert((tiles[idx].tile_x as int, tiles[idx].tile_y as int, px, py), c),
            ts,
        ),
{
    let key = (tiles[idx].tile_x as int, tiles[idx].tile_y as int, px, py);
    let pm2 = pm.insert(key, c);
    assert forall|t: (int, int)| #[trigger] ts.contains(t) implies exists|a: int|
        0 <= a < tiles2.len() && (#[trigger] tiles2[a]).tile_x == t.0 && tiles2[a].tile_y
            == t.1 by {
        let a = choose|a: int|
            0 <= a < tiles.len() && (#[trigger] tiles[a]).tile_x == t.0 && tiles[a].tile_y == t.1;
        assert(tiles2[a].tile_x == t.0 && tiles2[a].tile_y == t.1);
    }
    assert forall|a: int, xx: int, yy: int|
        0 <= a < tiles2.len() && 0 <= xx < 256 && 0 <= yy < 256 implies #[trigger] tiles2[a].image
        .spec_pixel(xx, yy) == {
        let k = (tiles2[a].tile_x as int, tiles2[a].tile_y as int, xx, yy);
        if pm2.contains_key(k) {
            pm2[k]
        } else {
            transparent()
        }
    } by {
        assert(tiles[a].image.spec_pixel(xx, yy) == {
            let k = (tiles[a].tile_x as int, tiles[a].tile_y as int, xx, yy);
            if pm.contains_key(k) {
                pm[k]
            } else {
                transparent()
            }
        });
        if a == idx {
            if !(xx == px && yy == py) {
                assert(tiles2[a].image.spec_pixel(xx, yy) == tiles[a].image.spec_pixel(xx, yy));
            }
        } else {
            assert(tiles2[a] == tiles[a]);
            assert(!(tiles[a].tile_x == tiles[idx].tile_x && tiles[a].tile_y
                == tiles[idx].tile_y)) by {
                if a < idx {
                    assert(!(tiles[a].tile_x == tiles[idx].tile_x && tiles[a].tile_y
                        == tiles[idx].tile_y));
                } else {
                    assert(!(tiles[idx].tile_x == tiles[a].tile_x && tiles[idx].tile_y
                        == tiles[a].tile_y));
                }
            }
        }
    }
    assert forall|a: int, b: int|
        0 <= a < b < tiles2.len() implies !(tiles2[a].tile_x == tiles2[b].tile_x
        && tiles2[a].tile_y == tiles2[b].tile_y) by {
        assert(tiles2[a].tile_x == tiles[a].tile_x && tiles2[a].tile_y == tiles[a].tile_y);
        assert(tiles2[b].tile_x == tiles[b].tile_x && tiles2[b].tile_y == tiles[b].tile_y);
    }
    assert forall|a: int| 0 <= a < tiles2.len() implies (#[trigger] tiles2[a].image).wf()
        && ts.contains((tiles2[a].tile_x as int, tiles2[a].tile_y as int)) by {
        assert(tiles[a].image.wf() && ts.contains((tiles[a].tile_x as int,
        tiles[a].tile_y as int)));
    }
}

/// Finds the tile with the given indices, if it is already present.
fn find_tile(tiles: &Vec<TileOut>, x: u32, y: u32) -> (r: Option<usize>)
    ensures
        r matches Some(a) ==> a < tiles@.len() && tiles@[a as int].tile_x == x
            && tiles@[a as int].tile_y == y,
        r is None ==> forall|a: int|
            0 <= a < tiles@.len() ==> !((#[trigger] tiles@[a]).tile_x == x && tiles@[a].tile_y
                == y),
{
    let n = tiles.len();
    for i in 0..n
        invariant
            forall|a: int|
                0 <= a < i ==> !((#[trigger] tiles@[a]).tile_x == x && tiles@[a].tile_y == y),
    {
        if tiles[i].tile_x == x && tiles[i].tile_y == y {
            return Some(i);
        }
    }
    None
}

/// Rasterizes one zoom level: paints every dot whose category has a colour
/// into its tile's pixel, in order, creating each tile as its first
/// coloured dot arrives. Dots of unconfigured categories are dropped and
/// create nothing, so the result holds exactly the tiles where a coloured
/// dot landed — a sparse pyramid — every unpainted pixel transparent.
#[verifier::rlimit(80)]
pub fn render_zoom_level(dots: &Vec<MercDot>, colors: &Vec<CategoryColor>, zoom: u8) -> (tiles:
    Vec<TileOut>)
    requires
        zoom <= MAX_ZOOM,
        forall|i: int| 0 <= i < dots@.len() ==> dot_ok(#[trigger] dots@[i]),
    ensures
        tiles_represent(
            tiles@,
            paint(dots@, colors@, zoom as nat, dots@.len() as int),
            touched(dots@, colors@, zoom as nat, dots@.len() as int),
        ),
{
    let mut tiles: Vec<TileOut> = Vec::new();
    let n = dots.len();
    for i in 0..n
        invariant
            zoom <= MAX_ZOOM,
            forall|t: int| 0 <= t < dots@.len() ==> dot_ok(#[trigger] dots@[t]),
            tiles_represent(
                tiles@,
                paint(dots@, colors@, zoom as nat, i as int),
                touched(dots@, colors@, zoom as nat, i as int),
            ),
    {
        let d = &dots[i];
        let ghost pm_pre = paint(dots@, colors@, zoom as nat, i as int);
        let ghost ts_pre = touched(dots@, colors@, zoom as nat, i as int);
        let color = lookup_color(colors, &d.category);
        match color {
            None => {
                // A dot of an unconfigured category paints nothing and
                // creates no tile.
                proof {
                    let z = zoom as nat;
                    assert(dots@[i as int] == *d);
                    assert(paint(dots@, colors@, z, i + 1 as int) == pm_pre);
                    assert(touched(dots@, colors@, z, i + 1 as int) == ts_pre);
                }
            },
            Some(c) => {
                let (tx, px) = tile_pixel(d.mx, zoom);
                let (ty, py) = tile_pixel(d.my, zoom);
                let idx: usize = match find_tile(&tiles, tx, ty) {
                    Some(a) => {
                        proof {
                            lemma_represent_known_tile(tiles@, pm_pre, ts_pre, a as int);
                        }
                        a
                    },
                    None => {
                        let fresh_img = TileImage::new_tile();
                        let fresh = TileOut { tile_x: tx, tile_y: ty, image: fresh_img };
                        proof {
                            // The new tile's key was not yet touched, so
                            // nothing was painted on it either.
                            assert(!ts_pre.contains((tx as int, ty as int))) by {
                                if ts_pre.contains((tx as int, ty as int)) {
                                    let a = choose|a: int|
                                        0 <= a < tiles@.len() && (#[trigger] tiles@[a]).tile_x
                                            == tx && tiles@[a].tile_y == ty;
                                    assert(false);
                                }
                            }
                            assert forall|px2: int, py2: int|
                                0 <= px2 < 256 && 0 <= py2 < 256 implies !(
                            #[trigger] pm_pre.contains_key(
                                (fresh.tile_x as int, fresh.tile_y as int, px2, py2),
                            )) by {
                                lemma_paint_touch(dots@, colors@, zoom as nat, i as int, tx as int,
                                    ty as int, px2, py2);
                            }
                            lemma_represent_push(tiles@, fresh, pm_pre, ts_pre);
                        }
                        tiles.push(fresh);
                        tiles.len() - 1
                    },
                };
                let ghost tiles_mid = tiles@;
                proof {
                    assert(tiles_mid[idx as int].tile_x == tx && tiles_mid[idx as int].tile_y
                        == ty);
                    assert(tiles_represent(
                        tiles_mid,
                        pm_pre,
                        ts_pre.insert((tx as int, ty as int)),
                    ));
                }
                let img = &mut tiles[idx].image;
                img.put_pixel(px, py, c);
                proof {
                    lemma_represent_paint(
                        tiles_mid,
                        tiles@,
                        pm_pre,
                        ts_pre.insert((tx as int, ty as int)),
                        idx as int,
                        px as int,
                        py as int,
                        c,
                    );
                    let z = zoom as nat;
                    assert(dots@[i as int] == *d);
                    assert(color_lookup(colors@, d.category@) == Some(c));
                    assert(paint(dots@, colors@, z, i + 1 as int) == pm_pre.insert(
                        (tx as int, ty as int, px as int, py as int),
                        c,
                    ));
                    assert(touched(dots@, colors@, z, i + 1 as int) =~= ts_pre.insert(
                        (tx as int, ty as int),
                    ));
                }
            },
        }
    }
    tiles
}

/// A sequence with no element satisfying the predicate filters to nothing.
proof fn lemma_filter_empty(s: Seq<Dot>, pred: spec_fn(Dot) -> bool)
    requires
        forall|q: int| 0 <= q < s.len() ==> !pred(#[trigger] s[q]),
    ensures
        s.filter(pred) == Seq::<Dot>::empty(),
    decreases s.len(),
{
    reveal(Seq::filter);
    if s.len() > 0 {
        assert(forall|q: int| 0 <= q < s.len() - 1 ==> #[trigger] s.drop_last()[q] == s[q]);
        lemma_filter_empty(s.drop_last(), pred);
    }
}

/// Whether some group carries the dot's dataset name.
pub open spec fn dataset_grouped(groups: Seq<(String, Vec<Dot>)>, d: Dot) -> bool {
    exists|e: int| 0 <= e < groups.len() && (#[trigger] groups[e]).0@ == d.dataset@
}

/// Splits the dots by dataset name, first appearance first: group keys are
/// distinct, each group holds exactly the input's dots of its dataset in
/// input order, and every dot's dataset has a group.
pub fn partition_by_dataset(dots: Vec<Dot>) -> (groups: Vec<(String, Vec<Dot>)>)
    ensures
        forall|a: int, b: int|
            0 <= a < b < groups@.len() ==> (#[trigger] groups@[a]).0@ != (
            #[trigger] groups@[b]).0@,
        forall|e: int|
            0 <= e < groups@.len() ==> (#[trigger] groups@[e]).1@ == dots@.filter(
                |d: Dot| d.dataset@ == groups@[e].0@,
            ),
        forall|k: int| 0 <= k < dots@.len() ==> dataset_grouped(groups@, #[trigger] dots@[k]),
{
    let ghost dots0 = dots@;
    let mut groups: Vec<(String, Vec<Dot>)> = Vec::new();
    let mut pending = dots;
    let n = pending.len();
    for i in 0..n
        invariant
            n == dots0.len(),
            pending@ =~= dots0.skip(i as int),
            forall|a: int, b: int|
                0 <= a < b < groups@.len() ==> (#[trigger] groups@[a]).0@ != (
                #[trigger] groups@[b]).0@,
            forall|e: int|
                0 <= e < groups@.len() ==> (#[trigger] groups@[e]).1@ == dots0.take(
                    i as int,
                ).filter(|d: Dot| d.dataset@ == groups@[e].0@),
            forall|k: int| 0 <= k < i ==> dataset_grouped(groups@, #[trigger] dots0[k]),
    {
        let d = pending.remove(0);
        proof {
            assert(dots0.skip(i as int)[0] == d);
            assert(dots0[i as int] == d);
            assert(pending@ =~= dots0.skip(i + 1));
            assert(dots0.take(i + 1).drop_last() =~= dots0.take(i as int));
            assert(dots0.take(i + 1).last() == d);
        }
        let mut found: Option<usize> = None;
        let ng = groups.len();
        for e in 0..ng
            invariant
                ng == groups@.len(),
                found is None ==> forall|q: int|
                    0 <= q < e ==> (#[trigger] groups@[q]).0@ != d.dataset@,
                found matches Some(f) ==> f < groups@.len() && groups@[f as int].0@ == d.dataset@,
        {
            if found.is_none() && str_eq(&groups[e].0, d.dataset.as_str()) {
                found = Some(e);
            }
        }
        let ghost groups_pre = groups@;
        match found {
            Some(f) => {
                let slot = &mut groups[f];
                slot.1.push(d);
                proof {
                    assert(forall|q: int|
                        0 <= q < groups@.len() && q != f ==> #[trigger] groups@[q]
                            == groups_pre[q]);
                    assert(groups@[f as int].0@ == d.dataset@);
                    assert(groups@[f as int].1@ == groups_pre[f as int].1@.push(d));
                }
            },
            None => {
                let mut fresh: Vec<Dot> = Vec::new();
                let key = d.dataset.clone();
                fresh.push(d);
                groups.push((key, fresh));
                proof {
                    assert(forall|q: int|
                        0 <= q < groups_pre.len() ==> #[trigger] groups@[q] == groups_pre[q]);
                    assert(groups@[groups@.len() - 1].0@ == dots0[i as int].dataset@);
                    assert(groups@[groups@.len() - 1].1@ =~= Seq::<Dot>::empty().push(
                        dots0[i as int],
                    ));
                }
            },
        }
        proof {
            reveal(Seq::filter);
            assert forall|e: int| 0 <= e < groups@.len() implies (#[trigger] groups@[e]).1@
                == dots0.take(i + 1).filter(|dd: Dot| dd.dataset@ == groups@[e].0@) by {
                let pred = |dd: Dot| dd.dataset@ == groups@[e].0@;
                assert(dots0.take(i + 1).filter(pred) == if pred(dots0[i as int]) {
                    dots0.take(i as int).filter(pred).push(dots0[i as int])
                } else {
                    dots0.take(i as int).filter(pred)
                });
                match found {
                    Some(f) => {
                        if e == f as int {
                            assert(groups@[e].1@ == groups_pre[e].1@.push(dots0[i as int]));
                        } else {
                            assert(groups@[e] == groups_pre[e]);
                            assert(groups@[e].0@ != groups@[f as int].0@) by {
                                if e < f as int {
                                } else {
                                }
                            }
                            assert(!pred(dots0[i as int]));
                        }
                    },
                    None => {
                        if e == groups@.len() - 1 {
                            // No earlier dot carries the new key, so the
                            // prefix filters to nothing under it.
                            assert forall|q: int|
                                0 <= q < i implies !pred(
                                #[trigger] dots0.take(i as int)[q],
                            ) by {
                                if dots0[q].dataset@ == groups@[e].0@ {
                                    let e0 = choose|e0: int|
                                        0 <= e0 < groups_pre.len() && (
                                        #[trigger] groups_pre[e0]).0@ == dots0[q].dataset@;
                                    assert(groups_pre[e0].0@ != d.dataset@);
                                }
                            }
                            lemma_filter_empty(dots0.take(i as int), pred);
                            assert(groups@[e].1@ =~= dots0.take(i as int).filter(pred).push(
                                dots0[i as int],
                            ));
                        } else {
                            assert(groups@[e] == groups_pre[e]);
                            assert(groups@[e].0@ != d.dataset@);
                            assert(!pred(dots0[i as int]));
                        }
                    },
                }
            }
            assert forall|k: int| 0 <= k < i + 1 implies dataset_grouped(
                groups@,
                #[trigger] dots0[k],
            ) by {
                if k < i {
                    assert(dataset_grouped(groups_pre, dots0[k]));
                    let e0 = choose|e0: int|
                        0 <= e0 < groups_pre.len() && (#[trigger] groups_pre[e0]).0@
                            == dots0[k].dataset@;
                    assert(groups@[e0].0@ == groups_pre[e0].0@);
                } else {
                    match found {
                        Some(f) => {
                            assert(groups@[f as int].0@ == dots0[i as int].dataset@);
                        },
                        None => {
                            assert(groups@[groups@.len() - 1].0@ == dots0[i as int].dataset@);
                        },
                    }
                }
            }
        }
    }
    proof {
        assert(dots0.take(n as int) =~= dots0);
        assert(dots0 == dots@);
        assert forall|k: int| 0 <= k < dots@.len() implies dataset_grouped(
            groups@,
            #[trigger] dots@[k],
        ) by {
            assert(dots@[k] == dots0[k]);
            assert(dataset_grouped(groups@, dots0[k]));
        }
    }
    groups
}

/// The colour table of one dataset: each configured category under the
/// colour its hex code denotes. Every code must keep six bytes after
/// stripping any leading `#`.
pub fn dataset_colors(cfg: &DatasetConfig) -> (colors: Vec<CategoryColor>)
    requires
        forall|i: int|
            0 <= i < cfg.categories@.len() ==> strip_hash(
                encode_utf8((#[trigger] cfg.categories@[i]).color@),
            ).len() >= 6,
    ensures
        colors@.len() == cfg.categories@.len(),
        forall|i: int|
            0 <= i < cfg.categories@.len() ==> (#[trigger] colors@[i]).name@
                == cfg.categories@[i].name@ && colors@[i].color == color_of_hex(
                encode_utf8(cfg.categories@[i].color@),
            ),
{
    let mut colors: Vec<CategoryColor> = Vec::new();
    let n = cfg.categories.len();
    for i in 0..n
        invariant
            n == cfg.categories@.len(),
            colors@.len() == i,
            forall|q: int|
                0 <= q < cfg.categories@.len() ==> strip_hash(
                    encode_utf8((#[trigger] cfg.categories@[q]).color@),
                ).len() >= 6,
            forall|q: int|
                0 <= q < i ==> (#[trigger] colors@[q]).name@ == cfg.categories@[q].name@
                    && colors@[q].color == color_of_hex(encode_utf8(cfg.categories@[q].color@)),
    {
        let cat = &cfg.categories[i];
        let c = hex_to_rgba(cat.color.as_str());
        colors.push(CategoryColor { name: cat.name.clone(), color: c });
    }
    colors
}

/// A pixel of a tile outside the touched set carries no paint.
proof fn lemma_paint_touch(
    dots: Seq<MercDot>,
    colors: Seq<CategoryColor>,
    z: nat,
    n: int,
    tx: int,
    ty: int,
    px: int,
    py: int,
)
    requires
        !touched(dots, colors, z, n).contains((tx, ty)),
    ensures
        !paint(dots, colors, z, n).contains_key((tx, ty, px, py)),
    decreases n,
{
    if n > 0 {
        lemma_paint_touch(dots, colors, z, n - 1, tx, ty, px, py);
    }
}

} // verus!
