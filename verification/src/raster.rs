//! Frames drawn in software.

use crate::arrange::views;
use crate::assembly::{EmoteStaticScene, Scene};
use crate::mesh::Point;
use crate::place::{scene_bounds, EmoteSceneBounds, Stand};
use crate::scene::EmoteDrawPass;
use crate::single::Single;
use crate::texture::{
    find_slot, is_loaded, slot_in, DecodedTexture, Loaded, ModelTexture, Pixels,
};
use crate::vertices::SpriteVertex;
use vstd::prelude::*;

verus! {

/// Twice the signed area of a triangle.
pub open spec fn spec_edge(a: Point, b: Point, c: Point) -> Single {
    c.x.minus(a.x).times(b.y.minus(a.y)).minus(c.y.minus(a.y).times(b.x.minus(a.x)))
}

#[verifier::when_used_as_spec(spec_edge)]
pub fn edge(a: Point, b: Point, c: Point) -> (r: Single)
    ensures
        r == spec_edge(a, b, c),
{
    c.x.minus(a.x).times(b.y.minus(a.y)).minus(c.y.minus(a.y).times(b.x.minus(a.x)))
}

/// The last place of a row as a number.
pub open spec fn spec_last_place(n: u32) -> Single {
    Single::spec_from_i64(n as i64).minus(Single::one())
}

#[verifier::when_used_as_spec(spec_last_place)]
pub fn last_place(n: u32) -> (r: Single)
    ensures
        r == spec_last_place(n),
{
    Single::from_i64(n as i64).minus(Single::one())
}

/// A point of the model on a screen that shows the bounds.
pub open spec fn spec_on_screen(p: Point, bounds: EmoteSceneBounds, width: u32, height: u32) -> Point {
    let sx = p.x.minus(bounds.min_x).over(bounds.width().max(Single::epsilon()));
    let sy = p.y.minus(bounds.min_y).over(bounds.height().max(Single::epsilon()));
    Point { x: sx.times(last_place(width)), y: sy.times(last_place(height)) }
}

#[verifier::when_used_as_spec(spec_on_screen)]
pub fn on_screen(p: Point, bounds: EmoteSceneBounds, width: u32, height: u32) -> (r: Point)
    ensures
        r == spec_on_screen(p, bounds, width, height),
{
    let sx = p.x.minus(bounds.min_x).over(bounds.width().max(Single::epsilon()));
    let sy = p.y.minus(bounds.min_y).over(bounds.height().max(Single::epsilon()));
    Point { x: sx.times(last_place(width)), y: sy.times(last_place(height)) }
}

/// The smaller of two places.
pub open spec fn smaller(a: nat, b: nat) -> nat {
    if a < b {
        a
    } else {
        b
    }
}

/// The first place that a triangle can reach.
pub open spec fn first_place(a: Single, b: Single, c: Single) -> nat {
    a.min(b).min(c).whole_part(u32::MAX as nat)
}

/// The whole number at or above a number, held in `[0, high]`.
pub open spec fn upper_part(x: Single, high: nat) -> nat {
    let n = x.whole_part(high);
    if x.is_finite() && !x.is_negative() && !x.is_whole() && n < high {
        n + 1
    } else {
        n
    }
}

/// The last place that a triangle can reach in a row of `n` places.
pub open spec fn final_place(a: Single, b: Single, c: Single, n: u32) -> nat {
    let most = a.max(b).max(c);
    let end = last_place(n).whole_part(u32::MAX as nat);
    let reached = if most.is_nan() {
        end
    } else {
        smaller(upper_part(most, u32::MAX as nat), end)
    };
    smaller(reached, (n - 1) as nat)
}

fn find_first(a: Single, b: Single, c: Single) -> (r: u32)
    ensures
        r == first_place(a, b, c),
{
    a.min(b).min(c).whole(u32::MAX as u64) as u32
}

fn find_upper(x: Single) -> (r: u32)
    ensures
        r == upper_part(x, u32::MAX as nat),
{
    let n = x.whole(u32::MAX as u64) as u32;
    if x.is_finite() && !x.is_negative() && !x.is_whole() && n < u32::MAX {
        n + 1
    } else {
        n
    }
}

fn find_final(a: Single, b: Single, c: Single, n: u32) -> (r: u32)
    requires
        n > 0,
    ensures
        r == final_place(a, b, c, n),
        r < n,
{
    let most = a.max(b).max(c);
    let end = last_place(n).whole(u32::MAX as u64) as u32;
    let upper = if most.is_nan() {
        end
    } else {
        find_upper(most)
    };
    let reached = if upper < end {
        upper
    } else {
        end
    };
    if reached < n - 1 {
        reached
    } else {
        n - 1
    }
}

/// A triangle on the screen.
#[derive(Clone, Copy, Debug)]
pub struct ScreenTriangle {
    pub a: Point,
    pub b: Point,
    pub c: Point,
    pub area: Single,
    pub corners: (SpriteVertex, SpriteVertex, SpriteVertex),
}

/// The shares of the three corners at a place, none outside the triangle.
pub open spec fn spec_shares(t: ScreenTriangle, x: u32, y: u32) -> Option<(Single, Single, Single)> {
    let p = Point {
        x: Single::spec_from_i64(x as i64).plus(Single::half()),
        y: Single::spec_from_i64(y as i64).plus(Single::half()),
    };
    let w0 = edge(t.b, t.c, p).over(t.area);
    let w1 = edge(t.c, t.a, p).over(t.area);
    let w2 = edge(t.a, t.b, p).over(t.area);
    if w0.lt(tolerance()) || w1.lt(tolerance()) || w2.lt(tolerance()) {
        None
    } else {
        Some((w0, w1, w2))
    }
}

/// A ten-thousandth below zero, down to which a share counts as inside.
#[verifier::allow_in_spec]
pub fn tolerance() -> (r: Single)
    returns
        (Single { bits: 0xb8d1_b717 }),
{
    Single { bits: 0xb8d1_b717 }
}

/// Two hundred and fifty-five, the value of a full channel.
#[verifier::allow_in_spec]
pub fn full_channel() -> (r: Single)
    returns
        (Single { bits: 0x437f_0000 }),
{
    Single { bits: 0x437f_0000 }
}

#[verifier::when_used_as_spec(spec_shares)]
pub fn shares(t: ScreenTriangle, x: u32, y: u32) -> (r: Option<(Single, Single, Single)>)
    ensures
        r == spec_shares(t, x, y),
{
    let p = Point {
        x: Single::from_i64(x as i64).plus(Single::half()),
        y: Single::from_i64(y as i64).plus(Single::half()),
    };
    let w0 = edge(t.b, t.c, p).over(t.area);
    let w1 = edge(t.c, t.a, p).over(t.area);
    let w2 = edge(t.a, t.b, p).over(t.area);
    if w0.lt(tolerance()) || w1.lt(tolerance()) || w2.lt(tolerance()) {
        None
    } else {
        Some((w0, w1, w2))
    }
}

/// A mean of three values.
pub open spec fn spec_mixed(w: (Single, Single, Single), a: Single, b: Single, c: Single) -> Single {
    a.times(w.0).plus(b.times(w.1)).plus(c.times(w.2))
}

#[verifier::when_used_as_spec(spec_mixed)]
pub fn mixed(w: (Single, Single, Single), a: Single, b: Single, c: Single) -> (r: Single)
    ensures
        r == spec_mixed(w, a, b, c),
{
    a.times(w.0).plus(b.times(w.1)).plus(c.times(w.2))
}

/// The place in a texture of `n` places that a coordinate means.
pub open spec fn texel(u: Single, n: u32) -> nat {
    smaller(
        u.clamp(Single::zero(), Single::one()).times(last_place(n)).rounded_into(
            0,
            u32::MAX as int,
        ) as nat,
        (n - 1) as nat,
    )
}

fn find_texel(u: Single, n: u32) -> (r: u32)
    requires
        n > 0,
    ensures
        r == texel(u, n),
        r < n,
{
    let k = u.clamp(Single::zero(), Single::one()).times(last_place(n)).rounded(
        0,
        u32::MAX as i64,
    );
    if k < (n - 1) as i64 {
        k as u32
    } else {
        n - 1
    }
}

/// A channel as a share of a full one.
pub open spec fn spec_share_of(v: u8) -> Single {
    Single::spec_from_i64(v as i64).over(full_channel())
}

#[verifier::when_used_as_spec(spec_share_of)]
pub fn share_of(v: u8) -> (r: Single)
    ensures
        r == spec_share_of(v),
{
    Single::from_i64(v as i64).over(full_channel())
}

/// A channel laid over another.
pub open spec fn blended(src: u8, dst: u8, alpha: Single) -> u8 {
    share_of(src).times(alpha).plus(share_of(dst).times(Single::one().minus(alpha))).times(
        full_channel(),
    ).rounded_into(0, 255) as u8
}

fn blend(src: u8, dst: u8, alpha: Single) -> (r: u8)
    ensures
        r == blended(src, dst, alpha),
{
    share_of(src).times(alpha).plus(share_of(dst).times(Single::one().minus(alpha))).times(
        full_channel(),
    ).rounded(0, 255) as u8
}

/// Where the pixel at a place of a picture starts.
pub open spec fn pixel_at(width: u32, x: nat, y: nat) -> int {
    (y * width + x) * 4
}

/// A picture with the pixel at a place drawn.
pub open spec fn painted(
    target: Seq<u8>,
    width: u32,
    t: ScreenTriangle,
    texture: Pixels,
    x: u32,
    y: u32,
) -> Seq<u8> {
    match shares(t, x, y) {
        None => target,
        Some(w) => {
            let (a, b, c) = t.corners;
            let tx = texel(mixed(w, a.texcoord.x, b.texcoord.x, c.texcoord.x), texture.width);
            let ty = texel(mixed(w, a.texcoord.y, b.texcoord.y, c.texcoord.y), texture.height);
            let src = pixel_at(texture.width, tx, ty);
            let dst = pixel_at(width, x as nat, y as nat);
            let alpha = share_of(texture.rgba[src + 3]).times(
                mixed(w, a.alpha, b.alpha, c.alpha),
            );
            if alpha.le(Single::zero()) {
                target
            } else {
                target.update(dst, blended(texture.rgba[src], target[dst], alpha)).update(
                    dst + 1,
                    blended(texture.rgba[src + 1], target[dst + 1], alpha),
                ).update(dst + 2, blended(texture.rgba[src + 2], target[dst + 2], alpha)).update(
                    dst + 3,
                    255,
                )
            }
        },
    }
}

/// The pixel of a place lies within a picture.
proof fn lemma_pixel_inside(width: u32, height: u32, x: nat, y: nat)
    requires
        x < width,
        y < height,
    ensures
        0 <= pixel_at(width, x, y),
        pixel_at(width, x, y) + 4 <= 4 * width * height,
{
    assert((y * width + x) * 4 + 4 <= 4 * width * height) by (nonlinear_arith)
        requires
            x < width,
            y < height,
            x >= 0,
            y >= 0,
    ;
    assert(y * width >= 0) by (nonlinear_arith)
        requires
            y >= 0,
            width >= 0,
    ;
}

fn paint(
    target: &mut Vec<u8>,
    width: u32,
    height: u32,
    t: ScreenTriangle,
    texture: &DecodedTexture,
    x: u32,
    y: u32,
)
    requires
        old(target)@.len() == 4 * width * height,
        x < width,
        y < height,
        texture@.wf(),
        texture.width > 0,
        texture.height > 0,
    ensures
        final(target)@ == painted(old(target)@, width, t, texture@, x, y),
        final(target)@.len() == old(target)@.len(),
{
    let w = match shares(t, x, y) {
        None => {
            return;
        },
        Some(w) => w,
    };
    let (a, b, c) = t.corners;
    let tx = find_texel(mixed(w, a.texcoord.x, b.texcoord.x, c.texcoord.x), texture.width);
    let ty = find_texel(mixed(w, a.texcoord.y, b.texcoord.y, c.texcoord.y), texture.height);
    proof {
        lemma_pixel_inside(texture.width, texture.height, tx as nat, ty as nat);
        lemma_pixel_inside(width, height, x as nat, y as nat);
        assert(ty * texture.width >= 0) by (nonlinear_arith)
            requires
                ty >= 0,
                texture.width >= 0,
        ;
        assert(y * width >= 0) by (nonlinear_arith)
            requires
                y >= 0,
                width >= 0,
        ;
        assert(texture.rgba@.len() == texture.rgba.len());
        assert(target@.len() == target.len());
    }
    let texture_len: usize = texture.rgba.len();
    let target_len: usize = target.len();
    let src: usize = (ty as usize * texture.width as usize + tx as usize) * 4;
    let dst: usize = (y as usize * width as usize + x as usize) * 4;
    let alpha = share_of(texture.rgba[src + 3]).times(mixed(w, a.alpha, b.alpha, c.alpha));
    if alpha.le(Single::zero()) {
        return;
    }
    let red = blend(texture.rgba[src], target[dst], alpha);
    let green = blend(texture.rgba[src + 1], target[dst + 1], alpha);
    let blue = blend(texture.rgba[src + 2], target[dst + 2], alpha);
    target.set(dst, red);
    target.set(dst + 1, green);
    target.set(dst + 2, blue);
    target.set(dst + 3, 255);
}

/// A picture with `n` pixels of a row drawn.
pub open spec fn painted_row(
    target: Seq<u8>,
    width: u32,
    t: ScreenTriangle,
    texture: Pixels,
    y: u32,
    from: nat,
    n: nat,
) -> Seq<u8>
    decreases n,
{
    if n == 0 {
        target
    } else {
        painted(
            painted_row(target, width, t, texture, y, from, (n - 1) as nat),
            width,
            t,
            texture,
            (from + n - 1) as u32,
            y,
        )
    }
}

/// A picture with `m` rows of `n` pixels drawn.
pub open spec fn painted_rows(
    target: Seq<u8>,
    width: u32,
    t: ScreenTriangle,
    texture: Pixels,
    from_x: nat,
    n: nat,
    from_y: nat,
    m: nat,
) -> Seq<u8>
    decreases m,
{
    if m == 0 {
        target
    } else {
        painted_row(
            painted_rows(target, width, t, texture, from_x, n, from_y, (m - 1) as nat),
            width,
            t,
            texture,
            (from_y + m - 1) as u32,
            from_x,
            n,
        )
    }
}

/// How many places lie between two, both counted.
pub open spec fn span(from: nat, to: nat) -> nat {
    if from <= to {
        (to - from + 1) as nat
    } else {
        0
    }
}

/// A triangle of the model on the screen.
pub open spec fn spec_screen_triangle(
    bounds: EmoteSceneBounds,
    width: u32,
    height: u32,
    a: SpriteVertex,
    b: SpriteVertex,
    c: SpriteVertex,
) -> ScreenTriangle {
    let p0 = on_screen(a.position, bounds, width, height);
    let p1 = on_screen(b.position, bounds, width, height);
    let p2 = on_screen(c.position, bounds, width, height);
    ScreenTriangle { a: p0, b: p1, c: p2, area: edge(p0, p1, p2), corners: (a, b, c) }
}

#[verifier::when_used_as_spec(spec_screen_triangle)]
pub fn screen_triangle(
    bounds: EmoteSceneBounds,
    width: u32,
    height: u32,
    a: SpriteVertex,
    b: SpriteVertex,
    c: SpriteVertex,
) -> (r: ScreenTriangle)
    ensures
        r == spec_screen_triangle(bounds, width, height, a, b, c),
{
    let p0 = on_screen(a.position, bounds, width, height);
    let p1 = on_screen(b.position, bounds, width, height);
    let p2 = on_screen(c.position, bounds, width, height);
    ScreenTriangle { a: p0, b: p1, c: p2, area: edge(p0, p1, p2), corners: (a, b, c) }
}

/// A picture with a triangle drawn; one without area is left out.
pub open spec fn with_triangle(
    target: Seq<u8>,
    width: u32,
    height: u32,
    t: ScreenTriangle,
    texture: Pixels,
) -> Seq<u8> {
    if t.area.abs().le(Single::epsilon()) {
        target
    } else {
        let x0 = first_place(t.a.x, t.b.x, t.c.x);
        let x1 = final_place(t.a.x, t.b.x, t.c.x, width);
        let y0 = first_place(t.a.y, t.b.y, t.c.y);
        let y1 = final_place(t.a.y, t.b.y, t.c.y, height);
        painted_rows(target, width, t, texture, x0, span(x0, x1), y0, span(y0, y1))
    }
}

/// Draws a triangle.
pub fn raster_triangle(
    target: &mut Vec<u8>,
    width: u32,
    height: u32,
    t: ScreenTriangle,
    texture: &DecodedTexture,
)
    requires
        old(target)@.len() == 4 * width * height,
        width > 0,
        height > 0,
        texture@.wf(),
        texture.width > 0,
        texture.height > 0,
    ensures
        final(target)@ == with_triangle(old(target)@, width, height, t, texture@),
        final(target)@.len() == old(target)@.len(),
{
    if t.area.abs().le(Single::epsilon()) {
        return;
    }
    let x0 = find_first(t.a.x, t.b.x, t.c.x);
    let x1 = find_final(t.a.x, t.b.x, t.c.x, width);
    let y0 = find_first(t.a.y, t.b.y, t.c.y);
    let y1 = find_final(t.a.y, t.b.y, t.c.y, height);
    if y0 > y1 {
        return;
    }
    let ghost start = target@;
    let ghost n = span(x0 as nat, x1 as nat);
    let rows: u32 = y1 - y0 + 1;
    let mut j: u32 = 0;
    while j < rows
        invariant
            j <= rows,
            rows == y1 - y0 + 1,
            y0 <= y1 < height,
            x1 < width,
            n == span(x0 as nat, x1 as nat),
            target@.len() == 4 * width * height,
            start.len() == target@.len(),
            texture@.wf(),
            texture.width > 0,
            texture.height > 0,
            target@ == painted_rows(
                start,
                width,
                t,
                texture@,
                x0 as nat,
                n,
                y0 as nat,
                j as nat,
            ),
        decreases rows - j,
    {
        let y: u32 = y0 + j;
        let ghost before = target@;
        if x0 <= x1 {
            let columns: u32 = x1 - x0 + 1;
            let mut i: u32 = 0;
            while i < columns
                invariant
                    i <= columns,
                    columns == x1 - x0 + 1,
                    x0 <= x1 < width,
                    y < height,
                    target@.len() == 4 * width * height,
                    before.len() == target@.len(),
                    texture@.wf(),
                    texture.width > 0,
                    texture.height > 0,
                    target@ == painted_row(
                        before,
                        width,
                        t,
                        texture@,
                        y,
                        x0 as nat,
                        i as nat,
                    ),
                decreases columns - i,
            {
                paint(target, width, height, t, texture, x0 + i, y);
                i = i + 1;
            }
        }
        j = j + 1;
    }
}

/// The frame that a scene is shown in without bounds of its own.
pub open spec fn spec_frame_bounds(bounds: Option<EmoteSceneBounds>) -> EmoteSceneBounds {
    match bounds {
        Some(b) => b,
        None => EmoteSceneBounds {
            min_x: Single::spec_from_i64((-450) as i64),
            min_y: Single::spec_from_i64((-700) as i64),
            max_x: Single::spec_from_i64(450),
            max_y: Single::spec_from_i64(1100),
        },
    }
}

#[verifier::when_used_as_spec(spec_frame_bounds)]
pub fn frame_bounds(bounds: Option<EmoteSceneBounds>) -> (r: EmoteSceneBounds)
    ensures
        r == spec_frame_bounds(bounds),
{
    match bounds {
        Some(b) => b,
        None => EmoteSceneBounds {
            min_x: Single::from_i64(-450),
            min_y: Single::from_i64(-700),
            max_x: Single::from_i64(450),
            max_y: Single::from_i64(1100),
        },
    }
}

/// A picture with the first `n` triangles of a row drawn.
pub open spec fn with_triangles(
    target: Seq<u8>,
    width: u32,
    height: u32,
    bounds: EmoteSceneBounds,
    texture: Pixels,
    corners: Seq<SpriteVertex>,
    n: nat,
) -> Seq<u8>
    decreases n,
{
    if n == 0 {
        target
    } else {
        with_triangle(
            with_triangles(target, width, height, bounds, texture, corners, (n - 1) as nat),
            width,
            height,
            screen_triangle(
                bounds,
                width,
                height,
                corners[3 * (n - 1)],
                corners[3 * (n - 1) + 1],
                corners[3 * (n - 1) + 2],
            ),
            texture,
        )
    }
}

/// The dark ground of a frame.
pub open spec fn ground(pixels: nat) -> Seq<u8>
    decreases pixels,
{
    if pixels == 0 {
        Seq::empty()
    } else {
        ground((pixels - 1) as nat) + seq![13u8, 13, 16, 255]
    }
}

/// A frame with the first `n` sprites drawn. Mask sources, and sprites that are not
/// seen or whose texture is missing, are left out.
pub open spec fn with_drawn(
    scene: Scene,
    stands: Seq<Stand>,
    textures: Seq<Loaded>,
    width: u32,
    height: u32,
    n: nat,
) -> Seq<u8>
    decreases n,
{
    if n == 0 || n > scene.sprites.len() {
        ground((width * height) as nat)
    } else {
        let rest = with_drawn(scene, stands, textures, width, height, (n - 1) as nat);
        let sprite = scene.sprites[n - 1];
        if sprite.seen() && !(sprite.info.pass is MaskGeneration) && is_loaded(
            textures,
            sprite.texture_resource_index,
        ) {
            let corners = sprite.triangles(stands[n - 1]);
            with_triangles(
                rest,
                width,
                height,
                frame_bounds(scene_bounds(scene.sprites, stands)),
                textures[slot_in(textures, sprite.texture_resource_index) as int].texture,
                corners,
                corners.len() / 3,
            )
        } else {
            rest
        }
    }
}

fn fill_ground(pixels: usize) -> (r: Vec<u8>)
    requires
        4 * pixels <= usize::MAX,
    ensures
        r@ == ground(pixels as nat),
        r@.len() == 4 * pixels,
{
    let mut r: Vec<u8> = Vec::new();
    let mut i: usize = 0;
    while i < pixels
        invariant
            i <= pixels,
            r@ == ground(i as nat),
            r@.len() == 4 * i,
        decreases pixels - i,
    {
        let ghost before = r@;
        r.push(13);
        r.push(13);
        r.push(16);
        r.push(255);
        assert(r@ =~= before + seq![13u8, 13, 16, 255]);
        i = i + 1;
    }
    r
}

fn draw_triangles(
    target: &mut Vec<u8>,
    width: u32,
    height: u32,
    bounds: EmoteSceneBounds,
    texture: &DecodedTexture,
    corners: &Vec<SpriteVertex>,
)
    requires
        old(target)@.len() == 4 * width * height,
        width > 0,
        height > 0,
        texture@.wf(),
        texture.width > 0,
        texture.height > 0,
    ensures
        final(target)@ == with_triangles(
            old(target)@,
            width,
            height,
            bounds,
            texture@,
            corners@,
            corners@.len() / 3,
        ),
        final(target)@.len() == old(target)@.len(),
{
    let ghost start = target@;
    let n: usize = corners.len() / 3;
    let mut k: usize = 0;
    while k < n
        invariant
            k <= n,
            n == corners@.len() / 3,
            corners@.len() <= usize::MAX,
            target@.len() == 4 * width * height,
            start.len() == target@.len(),
            width > 0,
            height > 0,
            texture@.wf(),
            texture.width > 0,
            texture.height > 0,
            target@ == with_triangles(start, width, height, bounds, texture@, corners@, k as nat),
        decreases n - k,
    {
        let t = screen_triangle(
            bounds,
            width,
            height,
            corners[3 * k],
            corners[3 * k + 1],
            corners[3 * k + 2],
        );
        raster_triangle(target, width, height, t, texture);
        k = k + 1;
    }
}

/// Whether every texture has a pixel.
pub open spec fn drawable(textures: Seq<Loaded>) -> bool {
    forall|i: int|
        0 <= i < textures.len() ==> (#[trigger] textures[i]).texture.wf()
            && textures[i].texture.width > 0 && textures[i].texture.height > 0
}

/// Draws a scene, given where its sprites stand.
pub fn draw_scene(
    scene: &EmoteStaticScene,
    stands: &Vec<Stand>,
    textures: &Vec<ModelTexture>,
    width: u32,
    height: u32,
) -> (r: Vec<u8>)
    requires
        scene.wf(),
        stands@.len() == scene.sprites@.len(),
        drawable(views(textures@)),
        width > 0,
        height > 0,
        4 * width * height <= usize::MAX,
    ensures
        r@ == with_drawn(
            scene@,
            stands@,
            views(textures@),
            width,
            height,
            scene@.sprites.len(),
        ),
        r@.len() == 4 * width * height,
{
    proof {
        assert(4 * width * height == 4 * (width * height)) by (nonlinear_arith);
        assert(width * height >= 0) by (nonlinear_arith)
            requires
                width >= 0,
                height >= 0,
        ;
    }
    let bounds = frame_bounds(scene.bounds(stands));
    let ghost row = views(textures@);
    let mut target = fill_ground(width as usize * height as usize);
    let mut i: usize = 0;
    assert(scene@.sprites.len() == scene.sprites@.len());
    while i < scene.sprites.len()
        invariant
            i <= scene.sprites@.len(),
            scene.wf(),
            scene@.sprites.len() == scene.sprites@.len(),
            stands@.len() == scene.sprites@.len(),
            row == views(textures@),
            drawable(row),
            width > 0,
            height > 0,
            bounds == frame_bounds(scene_bounds(scene@.sprites, stands@)),
            target@.len() == 4 * width * height,
            target@ == with_drawn(scene@, stands@, row, width, height, i as nat),
        decreases scene.sprites@.len() - i,
    {
        let sprite = &scene.sprites[i];
        assert(scene@.sprites[i as int] == sprite@);
        let masks = match sprite.draw_frame_info.pass {
            EmoteDrawPass::MaskGeneration => true,
            _ => false,
        };
        if sprite.visible && Single::zero().lt(sprite.opacity) && !masks {
            if let Some(k) = find_slot(textures, sprite.texture_resource_index) {
                assert(row[k as int] == textures@[k as int]@);
                assert(scene@.sprites[i as int].wf());
                let corners = sprite.sprite_vertices(stands[i]);
                draw_triangles(
                    &mut target,
                    width,
                    height,
                    bounds,
                    &textures[k].texture,
                    &corners,
                );
            }
        }
        i = i + 1;
    }
    target
}

} // verus!
