//! The triangles that a sprite is drawn with.

use crate::mesh::{EmoteMeshPatch, Patch, Point};
use crate::place::Stand;
use crate::scene::{EmoteStaticSprite, Sprite};
use crate::single::Single;
use vstd::prelude::*;

verus! {

/// A corner of a triangle: where it stands, what it shows of the texture, and how
/// opaque it is.
#[derive(Clone, Copy, Debug, PartialEq, Eq, Structural)]
pub struct SpriteVertex {
    pub position: Point,
    pub texcoord: Point,
    pub alpha: Single,
}

/// How often a mesh is divided; at least once.
pub open spec fn parts(division: u32) -> usize {
    if division < 1 {
        1
    } else {
        division as usize
    }
}

fn find_parts(division: u32) -> (r: usize)
    ensures
        r == parts(division),
        0 < r <= u32::MAX,
{
    if division < 1 {
        1
    } else {
        division as usize
    }
}

impl Sprite {
    pub open spec fn corner(self, stand: Stand, at: Point, texcoord: Point) -> SpriteVertex {
        SpriteVertex { position: self.point(stand, at), texcoord, alpha: self.opacity }
    }

    /// The two triangles of a sprite without mesh.
    pub open spec fn quad(self, stand: Stand) -> Seq<SpriteVertex> {
        let top_left = self.corner(
            stand,
            Point { x: self.left(), y: self.top() },
            Point { x: self.uv_left, y: self.uv_top },
        );
        let bottom_left = self.corner(
            stand,
            Point { x: self.left(), y: self.bottom() },
            Point { x: self.uv_left, y: self.uv_bottom },
        );
        let top_right = self.corner(
            stand,
            Point { x: self.right(), y: self.top() },
            Point { x: self.uv_right, y: self.uv_top },
        );
        let bottom_right = self.corner(
            stand,
            Point { x: self.right(), y: self.bottom() },
            Point { x: self.uv_right, y: self.uv_bottom },
        );
        seq![top_left, bottom_left, top_right, top_right, bottom_left, bottom_right]
    }

    /// A knot of the grid that a mesh is divided into.
    pub open spec fn knot(self, mesh: Patch, stand: Stand, x: usize, y: usize) -> SpriteVertex {
        let u = Single::from_count(x).over(Single::from_count(parts(mesh.division_x)));
        let v = Single::from_count(y).over(Single::from_count(parts(mesh.division_y)));
        let p = mesh.sample(u, v);
        self.corner(
            stand,
            Point {
                x: self.left().plus(p.x.times(self.width)),
                y: self.top().plus(p.y.times(self.height)),
            },
            Point {
                x: self.uv_left.plus(self.uv_right.minus(self.uv_left).times(u)),
                y: self.uv_top.plus(self.uv_bottom.minus(self.uv_top).times(v)),
            },
        )
    }

    /// The two triangles of a cell of the grid.
    pub open spec fn cell(self, mesh: Patch, stand: Stand, x: usize, y: usize) -> Seq<
        SpriteVertex,
    > {
        let top_left = self.knot(mesh, stand, x, y);
        let bottom_left = self.knot(mesh, stand, x, (y + 1) as usize);
        let top_right = self.knot(mesh, stand, (x + 1) as usize, y);
        let bottom_right = self.knot(mesh, stand, (x + 1) as usize, (y + 1) as usize);
        seq![top_left, bottom_left, top_right, top_right, bottom_left, bottom_right]
    }

    /// The triangles of the first `n` cells of a row.
    pub open spec fn row(self, mesh: Patch, stand: Stand, y: usize, n: nat) -> Seq<SpriteVertex>
        decreases n,
    {
        if n == 0 {
            Seq::empty()
        } else {
            self.row(mesh, stand, y, (n - 1) as nat) + self.cell(
                mesh,
                stand,
                (n - 1) as usize,
                y,
            )
        }
    }

    /// The triangles of the first `n` rows.
    pub open spec fn rows(self, mesh: Patch, stand: Stand, n: nat) -> Seq<SpriteVertex>
        decreases n,
    {
        if n == 0 {
            Seq::empty()
        } else {
            self.rows(mesh, stand, (n - 1) as nat) + self.row(
                mesh,
                stand,
                (n - 1) as usize,
                parts(mesh.division_x) as nat,
            )
        }
    }

    /// The triangles of a sprite.
    pub open spec fn triangles(self, stand: Stand) -> Seq<SpriteVertex> {
        match self.mesh {
            Some(mesh) => self.rows(mesh, stand, parts(mesh.division_y) as nat),
            None => self.quad(stand),
        }
    }
}

fn push_six(
    out: &mut Vec<SpriteVertex>,
    top_left: SpriteVertex,
    bottom_left: SpriteVertex,
    top_right: SpriteVertex,
    bottom_right: SpriteVertex,
)
    ensures
        final(out)@ == old(out)@ + seq![
            top_left,
            bottom_left,
            top_right,
            top_right,
            bottom_left,
            bottom_right,
        ],
{
    let ghost start = out@;
    out.push(top_left);
    out.push(bottom_left);
    out.push(top_right);
    out.push(top_right);
    out.push(bottom_left);
    out.push(bottom_right);
    assert(out@ =~= start + seq![
        top_left,
        bottom_left,
        top_right,
        top_right,
        bottom_left,
        bottom_right,
    ]);
}

impl EmoteStaticSprite {
    fn find_corner(&self, stand: Stand, at: Point, texcoord: Point) -> (r: SpriteVertex)
        ensures
            r == self@.corner(stand, at, texcoord),
    {
        SpriteVertex { position: self.transform_point(stand, at), texcoord, alpha: self.opacity }
    }

    fn find_knot(&self, mesh: &EmoteMeshPatch, stand: Stand, x: usize, y: usize) -> (r: SpriteVertex)
        requires
            mesh@.wf(),
        ensures
            r == self@.knot(mesh@, stand, x, y),
    {
        let u = Single::from_count(x).over(Single::from_count(find_parts(mesh.division_x)));
        let v = Single::from_count(y).over(Single::from_count(find_parts(mesh.division_y)));
        let p = mesh.sample(u, v);
        self.find_corner(
            stand,
            Point {
                x: self.left().plus(p.x.times(self.width)),
                y: self.top().plus(p.y.times(self.height)),
            },
            Point {
                x: self.uv_left.plus(self.uv_right.minus(self.uv_left).times(u)),
                y: self.uv_top.plus(self.uv_bottom.minus(self.uv_top).times(v)),
            },
        )
    }

    fn push_row(
        &self,
        mesh: &EmoteMeshPatch,
        stand: Stand,
        y: usize,
        out: &mut Vec<SpriteVertex>,
    )
        requires
            mesh@.wf(),
            y < parts(mesh@.division_y),
        ensures
            final(out)@ == old(out)@ + self@.row(
                mesh@,
                stand,
                y,
                parts(mesh@.division_x) as nat,
            ),
    {
        let count = find_parts(mesh.division_x);
        let ghost start = out@;
        let mut x: usize = 0;
        assert(start + self@.row(mesh@, stand, y, 0) =~= start);
        while x < count
            invariant
                x <= count,
                count <= u32::MAX,
                y < parts(mesh@.division_y),
                mesh@.wf(),
                out@ == start + self@.row(mesh@, stand, y, x as nat),
            decreases count - x,
        {
            let top_left = self.find_knot(mesh, stand, x, y);
            let bottom_left = self.find_knot(mesh, stand, x, y + 1);
            let top_right = self.find_knot(mesh, stand, x + 1, y);
            let bottom_right = self.find_knot(mesh, stand, x + 1, y + 1);
            let ghost before = out@;
            push_six(out, top_left, bottom_left, top_right, bottom_right);
            proof {
                assert(out@ == before + self@.cell(mesh@, stand, x, y));
                assert(out@ =~= start + self@.row(mesh@, stand, y, (x + 1) as nat));
            }
            x = x + 1;
        }
    }

    /// The triangles of the grid that the mesh is divided into.
    pub fn mesh_sprite_vertices(&self, mesh: &EmoteMeshPatch, stand: Stand) -> (r: Vec<
        SpriteVertex,
    >)
        requires
            mesh@.wf(),
        ensures
            r@ == self@.rows(mesh@, stand, parts(mesh@.division_y) as nat),
    {
        let count = find_parts(mesh.division_y);
        let mut out: Vec<SpriteVertex> = Vec::new();
        let mut y: usize = 0;
        assert(out@ =~= self@.rows(mesh@, stand, 0));
        while y < count
            invariant
                y <= count,
                count == parts(mesh@.division_y),
                mesh@.wf(),
                out@ == self@.rows(mesh@, stand, y as nat),
            decreases count - y,
        {
            self.push_row(mesh, stand, y, &mut out);
            y = y + 1;
        }
        out
    }

    /// The triangles of the sprite, given where it stands.
    pub fn sprite_vertices(&self, stand: Stand) -> (r: Vec<SpriteVertex>)
        requires
            self@.wf(),
        ensures
            r@ == self@.triangles(stand),
    {
        match &self.mesh {
            Some(mesh) => self.mesh_sprite_vertices(mesh, stand),
            None => {
                let top_left = self.find_corner(
                    stand,
                    Point { x: self.left(), y: self.top() },
                    Point { x: self.uv_left, y: self.uv_top },
                );
                let bottom_left = self.find_corner(
                    stand,
                    Point { x: self.left(), y: self.bottom() },
                    Point { x: self.uv_left, y: self.uv_bottom },
                );
                let top_right = self.find_corner(
                    stand,
                    Point { x: self.right(), y: self.top() },
                    Point { x: self.uv_right, y: self.uv_top },
                );
                let bottom_right = self.find_corner(
                    stand,
                    Point { x: self.right(), y: self.bottom() },
                    Point { x: self.uv_right, y: self.uv_bottom },
                );
                let mut out: Vec<SpriteVertex> = Vec::new();
                push_six(&mut out, top_left, bottom_left, top_right, bottom_right);
                assert(out@ =~= self@.quad(stand));
                out
            },
        }
    }
}

proof fn lemma_row_len(s: Sprite, mesh: Patch, stand: Stand, y: usize, n: nat)
    ensures
        s.row(mesh, stand, y, n).len() == 6 * n,
    decreases n,
{
    if n > 0 {
        lemma_row_len(s, mesh, stand, y, (n - 1) as nat);
    }
}

proof fn lemma_rows_len(s: Sprite, mesh: Patch, stand: Stand, n: nat)
    ensures
        s.rows(mesh, stand, n).len() == 6 * (n * parts(mesh.division_x)),
    decreases n,
{
    if n > 0 {
        lemma_rows_len(s, mesh, stand, (n - 1) as nat);
        lemma_row_len(s, mesh, stand, (n - 1) as usize, parts(mesh.division_x) as nat);
        let d = parts(mesh.division_x) as int;
        assert(n * d == (n - 1) * d + d) by (nonlinear_arith);
    } else {
        assert(0 * (parts(mesh.division_x) as int) == 0);
    }
}

/// A sprite is drawn with whole triangles: two of them for every cell of its grid.
pub proof fn lemma_whole_triangles(s: Sprite, stand: Stand)
    ensures
        s.triangles(stand).len() == 6 * (match s.mesh {
            Some(mesh) => parts(mesh.division_y) * parts(mesh.division_x),
            None => 1,
        }),
        s.triangles(stand).len() % 3 == 0,
{
    if let Some(mesh) = s.mesh {
        lemma_rows_len(s, mesh, stand, parts(mesh.division_y) as nat);
    }
}

} // verus!
