//! Mesh combinators: patches that variables pick out of raw mesh lists.

use crate::curve::unit_clamp;
use crate::decimal::{decimal_number, parse_single};
use crate::mesh::{
    combine_patch, combined, identity_point, opt_patch, opt_patch_wf, EmoteMeshPatch, Patch,
    PatchDomain, Point,
};
use crate::order::TextMap;
use crate::psb::{resource_at, PsbFile, PsbResourceRange};
use crate::single::Single;
use crate::text::{opt_string, opt_text, pieces, same_text, split, texts};
use crate::value::{either, field_of, items_of, list_of, PsbValue};
use vstd::prelude::*;

verus! {

/// The little-endian word at a place.
pub open spec fn u32_le(b: Seq<u8>, at: int) -> u32 {
    (b[at] + 0x100 * b[at + 1] + 0x1_0000 * b[at + 2] + 0x100_0000 * b[at + 3]) as u32
}

/// The little-endian double word at a place.
pub open spec fn u64_le(b: Seq<u8>, at: int) -> u64 {
    (u32_le(b, at) + 0x1_0000_0000 * u32_le(b, at + 4)) as u64
}

fn read_u32(b: &[u8], at: usize) -> (r: u32)
    requires
        at + 4 <= b@.len(),
    ensures
        r == u32_le(b@, at as int),
{
    let n: usize = b.len();
    assert(at + 4 <= n);
    b[at] as u32 + 0x100 * b[at + 1] as u32 + 0x1_0000 * b[at + 2] as u32 + 0x100_0000 * b[at
        + 3] as u32
}

fn read_u64(b: &[u8], at: usize) -> (r: u64)
    requires
        at + 8 <= b@.len(),
    ensures
        r == u64_le(b@, at as int),
{
    let n: usize = b.len();
    assert(at + 8 <= n);
    read_u32(b, at) as u64 + 0x1_0000_0000 * read_u32(b, at + 4) as u64
}

/// The coordinate at a place of a raw mesh list: doubles where there are bytes
/// enough for them, else floats.
pub open spec fn raw_value(raw: Seq<u8>, mesh_count: nat, i: int) -> Single {
    if raw.len() >= mesh_count * 32 * 8 {
        Single::spec_from_double(u64_le(raw, 8 * i))
    } else {
        Single { bits: u32_le(raw, 4 * i) }
    }
}

/// A coordinate of one mesh; deltas are taken from the identity.
pub open spec fn mesh_value(
    raw: Seq<u8>,
    mesh_count: nat,
    is_delta: bool,
    mesh: int,
    j: int,
) -> Single {
    let v = raw_value(raw, mesh_count, 32 * mesh + j);
    if !is_delta {
        v
    } else if j % 2 == 0 {
        v.plus(identity_point(j / 2).x)
    } else {
        v.plus(identity_point(j / 2).y)
    }
}

/// The meshes of a raw list, where it has bytes enough.
pub open spec fn raw_meshes(raw: Seq<u8>, mesh_count: nat, is_delta: bool) -> Option<
    Seq<Seq<Single>>,
> {
    if raw.len() >= mesh_count * 32 * 4 {
        Some(
            Seq::new(
                mesh_count,
                |m: int| Seq::new(32, |j: int| mesh_value(raw, mesh_count, is_delta, m, j)),
            ),
        )
    } else {
        None
    }
}

/// The coordinates of each mesh.
pub open spec fn meshes_view(v: Seq<Vec<Single>>) -> Seq<Seq<Single>> {
    v.map_values(|m: Vec<Single>| m@)
}

/// Reads the meshes of a raw list.
pub fn decode_raw_mesh_list(raw: &[u8], mesh_count: usize, is_delta: bool) -> (r: Option<
    Vec<Vec<Single>>,
>)
    ensures
        match r {
            Some(v) => raw_meshes(raw@, mesh_count as nat, is_delta) == Some(meshes_view(v@)),
            None => raw_meshes(raw@, mesh_count as nat, is_delta) is None,
        },
{
    let total: u128 = mesh_count as u128 * 32;
    let size: usize = raw.len();
    if (size as u128) < total * 4 {
        return None;
    }
    let wide = size as u128 >= total * 8;
    let identity = EmoteMeshPatch::identity(1, 1);
    let mut out: Vec<Vec<Single>> = Vec::new();
    let mut m: usize = 0;
    while m < mesh_count
        invariant
            m <= mesh_count,
            size == raw@.len(),
            raw@.len() >= mesh_count * 32 * 4,
            wide == (raw@.len() >= mesh_count * 32 * 8),
            identity@ == Patch::identity(1, 1),
            out@.len() == m,
            forall|a: int|
                #![trigger out@[a]]
                0 <= a < m ==> out@[a]@ == Seq::new(
                    32,
                    |j: int| mesh_value(raw@, mesh_count as nat, is_delta, a, j),
                ),
        decreases mesh_count - m,
    {
        let mut mesh: Vec<Single> = Vec::new();
        let mut j: usize = 0;
        while j < 32
            invariant
                j <= 32,
                m < mesh_count,
                size == raw@.len(),
                raw@.len() >= mesh_count * 32 * 4,
                wide == (raw@.len() >= mesh_count * 32 * 8),
                identity@ == Patch::identity(1, 1),
                mesh@.len() == j,
                forall|a: int|
                    #![trigger mesh@[a]]
                    0 <= a < j ==> mesh@[a] == mesh_value(
                        raw@,
                        mesh_count as nat,
                        is_delta,
                        m as int,
                        a,
                    ),
            decreases 32 - j,
        {
            let at: usize = 32 * m + j;
            let v = if wide {
                Single::from_double(read_u64(raw, 8 * at))
            } else {
                Single { bits: read_u32(raw, 4 * at) }
            };
            let p = identity.control_points[j / 2];
            assert(p == identity_point(j as int / 2));
            let shown = if !is_delta {
                v
            } else if j % 2 == 0 {
                v.plus(p.x)
            } else {
                v.plus(p.y)
            };
            mesh.push(shown);
            j = j + 1;
        }
        assert(mesh@ =~= Seq::new(
            32,
            |j: int| mesh_value(raw@, mesh_count as nat, is_delta, m as int, j),
        ));
        out.push(mesh);
        m = m + 1;
    }
    assert(meshes_view(out@) =~= raw_meshes(raw@, mesh_count as nat, is_delta)->0);
    Some(out)
}

/// The patch with the coordinates of one mesh, the identity for the neutral one.
pub open spec fn mesh_patch(values: Seq<Single>, neutral: bool, division_x: u32, division_y: u32)
    -> Patch {
    if neutral {
        Patch::identity(division_x, division_y)
    } else {
        Patch {
            points: Seq::new(16, |i: int| Point { x: values[2 * i], y: values[2 * i + 1] }),
            ..Patch::identity(division_x, division_y)
        }
    }
}

fn mesh_patch_from_values(
    values: &Vec<Single>,
    neutral: bool,
    division_x: u32,
    division_y: u32,
) -> (r: EmoteMeshPatch)
    requires
        values@.len() == 32,
    ensures
        r@ == mesh_patch(values@, neutral, division_x, division_y),
        r@.wf(),
{
    let identity = EmoteMeshPatch::identity(division_x, division_y);
    if neutral {
        return identity;
    }
    let mut points: Vec<Point> = Vec::new();
    let mut i: usize = 0;
    while i < 16
        invariant
            i <= 16,
            values@.len() == 32,
            points@.len() == i,
            forall|j: int|
                #![trigger points@[j]]
                0 <= j < i ==> points@[j] == (Point { x: values@[2 * j], y: values@[2 * j + 1] }),
        decreases 16 - i,
    {
        points.push(Point { x: values[2 * i], y: values[2 * i + 1] });
        i = i + 1;
    }
    let r = EmoteMeshPatch {
        division_x: identity.division_x,
        division_y: identity.division_y,
        domain: None,
        control_points: points,
    };
    assert(r@.points =~= mesh_patch(values@, neutral, division_x, division_y).points);
    r
}

/// The value of a variable; where it is not set, zero if that lies in the range,
/// else the middle of the range.
pub open spec fn variable_in_range(
    variables: Map<Seq<char>, Single>,
    key: Seq<char>,
    begin: Single,
    end: Single,
) -> Single {
    if variables.dom().contains(key) {
        variables[key]
    } else if begin.le(Single::zero()) && Single::zero().le(end) {
        Single::zero()
    } else {
        begin.plus(end).times(Single::half())
    }
}

/// Where a value stands among the meshes of a range.
pub open spec fn mesh_position(value: Single, begin: Single, end: Single, mesh_count: i64)
    -> Single {
    if mesh_count <= 1 || !begin.is_finite() || !end.is_finite() || end.minus(begin).abs().le(
        Single::epsilon(),
    ) {
        Single::zero()
    } else {
        unit_clamp(value.minus(begin).over(end.minus(begin))).times(
            Single::spec_from_i64(mesh_count).minus(Single::one()),
        )
    }
}

/// The patch between the two meshes that a position stands between.
pub open spec fn patch_at(
    meshes: Seq<Seq<Single>>,
    pos: Single,
    neutral_index: i64,
    division_x: u32,
    division_y: u32,
) -> Option<Patch> {
    let i0 = pos.whole_part(u64::MAX as nat);
    let i1 = if pos.is_finite() && !pos.is_whole() && i0 < u64::MAX {
        i0 + 1
    } else {
        i0
    };
    let t = pos.minus(Single::spec_from_i64(i0 as i64));
    if i0 < meshes.len() {
        let upper = if i1 < meshes.len() {
            meshes[i1 as int]
        } else {
            meshes[i0 as int]
        };
        Some(
            Patch::interpolate(
                mesh_patch(meshes[i0 as int], neutral_index == i0, division_x, division_y),
                mesh_patch(upper, neutral_index == i1, division_x, division_y),
                t,
            ),
        )
    } else {
        None
    }
}

/// The patch that a combinator gives for the current variables.
pub open spec fn combinator_patch(
    combinator: PsbValue,
    resources: Seq<PsbResourceRange>,
    data: Seq<u8>,
    variables: Map<Seq<char>, Single>,
    division_x: u32,
    division_y: u32,
    is_delta: bool,
) -> Option<Patch> {
    match combinator.field("variable") {
        None => None,
        Some(variable) => match (
            variable.text_field("key"),
            variable.field_i64("meshCount"),
            match combinator.field("rawMeshList") {
                Some(list) => list.as_u32(),
                None => None,
            },
        ) {
            (Some(key), Some(raw_count), Some(index)) => {
                let mesh_count = if raw_count < 1 {
                    1
                } else {
                    raw_count
                };
                let begin = variable.field_single("rangeBegin").unwrap_or(Single::zero());
                let end = variable.field_single("rangeEnd").unwrap_or(Single::one());
                let value = variable_in_range(variables, key, begin, end);
                match resource_at(resources, data, index as int) {
                    None => None,
                    Some(raw) => match raw_meshes(raw, mesh_count as nat, is_delta) {
                        None => None,
                        Some(meshes) => patch_at(
                            meshes,
                            mesh_position(value, begin, end, mesh_count),
                            combinator.field_i64("neutralIndex").unwrap_or((-1) as i64),
                            division_x,
                            division_y,
                        ),
                    },
                }
            },
            _ => None,
        },
    }
}

fn find_patch(
    meshes: &Vec<Vec<Single>>,
    pos: Single,
    neutral_index: i64,
    division_x: u32,
    division_y: u32,
) -> (r: Option<EmoteMeshPatch>)
    requires
        forall|i: int| 0 <= i < meshes@.len() ==> (#[trigger] meshes@[i])@.len() == 32,
    ensures
        opt_patch(r) == patch_at(
            meshes_view(meshes@),
            pos,
            neutral_index,
            division_x,
            division_y,
        ),
        opt_patch_wf(opt_patch(r)),
{
    let i0: u64 = pos.whole(u64::MAX);
    let i1: u64 = if pos.is_finite() && !pos.is_whole() && i0 < u64::MAX {
        i0 + 1
    } else {
        i0
    };
    if i0 as u128 >= meshes.len() as u128 {
        return None;
    }
    let lower: usize = i0 as usize;
    let upper: usize = if (i1 as u128) < meshes.len() as u128 {
        i1 as usize
    } else {
        lower
    };
    let t = pos.minus(Single::from_i64(i0 as i64));
    let neutral0 = neutral_index >= 0 && neutral_index as u64 == i0;
    let neutral1 = neutral_index >= 0 && neutral_index as u64 == i1;
    assert(meshes_view(meshes@)[lower as int] == meshes@[lower as int]@);
    assert(meshes_view(meshes@)[upper as int] == meshes@[upper as int]@);
    let p0 = mesh_patch_from_values(&meshes[lower], neutral0, division_x, division_y);
    let p1 = mesh_patch_from_values(&meshes[upper], neutral1, division_x, division_y);
    Some(EmoteMeshPatch::interpolate(&p0, &p1, t))
}

/// The patch that a combinator gives for the current variables.
pub fn evaluate_one_combinator(
    combinator: &PsbValue,
    psb: &PsbFile,
    psb_data: &[u8],
    variables: &TextMap<Single>,
    division_x: u32,
    division_y: u32,
    is_delta: bool,
) -> (r: Option<EmoteMeshPatch>)
    requires
        variables.wf(),
    ensures
        opt_patch(r) == combinator_patch(
            *combinator,
            psb.resources@,
            psb_data@,
            variables@,
            division_x,
            division_y,
            is_delta,
        ),
        opt_patch_wf(opt_patch(r)),
{
    let variable = match combinator.field("variable") {
        Some(v) => v,
        None => {
            return None;
        },
    };
    let key = match variable.field_str("key") {
        Some(v) => v,
        None => {
            return None;
        },
    };
    let mesh_count = match variable.field_i64("meshCount") {
        Some(n) => if n < 1 {
            1
        } else {
            n
        },
        None => {
            return None;
        },
    };
    let begin = variable.field_single("rangeBegin").unwrap_or(Single::zero());
    let end = variable.field_single("rangeEnd").unwrap_or(Single::one());
    let value = match variables.get(key) {
        Some(v) => *v,
        None => if begin.le(Single::zero()) && Single::zero().le(end) {
            Single::zero()
        } else {
            begin.plus(end).times(Single::half())
        },
    };
    let neutral_index = combinator.field_i64("neutralIndex").unwrap_or(-1);
    let index = match combinator.field("rawMeshList") {
        Some(list) => match list.as_u32() {
            Some(n) => n,
            None => {
                return None;
            },
        },
        None => {
            return None;
        },
    };
    let raw = match psb.resource_bytes(psb_data, index as usize) {
        Some(b) => b,
        None => {
            return None;
        },
    };
    if mesh_count as u128 > usize::MAX as u128 {
        return None;
    }
    let meshes = match decode_raw_mesh_list(raw, mesh_count as usize, is_delta) {
        Some(v) => v,
        None => {
            return None;
        },
    };
    proof {
        let shown = meshes_view(meshes@);
        assert forall|i: int| 0 <= i < meshes@.len() implies (#[trigger] meshes@[i])@.len() == 32 by {
            assert(shown[i] == meshes@[i]@);
        }
    }
    let pos = if mesh_count <= 1 || !begin.is_finite() || !end.is_finite() || end.minus(
        begin,
    ).abs().le(Single::epsilon()) {
        Single::zero()
    } else {
        unit_clamp(value.minus(begin).over(end.minus(begin))).times(
            Single::from_i64(mesh_count).minus(Single::one()),
        )
    };
    find_patch(&meshes, pos, neutral_index, division_x, division_y)
}

/// The domain that an icon text of four numbers names: its centre, and half of
/// its width and height.
pub open spec fn icon_domain(icon: Seq<char>) -> Option<PatchDomain> {
    let parts = pieces(icon, ':');
    if parts.len() != 4 {
        None
    } else {
        match (
            decimal_number(parts[0]),
            decimal_number(parts[1]),
            decimal_number(parts[2]),
            decimal_number(parts[3]),
        ) {
            (Some(x), Some(y), Some(half_w), Some(half_h)) => if half_w.le(Single::zero())
                || half_h.le(Single::zero()) {
                None
            } else {
                Some(
                    PatchDomain {
                        x: x.minus(half_w),
                        y: y.minus(half_h),
                        width: half_w.times(Single::two()),
                        height: half_h.times(Single::two()),
                    },
                )
            },
            _ => None,
        }
    }
}

pub fn parse_mesh_domain_icon(icon: &str) -> (r: Option<PatchDomain>)
    ensures
        r == icon_domain(icon@),
{
    let parts = split(icon, ':');
    assert(texts(parts@).len() == parts@.len());
    if parts.len() != 4 {
        return None;
    }
    assert(texts(parts@)[0] == parts@[0]@ && texts(parts@)[1] == parts@[1]@ && texts(parts@)[2]
        == parts@[2]@ && texts(parts@)[3] == parts@[3]@);
    match (
        parse_single(parts[0].as_str()),
        parse_single(parts[1].as_str()),
        parse_single(parts[2].as_str()),
        parse_single(parts[3].as_str()),
    ) {
        (Some(x), Some(y), Some(half_w), Some(half_h)) => {
            if half_w.le(Single::zero()) || half_h.le(Single::zero()) {
                return None;
            }
            Some(
                PatchDomain {
                    x: x.minus(half_w),
                    y: y.minus(half_h),
                    width: half_w.times(Single::two()),
                    height: half_h.times(Single::two()),
                },
            )
        },
        _ => None,
    }
}

/// The domain that an optional icon text names.
pub open spec fn opt_icon_domain(icon: Option<Seq<char>>) -> Option<PatchDomain> {
    match icon {
        Some(s) => icon_domain(s),
        None => None,
    }
}

pub fn find_icon_domain(icon: Option<&str>) -> (r: Option<PatchDomain>)
    ensures
        r == opt_icon_domain(opt_text(icon)),
{
    match icon {
        Some(s) => parse_mesh_domain_icon(s),
        None => None,
    }
}

/// The domain of one frame's icon.
pub open spec fn frame_domain(frame: PsbValue) -> Option<PatchDomain> {
    match field_of(frame.field("content"), "icon") {
        Some(v) => opt_icon_domain(v.text()),
        None => None,
    }
}

/// The first domain that the icons of the frames name.
pub open spec fn first_domain(frames: Seq<PsbValue>) -> Option<PatchDomain>
    decreases frames.len(),
{
    if frames.len() == 0 {
        None
    } else {
        either(frame_domain(frames[0]), first_domain(frames.drop_first()))
    }
}

pub fn layer_mesh_domain(layer: &PsbValue) -> (r: Option<PatchDomain>)
    ensures
        r == first_domain(items_of(layer.field("frameList"))),
{
    if let Some(frames) = list_of(layer.field("frameList")) {
        let mut i: usize = 0;
        assert(frames@.skip(0) =~= frames@);
        while i < frames.len()
            invariant
                i <= frames@.len(),
                first_domain(items_of(layer.field("frameList"))) == first_domain(
                    frames@.skip(i as int),
                ),
            decreases frames@.len() - i,
        {
            assert(frames@.skip(i as int).drop_first() =~= frames@.skip(i + 1));
            if let Some(icon) = field_of(frames[i].field("content"), "icon") {
                if let Some(domain) = find_icon_domain(icon.as_str()) {
                    return Some(domain);
                }
            }
            i = i + 1;
        }
    }
    None
}

/// The parameter that a layer is driven by: given in place, or by its index.
pub open spec fn spec_resolve_parameterize<'a>(
    parameterize: &'a PsbValue,
    table: Option<&'a Vec<PsbValue>>,
) -> Option<&'a PsbValue> {
    match parameterize {
        PsbValue::Object(_) => Some(parameterize),
        PsbValue::Int(index) => match table {
            Some(items) => if 0 <= *index < items@.len() {
                Some(&items@[*index as int])
            } else {
                None
            },
            None => None,
        },
        _ => None,
    }
}

#[verifier::when_used_as_spec(spec_resolve_parameterize)]
pub fn resolve_parameterize<'a>(
    parameterize: &'a PsbValue,
    table: Option<&'a Vec<PsbValue>>,
) -> (r: Option<&'a PsbValue>)
    ensures
        r == spec_resolve_parameterize(parameterize, table),
{
    match parameterize {
        PsbValue::Object(_) => Some(parameterize),
        PsbValue::Int(index) => match table {
            Some(items) => if 0 <= *index && (*index as u128) < items.len() as u128 {
                Some(&items[*index as usize])
            } else {
                None
            },
            None => None,
        },
        _ => None,
    }
}

/// The name of a parameter: its id, else its key, else its name.
pub open spec fn parameter_name(parameter: PsbValue) -> Option<Seq<char>> {
    either(
        parameter.text_field("id"),
        either(parameter.text_field("key"), parameter.text_field("name")),
    )
}

pub fn find_parameter_name<'a>(parameter: &'a PsbValue) -> (r: Option<&'a str>)
    ensures
        opt_text(r) == parameter_name(*parameter),
{
    if let Some(s) = parameter.field_str("id") {
        return Some(s);
    }
    if let Some(s) = parameter.field_str("key") {
        return Some(s);
    }
    parameter.field_str("name")
}

/// The name of the parameter that a layer is driven by.
pub open spec fn parent_key(layer: PsbValue, table: Option<&Vec<PsbValue>>) -> Option<Seq<char>> {
    match layer.field("parameterize") {
        Some(p) => match resolve_parameterize(p, table) {
            Some(parameter) => parameter_name(*parameter),
            None => None,
        },
        None => None,
    }
}

/// The name of the parameter that a layer is driven by, where it is not empty.
pub open spec fn spec_layer_parameter_id(layer: PsbValue, table: Option<&Vec<PsbValue>>) -> Option<
    Seq<char>,
> {
    match parent_key(layer, table) {
        Some(name) => if name.len() > 0 {
            Some(name)
        } else {
            None
        },
        None => None,
    }
}

fn find_parent_key<'a>(layer: &'a PsbValue, table: Option<&'a Vec<PsbValue>>) -> (r: Option<&'a str>)
    ensures
        opt_text(r) == parent_key(*layer, table),
{
    match layer.field("parameterize") {
        Some(p) => match resolve_parameterize(p, table) {
            Some(parameter) => find_parameter_name(parameter),
            None => None,
        },
        None => None,
    }
}

pub fn layer_parameter_id(layer: &PsbValue, table: Option<&Vec<PsbValue>>) -> (r: Option<String>)
    ensures
        opt_string(r) == spec_layer_parameter_id(*layer, table),
{
    match find_parent_key(layer, table) {
        Some(name) => if !name.is_empty() {
            Some(name.to_owned())
        } else {
            None
        },
        None => None,
    }
}

/// What the combinators of a layer give: a patch for its own sprite, and one for
/// its children.
#[derive(Clone, Debug)]
pub struct MeshCombinatorEval {
    pub self_patch: Option<EmoteMeshPatch>,
    pub child_patch: Option<EmoteMeshPatch>,
}

/// A `MeshCombinatorEval` by its points.
#[verifier::ext_equal]
pub struct CombinatorEval {
    pub self_patch: Option<Patch>,
    pub child_patch: Option<Patch>,
}

/// Whether the first combinator deforms the layer itself: where the layer has no
/// parameter of its own, or one that is just called `param`, or the combinator's.
pub open spec fn restores_first(parent: Option<Seq<char>>, first: Option<Seq<char>>) -> bool {
    match parent {
        None => true,
        Some(p) => p == "param"@ || first == Some(p),
    }
}

/// The combinators of a layer.
pub open spec fn combinators_of(layer: &PsbValue) -> Option<&Vec<PsbValue>> {
    list_of(field_of(layer.field("meshCombinator"), "combinatorList"))
}

/// The combined patches of the combinators from `from` up to `n`.
pub open spec fn child_patches(
    combinators: Seq<PsbValue>,
    from: int,
    n: int,
    resources: Seq<PsbResourceRange>,
    data: Seq<u8>,
    variables: Map<Seq<char>, Single>,
    division_x: u32,
    division_y: u32,
    domain: Option<PatchDomain>,
) -> Option<Patch>
    decreases n - from,
{
    if n <= from {
        None
    } else {
        let before = child_patches(
            combinators,
            from,
            n - 1,
            resources,
            data,
            variables,
            division_x,
            division_y,
            domain,
        );
        match combinator_patch(
            combinators[n - 1],
            resources,
            data,
            variables,
            division_x,
            division_y,
            true,
        ) {
            Some(patch) => combined(before, patch.with_domain(domain)),
            None => before,
        }
    }
}

/// The patches that the combinators of a layer give.
pub open spec fn split_combinators(
    layer: PsbValue,
    table: Option<&Vec<PsbValue>>,
    resources: Seq<PsbResourceRange>,
    data: Option<Seq<u8>>,
    variables: Map<Seq<char>, Single>,
    division_x: u32,
    division_y: u32,
) -> CombinatorEval {
    match (data, combinators_of(&layer)) {
        (Some(data), Some(list)) => if list@.len() == 0 {
            CombinatorEval { self_patch: None, child_patch: None }
        } else {
            let domain = first_domain(items_of(layer.field("frameList")));
            let first_key = match list@[0].field("variable") {
                Some(v) => v.text_field("key"),
                None => None,
            };
            let own = if restores_first(parent_key(layer, table), first_key) {
                combinator_patch(
                    list@[0],
                    resources,
                    data,
                    variables,
                    division_x,
                    division_y,
                    false,
                )
            } else {
                None
            };
            let from = if own is Some {
                1int
            } else {
                0
            };
            CombinatorEval {
                self_patch: match own {
                    Some(patch) => Some(patch.with_domain(domain)),
                    None => None,
                },
                child_patch: child_patches(
                    list@,
                    from,
                    list@.len() as int,
                    resources,
                    data,
                    variables,
                    division_x,
                    division_y,
                    domain,
                ),
            }
        },
        _ => CombinatorEval { self_patch: None, child_patch: None },
    }
}

/// The patches that the combinators of a layer give; both are empty where the
/// layer has no combinators or there is no resource data.
pub fn evaluate_mesh_combinator_split(
    layer: &PsbValue,
    table: Option<&Vec<PsbValue>>,
    psb: &PsbFile,
    psb_data: Option<&[u8]>,
    variables: &TextMap<Single>,
    division_x: u32,
    division_y: u32,
) -> (r: MeshCombinatorEval)
    requires
        variables.wf(),
    ensures
        (CombinatorEval {
            self_patch: opt_patch(r.self_patch),
            child_patch: opt_patch(r.child_patch),
        }) == split_combinators(
            *layer,
            table,
            psb.resources@,
            opt_bytes(psb_data),
            variables@,
            division_x,
            division_y,
        ),
        opt_patch_wf(opt_patch(r.self_patch)),
        opt_patch_wf(opt_patch(r.child_patch)),
{
    let data = match psb_data {
        Some(d) => d,
        None => {
            return MeshCombinatorEval { self_patch: None, child_patch: None };
        },
    };
    let list = match list_of(field_of(layer.field("meshCombinator"), "combinatorList")) {
        Some(v) => v,
        None => {
            return MeshCombinatorEval { self_patch: None, child_patch: None };
        },
    };
    if list.len() == 0 {
        return MeshCombinatorEval { self_patch: None, child_patch: None };
    }
    let domain = layer_mesh_domain(layer);
    let first_key = match list[0].field("variable") {
        Some(v) => v.field_str("key"),
        None => None,
    };
    let restores = match find_parent_key(layer, table) {
        None => true,
        Some(parent) => same_text(parent, "param") || match first_key {
            Some(first) => same_text(parent, first),
            None => false,
        },
    };
    let own = if restores {
        evaluate_one_combinator(&list[0], psb, data, variables, division_x, division_y, false)
    } else {
        None
    };
    let from: usize = if own.is_some() {
        1
    } else {
        0
    };
    let self_patch = match own {
        Some(patch) => Some(patch.with_domain(domain)),
        None => None,
    };
    let mut child_patch: Option<EmoteMeshPatch> = None;
    let mut i: usize = from;
    while i < list.len()
        invariant
            from <= i <= list@.len(),
            variables.wf(),
            opt_patch_wf(opt_patch(child_patch)),
            opt_patch(child_patch) == child_patches(
                list@,
                from as int,
                i as int,
                psb.resources@,
                data@,
                variables@,
                division_x,
                division_y,
                domain,
            ),
        decreases list@.len() - i,
    {
        if let Some(patch) = evaluate_one_combinator(
            &list[i],
            psb,
            data,
            variables,
            division_x,
            division_y,
            true,
        ) {
            let placed = patch.with_domain(domain);
            child_patch = combine_patch(&child_patch, &placed);
        }
        i = i + 1;
    }
    MeshCombinatorEval { self_patch, child_patch }
}

/// The bytes of optional data.
pub open spec fn opt_bytes(data: Option<&[u8]>) -> Option<Seq<u8>> {
    match data {
        Some(d) => Some(d@),
        None => None,
    }
}

} // verus!
