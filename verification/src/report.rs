//! Text reports on the textures and the scene of a model.

use crate::assembly::{EmoteStaticScene, Scene};
use crate::calls::{show_truth, truth_text};
use crate::manifest::field_line;
use crate::numerals::{decimal, decimal_u64};
use crate::order::{keys, ordered};
use crate::place::{scene_bounds, EmoteSceneBounds, Stand};
use crate::scene::{EmoteStaticSprite, Sprite};
use crate::schema::{
    textures_wf, EmoteModelSchema, EmoteTextureIcon, EmoteTextureSource, Icon, Schema, Texture,
};
use crate::show::{number_text, show_single};
use crate::single::Single;
use crate::text::opt_string;
use vstd::prelude::*;

verus! {

/// A text that may be missing, nothing in its place.
pub open spec fn or_nothing(s: Option<Seq<char>>) -> Seq<char> {
    match s {
        Some(t) => t,
        None => Seq::empty(),
    }
}

fn append_opt(out: &mut String, s: &Option<String>)
    ensures
        final(out)@ == old(out)@ + or_nothing(opt_string(*s)),
{
    match s {
        Some(t) => {
            out.append(t.as_str());
        },
        None => {
            assert(out@ + Seq::<char>::empty() =~= out@);
        },
    }
}

fn append_number(out: &mut String, x: Single)
    ensures
        final(out)@ == old(out)@ + number_text(x),
{
    let s = show_single(x);
    out.append(s.as_str());
}

fn append_count(out: &mut String, n: u64)
    ensures
        final(out)@ == old(out)@ + decimal(n as int),
{
    let s = decimal_u64(n);
    out.append(s.as_str());
}

/// The line of a texture.
pub open spec fn texture_line(name: Seq<char>, t: Texture) -> Seq<char> {
    "texture\t"@ + name + "\tresource="@ + decimal(t.resource_index as int) + "\tsize="@ + decimal(
        t.width as int,
    ) + "x"@ + decimal(t.height as int) + "\tformat="@ + or_nothing(t.format) + "\tcompress="@
        + or_nothing(t.compress) + "\tbit_count="@ + (match t.bit_count {
        Some(n) => decimal(n as int),
        None => Seq::empty(),
    }) + "\n"@
}

/// The line of an icon.
pub open spec fn icon_line(texture: Seq<char>, name: Seq<char>, i: Icon) -> Seq<char> {
    "icon\t"@ + texture + "\t"@ + name + "\tleft="@ + number_text(i.left) + "\ttop="@ + number_text(
        i.top,
    ) + "\twidth="@ + number_text(i.width) + "\theight="@ + number_text(i.height) + "\torigin=("@
        + number_text(i.origin_x) + ", "@ + number_text(i.origin_y) + ")\tresolution="@
        + number_text(i.resolution) + "\n"@
}

pub open spec fn icon_lines(
    texture: Seq<char>,
    icons: Map<Seq<char>, Icon>,
    names: Seq<Seq<char>>,
) -> Seq<char>
    decreases names.len(),
{
    if names.len() == 0 {
        Seq::empty()
    } else {
        icon_lines(texture, icons, names.drop_last()) + icon_line(
            texture,
            names.last(),
            icons[names.last()],
        )
    }
}

/// The lines of a texture and its icons.
pub open spec fn texture_block(name: Seq<char>, t: Texture) -> Seq<char> {
    texture_line(name, t) + icon_lines(name, t.icons, ordered(t.icons.dom()))
}

pub open spec fn texture_blocks(
    textures: Map<Seq<char>, Texture>,
    names: Seq<Seq<char>>,
) -> Seq<char>
    decreases names.len(),
{
    if names.len() == 0 {
        Seq::empty()
    } else {
        texture_blocks(textures, names.drop_last()) + texture_block(
            names.last(),
            textures[names.last()],
        )
    }
}

/// The report on the textures of a model.
pub open spec fn textures_text(schema: Schema) -> Seq<char> {
    field_line("base_object"@, schema.base_object) + field_line("spec"@, or_nothing(schema.spec))
        + texture_blocks(schema.textures, ordered(schema.textures.dom()))
}

fn show_icon(texture: &str, name: &str, i: &EmoteTextureIcon) -> (out: String)
    ensures
        out@ == icon_line(texture@, name@, i@),
{
    let mut out = "icon\t".to_owned();
    out.append(texture);
    out.append("\t");
    out.append(name);
    out.append("\tleft=");
    append_number(&mut out, i.left);
    out.append("\ttop=");
    append_number(&mut out, i.top);
    out.append("\twidth=");
    append_number(&mut out, i.width);
    out.append("\theight=");
    append_number(&mut out, i.height);
    out.append("\torigin=(");
    append_number(&mut out, i.origin_x);
    out.append(", ");
    append_number(&mut out, i.origin_y);
    out.append(")\tresolution=");
    append_number(&mut out, i.resolution);
    out.append("\n");
    out
}

fn show_texture(name: &str, t: &EmoteTextureSource) -> (out: String)
    ensures
        out@ == texture_line(name@, t@),
{
    let mut out = "texture\t".to_owned();
    out.append(name);
    out.append("\tresource=");
    append_count(&mut out, t.resource_index as u64);
    out.append("\tsize=");
    append_count(&mut out, t.width as u64);
    out.append("x");
    append_count(&mut out, t.height as u64);
    out.append("\tformat=");
    append_opt(&mut out, &t.format);
    out.append("\tcompress=");
    append_opt(&mut out, &t.compress);
    out.append("\tbit_count=");
    match t.bit_count {
        Some(n) => {
            append_count(&mut out, n as u64);
        },
        None => {
            assert(out@ + Seq::<char>::empty() =~= out@);
        },
    }
    out.append("\n");
    out
}

fn push_texture(out: &mut String, name: &str, t: &EmoteTextureSource)
    requires
        t.icons.wf(),
    ensures
        final(out)@ == old(out)@ + texture_block(name@, t@),
{
    let ghost start = out@;
    let line = show_texture(name, t);
    out.append(line.as_str());
    let ghost head = out@;
    let entries = &t.icons.entries;
    let ghost names = keys(entries@);
    let ghost icons = t@.icons;
    let mut i: usize = 0;
    proof {
        t.icons.lemma_ordered();
        assert(icons.dom() =~= t.icons@.dom());
        assert(head + icon_lines(name@, icons, names.take(0)) =~= head);
    }
    while i < entries.len()
        invariant
            i <= entries@.len(),
            t.icons.wf(),
            *entries == t.icons.entries,
            names == keys(entries@),
            icons == t@.icons,
            out@ == head + icon_lines(name@, icons, names.take(i as int)),
        decreases entries@.len() - i,
    {
        proof {
            t.icons.lemma_entry(i as int);
            assert(names.take(i + 1).drop_last() =~= names.take(i as int));
            assert(icons[names[i as int]] == entries@[i as int].1@);
        }
        let line = show_icon(name, entries[i].0.as_str(), &entries[i].1);
        out.append(line.as_str());
        assert(out@ =~= head + icon_lines(name@, icons, names.take(i + 1)));
        i = i + 1;
    }
    proof {
        assert(names.take(i as int) =~= names);
        assert(out@ =~= start + texture_block(name@, t@));
    }
}

/// Writes the report on the textures of a model.
pub fn write_textures(schema: &EmoteModelSchema) -> (r: String)
    requires
        textures_wf(schema.textures),
    ensures
        r@ == textures_text(schema@),
{
    let mut out = "base_object".to_owned();
    out.append("=");
    out.append(schema.base_object.as_str());
    out.append("\n");
    let ghost first = out@;
    out.append("spec");
    out.append("=");
    append_opt(&mut out, &schema.spec);
    out.append("\n");
    assert(out@ =~= first + field_line("spec"@, or_nothing(schema@.spec)));
    let ghost head = out@;
    let entries = &schema.textures.entries;
    let ghost names = keys(entries@);
    let ghost map = schema@.textures;
    let mut i: usize = 0;
    proof {
        schema.textures.lemma_ordered();
        assert(map.dom() =~= schema.textures@.dom());
        assert(head + texture_blocks(map, names.take(0)) =~= head);
    }
    while i < entries.len()
        invariant
            i <= entries@.len(),
            textures_wf(schema.textures),
            *entries == schema.textures.entries,
            names == keys(entries@),
            map == schema@.textures,
            out@ == head + texture_blocks(map, names.take(i as int)),
        decreases entries@.len() - i,
    {
        proof {
            schema.textures.lemma_entry(i as int);
            assert(names.take(i + 1).drop_last() =~= names.take(i as int));
            assert(map[names[i as int]] == entries@[i as int].1@);
        }
        push_texture(&mut out, entries[i].0.as_str(), &entries[i].1);
        assert(out@ =~= head + texture_blocks(map, names.take(i + 1)));
        i = i + 1;
    }
    assert(names.take(i as int) =~= names);
    out
}

/// The line of the bounds of a scene.
pub open spec fn bounds_line(bounds: Option<EmoteSceneBounds>) -> Seq<char> {
    match bounds {
        Some(b) => "bounds=min("@ + number_text(b.min_x) + ", "@ + number_text(b.min_y) + ") max("@
            + number_text(b.max_x) + ", "@ + number_text(b.max_y) + ") size="@ + number_text(
            b.width(),
        ) + "x"@ + number_text(b.height()) + "\n"@,
        None => "bounds=\n"@,
    }
}

/// The line of a sprite.
pub open spec fn sprite_line(index: nat, s: Sprite) -> Seq<char> {
    "sprite["@ + decimal(index as int) + "]\tmotion="@ + s.motion_name + "\tlabel="@ + or_nothing(
        s.label,
    ) + "\ttexture="@ + s.texture_name + "\tresource="@ + decimal(s.texture_resource_index as int)
        + "\ticon="@ + s.icon_name + "\tvisible="@ + truth_text(s.visible) + "\topacity="@
        + number_text(s.opacity) + "\tz="@ + number_text(s.z) + "\tcenter=("@ + number_text(
        s.center_x,
    ) + ", "@ + number_text(s.center_y) + ")\tsize="@ + number_text(s.width) + "x"@ + number_text(
        s.height,
    ) + "\tuv=("@ + number_text(s.uv_left) + ", "@ + number_text(s.uv_top) + ")-("@ + number_text(
        s.uv_right,
    ) + ", "@ + number_text(s.uv_bottom) + ")\n"@
}

pub open spec fn sprite_lines(sprites: Seq<Sprite>) -> Seq<char>
    decreases sprites.len(),
{
    if sprites.len() == 0 {
        Seq::empty()
    } else {
        sprite_lines(sprites.drop_last()) + sprite_line(
            (sprites.len() - 1) as nat,
            sprites.last(),
        )
    }
}

/// The report on a scene, given where its sprites stand.
pub open spec fn scene_text(scene: Scene, stands: Seq<Stand>) -> Seq<char> {
    field_line("base_object"@, scene.base_object) + bounds_line(
        scene_bounds(scene.sprites, stands),
    ) + sprite_lines(scene.sprites)
}

fn show_bounds(bounds: Option<EmoteSceneBounds>) -> (r: String)
    ensures
        r@ == bounds_line(bounds),
{
    match bounds {
        Some(b) => {
            let mut out = "bounds=min(".to_owned();
            append_number(&mut out, b.min_x);
            out.append(", ");
            append_number(&mut out, b.min_y);
            out.append(") max(");
            append_number(&mut out, b.max_x);
            out.append(", ");
            append_number(&mut out, b.max_y);
            out.append(") size=");
            append_number(&mut out, b.width());
            out.append("x");
            append_number(&mut out, b.height());
            out.append("\n");
            out
        },
        None => "bounds=\n".to_owned(),
    }
}

fn show_sprite(index: usize, s: &EmoteStaticSprite) -> (out: String)
    ensures
        out@ == sprite_line(index as nat, s@),
{
    let mut out = "sprite[".to_owned();
    append_count(&mut out, index as u64);
    out.append("]\tmotion=");
    out.append(s.motion_name.as_str());
    out.append("\tlabel=");
    append_opt(&mut out, &s.label);
    out.append("\ttexture=");
    out.append(s.texture_name.as_str());
    out.append("\tresource=");
    append_count(&mut out, s.texture_resource_index as u64);
    out.append("\ticon=");
    out.append(s.icon_name.as_str());
    out.append("\tvisible=");
    out.append(show_truth(s.visible).as_str());
    out.append("\topacity=");
    append_number(&mut out, s.opacity);
    out.append("\tz=");
    append_number(&mut out, s.z);
    out.append("\tcenter=(");
    append_number(&mut out, s.center_x);
    out.append(", ");
    append_number(&mut out, s.center_y);
    out.append(")\tsize=");
    append_number(&mut out, s.width);
    out.append("x");
    append_number(&mut out, s.height);
    out.append("\tuv=(");
    append_number(&mut out, s.uv_left);
    out.append(", ");
    append_number(&mut out, s.uv_top);
    out.append(")-(");
    append_number(&mut out, s.uv_right);
    out.append(", ");
    append_number(&mut out, s.uv_bottom);
    out.append(")\n");
    out
}

/// Writes the report on a scene, given where its sprites stand.
pub fn write_scene(scene: &EmoteStaticScene, stands: &Vec<Stand>) -> (r: String)
    requires
        scene.wf(),
        stands@.len() == scene.sprites@.len(),
    ensures
        r@ == scene_text(scene@, stands@),
{
    let mut out = "base_object".to_owned();
    out.append("=");
    out.append(scene.base_object.as_str());
    out.append("\n");
    out.append(show_bounds(scene.bounds(stands)).as_str());
    let ghost head = out@;
    let ghost all = scene@.sprites;
    let mut i: usize = 0;
    assert(head + sprite_lines(all.take(0)) =~= head);
    while i < scene.sprites.len()
        invariant
            i <= scene.sprites@.len(),
            all == scene@.sprites,
            out@ == head + sprite_lines(all.take(i as int)),
        decreases scene.sprites@.len() - i,
    {
        assert(all.take(i + 1).drop_last() =~= all.take(i as int));
        assert(all.take(i + 1).last() == scene.sprites@[i as int]@);
        let line = show_sprite(i, &scene.sprites[i]);
        out.append(line.as_str());
        assert(out@ =~= head + sprite_lines(all.take(i + 1)));
        i = i + 1;
    }
    assert(all.take(i as int) =~= all);
    out
}

} // verus!
