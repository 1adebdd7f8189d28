//! Which sprites and variables have to do with the face, and what lists show.

use crate::scene::{EmoteDrawPass, EmoteStaticSprite, Sprite};
use crate::single::Single;
use crate::text::{contains_part, lemma_pieces_len, occurs, pieces, split, texts};
use vstd::prelude::*;

verus! {

/// A text in lower case.
pub uninterp spec fn lowercased(s: Seq<char>) -> Seq<char>;

/// `str::to_lowercase`: the text in lower case, after the tables of Unicode. What it
/// is, is named `lowercased`; it depends on the text alone.
pub assume_specification[ str::to_lowercase ](s: &str) -> (r: String)
    ensures
        r@ == lowercased(s@),
;

/// Whether a path names a part of the face.
pub open spec fn is_face_path(path: Seq<char>) -> bool {
    ||| occurs(path, "face"@)
    ||| occurs(path, "eye"@)
    ||| occurs(path, "mouth"@)
    ||| occurs(path, "eyebrow"@)
    ||| occurs(path, "head"@)
    ||| occurs(path, "nose"@)
    ||| occurs(path, "目"@)
    ||| occurs(path, "眉"@)
    ||| occurs(path, "口"@)
    ||| occurs(path, "鼻"@)
    ||| occurs(path, "輪郭"@)
    ||| occurs(path, "頬"@)
    ||| occurs(path, "頭"@)
    ||| occurs(path, "表情"@)
}

/// Whether a sprite is a part of the face.
pub fn is_face_related_sprite(sprite: &EmoteStaticSprite) -> (r: bool)
    ensures
        r == is_face_path(sprite@.info.path),
{
    let path = sprite.draw_frame_info.path.as_str();
    contains_part(path, "face") || contains_part(path, "eye") || contains_part(path, "mouth")
        || contains_part(path, "eyebrow") || contains_part(path, "head") || contains_part(
        path,
        "nose",
    ) || contains_part(path, "目") || contains_part(path, "眉") || contains_part(path, "口")
        || contains_part(path, "鼻") || contains_part(path, "輪郭") || contains_part(path, "頬")
        || contains_part(path, "頭") || contains_part(path, "表情")
}

/// A group of variables of the face.
#[derive(Clone, Copy, Debug, PartialEq, Eq, Structural)]
pub enum FaceGroup {
    Eye,
    Eyebrow,
    Mouth,
}

/// Whether a name in lower case belongs to a group.
pub open spec fn in_group(group: FaceGroup, lower: Seq<char>) -> bool {
    match group {
        FaceGroup::Eye => occurs(lower, "eye"@) || occurs(lower, "hitomi"@) || occurs(lower, "目"@),
        FaceGroup::Eyebrow => occurs(lower, "eyebrow"@) || occurs(lower, "brow"@) || occurs(
            lower,
            "眉"@,
        ),
        FaceGroup::Mouth => occurs(lower, "mouth"@) || occurs(lower, "口"@),
    }
}

/// Tests whether a name in lower case belongs to a group.
pub fn lower_name_in_group(group: FaceGroup, lower: &str) -> (r: bool)
    ensures
        r == in_group(group, lower@),
{
    match group {
        FaceGroup::Eye => contains_part(lower, "eye") || contains_part(lower, "hitomi")
            || contains_part(lower, "目"),
        FaceGroup::Eyebrow => contains_part(lower, "eyebrow") || contains_part(lower, "brow")
            || contains_part(lower, "眉"),
        FaceGroup::Mouth => contains_part(lower, "mouth") || contains_part(lower, "口"),
    }
}

/// Tests whether a variable belongs to a group.
pub fn variable_in_group(group: FaceGroup, name: &str) -> (r: bool)
    ensures
        r == in_group(group, lowercased(name@)),
{
    let lower = name.to_lowercase();
    lower_name_in_group(group, lower.as_str())
}

/// Whether a name in lower case is that of an icon of the face.
pub open spec fn is_face_icon(lower: Seq<char>) -> bool {
    ||| occurs(lower, "eye"@)
    ||| occurs(lower, "mouth"@)
    ||| occurs(lower, "face"@)
    ||| occurs(lower, "目"@)
    ||| occurs(lower, "口"@)
    ||| occurs(lower, "眉"@)
    ||| occurs(lower, "鼻"@)
    ||| occurs(lower, "輪郭"@)
}

/// Tests whether a name in lower case is that of an icon of the face.
pub fn lower_name_is_face_icon(lower: &str) -> (r: bool)
    ensures
        r == is_face_icon(lower@),
{
    contains_part(lower, "eye") || contains_part(lower, "mouth") || contains_part(lower, "face")
        || contains_part(lower, "目") || contains_part(lower, "口") || contains_part(lower, "眉")
        || contains_part(lower, "鼻") || contains_part(lower, "輪郭")
}

/// Tests whether a name is that of an icon of the face.
pub fn icon_is_face_icon(name: &str) -> (r: bool)
    ensures
        r == is_face_icon(lowercased(name@)),
{
    let lower = name.to_lowercase();
    lower_name_is_face_icon(lower.as_str())
}

/// Whether a list with a filter shows a name, both in lower case.
pub open spec fn passes(lower: Seq<char>, filter: Seq<char>) -> bool {
    filter.len() == 0 || occurs(lower, filter)
}

/// Tests whether a list with a filter shows a name, both in lower case.
pub fn lower_name_passes(lower: &str, filter: &str) -> (r: bool)
    ensures
        r == passes(lower@, filter@),
{
    filter.is_empty() || contains_part(lower, filter)
}

/// Tests whether a list with a filter shows a variable.
pub fn variable_passes(name: &str, filter: &str) -> (r: bool)
    ensures
        r == passes(lowercased(name@), lowercased(filter@)),
{
    let lower = name.to_lowercase();
    let wanted = filter.to_lowercase();
    lower_name_passes(lower.as_str(), wanted.as_str())
}

/// How a layer stands in a list.
#[derive(Clone, Copy, Debug, PartialEq, Eq, Structural)]
pub enum LayerTint {
    Unseen,
    Face,
    Plain,
}

/// How a layer stands in a list, nothing where the filters leave it out. The filter,
/// the path and the label are given in lower case.
pub open spec fn listed_layer(
    sprite: Sprite,
    face_only: bool,
    visible_only: bool,
    filter: Seq<char>,
    path: Seq<char>,
    label: Seq<char>,
) -> Option<LayerTint> {
    let face = is_face_path(sprite.info.path);
    let unseen = !sprite.visible || sprite.opacity.le(Single::zero());
    if (face_only && !face) || (visible_only && unseen) || (filter.len() > 0 && !occurs(
        path,
        filter,
    ) && !occurs(label, filter)) {
        None
    } else if unseen {
        Some(LayerTint::Unseen)
    } else if face {
        Some(LayerTint::Face)
    } else {
        Some(LayerTint::Plain)
    }
}

/// How a layer stands in a list, with the filter, the path and the label in lower
/// case.
pub fn list_lower_layer(
    sprite: &EmoteStaticSprite,
    face_only: bool,
    visible_only: bool,
    filter: &str,
    path: &str,
    label: &str,
) -> (r: Option<LayerTint>)
    ensures
        r == listed_layer(sprite@, face_only, visible_only, filter@, path@, label@),
{
    let face = is_face_related_sprite(sprite);
    let unseen = !sprite.visible || sprite.opacity.le(Single::zero());
    if (face_only && !face) || (visible_only && unseen) || (!filter.is_empty() && !contains_part(
        path,
        filter,
    ) && !contains_part(label, filter)) {
        None
    } else if unseen {
        Some(LayerTint::Unseen)
    } else if face {
        Some(LayerTint::Face)
    } else {
        Some(LayerTint::Plain)
    }
}

/// The label of a layer, nothing where it has none.
pub open spec fn label_or_nothing(sprite: Sprite) -> Seq<char> {
    match sprite.info.layer_label {
        Some(l) => l,
        None => Seq::empty(),
    }
}

/// How a layer stands in a list.
pub fn list_layer(
    sprite: &EmoteStaticSprite,
    face_only: bool,
    visible_only: bool,
    filter: &str,
) -> (r: Option<LayerTint>)
    ensures
        r == listed_layer(
            sprite@,
            face_only,
            visible_only,
            lowercased(filter@),
            lowercased(sprite@.info.path),
            lowercased(label_or_nothing(sprite@)),
        ),
{
    let wanted = filter.to_lowercase();
    let path = sprite.draw_frame_info.path.as_str().to_lowercase();
    let label = match &sprite.draw_frame_info.layer_label {
        Some(l) => l.as_str(),
        None => {
            proof {
                reveal_strlit("");
                assert(""@ =~= Seq::<char>::empty());
            }
            ""
        },
    };
    let lower = label.to_lowercase();
    list_lower_layer(
        sprite,
        face_only,
        visible_only,
        wanted.as_str(),
        path.as_str(),
        lower.as_str(),
    )
}

/// How a layer of the face stands.
#[derive(Clone, Copy, Debug, PartialEq, Eq, Structural)]
pub enum FaceStatus {
    Hidden,
    Transparent,
    MaskSource,
    Fine,
}

pub open spec fn face_status_of(sprite: Sprite) -> FaceStatus {
    if !sprite.visible {
        FaceStatus::Hidden
    } else if sprite.opacity.le(Single::zero()) {
        FaceStatus::Transparent
    } else if sprite.info.pass is MaskGeneration {
        FaceStatus::MaskSource
    } else {
        FaceStatus::Fine
    }
}

fn is_mask_source(pass: EmoteDrawPass) -> (r: bool)
    ensures
        r == pass is MaskGeneration,
{
    match pass {
        EmoteDrawPass::MaskGeneration => true,
        _ => false,
    }
}

/// How a layer of the face stands.
pub fn face_status(sprite: &EmoteStaticSprite) -> (r: FaceStatus)
    ensures
        r == face_status_of(sprite@),
{
    if !sprite.visible {
        FaceStatus::Hidden
    } else if sprite.opacity.le(Single::zero()) {
        FaceStatus::Transparent
    } else if is_mask_source(sprite.draw_frame_info.pass) {
        FaceStatus::MaskSource
    } else {
        FaceStatus::Fine
    }
}

impl FaceStatus {
    pub open spec fn text(self) -> Seq<char> {
        match self {
            FaceStatus::Hidden => "HIDDEN"@,
            FaceStatus::Transparent => "op=0"@,
            FaceStatus::MaskSource => "mask-gen"@,
            FaceStatus::Fine => "ok"@,
        }
    }

    pub fn name(self) -> (r: &'static str)
        ensures
            r@ == self.text(),
    {
        match self {
            FaceStatus::Hidden => "HIDDEN",
            FaceStatus::Transparent => "op=0",
            FaceStatus::MaskSource => "mask-gen",
            FaceStatus::Fine => "ok",
        }
    }
}

/// What stands behind the last slash of a path.
pub fn short_path(path: &str) -> (r: String)
    ensures
        r@ == pieces(path@, '/').last(),
{
    let row = split(path, '/');
    proof {
        lemma_pieces_len(path@, '/');
    }
    let last: usize = row.len() - 1;
    assert(texts(row@)[last as int] == row@[last as int]@);
    row[last].clone()
}

} // verus!
