//! The parts of an Emote model that a PSB document describes: its base object,
//! its textures and their icons, and its motions.

use crate::frames::{motion_duration, motion_duration_ticks};
use crate::order::TextMap;
use crate::single::Single;
use crate::text::{concat_text, join_two, opt_owned, opt_string};
use crate::value::{either, field_of, PsbValue};
use vstd::prelude::*;

verus! {

/// Why a document cannot be read as an Emote model.
#[derive(Clone, Debug, PartialEq, Eq)]
pub enum EmoteSchemaError {
    RootIsNotObject,
    MissingObjectTable,
    MissingSourceTable,
    MissingBaseObject,
    InvalidSourceTexture { source: String },
    InvalidTextureResource { source: String },
    InvalidIcon { source: String, icon: String },
    /// The layers and motions nest deeper than allowed.
    NestedTooDeep,
}

/// An `EmoteSchemaError` by its characters.
#[verifier::ext_equal]
pub enum SchemaFault {
    RootIsNotObject,
    MissingObjectTable,
    MissingSourceTable,
    MissingBaseObject,
    InvalidSourceTexture { source: Seq<char> },
    InvalidTextureResource { source: Seq<char> },
    InvalidIcon { source: Seq<char>, icon: Seq<char> },
    NestedTooDeep,
}

impl View for EmoteSchemaError {
    type V = SchemaFault;

    open spec fn view(&self) -> SchemaFault {
        match self {
            EmoteSchemaError::RootIsNotObject => SchemaFault::RootIsNotObject,
            EmoteSchemaError::MissingObjectTable => SchemaFault::MissingObjectTable,
            EmoteSchemaError::MissingSourceTable => SchemaFault::MissingSourceTable,
            EmoteSchemaError::MissingBaseObject => SchemaFault::MissingBaseObject,
            EmoteSchemaError::InvalidSourceTexture { source } =>
                SchemaFault::InvalidSourceTexture { source: source@ },
            EmoteSchemaError::InvalidTextureResource { source } =>
                SchemaFault::InvalidTextureResource { source: source@ },
            EmoteSchemaError::InvalidIcon { source, icon } => SchemaFault::InvalidIcon {
                source: source@,
                icon: icon@,
            },
            EmoteSchemaError::NestedTooDeep => SchemaFault::NestedTooDeep,
        }
    }
}

impl SchemaFault {
    /// The message for users.
    pub open spec fn message(self) -> Seq<char> {
        match self {
            SchemaFault::RootIsNotObject => "PSB root is not an object"@,
            SchemaFault::MissingObjectTable => "Emote PSB has no object table"@,
            SchemaFault::MissingSourceTable => "Emote PSB has no source table"@,
            SchemaFault::MissingBaseObject => "cannot determine base Emote object"@,
            SchemaFault::InvalidSourceTexture { source } => "invalid source texture entry for "@
                + source,
            SchemaFault::InvalidTextureResource { source } =>
                "invalid or missing texture resource for "@ + source,
            SchemaFault::InvalidIcon { source, icon } => "invalid icon "@ + source + "/"@ + icon,
            SchemaFault::NestedTooDeep => "Emote layers nest too deep"@,
        }
    }
}

impl EmoteSchemaError {
    /// The message for users.
    pub fn message(&self) -> (r: String)
        ensures
            r@ == self@.message(),
    {
        match self {
            EmoteSchemaError::RootIsNotObject => "PSB root is not an object".to_owned(),
            EmoteSchemaError::MissingObjectTable => "Emote PSB has no object table".to_owned(),
            EmoteSchemaError::MissingSourceTable => "Emote PSB has no source table".to_owned(),
            EmoteSchemaError::MissingBaseObject => "cannot determine base Emote object".to_owned(),
            EmoteSchemaError::InvalidSourceTexture { source } => concat_text(
                "invalid source texture entry for ",
                source.as_str(),
            ),
            EmoteSchemaError::InvalidTextureResource { source } => concat_text(
                "invalid or missing texture resource for ",
                source.as_str(),
            ),
            EmoteSchemaError::InvalidIcon { source, icon } => {
                let head = concat_text("invalid icon ", source.as_str());
                join_two(head.as_str(), "/", icon.as_str())
            },
            EmoteSchemaError::NestedTooDeep => "Emote layers nest too deep".to_owned(),
        }
    }
}

/// A rectangle of a texture.
#[derive(Clone, Debug)]
pub struct EmoteTextureIcon {
    pub texture_name: String,
    pub name: String,
    pub left: Single,
    pub top: Single,
    pub width: Single,
    pub height: Single,
    pub origin_x: Single,
    pub origin_y: Single,
    pub resolution: Single,
    pub attr: Option<u32>,
}

/// An `EmoteTextureIcon` by its characters.
#[verifier::ext_equal]
pub struct Icon {
    pub texture_name: Seq<char>,
    pub name: Seq<char>,
    pub left: Single,
    pub top: Single,
    pub width: Single,
    pub height: Single,
    pub origin_x: Single,
    pub origin_y: Single,
    pub resolution: Single,
    pub attr: Option<u32>,
}

impl View for EmoteTextureIcon {
    type V = Icon;

    open spec fn view(&self) -> Icon {
        Icon {
            texture_name: self.texture_name@,
            name: self.name@,
            left: self.left,
            top: self.top,
            width: self.width,
            height: self.height,
            origin_x: self.origin_x,
            origin_y: self.origin_y,
            resolution: self.resolution,
            attr: self.attr,
        }
    }
}

impl EmoteTextureIcon {
    /// The width in model units.
    pub fn resolved_width(&self) -> (r: Single)
        ensures
            r == self.width.times(self.resolution),
    {
        self.width.times(self.resolution)
    }

    /// The height in model units.
    pub fn resolved_height(&self) -> (r: Single)
        ensures
            r == self.height.times(self.resolution),
    {
        self.height.times(self.resolution)
    }
}

/// A texture with its icons.
#[derive(Clone, Debug)]
pub struct EmoteTextureSource {
    pub name: String,
    pub resource_index: u32,
    pub width: u32,
    pub height: u32,
    pub format: Option<String>,
    pub compress: Option<String>,
    pub bit_count: Option<u32>,
    pub icons: TextMap<EmoteTextureIcon>,
}

/// An `EmoteTextureSource` by its characters.
#[verifier::ext_equal]
pub struct Texture {
    pub name: Seq<char>,
    pub resource_index: u32,
    pub width: u32,
    pub height: u32,
    pub format: Option<Seq<char>>,
    pub compress: Option<Seq<char>>,
    pub bit_count: Option<u32>,
    pub icons: Map<Seq<char>, Icon>,
}

/// The icons of a map by their characters.
pub open spec fn icons_view(m: TextMap<EmoteTextureIcon>) -> Map<Seq<char>, Icon> {
    m@.map_values(|i: EmoteTextureIcon| i@)
}

impl View for EmoteTextureSource {
    type V = Texture;

    open spec fn view(&self) -> Texture {
        Texture {
            name: self.name@,
            resource_index: self.resource_index,
            width: self.width,
            height: self.height,
            format: opt_string(self.format),
            compress: opt_string(self.compress),
            bit_count: self.bit_count,
            icons: icons_view(self.icons),
        }
    }
}

/// The textures of a map by their characters.
pub open spec fn textures_view(m: TextMap<EmoteTextureSource>) -> Map<Seq<char>, Texture> {
    m@.map_values(|t: EmoteTextureSource| t@)
}

/// Both the map and the icons of each texture are in order.
pub open spec fn textures_wf(m: TextMap<EmoteTextureSource>) -> bool {
    &&& m.wf()
    &&& forall|k: Seq<char>| #[trigger] m@.dom().contains(k) ==> m@[k].icons.wf()
}

/// A model: its base object, its platform and its textures.
#[derive(Clone, Debug)]
pub struct EmoteModelSchema {
    pub base_object: String,
    pub spec: Option<String>,
    pub textures: TextMap<EmoteTextureSource>,
}

/// An `EmoteModelSchema` by its characters.
#[verifier::ext_equal]
pub struct Schema {
    pub base_object: Seq<char>,
    pub spec: Option<Seq<char>>,
    pub textures: Map<Seq<char>, Texture>,
}

impl View for EmoteModelSchema {
    type V = Schema;

    open spec fn view(&self) -> Schema {
        Schema {
            base_object: self.base_object@,
            spec: opt_string(self.spec),
            textures: textures_view(self.textures),
        }
    }
}

/// A motion and how long it runs.
#[derive(Clone, Debug)]
pub struct EmoteMotionInfo {
    pub name: String,
    pub duration_ticks: Single,
}

/// A whole number above zero that fits.
pub open spec fn positive_u32(value: Option<&PsbValue>) -> Option<u32> {
    match value {
        Some(v) => match v.as_i64() {
            Some(n) => if 0 < n <= u32::MAX {
                Some(n as u32)
            } else {
                None
            },
            None => None,
        },
        None => None,
    }
}

pub fn number_to_positive_u32(value: Option<&PsbValue>) -> (r: Option<u32>)
    ensures
        r == positive_u32(value),
{
    match value {
        Some(v) => match v.as_i64() {
            Some(n) => if 0 < n && n <= 0xffff_ffff {
                Some(n as u32)
            } else {
                None
            },
            None => None,
        },
        None => None,
    }
}

/// The icon that an entry describes: none of its four sides may be missing.
pub open spec fn icon_of(source: Seq<char>, name: Seq<char>, value: PsbValue) -> Option<Icon> {
    match (
        value.field_single("left"),
        value.field_single("top"),
        value.field_single("width"),
        value.field_single("height"),
    ) {
        (Some(left), Some(top), Some(width), Some(height)) => Some(
            Icon {
                texture_name: source,
                name,
                left,
                top,
                width,
                height,
                origin_x: value.field_single("originX").unwrap_or(Single::zero()),
                origin_y: value.field_single("originY").unwrap_or(Single::zero()),
                resolution: value.field_single("resolution").unwrap_or(Single::one()),
                attr: value.field_u32("attr"),
            },
        ),
        _ => None,
    }
}

/// The icons that a row of entries describes, later ones in place of earlier
/// ones of the same name.
pub open spec fn icons_of(
    source: Seq<char>,
    entries: Seq<(String, PsbValue)>,
) -> Result<Map<Seq<char>, Icon>, SchemaFault>
    decreases entries.len(),
{
    if entries.len() == 0 {
        Ok(Map::empty())
    } else {
        match icons_of(source, entries.drop_last()) {
            Err(e) => Err(e),
            Ok(m) => {
                let name = entries.last().0@;
                match icon_of(source, name, entries.last().1) {
                    Some(icon) => Ok(m.insert(name, icon)),
                    None => Err(SchemaFault::InvalidIcon { source, icon: name }),
                }
            },
        }
    }
}

/// The entries of an optional object.
pub open spec fn entries_of(value: Option<&PsbValue>) -> Seq<(String, PsbValue)> {
    match value {
        Some(v) => match v.as_object() {
            Some(fields) => fields@,
            None => Seq::empty(),
        },
        None => Seq::empty(),
    }
}

/// The index of the resource that holds the pixels.
pub open spec fn pixel_resource(texture: PsbValue) -> Option<u32> {
    either(
        texture.field_u32("pixel"),
        either(texture.field_u32("data"), texture.field_u32("resource")),
    )
}

/// The texture that an entry describes, given its `texture` field.
pub open spec fn texture_of(
    name: Seq<char>,
    value: PsbValue,
    texture: PsbValue,
) -> Result<Texture, SchemaFault> {
    match pixel_resource(texture) {
        None => Err(SchemaFault::InvalidTextureResource { source: name }),
        Some(resource_index) => match (
            positive_u32(texture.field("width")),
            positive_u32(texture.field("height")),
        ) {
            (Some(width), Some(height)) => match icons_of(name, entries_of(value.field("icon"))) {
                Err(e) => Err(e),
                Ok(icons) => Ok(
                    Texture {
                        name,
                        resource_index,
                        width,
                        height,
                        format: texture.text_field("type"),
                        compress: texture.text_field("compress"),
                        bit_count: texture.field_u32("bitCount"),
                        icons,
                    },
                ),
            },
            _ => Err(SchemaFault::InvalidSourceTexture { source: name }),
        },
    }
}

/// The textures that a row of source entries describes. Entries without a
/// texture are passed over; the first fault stops the reading.
pub open spec fn textures_of(
    entries: Seq<(String, PsbValue)>,
) -> Result<Map<Seq<char>, Texture>, SchemaFault>
    decreases entries.len(),
{
    if entries.len() == 0 {
        Ok(Map::empty())
    } else {
        match textures_of(entries.drop_last()) {
            Err(e) => Err(e),
            Ok(m) => {
                let name = entries.last().0@;
                let value = entries.last().1;
                match value.field("texture") {
                    None => Ok(m),
                    Some(texture) => match texture_of(name, value, *texture) {
                        Ok(t) => Ok(m.insert(name, t)),
                        Err(e) => Err(e),
                    },
                }
            },
        }
    }
}

/// A fault in the first entries is a fault in all of them.
proof fn lemma_textures_fault(entries: Seq<(String, PsbValue)>, n: int)
    requires
        0 <= n <= entries.len(),
        textures_of(entries.take(n)) is Err,
    ensures
        textures_of(entries) == textures_of(entries.take(n)),
    decreases entries.len(),
{
    if n == entries.len() {
        assert(entries.take(n) =~= entries);
    } else {
        assert(entries.drop_last().take(n) =~= entries.take(n));
        lemma_textures_fault(entries.drop_last(), n);
    }
}

proof fn lemma_icons_fault(source: Seq<char>, entries: Seq<(String, PsbValue)>, n: int)
    requires
        0 <= n <= entries.len(),
        icons_of(source, entries.take(n)) is Err,
    ensures
        icons_of(source, entries) == icons_of(source, entries.take(n)),
    decreases entries.len(),
{
    if n == entries.len() {
        assert(entries.take(n) =~= entries);
    } else {
        assert(entries.drop_last().take(n) =~= entries.take(n));
        lemma_icons_fault(source, entries.drop_last(), n);
    }
}

fn read_icon(source: &str, name: &str, value: &PsbValue) -> (r: Option<EmoteTextureIcon>)
    ensures
        match r {
            Some(icon) => icon_of(source@, name@, *value) == Some(icon@),
            None => icon_of(source@, name@, *value) is None,
        },
{
    match (
        value.field_single("left"),
        value.field_single("top"),
        value.field_single("width"),
        value.field_single("height"),
    ) {
        (Some(left), Some(top), Some(width), Some(height)) => Some(
            EmoteTextureIcon {
                texture_name: source.to_owned(),
                name: name.to_owned(),
                left,
                top,
                width,
                height,
                origin_x: value.field_single("originX").unwrap_or(Single::zero()),
                origin_y: value.field_single("originY").unwrap_or(Single::zero()),
                resolution: value.field_single("resolution").unwrap_or(Single::one()),
                attr: value.field_u32("attr"),
            },
        ),
        _ => None,
    }
}

fn read_icons(source: &str, value: &PsbValue) -> (r: Result<
    TextMap<EmoteTextureIcon>,
    EmoteSchemaError,
>)
    ensures
        match r {
            Ok(m) => m.wf() && icons_of(source@, entries_of(value.field("icon"))) == Ok::<
                Map<Seq<char>, Icon>,
                SchemaFault,
            >(icons_view(m)),
            Err(e) => icons_of(source@, entries_of(value.field("icon"))) == Err::<
                Map<Seq<char>, Icon>,
                SchemaFault,
            >(e@),
        },
{
    let mut icons: TextMap<EmoteTextureIcon> = TextMap::new();
    assert(icons_view(icons) =~= Map::<Seq<char>, Icon>::empty());
    if let Some(v) = value.field("icon") {
        if let Some(fields) = v.as_object() {
            let mut i: usize = 0;
            while i < fields.len()
                invariant
                    i <= fields@.len(),
                    fields@ == entries_of(value.field("icon")),
                    icons.wf(),
                    icons_of(source@, fields@.take(i as int)) == Ok::<
                        Map<Seq<char>, Icon>,
                        SchemaFault,
                    >(icons_view(icons)),
                decreases fields@.len() - i,
            {
                let ghost next = fields@.take(i + 1);
                assert(next.drop_last() =~= fields@.take(i as int));
                assert(next.last() == fields@[i as int]);
                match read_icon(source, fields[i].0.as_str(), &fields[i].1) {
                    Some(icon) => {
                        let ghost before = icons_view(icons);
                        let ghost shown = icon@;
                        icons.insert(fields[i].0.clone(), icon);
                        assert(icons_view(icons) =~= before.insert(fields@[i as int].0@, shown));
                    },
                    None => {
                        proof {
                            lemma_icons_fault(source@, fields@, i + 1);
                        }
                        return Err(
                            EmoteSchemaError::InvalidIcon {
                                source: source.to_owned(),
                                icon: fields[i].0.clone(),
                            },
                        );
                    },
                }
                i = i + 1;
            }
            assert(fields@.take(i as int) =~= fields@);
            return Ok(icons);
        }
    }
    Ok(icons)
}

fn read_texture(name: &str, value: &PsbValue, texture: &PsbValue) -> (r: Result<
    EmoteTextureSource,
    EmoteSchemaError,
>)
    ensures
        match r {
            Ok(t) => t.icons.wf() && texture_of(name@, *value, *texture) == Ok::<
                Texture,
                SchemaFault,
            >(t@),
            Err(e) => texture_of(name@, *value, *texture) == Err::<Texture, SchemaFault>(e@),
        },
{
    let resource_index = match either(
        texture.field_u32("pixel"),
        either(texture.field_u32("data"), texture.field_u32("resource")),
    ) {
        Some(index) => index,
        None => {
            return Err(EmoteSchemaError::InvalidTextureResource { source: name.to_owned() });
        },
    };
    let width = match number_to_positive_u32(texture.field("width")) {
        Some(n) => n,
        None => {
            return Err(EmoteSchemaError::InvalidSourceTexture { source: name.to_owned() });
        },
    };
    let height = match number_to_positive_u32(texture.field("height")) {
        Some(n) => n,
        None => {
            return Err(EmoteSchemaError::InvalidSourceTexture { source: name.to_owned() });
        },
    };
    match read_icons(name, value) {
        Err(e) => Err(e),
        Ok(icons) => Ok(
            EmoteTextureSource {
                name: name.to_owned(),
                resource_index,
                width,
                height,
                format: opt_owned(texture.field_str("type")),
                compress: opt_owned(texture.field_str("compress")),
                bit_count: texture.field_u32("bitCount"),
                icons,
            },
        ),
    }
}

/// Reads the textures of the source table.
pub fn collect_textures(source: &PsbValue) -> (r: Result<
    TextMap<EmoteTextureSource>,
    EmoteSchemaError,
>)
    ensures
        match r {
            Ok(m) => textures_wf(m) && textures_of(entries_of(Some(source))) == Ok::<
                Map<Seq<char>, Texture>,
                SchemaFault,
            >(textures_view(m)),
            Err(e) => textures_of(entries_of(Some(source))) == Err::<
                Map<Seq<char>, Texture>,
                SchemaFault,
            >(e@),
        },
{
    let mut textures: TextMap<EmoteTextureSource> = TextMap::new();
    assert(textures_view(textures) =~= Map::<Seq<char>, Texture>::empty());
    if let Some(fields) = source.as_object() {
        let mut i: usize = 0;
        while i < fields.len()
            invariant
                i <= fields@.len(),
                fields@ == entries_of(Some(source)),
                textures_wf(textures),
                textures_of(fields@.take(i as int)) == Ok::<Map<Seq<char>, Texture>, SchemaFault>(
                    textures_view(textures),
                ),
            decreases fields@.len() - i,
        {
            let ghost next = fields@.take(i + 1);
            assert(next.drop_last() =~= fields@.take(i as int));
            assert(next.last() == fields@[i as int]);
            if let Some(texture) = fields[i].1.field("texture") {
                match read_texture(fields[i].0.as_str(), &fields[i].1, texture) {
                    Ok(t) => {
                        let ghost before = textures_view(textures);
                        let ghost shown = t@;
                        textures.insert(fields[i].0.clone(), t);
                        assert(textures_view(textures) =~= before.insert(
                            fields@[i as int].0@,
                            shown,
                        ));
                    },
                    Err(e) => {
                        proof {
                            lemma_textures_fault(fields@, i + 1);
                        }
                        return Err(e);
                    },
                }
            }
            i = i + 1;
        }
        assert(fields@.take(i as int) =~= fields@);
        return Ok(textures);
    }
    Ok(textures)
}

/// The name of the base object: the character that the metadata names, else
/// `all_parts` where there is such an object, else the first object.
pub open spec fn base_object(root: PsbValue, object_table: PsbValue) -> Option<Seq<char>> {
    let chara = match field_of(field_of(root.field("metadata"), "base"), "chara") {
        Some(v) => v.text(),
        None => None,
    };
    if chara is Some && chara->0.len() > 0 {
        chara
    } else if object_table.field("all_parts") is Some {
        Some("all_parts"@)
    } else {
        match object_table.as_object() {
            Some(fields) => if fields@.len() > 0 {
                Some(fields@[0].0@)
            } else {
                None
            },
            None => None,
        }
    }
}

pub fn find_base_object(root: &PsbValue, object_table: &PsbValue) -> (r: Result<
    String,
    EmoteSchemaError,
>)
    ensures
        match r {
            Ok(name) => base_object(*root, *object_table) == Some(name@),
            Err(e) => base_object(*root, *object_table) is None
                && e@ == SchemaFault::MissingBaseObject,
        },
{
    if let Some(base) = field_of(root.field("metadata"), "base") {
        if let Some(chara) = base.field_str("chara") {
            if !chara.is_empty() {
                return Ok(chara.to_owned());
            }
        }
    }
    if object_table.field("all_parts").is_some() {
        return Ok("all_parts".to_owned());
    }
    if let Some(fields) = object_table.as_object() {
        if fields.len() > 0 {
            return Ok(fields[0].0.clone());
        }
    }
    Err(EmoteSchemaError::MissingBaseObject)
}

/// The model that a document describes.
pub open spec fn schema_of(root: PsbValue) -> Result<Schema, SchemaFault> {
    if !(root is Object) {
        Err(SchemaFault::RootIsNotObject)
    } else {
        match root.field("object") {
            None => Err(SchemaFault::MissingObjectTable),
            Some(object) => match root.field("source") {
                None => Err(SchemaFault::MissingSourceTable),
                Some(source) => match base_object(root, *object) {
                    None => Err(SchemaFault::MissingBaseObject),
                    Some(base_object) => match textures_of(entries_of(Some(source))) {
                        Err(e) => Err(e),
                        Ok(textures) => Ok(
                            Schema { base_object, spec: root.text_field("spec"), textures },
                        ),
                    },
                },
            },
        }
    }
}

/// The motions under the base object.
pub open spec fn motions_of(root: PsbValue, base_object: Seq<char>) -> Result<
    Seq<(String, PsbValue)>,
    SchemaFault,
> {
    if !(root is Object) {
        Err(SchemaFault::RootIsNotObject)
    } else {
        match root.field("object") {
            None => Err(SchemaFault::MissingObjectTable),
            Some(table) => match table.named(base_object) {
                None => Err(SchemaFault::MissingBaseObject),
                Some(base) => Ok(entries_of(base.field("motion"))),
            },
        }
    }
}

impl EmoteModelSchema {
    /// Reads the model that a document describes.
    pub fn from_psb(root: &PsbValue) -> (r: Result<EmoteModelSchema, EmoteSchemaError>)
        ensures
            match r {
                Ok(s) => textures_wf(s.textures) && schema_of(*root) == Ok::<Schema, SchemaFault>(
                    s@,
                ),
                Err(e) => schema_of(*root) == Err::<Schema, SchemaFault>(e@),
            },
    {
        if root.as_object().is_none() {
            return Err(EmoteSchemaError::RootIsNotObject);
        }
        let object = match root.field("object") {
            Some(v) => v,
            None => {
                return Err(EmoteSchemaError::MissingObjectTable);
            },
        };
        let source = match root.field("source") {
            Some(v) => v,
            None => {
                return Err(EmoteSchemaError::MissingSourceTable);
            },
        };
        let base_object = match find_base_object(root, object) {
            Ok(name) => name,
            Err(e) => {
                return Err(e);
            },
        };
        match collect_textures(source) {
            Ok(textures) => Ok(
                EmoteModelSchema {
                    base_object,
                    spec: opt_owned(root.field_str("spec")),
                    textures,
                },
            ),
            Err(e) => Err(e),
        }
    }

    /// The motions under the base object, in the order of the document.
    pub fn motion_infos(&self, root: &PsbValue) -> (r: Result<
        Vec<EmoteMotionInfo>,
        EmoteSchemaError,
    >)
        ensures
            match r {
                Ok(infos) => {
                    &&& motions_of(*root, self.base_object@) is Ok
                    &&& infos@.len() == motions_of(*root, self.base_object@)->Ok_0.len()
                    &&& forall|i: int|
                        0 <= i < infos@.len() ==> {
                            let motion = motions_of(*root, self.base_object@)->Ok_0[i];
                            (#[trigger] infos@[i]).name@ == motion.0@ && infos@[i].duration_ticks
                                == motion_duration(motion.1).unwrap_or(Single::zero())
                        }
                },
                Err(e) => motions_of(*root, self.base_object@) == Err::<
                    Seq<(String, PsbValue)>,
                    SchemaFault,
                >(e@),
            },
    {
        if root.as_object().is_none() {
            return Err(EmoteSchemaError::RootIsNotObject);
        }
        let table = match root.field("object") {
            Some(v) => v,
            None => {
                return Err(EmoteSchemaError::MissingObjectTable);
            },
        };
        let base = match table.field(self.base_object.as_str()) {
            Some(v) => v,
            None => {
                return Err(EmoteSchemaError::MissingBaseObject);
            },
        };
        let mut out: Vec<EmoteMotionInfo> = Vec::new();
        if let Some(motion_table) = base.field("motion") {
            if let Some(motions) = motion_table.as_object() {
                let mut i: usize = 0;
                while i < motions.len()
                    invariant
                        i <= motions@.len(),
                        out@.len() == i,
                        forall|j: int|
                            0 <= j < i ==> (#[trigger] out@[j]).name@ == motions@[j].0@
                                && out@[j].duration_ticks == motion_duration(
                                motions@[j].1,
                            ).unwrap_or(Single::zero()),
                    decreases motions@.len() - i,
                {
                    out.push(
                        EmoteMotionInfo {
                            name: motions[i].0.clone(),
                            duration_ticks: motion_duration_ticks(&motions[i].1).unwrap_or(
                                Single::zero(),
                            ),
                        },
                    );
                    i = i + 1;
                }
            }
        }
        Ok(out)
    }

    /// The first motion under the base object.
    pub fn default_motion_name(&self, root: &PsbValue) -> (r: Result<
        Option<String>,
        EmoteSchemaError,
    >)
        ensures
            match r {
                Ok(name) => {
                    &&& motions_of(*root, self.base_object@) is Ok
                    &&& opt_string(name) == (if motions_of(*root, self.base_object@)->Ok_0.len()
                        > 0 {
                        Some(motions_of(*root, self.base_object@)->Ok_0[0].0@)
                    } else {
                        None
                    })
                },
                Err(e) => motions_of(*root, self.base_object@) == Err::<
                    Seq<(String, PsbValue)>,
                    SchemaFault,
                >(e@),
            },
    {
        match self.motion_infos(root) {
            Ok(infos) => if infos.len() > 0 {
                assert(infos@[0].name@ == motions_of(*root, self.base_object@)->Ok_0[0].0@);
                Ok(Some(infos[0].name.clone()))
            } else {
                Ok(None)
            },
            Err(e) => Err(e),
        }
    }
}

} // verus!
