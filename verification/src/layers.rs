//! What a layer's own fields say: its place in the drawing order, the parameter
//! that drives it and the density of its mesh.

use crate::combinator::{find_parameter_name, parameter_name, resolve_parameterize};
use crate::curve::unit_clamp;
use crate::frames::{frame_time, latest_frame, leading, max_frame_list_time};
use crate::order::TextMap;
use crate::single::Single;
use crate::text::{contains_text, opt_string, texts};
use crate::value::{either, list_of, PsbValue};
use vstd::prelude::*;

verus! {

/// The content that is in force after some frames: that of the last one of type
/// one, where it is a list.
pub open spec fn last_content(frames: Seq<PsbValue>) -> Option<Seq<PsbValue>>
    decreases frames.len(),
{
    if frames.len() == 0 {
        None
    } else if frames.last().field_i64("type").unwrap_or(1) == 1 {
        match list_of(frames.last().field("content")) {
            Some(items) => Some(items@),
            None => None,
        }
    } else {
        last_content(frames.drop_last())
    }
}

/// The drawing priorities at a time.
pub open spec fn priority_content(priority: Option<&Vec<PsbValue>>, time: Single) -> Option<
    Seq<PsbValue>,
> {
    match priority {
        Some(frames) => last_content(frames@.take(leading(frames@, time) as int)),
        None => None,
    }
}

pub fn evaluate_priority_content<'a>(priority: Option<&'a Vec<PsbValue>>, time: Single) -> (r:
    Option<&'a Vec<PsbValue>>)
    ensures
        match r {
            Some(items) => priority_content(priority, time) == Some(items@),
            None => priority_content(priority, time) is None,
        },
{
    let frames = match priority {
        Some(v) => v,
        None => {
            return None;
        },
    };
    let mut current: Option<&'a Vec<PsbValue>> = None;
    let mut i: usize = 0;
    assert(frames@.skip(0) =~= frames@);
    while i < frames.len() && !time.lt(frame_time(&frames[i]))
        invariant
            i <= frames@.len(),
            leading(frames@, time) == i + leading(frames@.skip(i as int), time),
            match current {
                Some(items) => last_content(frames@.take(i as int)) == Some(items@),
                None => last_content(frames@.take(i as int)) is None,
            },
        decreases frames@.len() - i,
    {
        assert(frames@.skip(i as int).drop_first() =~= frames@.skip(i + 1));
        assert(frames@.take(i + 1).drop_last() =~= frames@.take(i as int));
        if frames[i].field_i64("type").unwrap_or(1) == 1 {
            current = list_of(frames[i].field("content"));
        }
        i = i + 1;
    }
    current
}

/// The last place at which a list of indices holds the given one.
pub open spec fn rank_of(content: Seq<PsbValue>, index: i64) -> Option<usize>
    decreases content.len(),
{
    if content.len() == 0 {
        None
    } else if content.last().as_i64() == Some(index) {
        Some((content.len() - 1) as usize)
    } else {
        rank_of(content.drop_last(), index)
    }
}

fn find_rank(content: &Vec<PsbValue>, index: i64) -> (r: Option<usize>)
    ensures
        r == rank_of(content@, index),
{
    let mut i: usize = content.len();
    assert(content@.take(i as int) =~= content@);
    while i > 0
        invariant
            i <= content@.len(),
            rank_of(content@, index) == rank_of(content@.take(i as int), index),
        decreases i,
    {
        assert(content@.take(i as int).drop_last() =~= content@.take(i - 1));
        if let Some(n) = content[i - 1].as_i64() {
            if n == index {
                return Some(i - 1);
            }
        }
        i = i - 1;
    }
    None
}

/// The ranks of the labels whose index has one.
pub open spec fn label_ranks(entries: Seq<(String, PsbValue)>, content: Seq<PsbValue>) -> Map<
    Seq<char>,
    usize,
>
    decreases entries.len(),
{
    if entries.len() == 0 {
        Map::empty()
    } else {
        let before = label_ranks(entries.drop_last(), content);
        match entries.last().1.as_i64() {
            Some(index) => match rank_of(content, index) {
                Some(rank) => before.insert(entries.last().0@, rank),
                None => before,
            },
            None => before,
        }
    }
}

/// The rank of each labelled layer of a motion at a time.
pub open spec fn priority_ranks(motion: PsbValue, time: Single) -> Map<Seq<char>, usize> {
    match motion.field("layerIndexMap") {
        Some(PsbValue::Object(entries)) => match priority_content(
            list_of(motion.field("priority")),
            time,
        ) {
            Some(content) => label_ranks(entries@, content),
            None => Map::empty(),
        },
        _ => Map::empty(),
    }
}

pub fn motion_priority_ranks(motion: &PsbValue, time: Single) -> (r: TextMap<usize>)
    ensures
        r.wf(),
        r@ == priority_ranks(*motion, time),
{
    let mut ranks: TextMap<usize> = TextMap::new();
    if let Some(PsbValue::Object(entries)) = motion.field("layerIndexMap") {
        if let Some(content) = evaluate_priority_content(
            list_of(motion.field("priority")),
            time,
        ) {
            let mut i: usize = 0;
            while i < entries.len()
                invariant
                    i <= entries@.len(),
                    ranks.wf(),
                    ranks@ == label_ranks(entries@.take(i as int), content@),
                decreases entries@.len() - i,
            {
                assert(entries@.take(i + 1).drop_last() =~= entries@.take(i as int));
                if let Some(index) = entries[i].1.as_i64() {
                    if let Some(rank) = find_rank(content, index) {
                        ranks.insert(entries[i].0.clone(), rank);
                    }
                }
                i = i + 1;
            }
            assert(entries@.take(i as int) =~= entries@);
        }
    }
    ranks
}

/// A number held in `[1, 256]`.
pub open spec fn spec_division(n: i64) -> u32 {
    if n < 1 {
        1
    } else if n > 256 {
        256
    } else {
        n as u32
    }
}

fn division(n: i64) -> (r: u32)
    ensures
        r == spec_division(n),
        1 <= r <= 256,
{
    if n < 1 {
        1
    } else if n > 256 {
        256
    } else {
        n as u32
    }
}

/// How often a mesh is divided: one number for both directions, a list of two, or
/// an object with named numbers.
pub open spec fn mesh_division(value: Option<&PsbValue>) -> Option<(u32, u32)> {
    match value {
        None => None,
        Some(v) => match v {
            PsbValue::Int(n) => Some((spec_division(*n), spec_division(*n))),
            PsbValue::List(items) => if items@.len() >= 2 {
                let x = spec_division(items@[0].as_i64().unwrap_or(1));
                Some((x, spec_division(items@[1].as_i64().unwrap_or(x as i64))))
            } else {
                None
            },
            _ => match either(
                v.field_i64("x"),
                either(v.field_i64("width"), v.field_i64("divisionX")),
            ) {
                Some(x) => {
                    let y = either(
                        v.field_i64("y"),
                        either(v.field_i64("height"), v.field_i64("divisionY")),
                    ).unwrap_or(x);
                    Some((spec_division(x), spec_division(y)))
                },
                None => None,
            },
        },
    }
}

pub fn parse_mesh_division(value: Option<&PsbValue>) -> (r: Option<(u32, u32)>)
    ensures
        r == mesh_division(value),
        match r {
            Some((x, y)) => 1 <= x <= 256 && 1 <= y <= 256,
            None => true,
        },
{
    let v = match value {
        Some(v) => v,
        None => {
            return None;
        },
    };
    if let Some(n) = v.as_i64() {
        return Some((division(n), division(n)));
    }
    if let Some(items) = v.as_list() {
        if items.len() >= 2 {
            let x: u32 = division(items[0].as_i64().unwrap_or(1));
            let y: u32 = division(items[1].as_i64().unwrap_or(x as i64));
            return Some((x, y));
        }
    }
    match either(v.field_i64("x"), either(v.field_i64("width"), v.field_i64("divisionX"))) {
        Some(x) => {
            let y = either(
                v.field_i64("y"),
                either(v.field_i64("height"), v.field_i64("divisionY")),
            ).unwrap_or(x);
            Some((division(x), division(y)))
        },
        None => None,
    }
}

/// How a parameter drives a layer: its name, its value, and the time that the
/// value stands for in the layer's frame list.
#[derive(Clone, Debug)]
pub struct LayerParameterEval {
    pub id: Option<String>,
    pub value: Option<Single>,
    pub local_time_ticks: Single,
}

/// A `LayerParameterEval` by its characters.
#[verifier::ext_equal]
pub struct ParameterEval {
    pub id: Option<Seq<char>>,
    pub value: Option<Single>,
    pub local_time: Single,
}

impl View for LayerParameterEval {
    type V = ParameterEval;

    open spec fn view(&self) -> ParameterEval {
        ParameterEval {
            id: opt_string(self.id),
            value: self.value,
            local_time: self.local_time_ticks,
        }
    }
}

/// The time that a value in `[begin, end]` stands for in `[0, latest]`.
pub open spec fn parameter_time(
    value: Single,
    begin: Single,
    end: Single,
    latest: Single,
) -> Single {
    if !latest.is_finite() || latest.le(Single::zero()) || !begin.is_finite() || !end.is_finite()
        || end.minus(begin).abs().le(Single::epsilon()) {
        Single::zero()
    } else {
        unit_clamp(value.minus(begin).over(end.minus(begin))).times(latest)
    }
}

/// How a layer is driven. A layer without a parameter stays on its first frame.
pub open spec fn parameter_eval(
    layer: PsbValue,
    table: Option<&Vec<PsbValue>>,
    variables: Map<Seq<char>, Single>,
    frames: Seq<PsbValue>,
) -> ParameterEval {
    let idle = ParameterEval { id: None, value: None, local_time: Single::zero() };
    match layer.field("parameterize") {
        None => idle,
        Some(p) => match resolve_parameterize(p, table) {
            None => idle,
            Some(parameter) => match parameter_name(*parameter) {
                None => idle,
                Some(id) => if id.len() == 0 {
                    idle
                } else if !variables.dom().contains(id) {
                    ParameterEval { id: Some(id), value: None, local_time: Single::zero() }
                } else {
                    let value = variables[id];
                    let begin = either(
                        parameter.field_single("rangeBegin"),
                        parameter.field_single("min"),
                    ).unwrap_or(Single::zero());
                    let end = either(
                        parameter.field_single("rangeEnd"),
                        parameter.field_single("max"),
                    ).unwrap_or(Single::one());
                    ParameterEval {
                        id: Some(id),
                        value: Some(value),
                        local_time: parameter_time(
                            value,
                            begin,
                            end,
                            latest_frame(frames, Single::zero()),
                        ),
                    }
                },
            },
        },
    }
}

pub fn layer_parameter_eval(
    layer: &PsbValue,
    table: Option<&Vec<PsbValue>>,
    variables: &TextMap<Single>,
    frames: &Vec<PsbValue>,
) -> (r: LayerParameterEval)
    requires
        variables.wf(),
    ensures
        r@ == parameter_eval(*layer, table, variables@, frames@),
{
    let parameter = match layer.field("parameterize") {
        Some(p) => resolve_parameterize(p, table),
        None => None,
    };
    let parameter = match parameter {
        Some(v) => v,
        None => {
            return LayerParameterEval { id: None, value: None, local_time_ticks: Single::zero() };
        },
    };
    let id = match find_parameter_name(parameter) {
        Some(s) => s,
        None => {
            return LayerParameterEval { id: None, value: None, local_time_ticks: Single::zero() };
        },
    };
    if id.is_empty() {
        return LayerParameterEval { id: None, value: None, local_time_ticks: Single::zero() };
    }
    let value = match variables.get(id) {
        Some(v) => *v,
        None => {
            return LayerParameterEval {
                id: Some(id.to_owned()),
                value: None,
                local_time_ticks: Single::zero(),
            };
        },
    };
    let begin = either(
        parameter.field_single("rangeBegin"),
        parameter.field_single("min"),
    ).unwrap_or(Single::zero());
    let end = either(parameter.field_single("rangeEnd"), parameter.field_single("max")).unwrap_or(
        Single::one(),
    );
    let latest = max_frame_list_time(frames);
    let time = if !latest.is_finite() || latest.le(Single::zero()) || !begin.is_finite()
        || !end.is_finite() || end.minus(begin).abs().le(Single::epsilon()) {
        Single::zero()
    } else {
        unit_clamp(value.minus(begin).over(end.minus(begin))).times(latest)
    };
    LayerParameterEval { id: Some(id.to_owned()), value: Some(value), local_time_ticks: time }
}

/// The content of the first frame that names the given key.
pub open spec fn first_content_with(frames: Seq<PsbValue>, key: Seq<char>) -> Option<PsbValue>
    decreases frames.len(),
{
    if frames.len() == 0 {
        None
    } else {
        match frames[0].field("content") {
            Some(content) => if content.named(key) is Some {
                Some(*content)
            } else {
                first_content_with(frames.drop_first(), key)
            },
            None => first_content_with(frames.drop_first(), key),
        }
    }
}

pub fn first_frame_content_with<'a>(frames: &'a Vec<PsbValue>, key: &str) -> (r: Option<&'a PsbValue>)
    ensures
        match r {
            Some(content) => first_content_with(frames@, key@) == Some(*content),
            None => first_content_with(frames@, key@) is None,
        },
{
    let mut i: usize = 0;
    assert(frames@.skip(0) =~= frames@);
    while i < frames.len()
        invariant
            i <= frames@.len(),
            first_content_with(frames@, key@) == first_content_with(frames@.skip(i as int), key@),
        decreases frames@.len() - i,
    {
        assert(frames@.skip(i as int).drop_first() =~= frames@.skip(i + 1));
        if let Some(content) = frames[i].field("content") {
            if content.field(key).is_some() {
                return Some(content);
            }
        }
        i = i + 1;
    }
    None
}

/// The motion of that name under the object of that name.
pub open spec fn motion_named<'a>(table: &'a PsbValue, object: Seq<char>, motion: Seq<char>)
    -> Option<&'a PsbValue> {
    match table.named(object) {
        Some(o) => match o.field("motion") {
            Some(m) => m.named(motion),
            None => None,
        },
        None => None,
    }
}

pub fn find_motion<'a>(table: &'a PsbValue, object: &str, motion: &str) -> (r: Option<&'a PsbValue>)
    ensures
        r == motion_named(table, object@, motion@),
{
    match table.field(object) {
        Some(o) => match o.field("motion") {
            Some(m) => m.field(motion),
            None => None,
        },
        None => None,
    }
}

/// The names, not empty, of the first `n` parameters.
pub open spec fn parameter_names(parameters: Seq<PsbValue>) -> Set<Seq<char>>
    decreases parameters.len(),
{
    if parameters.len() == 0 {
        Set::empty()
    } else {
        let before = parameter_names(parameters.drop_last());
        match parameter_name(parameters.last()) {
            Some(name) => if name.len() > 0 {
                before.insert(name)
            } else {
                before
            },
            None => before,
        }
    }
}

/// The names of the parameters of a motion, where it lists any.
pub open spec fn motion_parameters(table: PsbValue, object: Seq<char>, motion: Seq<char>) -> Option<
    Set<Seq<char>>,
> {
    match motion_named(&table, object, motion) {
        Some(m) => match list_of(m.field("parameter")) {
            Some(parameters) => Some(parameter_names(parameters@)),
            None => None,
        },
        None => None,
    }
}

/// The set of the given texts.
pub open spec fn text_set(v: Seq<String>) -> Set<Seq<char>> {
    texts(v).to_set()
}

/// Puts a text into a row of texts that holds none twice.
pub fn add_text(v: &mut Vec<String>, s: &str)
    requires
        texts(old(v)@).no_duplicates(),
    ensures
        texts(final(v)@).no_duplicates(),
        text_set(final(v)@) == text_set(old(v)@).insert(s@),
{
    let ghost before = texts(v@);
    if contains_text(v, s) {
        assert(text_set(v@) =~= text_set(v@).insert(s@));
    } else {
        v.push(s.to_owned());
        proof {
            let now = texts(v@);
            assert(now =~= before.push(s@));
            assert(now.to_set() =~= before.to_set().insert(s@)) by {
                assert forall|x: Seq<char>| now.to_set().contains(x) == before.to_set().insert(
                    s@,
                ).contains(x) by {
                    if before.contains(x) {
                        let i = choose|i: int| 0 <= i < before.len() && before[i] == x;
                        assert(now[i] == x);
                    }
                    if x == s@ {
                        assert(now[before.len() as int] == x);
                    }
                    if now.contains(x) && x != s@ {
                        let i = choose|i: int| 0 <= i < now.len() && now[i] == x;
                        assert(before[i] == x);
                    }
                }
            }
        }
    }
}

/// The names of the parameters of a motion, none twice.
pub fn target_motion_parameter_ids(table: &PsbValue, object: &str, motion: &str) -> (r: Option<
    Vec<String>,
>)
    ensures
        match r {
            Some(ids) => motion_parameters(*table, object@, motion@) == Some(text_set(ids@))
                && texts(ids@).no_duplicates(),
            None => motion_parameters(*table, object@, motion@) is None,
        },
{
    let parameters = match find_motion(table, object, motion) {
        Some(m) => match list_of(m.field("parameter")) {
            Some(v) => v,
            None => {
                return None;
            },
        },
        None => {
            return None;
        },
    };
    let mut ids: Vec<String> = Vec::new();
    let mut i: usize = 0;
    assert(text_set(ids@) =~= Set::<Seq<char>>::empty());
    while i < parameters.len()
        invariant
            i <= parameters@.len(),
            texts(ids@).no_duplicates(),
            text_set(ids@) == parameter_names(parameters@.take(i as int)),
        decreases parameters@.len() - i,
    {
        assert(parameters@.take(i + 1).drop_last() =~= parameters@.take(i as int));
        if let Some(name) = find_parameter_name(&parameters[i]) {
            if !name.is_empty() {
                add_text(&mut ids, name);
            }
        }
        i = i + 1;
    }
    assert(parameters@.take(i as int) =~= parameters@);
    Some(ids)
}

} // verus!
