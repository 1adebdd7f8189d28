//! Walking over the nodes of a document.

use crate::text::same_text;
use crate::value::{lemma_entry_smaller, lemma_item_smaller, PsbValue};
use vstd::prelude::*;

verus! {

/// A node and all nodes below it, each before those below it. Fields with one of
/// the given names are left out.
pub open spec fn nodes(value: PsbValue, skip: Seq<Seq<char>>) -> Seq<PsbValue>
    decreases value, 1int,
{
    seq![value] + match value {
        PsbValue::List(items) => item_nodes(value, items@.len(), skip),
        PsbValue::Object(fields) => field_nodes(value, fields@.len(), skip),
        _ => Seq::empty(),
    }
}

/// The nodes of the first `n` items of a list.
pub open spec fn item_nodes(value: PsbValue, n: nat, skip: Seq<Seq<char>>) -> Seq<PsbValue>
    decreases value, 0int, n,
{
    if value is List && 0 < n <= value->List_0@.len() {
        proof {
            lemma_item_smaller(value, n - 1);
        }
        item_nodes(value, (n - 1) as nat, skip) + nodes(value->List_0@[n - 1], skip)
    } else {
        Seq::empty()
    }
}

/// The nodes of the first `n` fields of an object.
pub open spec fn field_nodes(value: PsbValue, n: nat, skip: Seq<Seq<char>>) -> Seq<PsbValue>
    decreases value, 0int, n,
{
    if value is Object && 0 < n <= value->Object_0@.len() {
        proof {
            lemma_entry_smaller(value, n - 1);
        }
        let entry = value->Object_0@[n - 1];
        let rest = field_nodes(value, (n - 1) as nat, skip);
        if skip.contains(entry.0@) {
            rest
        } else {
            rest + nodes(entry.1, skip)
        }
    } else {
        Seq::empty()
    }
}

/// What a row of references refers to.
pub open spec fn unref<'a>(v: Seq<&'a PsbValue>) -> Seq<PsbValue> {
    v.map_values(|r: &'a PsbValue| *r)
}

/// The names of a row.
pub open spec fn names<'a>(v: Seq<&'a str>) -> Seq<Seq<char>> {
    v.map_values(|r: &'a str| r@)
}

fn is_among(name: &str, skip: &Vec<&str>) -> (r: bool)
    ensures
        r == names(skip@).contains(name@),
{
    let mut i: usize = 0;
    while i < skip.len()
        invariant
            i <= skip@.len(),
            forall|j: int| 0 <= j < i ==> names(skip@)[j] != name@,
        decreases skip@.len() - i,
    {
        if same_text(skip[i], name) {
            assert(names(skip@)[i as int] == name@);
            return true;
        }
        i = i + 1;
    }
    false
}

fn push_nodes<'a>(value: &'a PsbValue, skip: &Vec<&str>, out: &mut Vec<&'a PsbValue>)
    ensures
        unref(final(out)@) == unref(old(out)@) + nodes(*value, names(skip@)),
    decreases value,
{
    let ghost start = unref(out@);
    let ghost keys = names(skip@);
    out.push(value);
    assert(unref(out@) =~= start + seq![*value]);
    match value {
        PsbValue::List(items) => {
            let mut i: usize = 0;
            assert(unref(out@) =~= start + seq![*value] + item_nodes(*value, 0, keys));
            while i < items.len()
                invariant
                    i <= items@.len(),
                    *value == PsbValue::List(*items),
                    keys == names(skip@),
                    unref(out@) == start + seq![*value] + item_nodes(*value, i as nat, keys),
                decreases items@.len() - i,
            {
                proof {
                    lemma_item_smaller(*value, i as int);
                }
                let ghost before = unref(out@);
                push_nodes(&items[i], skip, out);
                assert(unref(out@) =~= start + seq![*value] + item_nodes(
                    *value,
                    (i + 1) as nat,
                    keys,
                ));
                i = i + 1;
            }
            assert(unref(out@) =~= start + nodes(*value, keys));
        },
        PsbValue::Object(fields) => {
            let mut i: usize = 0;
            assert(unref(out@) =~= start + seq![*value] + field_nodes(*value, 0, keys));
            while i < fields.len()
                invariant
                    i <= fields@.len(),
                    *value == PsbValue::Object(*fields),
                    keys == names(skip@),
                    unref(out@) == start + seq![*value] + field_nodes(*value, i as nat, keys),
                decreases fields@.len() - i,
            {
                proof {
                    lemma_entry_smaller(*value, i as int);
                }
                if !is_among(fields[i].0.as_str(), skip) {
                    push_nodes(&fields[i].1, skip, out);
                }
                assert(unref(out@) =~= start + seq![*value] + field_nodes(
                    *value,
                    (i + 1) as nat,
                    keys,
                ));
                i = i + 1;
            }
            assert(unref(out@) =~= start + nodes(*value, keys));
        },
        _ => {
            assert(unref(out@) =~= start + nodes(*value, keys));
        },
    }
}

/// Lists a node and all nodes below it.
pub fn all_nodes<'a>(value: &'a PsbValue, skip: &Vec<&str>) -> (r: Vec<&'a PsbValue>)
    ensures
        unref(r@) == nodes(*value, names(skip@)),
{
    let mut r: Vec<&'a PsbValue> = Vec::new();
    push_nodes(value, skip, &mut r);
    assert(unref(r@) =~= nodes(*value, names(skip@)));
    r
}

/// The items of a list or the values of an object.
pub open spec fn members(value: Option<&PsbValue>) -> Seq<PsbValue> {
    match value {
        Some(PsbValue::List(items)) => items@,
        Some(PsbValue::Object(fields)) => fields@.map_values(|f: (String, PsbValue)| f.1),
        _ => Seq::empty(),
    }
}

pub fn list_members<'a>(value: Option<&'a PsbValue>) -> (r: Vec<&'a PsbValue>)
    ensures
        unref(r@) == members(value),
{
    let mut r: Vec<&'a PsbValue> = Vec::new();
    match value {
        Some(PsbValue::List(items)) => {
            let mut i: usize = 0;
            while i < items.len()
                invariant
                    i <= items@.len(),
                    unref(r@) == items@.take(i as int),
                decreases items@.len() - i,
            {
                let ghost before = unref(r@);
                r.push(&items[i]);
                assert(unref(r@) =~= before.push(items@[i as int]));
                assert(unref(r@) =~= items@.take(i + 1));
                i = i + 1;
            }
            assert(items@.take(i as int) =~= items@);
        },
        Some(PsbValue::Object(fields)) => {
            let mut i: usize = 0;
            let ghost want = members(value);
            while i < fields.len()
                invariant
                    i <= fields@.len(),
                    want == fields@.map_values(|f: (String, PsbValue)| f.1),
                    unref(r@) == want.take(i as int),
                decreases fields@.len() - i,
            {
                let ghost before = unref(r@);
                r.push(&fields[i].1);
                assert(unref(r@) =~= before.push(want[i as int]));
                assert(unref(r@) =~= want.take(i + 1));
                i = i + 1;
            }
            assert(want.take(i as int) =~= want);
        },
        _ => {
            assert(unref(r@) =~= members(value));
        },
    }
    r
}

/// The fields of the metadata that hold controls.
pub open spec fn control_keys() -> Seq<Seq<char>> {
    seq![
        "bustControl"@,
        "hairControl"@,
        "partsControl"@,
        "eyeControl"@,
        "eyebrowControl"@,
        "mouthControl"@,
        "transitionControl"@,
        "selectorControl"@,
        "clampControl"@,
        "loopControl"@,
        "mirrorControl"@,
        "stereovisionControl"@,
    ]
}

pub fn control_key(i: usize) -> (r: &'static str)
    requires
        i < 12,
    ensures
        r@ == control_keys()[i as int],
{
    if i == 0 {
        "bustControl"
    } else if i == 1 {
        "hairControl"
    } else if i == 2 {
        "partsControl"
    } else if i == 3 {
        "eyeControl"
    } else if i == 4 {
        "eyebrowControl"
    } else if i == 5 {
        "mouthControl"
    } else if i == 6 {
        "transitionControl"
    } else if i == 7 {
        "selectorControl"
    } else if i == 8 {
        "clampControl"
    } else if i == 9 {
        "loopControl"
    } else if i == 10 {
        "mirrorControl"
    } else {
        "stereovisionControl"
    }
}

/// The fields that hold variables and frames rather than further controls.
pub open spec fn control_leaves() -> Seq<Seq<char>> {
    seq!["variableList"@, "variables"@, "variable"@, "frameList"@, "content"@]
}

pub fn control_leaf_names() -> (r: Vec<&'static str>)
    ensures
        names(r@) == control_leaves(),
{
    let mut r: Vec<&'static str> = Vec::new();
    r.push("variableList");
    r.push("variables");
    r.push("variable");
    r.push("frameList");
    r.push("content");
    assert(names(r@) =~= control_leaves());
    r
}

} // verus!
