//! Values of a parsed PSB document.

use crate::order::keys;
use crate::single::Single;
use crate::text::{opt_text, same_text};
use vstd::prelude::*;

verus! {

/// A node of a PSB document.
///
/// Numbers with a fraction are held by their bit patterns: binary32 in `Float`
/// and binary64 in `Double`.
#[derive(Debug)]
pub enum PsbValue {
    Null,
    Bool(bool),
    Int(i64),
    Float(Single),
    Double(u64),
    String(String),
    Resource(u32),
    ExtraResource(u32),
    Compiler(u8),
    List(Vec<PsbValue>),
    Object(Vec<(String, PsbValue)>),
}

/// The value of the first entry with the given key.
pub open spec fn lookup(entries: Seq<(String, PsbValue)>, name: Seq<char>) -> Option<PsbValue>
    decreases entries.len(),
{
    if entries.len() == 0 {
        None
    } else if entries[0].0@ == name {
        Some(entries[0].1)
    } else {
        lookup(entries.drop_first(), name)
    }
}

/// A found value stands in one of the entries, with its key.
pub proof fn lemma_lookup(entries: Seq<(String, PsbValue)>, name: Seq<char>) -> (i: int)
    requires
        lookup(entries, name) is Some,
    ensures
        0 <= i < entries.len(),
        entries[i].0@ == name,
        lookup(entries, name) == Some(entries[i].1),
    decreases entries.len(),
{
    if entries[0].0@ == name {
        0
    } else {
        let j = lemma_lookup(entries.drop_first(), name);
        j + 1
    }
}

/// A value is found exactly where its key occurs.
pub proof fn lemma_lookup_some(entries: Seq<(String, PsbValue)>, name: Seq<char>)
    ensures
        lookup(entries, name) is Some <==> keys(entries).contains(name),
    decreases entries.len(),
{
    if entries.len() > 0 {
        lemma_lookup_some(entries.drop_first(), name);
        let ks = keys(entries);
        let rest = keys(entries.drop_first());
        assert(rest =~= ks.drop_first());
        if entries[0].0@ == name {
            assert(ks[0] == name);
        } else if ks.contains(name) {
            let i = choose|i: int| 0 <= i < ks.len() && ks[i] == name;
            assert(rest[i - 1] == name);
        } else if rest.contains(name) {
            let i = choose|i: int| 0 <= i < rest.len() && rest[i] == name;
            assert(ks[i + 1] == name);
        }
    }
}

/// An item of a list lies deeper than the list.
pub proof fn lemma_item_smaller(value: PsbValue, i: int)
    requires
        value is List,
        0 <= i < value->List_0@.len(),
    ensures
        decreases_to!(value => value->List_0@[i]),
{
    let items = value->List_0;
    assert(decreases_to!(value => items));
    assert(decreases_to!(items => items@));
    assert(decreases_to!(items@ => items@[i]));
}

/// An entry of an object lies deeper than the object.
pub proof fn lemma_entry_smaller(value: PsbValue, i: int)
    requires
        value is Object,
        0 <= i < value->Object_0@.len(),
    ensures
        decreases_to!(value => value->Object_0@[i].1),
{
    let fields = value->Object_0;
    assert(decreases_to!(value => fields));
    assert(decreases_to!(fields => fields@));
    assert(decreases_to!(fields@ => fields@[i]));
    assert(decreases_to!(fields@[i] => fields@[i].1));
}

/// A field of a value lies deeper than the value.
pub proof fn lemma_field_smaller(value: PsbValue, name: &str)
    requires
        value.spec_field(name) is Some,
    ensures
        decreases_to!(value => *value.spec_field(name)->0),
{
    let i = lemma_lookup(value->Object_0@, name@);
    lemma_entry_smaller(value, i);
}

/// The first option, or the second where it is empty.
pub open spec fn spec_either<T>(a: Option<T>, b: Option<T>) -> Option<T> {
    if a is Some {
        a
    } else {
        b
    }
}

#[verifier::when_used_as_spec(spec_either)]
pub fn either<T>(a: Option<T>, b: Option<T>) -> (r: Option<T>)
    ensures
        r == spec_either(a, b),
{
    match a {
        Some(v) => Some(v),
        None => b,
    }
}

/// A field of an optional value.
pub open spec fn spec_field_of<'a>(value: Option<&'a PsbValue>, name: &str) -> Option<&'a PsbValue> {
    match value {
        Some(v) => v.spec_field(name),
        None => None,
    }
}

#[verifier::when_used_as_spec(spec_field_of)]
pub fn field_of<'a>(value: Option<&'a PsbValue>, name: &str) -> (r: Option<&'a PsbValue>)
    ensures
        r == spec_field_of(value, name),
{
    match value {
        Some(v) => v.field(name),
        None => None,
    }
}

/// The items of an optional value, if it is a list.
pub open spec fn spec_list_of<'a>(value: Option<&'a PsbValue>) -> Option<&'a Vec<PsbValue>> {
    match value {
        Some(v) => v.spec_as_list(),
        None => None,
    }
}

#[verifier::when_used_as_spec(spec_list_of)]
pub fn list_of<'a>(value: Option<&'a PsbValue>) -> (r: Option<&'a Vec<PsbValue>>)
    ensures
        r == spec_list_of(value),
{
    match value {
        Some(v) => v.as_list(),
        None => None,
    }
}

/// The items of an optional value, none where it is not a list.
pub open spec fn items_of(value: Option<&PsbValue>) -> Seq<PsbValue> {
    match spec_list_of(value) {
        Some(v) => v@,
        None => Seq::empty(),
    }
}

impl PsbValue {
    pub open spec fn spec_as_object(&self) -> Option<&Vec<(String, PsbValue)>> {
        match self {
            PsbValue::Object(fields) => Some(fields),
            _ => None,
        }
    }

    pub open spec fn spec_as_list(&self) -> Option<&Vec<PsbValue>> {
        match self {
            PsbValue::List(items) => Some(items),
            _ => None,
        }
    }

    /// The value of the first field with the given name.
    pub open spec fn named(&self, name: Seq<char>) -> Option<&PsbValue> {
        match self {
            PsbValue::Object(fields) => match lookup(fields@, name) {
                Some(v) => Some(&v),
                None => None,
            },
            _ => None,
        }
    }

    pub open spec fn spec_field(&self, name: &str) -> Option<&PsbValue> {
        self.named(name@)
    }

    /// The characters of a text.
    pub open spec fn text(&self) -> Option<Seq<char>> {
        match self {
            PsbValue::String(s) => Some(s@),
            _ => None,
        }
    }

    pub open spec fn spec_as_i64(&self) -> Option<i64> {
        match self {
            PsbValue::Int(n) => Some(*n),
            _ => None,
        }
    }

    /// An index: a whole number that fits, or a resource.
    pub open spec fn spec_as_u32(&self) -> Option<u32> {
        match self {
            PsbValue::Int(n) => if 0 <= *n <= u32::MAX {
                Some(*n as u32)
            } else {
                None
            },
            PsbValue::Resource(index) => Some(*index),
            _ => None,
        }
    }

    /// The nearest binary32 number.
    pub open spec fn spec_as_single(&self) -> Option<Single> {
        match self {
            PsbValue::Int(n) => Some(Single::spec_from_i64(*n)),
            PsbValue::Float(v) => Some(*v),
            PsbValue::Double(bits) => Some(Single::spec_from_double(*bits)),
            _ => None,
        }
    }

    pub open spec fn text_field(&self, name: &str) -> Option<Seq<char>> {
        match self.spec_field(name) {
            Some(v) => v.text(),
            None => None,
        }
    }

    pub open spec fn spec_field_i64(&self, name: &str) -> Option<i64> {
        match self.spec_field(name) {
            Some(v) => v.spec_as_i64(),
            None => None,
        }
    }

    pub open spec fn spec_field_u32(&self, name: &str) -> Option<u32> {
        match self.spec_field(name) {
            Some(v) => v.spec_as_u32(),
            None => None,
        }
    }

    pub open spec fn spec_field_single(&self, name: &str) -> Option<Single> {
        match self.spec_field(name) {
            Some(v) => v.spec_as_single(),
            None => None,
        }
    }

    #[verifier::when_used_as_spec(spec_as_object)]
    pub fn as_object(&self) -> (r: Option<&Vec<(String, PsbValue)>>)
        ensures
            r == self.spec_as_object(),
    {
        match self {
            PsbValue::Object(fields) => Some(fields),
            _ => None,
        }
    }

    #[verifier::when_used_as_spec(spec_as_list)]
    pub fn as_list(&self) -> (r: Option<&Vec<PsbValue>>)
        ensures
            r == self.spec_as_list(),
    {
        match self {
            PsbValue::List(items) => Some(items),
            _ => None,
        }
    }

    /// The value of the first field with the given name.
    #[verifier::when_used_as_spec(spec_field)]
    pub fn field(&self, name: &str) -> (r: Option<&PsbValue>)
        ensures
            r == self.spec_field(name),
    {
        match self {
            PsbValue::Object(fields) => {
                let mut i: usize = 0;
                assert(fields@.skip(0) =~= fields@);
                while i < fields.len()
                    invariant
                        i <= fields@.len(),
                        *self == PsbValue::Object(*fields),
                        lookup(fields@, name@) == lookup(fields@.skip(i as int), name@),
                    decreases fields@.len() - i,
                {
                    if same_text(fields[i].0.as_str(), name) {
                        return Some(&fields[i].1);
                    }
                    assert(fields@.skip(i as int).drop_first() =~= fields@.skip(i + 1));
                    i = i + 1;
                }
                None
            },
            _ => None,
        }
    }

    pub fn as_str(&self) -> (r: Option<&str>)
        ensures
            opt_text(r) == self.text(),
    {
        match self {
            PsbValue::String(s) => Some(s.as_str()),
            _ => None,
        }
    }

    #[verifier::when_used_as_spec(spec_as_i64)]
    pub fn as_i64(&self) -> (r: Option<i64>)
        ensures
            r == self.spec_as_i64(),
    {
        match self {
            PsbValue::Int(n) => Some(*n),
            _ => None,
        }
    }

    #[verifier::when_used_as_spec(spec_as_u32)]
    pub fn as_u32(&self) -> (r: Option<u32>)
        ensures
            r == self.spec_as_u32(),
    {
        match self {
            PsbValue::Int(n) => if 0 <= *n && *n <= 0xffff_ffff {
                Some(*n as u32)
            } else {
                None
            },
            PsbValue::Resource(index) => Some(*index),
            _ => None,
        }
    }

    #[verifier::when_used_as_spec(spec_as_single)]
    pub fn as_single(&self) -> (r: Option<Single>)
        ensures
            r == self.spec_as_single(),
    {
        match self {
            PsbValue::Int(n) => Some(Single::from_i64(*n)),
            PsbValue::Float(v) => Some(*v),
            PsbValue::Double(bits) => Some(Single::from_double(*bits)),
            _ => None,
        }
    }

    pub fn field_str(&self, name: &str) -> (r: Option<&str>)
        ensures
            opt_text(r) == self.text_field(name),
    {
        match self.field(name) {
            Some(v) => v.as_str(),
            None => None,
        }
    }

    #[verifier::when_used_as_spec(spec_field_i64)]
    pub fn field_i64(&self, name: &str) -> (r: Option<i64>)
        ensures
            r == self.spec_field_i64(name),
    {
        match self.field(name) {
            Some(v) => v.as_i64(),
            None => None,
        }
    }

    #[verifier::when_used_as_spec(spec_field_u32)]
    pub fn field_u32(&self, name: &str) -> (r: Option<u32>)
        ensures
            r == self.spec_field_u32(name),
    {
        match self.field(name) {
            Some(v) => v.as_u32(),
            None => None,
        }
    }

    #[verifier::when_used_as_spec(spec_field_single)]
    pub fn field_single(&self, name: &str) -> (r: Option<Single>)
        ensures
            r == self.spec_field_single(name),
    {
        match self.field(name) {
            Some(v) => v.as_single(),
            None => None,
        }
    }

    /// Whether two nodes are alike all the way down.
    pub open spec fn alike(self, other: PsbValue) -> bool
        decreases self,
    {
        match (self, other) {
            (PsbValue::Null, PsbValue::Null) => true,
            (PsbValue::Bool(a), PsbValue::Bool(b)) => a == b,
            (PsbValue::Int(a), PsbValue::Int(b)) => a == b,
            (PsbValue::Float(a), PsbValue::Float(b)) => a == b,
            (PsbValue::Double(a), PsbValue::Double(b)) => a == b,
            (PsbValue::String(a), PsbValue::String(b)) => a@ == b@,
            (PsbValue::Resource(a), PsbValue::Resource(b)) => a == b,
            (PsbValue::ExtraResource(a), PsbValue::ExtraResource(b)) => a == b,
            (PsbValue::Compiler(a), PsbValue::Compiler(b)) => a == b,
            (PsbValue::List(a), PsbValue::List(b)) => {
                &&& a@.len() == b@.len()
                &&& forall|i: int| 0 <= i < a@.len() ==> (#[trigger] a@[i]).alike(b@[i])
            },
            (PsbValue::Object(a), PsbValue::Object(b)) => {
                &&& a@.len() == b@.len()
                &&& forall|i: int|
                    0 <= i < a@.len() ==> (#[trigger] a@[i]).0@ == b@[i].0@ && a@[i].1.alike(
                        b@[i].1,
                    )
            },
            _ => false,
        }
    }

    /// A copy all the way down.
    pub fn copy(&self) -> (r: PsbValue)
        ensures
            self.alike(r),
        decreases self,
    {
        match self {
            PsbValue::Null => PsbValue::Null,
            PsbValue::Bool(v) => PsbValue::Bool(*v),
            PsbValue::Int(v) => PsbValue::Int(*v),
            PsbValue::Float(v) => PsbValue::Float(*v),
            PsbValue::Double(v) => PsbValue::Double(*v),
            PsbValue::String(v) => PsbValue::String(v.clone()),
            PsbValue::Resource(v) => PsbValue::Resource(*v),
            PsbValue::ExtraResource(v) => PsbValue::ExtraResource(*v),
            PsbValue::Compiler(v) => PsbValue::Compiler(*v),
            PsbValue::List(items) => {
                let mut out: Vec<PsbValue> = Vec::new();
                let mut i: usize = 0;
                while i < items.len()
                    invariant
                        i <= items@.len(),
                        out@.len() == i,
                        *self == PsbValue::List(*items),
                        forall|j: int| 0 <= j < i ==> (#[trigger] items@[j]).alike(out@[j]),
                    decreases items@.len() - i,
                {
                    proof {
                        lemma_item_smaller(*self, i as int);
                    }
                    out.push(items[i].copy());
                    i = i + 1;
                }
                PsbValue::List(out)
            },
            PsbValue::Object(fields) => {
                let mut out: Vec<(String, PsbValue)> = Vec::new();
                let mut i: usize = 0;
                while i < fields.len()
                    invariant
                        i <= fields@.len(),
                        out@.len() == i,
                        *self == PsbValue::Object(*fields),
                        forall|j: int|
                            0 <= j < i ==> (#[trigger] fields@[j]).0@ == out@[j].0@
                                && fields@[j].1.alike(out@[j].1),
                    decreases fields@.len() - i,
                {
                    proof {
                        lemma_entry_smaller(*self, i as int);
                    }
                    out.push((fields[i].0.clone(), fields[i].1.copy()));
                    i = i + 1;
                }
                PsbValue::Object(out)
            },
        }
    }
}

impl Clone for PsbValue {
    fn clone(&self) -> (r: PsbValue)
        ensures
            self.alike(r),
    {
        self.copy()
    }
}

} // verus!
