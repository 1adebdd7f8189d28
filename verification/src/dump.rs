//! Text dumps of documents, models and scenes.

use crate::calls::{show_truth, truth_text};
use crate::general::{double_text, general_text, show_double, show_general};
use crate::numerals::{decimal, decimal_i64, decimal_u64};
use crate::text::chars_of;
use crate::value::{lemma_entry_smaller, lemma_item_smaller, PsbValue};
use vstd::prelude::*;

verus! {

/// A character as it stands in a quoted text.
pub open spec fn escaped_char(c: char) -> Seq<char> {
    if c == '\\' {
        seq!['\\', '\\']
    } else if c == '"' {
        seq!['\\', '"']
    } else if c == '\n' {
        seq!['\\', 'n']
    } else if c == '\r' {
        seq!['\\', 'r']
    } else if c == '\t' {
        seq!['\\', 't']
    } else {
        seq![c]
    }
}

/// A text as it stands in quotes.
pub open spec fn escaped(s: Seq<char>) -> Seq<char>
    decreases s.len(),
{
    if s.len() == 0 {
        Seq::empty()
    } else {
        escaped(s.drop_last()) + escaped_char(s.last())
    }
}

/// Escapes what cannot stand in quotes.
pub fn escape_string(value: &str) -> (r: String)
    ensures
        r@ == escaped(value@),
{
    let a = chars_of(value);
    let mut r = String::new();
    let mut i: usize = 0;
    while i < a.len()
        invariant
            i <= a@.len(),
            r@ == escaped(a@.take(i as int)),
        decreases a@.len() - i,
    {
        let ghost before = r@;
        assert(a@.take(i + 1).drop_last() =~= a@.take(i as int));
        let c = a[i];
        if c == '\\' {
            r.push('\\');
            r.push('\\');
        } else if c == '"' {
            r.push('\\');
            r.push('"');
        } else if c == '\n' {
            r.push('\\');
            r.push('n');
        } else if c == '\r' {
            r.push('\\');
            r.push('r');
        } else if c == '\t' {
            r.push('\\');
            r.push('t');
        } else {
            r.push(c);
        }
        assert(r@ =~= before + escaped_char(c));
        i = i + 1;
    }
    assert(a@.take(i as int) =~= value@);
    r
}

/// The text that an escaped text stands for.
pub open spec fn unescaped(s: Seq<char>) -> Seq<char>
    decreases s.len(),
{
    if s.len() == 0 {
        Seq::empty()
    } else if s[0] == '\\' && s.len() > 1 {
        let c = if s[1] == 'n' {
            '\n'
        } else if s[1] == 'r' {
            '\r'
        } else if s[1] == 't' {
            '\t'
        } else {
            s[1]
        };
        seq![c] + unescaped(s.skip(2))
    } else {
        seq![s[0]] + unescaped(s.skip(1))
    }
}

proof fn lemma_escaped_first(s: Seq<char>)
    requires
        s.len() > 0,
    ensures
        escaped(s) == escaped_char(s[0]) + escaped(s.skip(1)),
    decreases s.len(),
{
    if s.len() == 1 {
        assert(s.drop_last() =~= Seq::<char>::empty());
        assert(s.skip(1) =~= Seq::<char>::empty());
        assert(escaped(s) =~= escaped_char(s[0]) + escaped(s.skip(1)));
    } else {
        lemma_escaped_first(s.drop_last());
        assert(s.drop_last().skip(1) =~= s.skip(1).drop_last());
        assert(escaped(s) =~= escaped_char(s[0]) + escaped(s.skip(1)));
    }
}

proof fn lemma_unescape_first(c: char, rest: Seq<char>)
    ensures
        unescaped(escaped_char(c) + rest) == seq![c] + unescaped(rest),
{
    let e = escaped_char(c) + rest;
    if escaped_char(c).len() == 2 {
        assert(e[0] == '\\' && e[1] == escaped_char(c)[1]);
        assert(e.skip(2) =~= rest);
    } else {
        assert(e[0] == c);
        assert(e.skip(1) =~= rest);
    }
}

/// What was escaped can be taken back: no two texts are escaped alike.
pub proof fn lemma_escape_round_trip(s: Seq<char>)
    ensures
        unescaped(escaped(s)) == s,
    decreases s.len(),
{
    if s.len() > 0 {
        lemma_escaped_first(s);
        lemma_escape_round_trip(s.skip(1));
        lemma_unescape_first(s[0], escaped(s.skip(1)));
        assert(seq![s[0]] + s.skip(1) =~= s);
    } else {
        assert(escaped(s) =~= s);
    }
}

/// An escaped text holds no quote that stands by itself, no tab and no line end.
pub proof fn lemma_escaped_is_one_line(s: Seq<char>, i: int)
    requires
        0 <= i < escaped(s).len(),
    ensures
        escaped(s)[i] != '\n',
        escaped(s)[i] != '\r',
        escaped(s)[i] != '\t',
        escaped(s)[i] == '"' ==> i > 0 && escaped(s)[i - 1] == '\\',
    decreases s.len(),
{
    if s.len() > 0 {
        let before = escaped(s.drop_last());
        if i < before.len() {
            lemma_escaped_is_one_line(s.drop_last(), i);
        } else {
            assert(escaped(s)[i] == escaped_char(s.last())[i - before.len()]);
            if i > before.len() {
                assert(escaped(s)[i - 1] == escaped_char(s.last())[i - 1 - before.len()]);
            }
        }
    }
}

pub open spec fn is_plain_char(c: char) -> bool {
    c == '_' || 'a' <= c <= 'z' || 'A' <= c <= 'Z' || '0' <= c <= '9'
}

/// A key as it is dumped: bare where it is made of letters, digits and underscores,
/// else in quotes.
pub open spec fn dumped_key(s: Seq<char>) -> Seq<char> {
    if forall|i: int| 0 <= i < s.len() ==> is_plain_char(#[trigger] s[i]) {
        s
    } else {
        quoted(s)
    }
}

/// A text in quotes.
pub open spec fn quoted(s: Seq<char>) -> Seq<char> {
    seq!['"'] + escaped(s) + seq!['"']
}

fn quote(s: &str) -> (r: String)
    ensures
        r@ == quoted(s@),
{
    let mut r = String::new();
    r.push('"');
    r.append(escape_string(s).as_str());
    r.push('"');
    assert(r@ =~= quoted(s@));
    r
}

pub fn escape_key(value: &str) -> (r: String)
    ensures
        r@ == dumped_key(value@),
{
    let a = chars_of(value);
    let mut i: usize = 0;
    while i < a.len()
        invariant
            i <= a@.len(),
            a@ == value@,
            forall|j: int| 0 <= j < i ==> is_plain_char(#[trigger] a@[j]),
        decreases a@.len() - i,
    {
        let c = a[i];
        if !(c == '_' || ('a' <= c && c <= 'z') || ('A' <= c && c <= 'Z') || ('0' <= c && c
            <= '9')) {
            assert(!is_plain_char(value@[i as int]));
            return quote(value);
        }
        i = i + 1;
    }
    value.to_owned()
}

pub open spec fn blanks(n: nat) -> Seq<char> {
    Seq::new(n, |i: int| ' ')
}

/// The dump of a value at an indent. Items and entries stand on lines of their own,
/// two blanks further in.
pub open spec fn dumped(value: PsbValue, indent: nat) -> Seq<char>
    decreases value, 1int, 0int,
{
    match value {
        PsbValue::Null => "null"@,
        PsbValue::Bool(v) => truth_text(v),
        PsbValue::Int(v) => decimal(v as int),
        PsbValue::Float(v) => general_text(v) + "f"@,
        PsbValue::Double(v) => double_text(v),
        PsbValue::String(v) => quoted(v@),
        PsbValue::Resource(i) => "resource("@ + decimal(i as int) + ")"@,
        PsbValue::ExtraResource(i) => "extra_resource("@ + decimal(i as int) + ")"@,
        PsbValue::Compiler(tag) => "compiler("@ + decimal(tag as int) + ")"@,
        PsbValue::List(items) => "[\n"@ + dumped_items(value, items@.len(), indent) + blanks(
            indent,
        ) + "]"@,
        PsbValue::Object(entries) => "{\n"@ + dumped_entries(value, entries@.len(), indent)
            + blanks(indent) + "}"@,
    }
}

/// The dump of the first `n` items of a list.
pub open spec fn dumped_items(value: PsbValue, n: nat, indent: nat) -> Seq<char>
    decreases value, 0int, n,
{
    match value {
        PsbValue::List(items) => if n == 0 || n > items@.len() {
            Seq::empty()
        } else {
            proof {
                lemma_item_smaller(value, n - 1);
            }
            dumped_items(value, (n - 1) as nat, indent) + blanks(indent + 2) + dumped(
                items@[n - 1],
                indent + 2,
            ) + ",\n"@
        },
        _ => Seq::empty(),
    }
}

/// The dump of the first `n` entries of an object.
pub open spec fn dumped_entries(value: PsbValue, n: nat, indent: nat) -> Seq<char>
    decreases value, 0int, n,
{
    match value {
        PsbValue::Object(entries) => if n == 0 || n > entries@.len() {
            Seq::empty()
        } else {
            proof {
                lemma_entry_smaller(value, n - 1);
            }
            dumped_entries(value, (n - 1) as nat, indent) + blanks(indent + 2) + dumped_key(
                entries@[n - 1].0@,
            ) + ": "@ + dumped(entries@[n - 1].1, indent + 2) + ",\n"@
        },
        _ => Seq::empty(),
    }
}

/// A row of blanks.
fn write_indent(indent: usize) -> (r: String)
    ensures
        r@ == blanks(indent as nat),
{
    let mut r = String::new();
    let mut i: usize = 0;
    assert(r@ =~= blanks(0));
    while i < indent
        invariant
            i <= indent,
            r@ == blanks(i as nat),
        decreases indent - i,
    {
        r.push(' ');
        i = i + 1;
        assert(r@ =~= blanks(i as nat));
    }
    r
}

fn in_brackets(head: &str, n: u64) -> (r: String)
    ensures
        r@ == head@ + decimal(n as int) + ")"@,
{
    let mut r = head.to_owned();
    r.append(decimal_u64(n).as_str());
    r.append(")");
    r
}

/// How deep a value nests.
pub open spec fn nesting(value: PsbValue) -> nat
    decreases value, 1int, 0int,
{
    match value {
        PsbValue::List(items) => 1 + nesting_of_items(value, items@.len()),
        PsbValue::Object(entries) => 1 + nesting_of_entries(value, entries@.len()),
        _ => 0,
    }
}

pub open spec fn nesting_of_items(value: PsbValue, n: nat) -> nat
    decreases value, 0int, n,
{
    match value {
        PsbValue::List(items) => if n == 0 || n > items@.len() {
            0
        } else {
            proof {
                lemma_item_smaller(value, n - 1);
            }
            let rest = nesting_of_items(value, (n - 1) as nat);
            let own = nesting(items@[n - 1]);
            if own > rest {
                own
            } else {
                rest
            }
        },
        _ => 0,
    }
}

pub open spec fn nesting_of_entries(value: PsbValue, n: nat) -> nat
    decreases value, 0int, n,
{
    match value {
        PsbValue::Object(entries) => if n == 0 || n > entries@.len() {
            0
        } else {
            proof {
                lemma_entry_smaller(value, n - 1);
            }
            let rest = nesting_of_entries(value, (n - 1) as nat);
            let own = nesting(entries@[n - 1].1);
            if own > rest {
                own
            } else {
                rest
            }
        },
        _ => 0,
    }
}

proof fn lemma_nesting_item(value: PsbValue, n: nat, i: int)
    requires
        value is List,
        0 <= i < n <= value->List_0@.len(),
    ensures
        nesting(value->List_0@[i]) <= nesting_of_items(value, n),
    decreases n,
{
    if i < n - 1 {
        lemma_nesting_item(value, (n - 1) as nat, i);
    }
}

proof fn lemma_nesting_entry(value: PsbValue, n: nat, i: int)
    requires
        value is Object,
        0 <= i < n <= value->Object_0@.len(),
    ensures
        nesting(value->Object_0@[i].1) <= nesting_of_entries(value, n),
    decreases n,
{
    if i < n - 1 {
        lemma_nesting_entry(value, (n - 1) as nat, i);
    }
}

/// Dumps a value at an indent. The indent must fit a machine word at every depth.
pub fn write_value(value: &PsbValue, indent: usize, out: &mut String)
    requires
        indent + 2 * nesting(*value) <= usize::MAX,
    ensures
        final(out)@ == old(out)@ + dumped(*value, indent as nat),
    decreases *value,
{
    let ghost start = out@;
    match value {
        PsbValue::Null => {
            out.append("null");
        },
        PsbValue::Bool(v) => {
            out.append(show_truth(*v).as_str());
        },
        PsbValue::Int(v) => {
            out.append(decimal_i64(*v).as_str());
        },
        PsbValue::Float(v) => {
            out.append(show_general(*v).as_str());
            out.append("f");
        },
        PsbValue::Double(v) => {
            out.append(show_double(*v).as_str());
        },
        PsbValue::String(v) => {
            out.append(quote(v.as_str()).as_str());
        },
        PsbValue::Resource(i) => {
            out.append(in_brackets("resource(", *i as u64).as_str());
        },
        PsbValue::ExtraResource(i) => {
            out.append(in_brackets("extra_resource(", *i as u64).as_str());
        },
        PsbValue::Compiler(tag) => {
            out.append(in_brackets("compiler(", *tag as u64).as_str());
        },
        PsbValue::List(items) => {
            out.append("[\n");
            let ghost opened = out@;
            let mut i: usize = 0;
            assert(opened + dumped_items(*value, 0, indent as nat) =~= opened);
            while i < items.len()
                invariant
                    i <= items@.len(),
                    *value == PsbValue::List(*items),
                    indent + 2 * nesting(*value) <= usize::MAX,
                    out@ == opened + dumped_items(*value, i as nat, indent as nat),
                decreases items@.len() - i,
            {
                proof {
                    lemma_item_smaller(*value, i as int);
                    lemma_nesting_item(*value, items@.len(), i as int);
                }
                out.append(write_indent(indent + 2).as_str());
                write_value(&items[i], indent + 2, out);
                out.append(",\n");
                i = i + 1;
                assert(out@ =~= opened + dumped_items(*value, i as nat, indent as nat));
            }
            out.append(write_indent(indent).as_str());
            out.append("]");
        },
        PsbValue::Object(entries) => {
            out.append("{\n");
            let ghost opened = out@;
            let mut i: usize = 0;
            assert(opened + dumped_entries(*value, 0, indent as nat) =~= opened);
            while i < entries.len()
                invariant
                    i <= entries@.len(),
                    *value == PsbValue::Object(*entries),
                    indent + 2 * nesting(*value) <= usize::MAX,
                    out@ == opened + dumped_entries(*value, i as nat, indent as nat),
                decreases entries@.len() - i,
            {
                proof {
                    lemma_entry_smaller(*value, i as int);
                    lemma_nesting_entry(*value, entries@.len(), i as int);
                }
                out.append(write_indent(indent + 2).as_str());
                out.append(escape_key(entries[i].0.as_str()).as_str());
                out.append(": ");
                write_value(&entries[i].1, indent + 2, out);
                out.append(",\n");
                i = i + 1;
                assert(out@ =~= opened + dumped_entries(*value, i as nat, indent as nat));
            }
            out.append(write_indent(indent).as_str());
            out.append("}");
        },
    }
    assert(out@ =~= start + dumped(*value, indent as nat));
}

/// Dumps the root of a document: its dump and a line end.
pub fn write_root_dump(root: &PsbValue) -> (r: String)
    requires
        2 * nesting(*root) <= usize::MAX,
    ensures
        r@ == dumped(*root, 0) + "\n"@,
{
    let mut r = String::new();
    write_value(root, 0, &mut r);
    r.append("\n");
    assert(r@ =~= dumped(*root, 0) + "\n"@);
    r
}

} // verus!
