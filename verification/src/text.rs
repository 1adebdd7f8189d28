//! Text as sequences of characters.

use vstd::prelude::*;

verus! {

/// `String::push`: the character goes to the end.
pub assume_specification[ std::string::String::push ](s: &mut std::string::String, c: char)
    ensures
        final(s)@ == old(s)@.push(c),
;

/// `==` on string slices: equal where they hold the same characters.
pub assume_specification[ <str as PartialEq>::eq ](a: &str, b: &str) -> (r: bool)
    ensures
        r == (a@ == b@),
;

/// The characters of a text.
pub fn chars_of(s: &str) -> (r: Vec<char>)
    ensures
        r@ == s@,
{
    let mut r: Vec<char> = Vec::new();
    for c in it: s.chars()
        invariant
            r@ == it.seq().take(it.index() as int),
            it.seq() == s@,
    {
        r.push(c);
    }
    r
}

/// The text made of the characters in `[from, to)`.
pub fn text_of(chars: &Vec<char>, from: usize, to: usize) -> (r: String)
    requires
        from <= to <= chars.len(),
    ensures
        r@ == chars@.subrange(from as int, to as int),
{
    let mut r = String::new();
    let mut i: usize = from;
    while i < to
        invariant
            from <= i <= to <= chars.len(),
            r@ == chars@.subrange(from as int, i as int),
        decreases to - i,
    {
        r.push(chars[i]);
        i = i + 1;
    }
    r
}

/// Whether two texts hold the same characters.
pub fn same_text(a: &str, b: &str) -> (r: bool)
    ensures
        r == (a@ == b@),
{
    a.eq(b)
}

/// The characters of an optional text.
pub open spec fn opt_text(s: Option<&str>) -> Option<Seq<char>> {
    match s {
        Some(t) => Some(t@),
        None => None,
    }
}

/// The characters of an optional owned text.
pub open spec fn opt_string(s: Option<String>) -> Option<Seq<char>> {
    match s {
        Some(t) => Some(t@),
        None => None,
    }
}

/// The characters of each text.
pub open spec fn texts(v: Seq<String>) -> Seq<Seq<char>> {
    v.map_values(|s: String| s@)
}

pub fn opt_owned(s: Option<&str>) -> (r: Option<String>)
    ensures
        opt_string(r) == opt_text(s),
{
    match s {
        Some(t) => Some(t.to_owned()),
        None => None,
    }
}

pub fn clone_opt(s: &Option<String>) -> (r: Option<String>)
    ensures
        opt_string(r) == opt_string(*s),
{
    match s {
        Some(t) => Some(t.clone()),
        None => None,
    }
}

pub fn clone_texts(v: &Vec<String>) -> (r: Vec<String>)
    ensures
        texts(r@) == texts(v@),
{
    let mut r: Vec<String> = Vec::new();
    let mut i: usize = 0;
    while i < v.len()
        invariant
            i <= v.len(),
            texts(r@) == texts(v@.take(i as int)),
        decreases v.len() - i,
    {
        let ghost before = r@;
        r.push(v[i].clone());
        assert(texts(r@) =~= texts(before).push(v@[i as int]@));
        assert(texts(v@.take(i + 1)) =~= texts(v@.take(i as int)).push(v@[i as int]@));
        i = i + 1;
    }
    assert(v@.take(i as int) == v@);
    r
}

/// Whether a text is among the given ones.
pub fn contains_text(v: &Vec<String>, s: &str) -> (r: bool)
    ensures
        r == texts(v@).contains(s@),
{
    let mut i: usize = 0;
    while i < v.len()
        invariant
            i <= v.len(),
            forall|j: int| 0 <= j < i ==> (#[trigger] v@[j])@ != s@,
        decreases v.len() - i,
    {
        if same_text(v[i].as_str(), s) {
            assert(texts(v@)[i as int] == s@);
            return true;
        }
        i = i + 1;
    }
    assert forall|j: int| 0 <= j < texts(v@).len() implies texts(v@)[j] != s@ by {
        assert(v@[j]@ != s@);
    }
    false
}

/// `a + b`.
pub fn concat_text(a: &str, b: &str) -> (r: String)
    ensures
        r@ == a@ + b@,
{
    let mut r = a.to_owned();
    r.append(b);
    r
}

/// `a + sep + b`.
pub fn join_two(a: &str, sep: &str, b: &str) -> (r: String)
    ensures
        r@ == a@ + sep@ + b@,
{
    let mut r = a.to_owned();
    r.append(sep);
    r.append(b);
    r
}

pub fn starts_with(s: &str, prefix: &str) -> (r: bool)
    ensures
        r == prefix@.is_prefix_of(s@),
{
    strip_prefix(s, prefix).is_some()
}

/// What follows the prefix.
pub open spec fn stripped(s: Seq<char>, prefix: Seq<char>) -> Option<Seq<char>> {
    if prefix.is_prefix_of(s) {
        Some(s.skip(prefix.len() as int))
    } else {
        None
    }
}

pub fn strip_prefix(s: &str, prefix: &str) -> (r: Option<String>)
    ensures
        opt_string(r) == stripped(s@, prefix@),
{
    let a = chars_of(s);
    let b = chars_of(prefix);
    if a.len() < b.len() {
        return None;
    }
    let mut i: usize = 0;
    while i < b.len()
        invariant
            i <= b.len() <= a.len(),
            a@ == s@,
            b@ == prefix@,
            a@.take(i as int) == b@.take(i as int),
        decreases b.len() - i,
    {
        if a[i] != b[i] {
            assert(!prefix@.is_prefix_of(s@)) by {
                if prefix@.is_prefix_of(s@) {
                    assert(s@.subrange(0, prefix@.len() as int)[i as int] == prefix@[i as int]);
                }
            }
            return None;
        }
        assert(a@.take(i + 1) == a@.take(i as int).push(a@[i as int]));
        assert(b@.take(i + 1) == b@.take(i as int).push(b@[i as int]));
        i = i + 1;
    }
    assert(b@.take(i as int) == b@);
    assert(prefix@.is_prefix_of(s@));
    let rest = text_of(&a, b.len(), a.len());
    assert(a@.subrange(b.len() as int, a.len() as int) == s@.skip(prefix@.len() as int));
    Some(rest)
}

pub fn ends_with(s: &str, suffix: &str) -> (r: bool)
    ensures
        r == suffix@.is_suffix_of(s@),
{
    let a = chars_of(s);
    let b = chars_of(suffix);
    if a.len() < b.len() {
        return false;
    }
    let base: usize = a.len() - b.len();
    let mut i: usize = 0;
    while i < b.len()
        invariant
            i <= b.len() <= a.len(),
            base == a.len() - b.len(),
            a@ == s@,
            b@ == suffix@,
            forall|j: int| 0 <= j < i ==> a@[base + j] == #[trigger] b@[j],
        decreases b.len() - i,
    {
        if a[base + i] != b[i] {
            assert(!suffix@.is_suffix_of(s@)) by {
                if suffix@.is_suffix_of(s@) {
                    assert(s@.subrange((s@.len() - suffix@.len()) as int, s@.len() as int)[i as int]
                        == suffix@[i as int]);
                }
            }
            return false;
        }
        i = i + 1;
    }
    assert(s@.subrange((s@.len() - suffix@.len()) as int, s@.len() as int) =~= suffix@);
    true
}

/// Whether `part` occurs in `s` at `i`.
pub open spec fn occurs_at(s: Seq<char>, part: Seq<char>, i: int) -> bool {
    0 <= i && i + part.len() <= s.len() && s.subrange(i, i + part.len()) == part
}

/// Whether `part` occurs in `s`.
pub open spec fn occurs(s: Seq<char>, part: Seq<char>) -> bool {
    exists|i: int| occurs_at(s, part, i)
}

pub fn contains_part(s: &str, part: &str) -> (r: bool)
    ensures
        r == occurs(s@, part@),
{
    let a = chars_of(s);
    let b = chars_of(part);
    if a.len() < b.len() {
        return false;
    }
    let last: usize = a.len() - b.len();
    let mut i: usize = 0;
    loop
        invariant
            a@ == s@,
            b@ == part@,
            b.len() <= a.len(),
            last == a.len() - b.len(),
            i <= last,
            forall|k: int| 0 <= k < i ==> !#[trigger] occurs_at(s@, part@, k),
        decreases last - i,
    {
        let mut j: usize = 0;
        while j < b.len() && a[i + j] == b[j]
            invariant
                a@ == s@,
                b@ == part@,
                b.len() <= a.len(),
                last == a.len() - b.len(),
                i <= last,
                j <= b.len(),
                forall|k: int| 0 <= k < j ==> a@[i + k] == #[trigger] b@[k],
            decreases b.len() - j,
        {
            j = j + 1;
        }
        if j == b.len() {
            assert(s@.subrange(i as int, i + part@.len()) =~= part@);
            assert(occurs_at(s@, part@, i as int));
            return true;
        }
        assert(!occurs_at(s@, part@, i as int)) by {
            if occurs_at(s@, part@, i as int) {
                assert(s@.subrange(i as int, i + part@.len())[j as int] == part@[j as int]);
            }
        }
        if i == last {
            return false;
        }
        i = i + 1;
    }
}

/// The characters that Unicode gives the property White_Space.
pub open spec fn spec_is_white(c: char) -> bool {
    ||| '\u{9}' <= c <= '\u{d}'
    ||| c == ' '
    ||| c == '\u{85}'
    ||| c == '\u{a0}'
    ||| c == '\u{1680}'
    ||| '\u{2000}' <= c <= '\u{200a}'
    ||| c == '\u{2028}'
    ||| c == '\u{2029}'
    ||| c == '\u{202f}'
    ||| c == '\u{205f}'
    ||| c == '\u{3000}'
}

#[verifier::when_used_as_spec(spec_is_white)]
pub fn is_white(c: char) -> (r: bool)
    ensures
        r == spec_is_white(c),
{
    ('\u{9}' <= c && c <= '\u{d}') || c == ' ' || c == '\u{85}' || c == '\u{a0}' || c == '\u{1680}'
        || ('\u{2000}' <= c && c <= '\u{200a}') || c == '\u{2028}' || c == '\u{2029}'
        || c == '\u{202f}' || c == '\u{205f}' || c == '\u{3000}'
}

/// The text without leading white space.
pub open spec fn trimmed_start(s: Seq<char>) -> Seq<char>
    decreases s.len(),
{
    if s.len() > 0 && spec_is_white(s[0]) {
        trimmed_start(s.drop_first())
    } else {
        s
    }
}

/// The text without trailing white space.
pub open spec fn trimmed_end(s: Seq<char>) -> Seq<char>
    decreases s.len(),
{
    if s.len() > 0 && spec_is_white(s.last()) {
        trimmed_end(s.drop_last())
    } else {
        s
    }
}

/// The text without white space at either end.
pub open spec fn trimmed(s: Seq<char>) -> Seq<char> {
    trimmed_end(trimmed_start(s))
}

pub fn trim(s: &str) -> (r: String)
    ensures
        r@ == trimmed(s@),
{
    let a = chars_of(s);
    let mut from: usize = 0;
    assert(a@.skip(0) == s@);
    while from < a.len() && is_white(a[from])
        invariant
            from <= a.len(),
            trimmed_start(s@) == trimmed_start(a@.skip(from as int)),
        decreases a.len() - from,
    {
        assert(a@.skip(from as int).drop_first() == a@.skip(from + 1));
        from = from + 1;
    }
    let ghost body = a@.skip(from as int);
    assert(trimmed_start(s@) == body);
    let mut to: usize = a.len();
    assert(a@.subrange(from as int, to as int) == body);
    while from < to && is_white(a[to - 1])
        invariant
            from <= to <= a.len(),
            trimmed_end(body) == trimmed_end(a@.subrange(from as int, to as int)),
        decreases to - from,
    {
        assert(a@.subrange(from as int, to as int).drop_last() == a@.subrange(
            from as int,
            to - 1,
        ));
        to = to - 1;
    }
    text_of(&a, from, to)
}

/// The pieces of a text between the places where `sep` stands.
pub open spec fn pieces(s: Seq<char>, sep: char) -> Seq<Seq<char>>
    decreases s.len(),
{
    if s.len() == 0 {
        seq![Seq::empty()]
    } else {
        let before = pieces(s.drop_last(), sep);
        if s.last() == sep {
            before.push(Seq::empty())
        } else {
            before.drop_last().push(before.last().push(s.last()))
        }
    }
}

pub proof fn lemma_pieces_len(s: Seq<char>, sep: char)
    ensures
        pieces(s, sep).len() > 0,
    decreases s.len(),
{
    if s.len() > 0 {
        lemma_pieces_len(s.drop_last(), sep);
    }
}

/// The texts one after another with `sep` between each two.
pub open spec fn joined(parts: Seq<Seq<char>>, sep: Seq<char>) -> Seq<char>
    decreases parts.len(),
{
    if parts.len() == 0 {
        Seq::empty()
    } else if parts.len() == 1 {
        parts[0]
    } else {
        joined(parts.drop_last(), sep) + sep + parts.last()
    }
}

pub fn split(s: &str, sep: char) -> (r: Vec<String>)
    ensures
        texts(r@) == pieces(s@, sep),
{
    let a = chars_of(s);
    let mut r: Vec<String> = Vec::new();
    let mut current = String::new();
    let mut i: usize = 0;
    assert(texts(r@).push(current@) =~= pieces(a@.take(0), sep));
    while i < a.len()
        invariant
            i <= a.len(),
            texts(r@).push(current@) == pieces(a@.take(i as int), sep),
        decreases a.len() - i,
    {
        let ghost before = pieces(a@.take(i as int), sep);
        assert(a@.take(i + 1).drop_last() == a@.take(i as int));
        assert(before.drop_last() == texts(r@));
        if a[i] == sep {
            let done = current;
            current = String::new();
            let ghost old_r = r@;
            r.push(done);
            assert(texts(r@) =~= texts(old_r).push(done@));
        } else {
            current.push(a[i]);
        }
        i = i + 1;
    }
    assert(a@.take(i as int) == s@);
    let ghost old_r = r@;
    let ghost last = current@;
    r.push(current);
    assert(texts(r@) =~= texts(old_r).push(last));
    r
}

pub fn join(parts: &Vec<String>, sep: &str) -> (r: String)
    ensures
        r@ == joined(texts(parts@), sep@),
{
    let mut r = String::new();
    let mut i: usize = 0;
    while i < parts.len()
        invariant
            i <= parts.len(),
            r@ == joined(texts(parts@.take(i as int)), sep@),
        decreases parts.len() - i,
    {
        let ghost next = texts(parts@.take(i + 1));
        assert(next.drop_last() =~= texts(parts@.take(i as int)));
        assert(next.last() == parts@[i as int]@);
        if i > 0 {
            r.append(sep);
        }
        r.append(parts[i].as_str());
        if i == 0 {
            assert(next[0] == parts@[0]@);
            assert(r@ =~= parts@[0]@);
        }
        i = i + 1;
    }
    assert(parts@.take(i as int) == parts@);
    r
}

/// No piece holds the separator.
pub proof fn lemma_pieces_without_separator(s: Seq<char>, sep: char, i: int)
    requires
        0 <= i < pieces(s, sep).len(),
    ensures
        !pieces(s, sep)[i].contains(sep),
    decreases s.len(),
{
    if s.len() > 0 {
        let before = pieces(s.drop_last(), sep);
        lemma_pieces_len(s.drop_last(), sep);
        if i < before.len() {
            lemma_pieces_without_separator(s.drop_last(), sep, i);
        }
        if s.last() != sep && i == before.len() - 1 {
            assert forall|k: int| 0 <= k < pieces(s, sep)[i].len() implies pieces(s, sep)[i][k]
                != sep by {
                if k < before.last().len() {
                    assert(before[i].contains(before[i][k]));
                }
            }
        }
    }
}

/// Joining the pieces of a text gives the text back.
pub proof fn lemma_join_pieces(s: Seq<char>, sep: char)
    ensures
        joined(pieces(s, sep), seq![sep]) == s,
    decreases s.len(),
{
    lemma_pieces_len(s, sep);
    if s.len() > 0 {
        let before = pieces(s.drop_last(), sep);
        lemma_pieces_len(s.drop_last(), sep);
        lemma_join_pieces(s.drop_last(), sep);
        let now = pieces(s, sep);
        if s.last() == sep {
            assert(now.drop_last() =~= before);
            assert(joined(now, seq![sep]) =~= s.drop_last().push(sep));
        } else {
            assert(now.drop_last() =~= before.drop_last());
            if before.len() == 1 {
                assert(joined(now, seq![sep]) =~= s.drop_last().push(s.last()));
            } else {
                assert(joined(now, seq![sep]) =~= s.drop_last().push(s.last()));
            }
        }
        assert(s.drop_last().push(s.last()) =~= s);
    } else {
        assert(joined(pieces(s, sep), seq![sep]) =~= s);
    }
}

/// Splitting what was joined gives the pieces back, where none holds the separator.
pub proof fn lemma_pieces_of_joined(parts: Seq<Seq<char>>, sep: char)
    requires
        parts.len() > 0,
        forall|i: int| 0 <= i < parts.len() ==> !(#[trigger] parts[i]).contains(sep),
    ensures
        pieces(joined(parts, seq![sep]), sep) == parts,
    decreases parts.len(),
{
    let first = parts.drop_last();
    if parts.len() == 1 {
        lemma_pieces_append(Seq::empty(), parts[0], sep);
        assert(Seq::<char>::empty() + parts[0] =~= parts[0]);
        assert(pieces(Seq::empty(), sep) =~= seq![Seq::<char>::empty()]);
        assert(pieces(parts[0], sep) =~= parts);
    } else {
        lemma_pieces_of_joined(first, sep);
        let head = joined(first, seq![sep]) + seq![sep];
        assert(head.drop_last() =~= joined(first, seq![sep]));
        assert(pieces(head, sep) == first.push(Seq::empty()));
        lemma_pieces_append(head, parts.last(), sep);
        assert(first.push(Seq::<char>::empty()).drop_last() =~= first);
        assert(Seq::<char>::empty() + parts.last() =~= parts.last());
        assert(first.push(parts.last()) =~= parts);
    }
}

/// Appending text without separators extends the last piece.
proof fn lemma_pieces_append(s: Seq<char>, t: Seq<char>, sep: char)
    requires
        !t.contains(sep),
    ensures
        pieces(s + t, sep) == pieces(s, sep).drop_last().push(pieces(s, sep).last() + t),
    decreases t.len(),
{
    lemma_pieces_len(s, sep);
    if t.len() == 0 {
        assert(s + t =~= s);
        assert(pieces(s, sep).last() + t =~= pieces(s, sep).last());
        assert(pieces(s, sep).drop_last().push(pieces(s, sep).last()) =~= pieces(s, sep));
    } else {
        assert forall|k: int| 0 <= k < t.drop_last().len() implies t.drop_last()[k] != sep by {
            assert(t.contains(t[k]));
        }
        assert(t.contains(t.last()));
        lemma_pieces_append(s, t.drop_last(), sep);
        assert((s + t).drop_last() =~= s + t.drop_last());
        let a = pieces(s, sep);
        let mid = a.drop_last().push(a.last() + t.drop_last());
        assert(mid.drop_last() =~= a.drop_last());
        assert((a.last() + t.drop_last()).push(t.last()) =~= a.last() + t);
    }
}

} // verus!
