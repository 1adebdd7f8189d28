//! References from a layer to other layers, by path or by label.

use crate::order::TextMap;
use crate::text::{
    concat_text, contains_text, ends_with, opt_string, pieces, same_text, split, texts, trim,
    trimmed,
};
use vstd::prelude::*;

verus! {

/// What a layer goes by.
#[verifier::ext_equal]
pub struct LayerName {
    pub path: Seq<char>,
    pub label: Option<Seq<char>>,
}

/// A path and a label by their characters.
pub open spec fn name_view(layer: (String, Option<String>)) -> LayerName {
    LayerName { path: layer.0@, label: opt_string(layer.1) }
}

pub open spec fn names_view(layers: Seq<(String, Option<String>)>) -> Seq<LayerName> {
    layers.map_values(|n: (String, Option<String>)| name_view(n))
}

/// Whether a layer has the given path or label.
pub open spec fn goes_by(layer: LayerName, name: Seq<char>) -> bool {
    layer.path == name || layer.label == Some(name)
}

/// The paths of the layers that have the given path or label.
pub open spec fn exact_paths(layers: Seq<LayerName>, name: Seq<char>) -> Seq<
    Seq<char>,
>
    decreases layers.len(),
{
    if layers.len() == 0 {
        Seq::empty()
    } else {
        let before = exact_paths(layers.drop_last(), name);
        if goes_by(layers.last(), name) {
            before.push(layers.last().path)
        } else {
            before
        }
    }
}

/// The paths of the layers that end in the given path.
pub open spec fn suffix_paths(layers: Seq<LayerName>, name: Seq<char>) -> Seq<
    Seq<char>,
>
    decreases layers.len(),
{
    if layers.len() == 0 {
        Seq::empty()
    } else {
        let before = suffix_paths(layers.drop_last(), name);
        if ("/"@ + name).is_suffix_of(layers.last().path) {
            before.push(layers.last().path)
        } else {
            before
        }
    }
}

/// The paths that a reference may mean: exact matches, else paths that end in it.
pub open spec fn meant_paths(layers: Seq<LayerName>, reference: Seq<char>) -> Seq<
    Seq<char>,
> {
    let name = trimmed(reference);
    if name.len() == 0 {
        Seq::empty()
    } else if exact_paths(layers, name).len() > 0 {
        exact_paths(layers, name)
    } else {
        suffix_paths(layers, name)
    }
}

/// How many pieces two rows have in common from the front.
pub open spec fn shared(a: Seq<Seq<char>>, b: Seq<Seq<char>>) -> nat
    decreases a.len(),
{
    if a.len() == 0 || b.len() == 0 || a[0] != b[0] {
        0
    } else {
        1 + shared(a.drop_first(), b.drop_first())
    }
}

/// How many path segments a path has in common with its owner's.
pub open spec fn nearness(owner: Seq<char>, path: Seq<char>) -> nat {
    shared(pieces(owner, '/'), pieces(path, '/'))
}

/// The first of the paths that are nearest to the owner.
pub open spec fn nearest(owner: Seq<char>, paths: Seq<Seq<char>>) -> Seq<char>
    decreases paths.len(),
{
    if paths.len() <= 1 {
        paths[0]
    } else {
        let before = nearest(owner, paths.drop_last());
        if nearness(owner, paths.last()) > nearness(owner, before) {
            paths.last()
        } else {
            before
        }
    }
}

/// The paths that a reference of an owner means: the nearest one where several
/// come into question.
pub open spec fn owned_paths(
    layers: Seq<LayerName>,
    owner: Seq<char>,
    reference: Seq<char>,
) -> Seq<Seq<char>> {
    let found = meant_paths(layers, reference);
    if found.len() <= 1 {
        found
    } else {
        seq![nearest(owner, found)]
    }
}

/// The texts with those of the second row put behind that are not there yet.
pub open spec fn with_new(row: Seq<Seq<char>>, more: Seq<Seq<char>>) -> Seq<Seq<char>>
    decreases more.len(),
{
    if more.len() == 0 {
        row
    } else {
        let before = with_new(row, more.drop_last());
        if before.contains(more.last()) {
            before
        } else {
            before.push(more.last())
        }
    }
}

/// The paths that the references of an owner mean, none twice.
pub open spec fn all_owned_paths(
    layers: Seq<LayerName>,
    owner: Seq<char>,
    references: Seq<Seq<char>>,
) -> Seq<Seq<char>>
    decreases references.len(),
{
    if references.len() == 0 {
        Seq::empty()
    } else {
        with_new(
            all_owned_paths(layers, owner, references.drop_last()),
            owned_paths(layers, owner, references.last()),
        )
    }
}

/// The paths that the references may mean, none twice.
pub open spec fn all_meant_paths(
    layers: Seq<LayerName>,
    references: Seq<Seq<char>>,
) -> Seq<Seq<char>>
    decreases references.len(),
{
    if references.len() == 0 {
        Seq::empty()
    } else {
        with_new(
            all_meant_paths(layers, references.drop_last()),
            meant_paths(layers, references.last()),
        )
    }
}

fn has_name(layer: &(String, Option<String>), name: &str) -> (r: bool)
    ensures
        r == goes_by(name_view(*layer), name@),
{
    if same_text(layer.0.as_str(), name) {
        return true;
    }
    match &layer.1 {
        Some(label) => same_text(label.as_str(), name),
        None => false,
    }
}

/// The paths that a reference may mean.
pub fn resolve_draw_frame_layer_reference(
    reference: &str,
    layers: &Vec<(String, Option<String>)>,
) -> (r: Vec<String>)
    ensures
        texts(r@) == meant_paths(names_view(layers@), reference@),
{
    let name = trim(reference);
    let mut exact: Vec<String> = Vec::new();
    if name.as_str().is_empty() {
        assert(texts(exact@) =~= Seq::<Seq<char>>::empty());
        return exact;
    }
    let mut i: usize = 0;
    assert(texts(exact@) =~= exact_paths(names_view(layers@).take(0), name@));
    while i < layers.len()
        invariant
            i <= layers@.len(),
            texts(exact@) == exact_paths(names_view(layers@).take(i as int), name@),
        decreases layers@.len() - i,
    {
        assert(names_view(layers@).take(i + 1).drop_last() =~= names_view(layers@).take(i as int));
        let ghost before = texts(exact@);
        if has_name(&layers[i], name.as_str()) {
            exact.push(layers[i].0.clone());
            assert(texts(exact@) =~= before.push(layers@[i as int].0@));
        }
        i = i + 1;
    }
    assert(names_view(layers@).take(i as int) =~= names_view(layers@));
    assert(texts(exact@).len() == exact@.len());
    if exact.len() > 0 {
        return exact;
    }
    let suffix = concat_text("/", name.as_str());
    let mut found: Vec<String> = Vec::new();
    let mut j: usize = 0;
    assert(texts(found@) =~= suffix_paths(names_view(layers@).take(0), name@));
    while j < layers.len()
        invariant
            j <= layers@.len(),
            suffix@ == "/"@ + name@,
            texts(found@) == suffix_paths(names_view(layers@).take(j as int), name@),
        decreases layers@.len() - j,
    {
        assert(names_view(layers@).take(j + 1).drop_last() =~= names_view(layers@).take(j as int));
        let ghost before = texts(found@);
        if ends_with(layers[j].0.as_str(), suffix.as_str()) {
            found.push(layers[j].0.clone());
            assert(texts(found@) =~= before.push(layers@[j as int].0@));
        }
        j = j + 1;
    }
    assert(names_view(layers@).take(j as int) =~= names_view(layers@));
    found
}

fn count_shared(a: &Vec<String>, b: &Vec<String>) -> (n: usize)
    ensures
        n == shared(texts(a@), texts(b@)),
{
    let mut n: usize = 0;
    assert(texts(a@).skip(0) =~= texts(a@));
    assert(texts(b@).skip(0) =~= texts(b@));
    while n < a.len() && n < b.len() && same_text(a[n].as_str(), b[n].as_str())
        invariant
            n <= a@.len(),
            n <= b@.len(),
            shared(texts(a@), texts(b@)) == n + shared(
                texts(a@).skip(n as int),
                texts(b@).skip(n as int),
            ),
        decreases a@.len() - n,
    {
        assert(texts(a@).skip(n as int).drop_first() =~= texts(a@).skip(n + 1));
        assert(texts(b@).skip(n as int).drop_first() =~= texts(b@).skip(n + 1));
        assert(texts(a@).skip(n as int)[0] == a@[n as int]@);
        assert(texts(b@).skip(n as int)[0] == b@[n as int]@);
        n = n + 1;
    }
    proof {
        if n < a.len() && n < b.len() {
            assert(texts(a@).skip(n as int)[0] == a@[n as int]@);
            assert(texts(b@).skip(n as int)[0] == b@[n as int]@);
        }
    }
    n
}

/// The paths that a reference of an owner means.
pub fn resolve_layer_reference_with_owner(
    reference: &str,
    owner_path: &str,
    layers: &Vec<(String, Option<String>)>,
) -> (r: Vec<String>)
    ensures
        texts(r@) == owned_paths(names_view(layers@), owner_path@, reference@),
{
    let found = resolve_draw_frame_layer_reference(reference, layers);
    assert(texts(found@).len() == found@.len());
    if found.len() <= 1 {
        return found;
    }
    let owner = split(owner_path, '/');
    let mut best: usize = 0;
    let mut best_score: usize = count_shared(&owner, &split(found[0].as_str(), '/'));
    let mut i: usize = 1;
    let ghost all = texts(found@);
    assert(all.take(1)[0] == found@[0]@);
    while i < found.len()
        invariant
            1 <= i <= found@.len(),
            all == texts(found@),
            texts(owner@) == pieces(owner_path@, '/'),
            best < found@.len(),
            found@[best as int]@ == nearest(owner_path@, all.take(i as int)),
            best_score == nearness(owner_path@, found@[best as int]@),
        decreases found@.len() - i,
    {
        assert(all.take(i + 1).drop_last() =~= all.take(i as int));
        assert(all.take(i + 1).last() == found@[i as int]@);
        let score: usize = count_shared(&owner, &split(found[i].as_str(), '/'));
        if score > best_score {
            best = i;
            best_score = score;
        }
        i = i + 1;
    }
    assert(all.take(i as int) =~= all);
    let mut r: Vec<String> = Vec::new();
    r.push(found[best].clone());
    assert(texts(r@) =~= seq![nearest(owner_path@, all)]);
    r
}

/// Puts those texts behind that are not there yet.
fn append_new(row: &mut Vec<String>, more: &Vec<String>)
    ensures
        texts(final(row)@) == with_new(texts(old(row)@), texts(more@)),
{
    let ghost start = texts(row@);
    let mut i: usize = 0;
    while i < more.len()
        invariant
            i <= more@.len(),
            texts(row@) == with_new(start, texts(more@).take(i as int)),
        decreases more@.len() - i,
    {
        let ghost before = texts(row@);
        assert(texts(more@).take(i + 1).drop_last() =~= texts(more@).take(i as int));
        assert(texts(more@).take(i + 1).last() == more@[i as int]@);
        if !contains_text(row, more[i].as_str()) {
            row.push(more[i].clone());
            assert(texts(row@) =~= before.push(more@[i as int]@));
        }
        i = i + 1;
    }
    assert(texts(more@).take(i as int) =~= texts(more@));
}

/// The paths that the references may mean, none twice.
pub fn resolve_all(references: &Vec<String>, layers: &Vec<(String, Option<String>)>) -> (r: Vec<
    String,
>)
    ensures
        texts(r@) == all_meant_paths(names_view(layers@), texts(references@)),
{
    let mut r: Vec<String> = Vec::new();
    let mut i: usize = 0;
    let ghost all = texts(references@);
    assert(texts(r@) =~= all_meant_paths(names_view(layers@), all.take(0)));
    while i < references.len()
        invariant
            i <= references@.len(),
            all == texts(references@),
            texts(r@) == all_meant_paths(names_view(layers@), all.take(i as int)),
        decreases references@.len() - i,
    {
        assert(all.take(i + 1).drop_last() =~= all.take(i as int));
        assert(all.take(i + 1).last() == references@[i as int]@);
        let found = resolve_draw_frame_layer_reference(references[i].as_str(), layers);
        append_new(&mut r, &found);
        i = i + 1;
    }
    assert(all.take(i as int) =~= all);
    r
}

/// The paths that the references of an owner mean, none twice.
pub fn resolve_owned(owner: &str, references: &Vec<String>, layers: &Vec<(String, Option<String>)>)
    -> (r: Vec<String>)
    ensures
        texts(r@) == all_owned_paths(names_view(layers@), owner@, texts(references@)),
{
    let mut r: Vec<String> = Vec::new();
    let mut i: usize = 0;
    let ghost all = texts(references@);
    assert(texts(r@) =~= all_owned_paths(names_view(layers@), owner@, all.take(0)));
    while i < references.len()
        invariant
            i <= references@.len(),
            all == texts(references@),
            texts(r@) == all_owned_paths(names_view(layers@), owner@, all.take(i as int)),
        decreases references@.len() - i,
    {
        assert(all.take(i + 1).drop_last() =~= all.take(i as int));
        assert(all.take(i + 1).last() == references@[i as int]@);
        let found = resolve_layer_reference_with_owner(references[i].as_str(), owner, layers);
        append_new(&mut r, &found);
        i = i + 1;
    }
    assert(all.take(i as int) =~= all);
    r
}

/// A map from owners to rows of texts, by its characters.
pub open spec fn rows_view(m: TextMap<Vec<String>>) -> Map<Seq<char>, Seq<Seq<char>>> {
    m@.map_values(|v: Vec<String>| texts(v@))
}

/// The mask sources of every owner, resolved from its own references.
pub open spec fn resolved_owners(
    layers: Seq<LayerName>,
    raw: Map<Seq<char>, Seq<Seq<char>>>,
) -> Map<Seq<char>, Seq<Seq<char>>> {
    Map::new(|k: Seq<char>| raw.dom().contains(k), |k: Seq<char>| all_owned_paths(layers, k, raw[k]))
}

/// Resolves the mask sources of every owner.
pub fn resolve_composite_mask_owners(
    layers: &Vec<(String, Option<String>)>,
    raw: &TextMap<Vec<String>>,
) -> (r: TextMap<Vec<String>>)
    requires
        raw.wf(),
    ensures
        r.wf(),
        rows_view(r) == resolved_owners(names_view(layers@), rows_view(*raw)),
{
    let mut out: TextMap<Vec<String>> = TextMap::new();
    let mut i: usize = 0;
    while i < raw.entries.len()
        invariant
            i <= raw.entries@.len(),
            raw.wf(),
            out.wf(),
            forall|k: Seq<char>| #[trigger]
                out@.dom().contains(k) <==> exists|j: int|
                    0 <= j < i && (#[trigger] raw.entries@[j]).0@ == k,
            forall|j: int|
                0 <= j < i ==> texts(out@[(#[trigger] raw.entries@[j]).0@]@) == all_owned_paths(
                    names_view(layers@),
                    raw.entries@[j].0@,
                    texts(raw.entries@[j].1@),
                ),
        decreases raw.entries@.len() - i,
    {
        let owner = &raw.entries[i].0;
        let sources = resolve_owned(owner.as_str(), &raw.entries[i].1, layers);
        let ghost before = out@;
        let ghost key = owner@;
        proof {
            assert forall|j: int| 0 <= j < i implies (#[trigger] raw.entries@[j]).0@ != key by {
                raw.lemma_entry(j);
                raw.lemma_entry(i as int);
            }
        }
        out.insert(owner.clone(), sources);
        proof {
            assert forall|k: Seq<char>| #[trigger]
                out@.dom().contains(k) <==> exists|j: int|
                    0 <= j < i + 1 && (#[trigger] raw.entries@[j]).0@ == k by {
                if k == key {
                    assert(raw.entries@[i as int].0@ == k);
                }
                if before.dom().contains(k) {
                    let j = choose|j: int| 0 <= j < i && (#[trigger] raw.entries@[j]).0@ == k;
                    assert(0 <= j < i + 1 && raw.entries@[j].0@ == k);
                }
                if exists|j: int| 0 <= j < i + 1 && (#[trigger] raw.entries@[j]).0@ == k {
                    let j = choose|j: int| 0 <= j < i + 1 && (#[trigger] raw.entries@[j]).0@ == k;
                    if j < i {
                        assert(0 <= j < i && raw.entries@[j].0@ == k);
                    }
                }
            }
        }
        i = i + 1;
    }
    proof {
        let want = resolved_owners(names_view(layers@), rows_view(*raw));
        assert forall|k: Seq<char>| rows_view(out).dom().contains(k) == want.dom().contains(k) by {
            if raw@.dom().contains(k) {
                raw.lemma_position(k);
                let p = raw.position(k);
                assert(raw.entries@[p].0@ == k);
            }
            if out@.dom().contains(k) {
                let j = choose|j: int|
                    0 <= j < raw.entries@.len() && (#[trigger] raw.entries@[j]).0@ == k;
                raw.lemma_entry(j);
            }
        }
        assert forall|k: Seq<char>| #[trigger] rows_view(out).dom().contains(k) implies rows_view(
            out,
        )[k] == want[k] by {
            let j = choose|j: int|
                0 <= j < raw.entries@.len() && (#[trigger] raw.entries@[j]).0@ == k;
            raw.lemma_entry(j);
        }
        assert(rows_view(out) =~= want);
    }
    out
}

/// Every path that a reference may mean is the path of a layer.
pub proof fn lemma_meant_paths_exist(
    layers: Seq<LayerName>,
    reference: Seq<char>,
    path: Seq<char>,
)
    requires
        meant_paths(layers, reference).contains(path),
    ensures
        exists|i: int| 0 <= i < layers.len() && (#[trigger] layers[i]).path == path,
{
    let name = trimmed(reference);
    if exact_paths(layers, name).len() > 0 {
        lemma_exact_exist(layers, name, path);
    } else {
        lemma_suffix_exist(layers, name, path);
    }
}

proof fn lemma_exact_exist(
    layers: Seq<LayerName>,
    name: Seq<char>,
    path: Seq<char>,
)
    requires
        exact_paths(layers, name).contains(path),
    ensures
        exists|i: int| 0 <= i < layers.len() && (#[trigger] layers[i]).path == path,
    decreases layers.len(),
{
    if layers.len() > 0 {
        let before = exact_paths(layers.drop_last(), name);
        let now = exact_paths(layers, name);
        let k = choose|k: int| 0 <= k < now.len() && now[k] == path;
        if k < before.len() {
            assert(before[k] == path);
            lemma_exact_exist(layers.drop_last(), name, path);
            let i = choose|i: int|
                0 <= i < layers.drop_last().len() && (#[trigger] layers.drop_last()[i]).path == path;
            assert(layers[i].path == path);
        } else {
            assert(layers[layers.len() - 1].path == path);
        }
    }
}

proof fn lemma_suffix_exist(
    layers: Seq<LayerName>,
    name: Seq<char>,
    path: Seq<char>,
)
    requires
        suffix_paths(layers, name).contains(path),
    ensures
        exists|i: int| 0 <= i < layers.len() && (#[trigger] layers[i]).path == path,
    decreases layers.len(),
{
    if layers.len() > 0 {
        let before = suffix_paths(layers.drop_last(), name);
        let now = suffix_paths(layers, name);
        let k = choose|k: int| 0 <= k < now.len() && now[k] == path;
        if k < before.len() {
            assert(before[k] == path);
            lemma_suffix_exist(layers.drop_last(), name, path);
            let i = choose|i: int|
                0 <= i < layers.drop_last().len() && (#[trigger] layers.drop_last()[i]).path == path;
            assert(layers[i].path == path);
        } else {
            assert(layers[layers.len() - 1].path == path);
        }
    }
}

/// An owner's reference means at most one path, one that it may mean, and none of
/// the others shares more leading segments with the owner's path.
pub proof fn lemma_owned_path_is_nearest(
    layers: Seq<LayerName>,
    owner: Seq<char>,
    reference: Seq<char>,
)
    ensures
        owned_paths(layers, owner, reference).len() <= 1,
        owned_paths(layers, owner, reference).len() == 0 <==> meant_paths(
            layers,
            reference,
        ).len() == 0,
        forall|i: int, j: int|
            0 <= i < owned_paths(layers, owner, reference).len() && 0 <= j < meant_paths(
                layers,
                reference,
            ).len() ==> meant_paths(layers, reference).contains(
                #[trigger] owned_paths(layers, owner, reference)[i],
            ) && nearness(owner, owned_paths(layers, owner, reference)[i]) >= nearness(
                owner,
                #[trigger] meant_paths(layers, reference)[j],
            ),
{
    let found = meant_paths(layers, reference);
    if found.len() > 1 {
        lemma_nearest(owner, found);
    } else if found.len() == 1 {
        assert(found.contains(found[0]));
    }
}

proof fn lemma_nearest(owner: Seq<char>, paths: Seq<Seq<char>>)
    requires
        paths.len() > 0,
    ensures
        paths.contains(nearest(owner, paths)),
        forall|j: int|
            0 <= j < paths.len() ==> nearness(owner, nearest(owner, paths)) >= nearness(
                owner,
                #[trigger] paths[j],
            ),
    decreases paths.len(),
{
    if paths.len() == 1 {
        assert(paths[0] == nearest(owner, paths));
    } else {
        let first = paths.drop_last();
        lemma_nearest(owner, first);
        let b = nearest(owner, first);
        let k = choose|k: int| 0 <= k < first.len() && first[k] == b;
        assert(paths[k] == b);
        assert(paths[paths.len() - 1] == paths.last());
        assert forall|j: int| 0 <= j < paths.len() implies nearness(owner, nearest(owner, paths))
            >= nearness(owner, #[trigger] paths[j]) by {
            if j < first.len() {
                assert(first[j] == paths[j]);
            }
        }
    }
}

/// No path stands twice among the resolved ones.
pub proof fn lemma_with_new_distinct(row: Seq<Seq<char>>, more: Seq<Seq<char>>)
    requires
        row.no_duplicates(),
    ensures
        with_new(row, more).no_duplicates(),
    decreases more.len(),
{
    if more.len() > 0 {
        lemma_with_new_distinct(row, more.drop_last());
    }
}

/// The resolved paths of an owner hold none twice.
pub proof fn lemma_owned_paths_distinct(
    layers: Seq<LayerName>,
    owner: Seq<char>,
    references: Seq<Seq<char>>,
)
    ensures
        all_owned_paths(layers, owner, references).no_duplicates(),
    decreases references.len(),
{
    if references.len() > 0 {
        lemma_owned_paths_distinct(layers, owner, references.drop_last());
        lemma_with_new_distinct(
            all_owned_paths(layers, owner, references.drop_last()),
            owned_paths(layers, owner, references.last()),
        );
    }
}

} // verus!
