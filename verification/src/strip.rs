//! The first pass: features that are to be propagated must not be listed by
//! hand on a workspace dependency (`dep = { workspace = true, features =
//! [..] }`); they come through the feature tables instead.

use vstd::prelude::*;
use vstd::string::*;
use toml_edit::DocumentMut;
use crate::manifest::{
    dep_features_path, dep_key_node, dep_key_text, dep_node, dep_table_keys, dep_workspace_path,
    lists_table_keys,
    remove_dep_feature, remove_dep_features_key, table_path, table_reached, DepTable,
};
use crate::strings::{append_pairs, contains_text, lemma_take_excludes_next, lemma_take_next, pair_texts, paired_with, texts};
use crate::toml_model::{
    array_at, is_array_at, key_text_2, table_keys_1, toml_arrays_hold_values, toml_items,
    toml_key_order, toml_key_text, toml_values, KeyPath, NodeKind, TomlNode,
};

verus! {

/// An array element that names one of the features to propagate.
pub open spec fn is_target_feature(x: Option<Seq<char>>, targets: Seq<Seq<char>>) -> bool {
    x matches Some(t) && targets.contains(t)
}

/// Whether an array element is to stay: it names no feature to propagate.
pub open spec fn not_target(targets: Seq<Seq<char>>) -> spec_fn(Option<Seq<char>>) -> bool {
    |x: Option<Seq<char>>| !is_target_feature(x, targets)
}

/// The elements of an array that do not name a feature to propagate, in
/// their order.
pub open spec fn without_targets(e: Seq<Option<Seq<char>>>, targets: Seq<Seq<char>>) -> Seq<
    Option<Seq<char>>,
>
    decreases e.len(),
{
    if e.len() == 0 {
        e
    } else if is_target_feature(e[0], targets) {
        without_targets(e.drop_first(), targets)
    } else {
        seq![e[0]] + without_targets(e.drop_first(), targets)
    }
}

/// Whether the pass takes features out of the `features` array at `p`, the
/// last key of a dependency entry: the dependency's key, as the table writes
/// it, names a workspace member (so a quoted key never does), the entry is
/// an inline table with a `workspace` key, its `features` is an array, and
/// that array names a feature to propagate.
pub open spec fn strips_at(
    items: Map<KeyPath, TomlNode>,
    keys: Map<KeyPath, Seq<char>>,
    p: KeyPath,
    targets: Seq<Seq<char>>,
    members: Seq<Seq<char>>,
) -> bool {
    &&& p.len() >= 2
    &&& keys.contains_key(p.drop_last())
    &&& members.contains(keys[p.drop_last()])
    &&& items.get(p.drop_last()) == Some(TomlNode::InlineTable)
    &&& items.contains_key(p.drop_last().push("workspace"@))
    &&& is_array_at(items, p)
    &&& without_targets(array_at(items, p), targets).len() < array_at(items, p).len()
}

/// The document after the pass has looked at the `features` arrays at the
/// paths of `sites`: where it strips, the features to propagate leave the
/// array, and an array left empty leaves its inline table.
pub open spec fn strip_where(
    items: Map<KeyPath, TomlNode>,
    keys: Map<KeyPath, Seq<char>>,
    sites: spec_fn(KeyPath) -> bool,
    targets: Seq<Seq<char>>,
    members: Seq<Seq<char>>,
) -> Map<KeyPath, TomlNode> {
    Map::new(
        |p: KeyPath|
            items.contains_key(p) && !(sites(p) && strips_at(items, keys, p, targets, members)
                && without_targets(array_at(items, p), targets).len() == 0),
        |p: KeyPath|
            if sites(p) && strips_at(items, keys, p, targets, members) {
                TomlNode::Array(without_targets(array_at(items, p), targets))
            } else {
                items[p]
            },
    )
}

/// The `features` paths of the dependencies of a dependency table, where
/// the table is read.
pub open spec fn table_sites(items: Map<KeyPath, TomlNode>, tp: KeyPath) -> spec_fn(KeyPath) -> bool {
    |p: KeyPath|
        table_reached(items, tp) && p.len() == tp.len() + 2 && p.take(tp.len() as int) == tp
            && p.last() == "features"@
}

/// Sites are `features` paths of three or five keys.
pub open spec fn well_placed(sites: spec_fn(KeyPath) -> bool) -> bool {
    forall|p: KeyPath| #[trigger] sites(p) ==> (p.len() == 3 || p.len() == 5) && p.last() == "features"@
}

pub proof fn lemma_without_targets_len(e: Seq<Option<Seq<char>>>, targets: Seq<Seq<char>>)
    ensures
        without_targets(e, targets).len() <= e.len(),
        without_targets(e, targets).len() == e.len() <==> forall|i: int|
            0 <= i < e.len() ==> !is_target_feature(#[trigger] e[i], targets),
    decreases e.len(),
{
    if e.len() > 0 {
        lemma_without_targets_len(e.drop_first(), targets);
        if forall|i: int| 0 <= i < e.len() ==> !is_target_feature(#[trigger] e[i], targets) {
            assert forall|i: int| 0 <= i < e.drop_first().len() implies !is_target_feature(
                #[trigger] e.drop_first()[i],
                targets,
            ) by {
                assert(e.drop_first()[i] == e[i + 1]);
            }
        } else {
            let i = choose|i: int| 0 <= i < e.len() && is_target_feature(#[trigger] e[i], targets);
            if i > 0 {
                assert(e.drop_first()[i - 1] == e[i]);
            }
        }
    }
}

pub proof fn lemma_without_targets_clean(e: Seq<Option<Seq<char>>>, targets: Seq<Seq<char>>)
    ensures
        forall|i: int|
            0 <= i < without_targets(e, targets).len() ==> !is_target_feature(
                #[trigger] without_targets(e, targets)[i],
                targets,
            ),
    decreases e.len(),
{
    if e.len() > 0 {
        lemma_without_targets_clean(e.drop_first(), targets);
        let r = without_targets(e.drop_first(), targets);
        if !is_target_feature(e[0], targets) {
            assert forall|i: int|
                0 <= i < without_targets(e, targets).len() implies !is_target_feature(
                #[trigger] without_targets(e, targets)[i],
                targets,
            ) by {
                if i > 0 {
                    assert((seq![e[0]] + r)[i] == r[i - 1]);
                }
            }
        }
    }
}

pub proof fn lemma_without_targets_keeps(e: Seq<Option<Seq<char>>>, targets: Seq<Seq<char>>)
    requires
        forall|i: int| 0 <= i < e.len() ==> !is_target_feature(#[trigger] e[i], targets),
    ensures
        without_targets(e, targets) == e,
    decreases e.len(),
{
    if e.len() > 0 {
        assert forall|i: int| 0 <= i < e.drop_first().len() implies !is_target_feature(
            #[trigger] e.drop_first()[i],
            targets,
        ) by {
            assert(e.drop_first()[i] == e[i + 1]);
        }
        lemma_without_targets_keeps(e.drop_first(), targets);
        assert(!is_target_feature(e[0], targets));
        assert(seq![e[0]] + e.drop_first() =~= e);
    }
}

/// The pass at one dependency of a table: `p` is its `features` path.
pub open spec fn strip_one(
    items: Map<KeyPath, TomlNode>,
    keys: Map<KeyPath, Seq<char>>,
    p: KeyPath,
    targets: Seq<Seq<char>>,
    members: Seq<Seq<char>>,
) -> Map<KeyPath, TomlNode> {
    if strips_at(items, keys, p, targets, members) {
        if without_targets(array_at(items, p), targets).len() == 0 {
            items.remove(p)
        } else {
            items.insert(p, TomlNode::Array(without_targets(array_at(items, p), targets)))
        }
    } else {
        items
    }
}

/// Strips one dependency entry of a table read by the pass; gives the text
/// of the dependency's key where it changed the entry.
fn strip_dependency(
    doc: &mut DocumentMut,
    t: &DepTable,
    dep: &String,
    targets: &Vec<String>,
    members: &Vec<String>,
) -> (r: Option<String>)
    requires
        table_reached(toml_items(*old(doc)), table_path(*t)),
        toml_arrays_hold_values(*old(doc)),
    ensures
        toml_arrays_hold_values(*final(doc)),
        forall|q: KeyPath|
            q != dep_features_path(table_path(*t), dep@) ==> #[trigger] toml_values(*final(doc)).get(q)
                == toml_values(*old(doc)).get(q),
        r is Some == strips_at(
            toml_items(*old(doc)),
            toml_key_text(*old(doc)),
            dep_features_path(table_path(*t), dep@),
            texts(targets@),
            texts(members@),
        ),
        r matches Some(x) ==> toml_key_text(*old(doc)).get(table_path(*t).push(dep@)) == Some(x@),
        toml_items(*final(doc)) == strip_one(
            toml_items(*old(doc)),
            toml_key_text(*old(doc)),
            dep_features_path(table_path(*t), dep@),
            texts(targets@),
            texts(members@),
        ),
        forall|q: KeyPath|
            q != dep_features_path(table_path(*t), dep@) ==> #[trigger] toml_key_text(
                *final(doc),
            ).get(q) == toml_key_text(*old(doc)).get(q),
        forall|q: KeyPath|
            q != table_path(*t).push(dep@) ==> #[trigger] toml_key_order(*final(doc)).get(q)
                == toml_key_order(*old(doc)).get(q),
        r is None ==> *final(doc) == *old(doc),
{
    let ghost items = toml_items(*doc);
    let ghost keys = toml_key_text(*doc);
    let ghost p = dep_features_path(table_path(*t), dep@);
    let ghost tt = texts(targets@);
    proof {
        assert(p.drop_last() =~= table_path(*t).push(dep@));
        assert(p.drop_last().push("workspace"@) =~= dep_workspace_path(table_path(*t), dep@));
    }
    let text = match dep_key_text(doc, t, dep.as_str()) {
        Some(x) => x,
        None => {
            return None;
        },
    };
    match dep_node(doc, t, dep.as_str()) {
        Some(NodeKind::InlineTable) => {},
        _ => {
            return None;
        },
    }
    assert(keys.get(p.drop_last()) == Some(text@));
    if dep_key_node(doc, t, dep.as_str(), "workspace").is_none() {
        return None;
    }
    if !contains_text(members, &text) {
        return None;
    }
    let elems = match dep_key_node(doc, t, dep.as_str(), "features") {
        Some(NodeKind::Array(v)) => v,
        _ => {
            return None;
        },
    };
    let ghost e = array_at(items, p);
    assert(e == elems@.map_values(|o: Option<String>| crate::toml_model::text_view(o)));
    let n = elems.len();
    let mut j = n;
    let mut removed: usize = 0;
    proof {
        assert(e.skip(n as int) =~= Seq::<Option<Seq<char>>>::empty());
        assert(e.take(n as int) =~= e);
        assert(e.take(n as int) + without_targets(e.skip(n as int), tt) =~= e);
        assert(items.insert(p, TomlNode::Array(e)) =~= items);
    }
    while j > 0
        invariant
            0 <= j <= n == e.len() == elems@.len(),
            e == elems@.map_values(|o: Option<String>| crate::toml_model::text_view(o)),
            e == array_at(items, p),
            tt == texts(targets@),
            p == dep_features_path(table_path(*t), dep@),
            items == toml_items(*old(doc)),
            keys == toml_key_text(*old(doc)),
            toml_key_text(*doc) == keys,
            toml_key_order(*doc) == toml_key_order(*old(doc)),
            toml_arrays_hold_values(*doc),
            forall|q: KeyPath|
                q != p ==> #[trigger] toml_values(*doc).get(q) == toml_values(*old(doc)).get(q),
            toml_items(*doc) == items.insert(
                p,
                TomlNode::Array(e.take(j as int) + without_targets(e.skip(j as int), tt)),
            ),
            without_targets(e.skip(j as int), tt).len() + removed == n - j,
            removed == 0 ==> *doc == *old(doc),
        decreases j,
    {
        let k = j - 1;
        proof {
            assert(e.skip(k as int).drop_first() =~= e.skip(j as int));
            assert(e.skip(k as int)[0] == e[k as int]);
            lemma_without_targets_len(e.skip(j as int), tt);
        }
        let hit = match &elems[k] {
            Some(s) => contains_text(targets, s),
            None => false,
        };
        assert(hit == is_target_feature(e[k as int], tt));
        if hit {
            let ghost cur = e.take(j as int) + without_targets(e.skip(j as int), tt);
            proof {
                assert(table_path(*t).push(dep@).push("features"@) == p);
                assert(toml_items(*doc).contains_key(p));
                assert(toml_items(*doc)[p] == TomlNode::Array(cur));
                assert(array_at(toml_items(*doc), p) == cur);
            }
            remove_dep_feature(doc, t, dep.as_str(), k);
            proof {
                assert(cur.remove(k as int) =~= e.take(k as int) + without_targets(
                    e.skip(k as int),
                    tt,
                ));
                assert(items.insert(p, TomlNode::Array(cur)).insert(
                    p,
                    TomlNode::Array(cur.remove(k as int)),
                ) =~= items.insert(p, TomlNode::Array(cur.remove(k as int))));
            }
            removed = removed + 1;
        } else {
            proof {
                assert(e.take(j as int) + without_targets(e.skip(j as int), tt) =~= e.take(k as int)
                    + without_targets(e.skip(k as int), tt));
            }
        }
        j = k;
    }
    proof {
        assert(e.skip(0) =~= e);
        assert(e.take(0) + without_targets(e, tt) =~= without_targets(e, tt));
    }
    if removed == 0 {
        proof {
            lemma_without_targets_len(e, tt);
            lemma_without_targets_keeps(e, tt);
        }
        return None;
    }
    if removed == n {
        let ghost cur = toml_items(*doc);
        let ghost vcur = toml_values(*doc);
        remove_dep_features_key(doc, t, dep.as_str());
        proof {
            assert(cur.remove(p) =~= items.remove(p));
            assert forall|q: KeyPath| q != p implies #[trigger] toml_values(*doc).get(q) == toml_values(
                *old(doc),
            ).get(q) by {
                assert(vcur.get(q) == toml_values(*old(doc)).get(q));
            }
        }
    }
    Some(text)
}

/// The site predicate with one more site.
pub open spec fn with_site(sites: spec_fn(KeyPath) -> bool, q: KeyPath) -> spec_fn(KeyPath) -> bool {
    |p: KeyPath| sites(p) || p == q
}

pub proof fn lemma_strip_where_ext(
    items: Map<KeyPath, TomlNode>,
    keys: Map<KeyPath, Seq<char>>,
    s1: spec_fn(KeyPath) -> bool,
    s2: spec_fn(KeyPath) -> bool,
    targets: Seq<Seq<char>>,
    members: Seq<Seq<char>>,
)
    requires
        forall|p: KeyPath| #[trigger] s1(p) == s2(p),
    ensures
        strip_where(items, keys, s1, targets, members) == strip_where(
            items,
            keys,
            s2,
            targets,
            members,
        ),
{
    assert(strip_where(items, keys, s1, targets, members) =~= strip_where(
        items,
        keys,
        s2,
        targets,
        members,
    ));
}

/// Only the key text of a site's dependency entry matters to the pass.
pub proof fn lemma_strip_where_keys(
    items: Map<KeyPath, TomlNode>,
    k1: Map<KeyPath, Seq<char>>,
    k2: Map<KeyPath, Seq<char>>,
    sites: spec_fn(KeyPath) -> bool,
    targets: Seq<Seq<char>>,
    members: Seq<Seq<char>>,
)
    requires
        forall|p: KeyPath| #[trigger] sites(p) ==> k1.get(p.drop_last()) == k2.get(p.drop_last()),
    ensures
        strip_where(items, k1, sites, targets, members) == strip_where(
            items,
            k2,
            sites,
            targets,
            members,
        ),
{
    assert forall|p: KeyPath| #[trigger] sites(p) implies strips_at(items, k1, p, targets, members)
        == strips_at(items, k2, p, targets, members) by {
        assert(k1.get(p.drop_last()) == k2.get(p.drop_last()));
    }
    assert(strip_where(items, k1, sites, targets, members) =~= strip_where(
        items,
        k2,
        sites,
        targets,
        members,
    ));
}

pub proof fn lemma_strip_nowhere(
    items: Map<KeyPath, TomlNode>,
    keys: Map<KeyPath, Seq<char>>,
    sites: spec_fn(KeyPath) -> bool,
    targets: Seq<Seq<char>>,
    members: Seq<Seq<char>>,
)
    requires
        forall|p: KeyPath| !#[trigger] sites(p),
    ensures
        strip_where(items, keys, sites, targets, members) == items,
{
    assert(strip_where(items, keys, sites, targets, members) =~= items);
}

/// Where the pass has not been, the document is as it was.
pub proof fn lemma_strip_where_outside(
    items: Map<KeyPath, TomlNode>,
    keys: Map<KeyPath, Seq<char>>,
    sites: spec_fn(KeyPath) -> bool,
    targets: Seq<Seq<char>>,
    members: Seq<Seq<char>>,
    k: KeyPath,
)
    requires
        !sites(k),
    ensures
        strip_where(items, keys, sites, targets, members).contains_key(k) == items.contains_key(k),
        strip_where(items, keys, sites, targets, members).get(k) == items.get(k),
{
}

/// What the pass reads at a site it has not been to is what was there,
/// also where the key texts read are those of the document after it.
pub proof fn lemma_strips_at_frame(
    items: Map<KeyPath, TomlNode>,
    keys: Map<KeyPath, Seq<char>>,
    now_keys: Map<KeyPath, Seq<char>>,
    sites: spec_fn(KeyPath) -> bool,
    q: KeyPath,
    targets: Seq<Seq<char>>,
    members: Seq<Seq<char>>,
)
    requires
        well_placed(sites),
        !sites(q),
        q.len() == 3 || q.len() == 5,
        q.last() == "features"@,
        forall|r: KeyPath| !#[trigger] sites(r) ==> now_keys.get(r) == keys.get(r),
    ensures
        strips_at(strip_where(items, keys, sites, targets, members), now_keys, q, targets, members)
            == strips_at(items, keys, q, targets, members),
        array_at(strip_where(items, keys, sites, targets, members), q) == array_at(items, q),
        strip_where(items, keys, sites, targets, members).get(q) == items.get(q),
{
    let cur = strip_where(items, keys, sites, targets, members);
    reveal_strlit("features");
    reveal_strlit("workspace");
    let d = q.drop_last();
    let w = q.drop_last().push("workspace"@);
    assert(!sites(d)) by {
        if sites(d) {
            assert(d.len() == 2 || d.len() == 4);
        }
    }
    assert(w.last() == "workspace"@);
    assert("workspace"@.len() != "features"@.len());
    assert(!sites(w)) by {
        if sites(w) {
            assert(w.last() == "features"@);
        }
    }
    assert(now_keys.get(d) == keys.get(d));
    lemma_strip_where_outside(items, keys, sites, targets, members, q);
    lemma_strip_where_outside(items, keys, sites, targets, members, d);
    lemma_strip_where_outside(items, keys, sites, targets, members, w);
}

/// Looking at one more site after the others gives what looking at all of
/// them gives.
pub proof fn lemma_strip_step(
    items: Map<KeyPath, TomlNode>,
    keys: Map<KeyPath, Seq<char>>,
    sites: spec_fn(KeyPath) -> bool,
    q: KeyPath,
    targets: Seq<Seq<char>>,
    members: Seq<Seq<char>>,
)
    requires
        well_placed(sites),
        !sites(q),
        q.len() == 3 || q.len() == 5,
        q.last() == "features"@,
    ensures
        strips_at(strip_where(items, keys, sites, targets, members), keys, q, targets, members)
            == strips_at(items, keys, q, targets, members),
        strip_one(strip_where(items, keys, sites, targets, members), keys, q, targets, members)
            == strip_where(items, keys, with_site(sites, q), targets, members),
{
    lemma_strips_at_frame(items, keys, keys, sites, q, targets, members);
    let cur = strip_where(items, keys, sites, targets, members);
    let lhs = strip_one(cur, keys, q, targets, members);
    let rhs = strip_where(items, keys, with_site(sites, q), targets, members);
    assert(lhs =~= rhs);
}

/// Sites of either predicate.
pub open spec fn either(a: spec_fn(KeyPath) -> bool, b: spec_fn(KeyPath) -> bool) -> spec_fn(
    KeyPath,
) -> bool {
    |p: KeyPath| a(p) || b(p)
}

/// Looking at two disjoint sets of sites one after the other gives what
/// looking at both at once gives.
pub proof fn lemma_strip_compose(
    items: Map<KeyPath, TomlNode>,
    keys: Map<KeyPath, Seq<char>>,
    a: spec_fn(KeyPath) -> bool,
    b: spec_fn(KeyPath) -> bool,
    targets: Seq<Seq<char>>,
    members: Seq<Seq<char>>,
)
    requires
        well_placed(a),
        well_placed(b),
        forall|p: KeyPath| #[trigger] a(p) ==> !b(p),
    ensures
        strip_where(strip_where(items, keys, a, targets, members), keys, b, targets, members)
            == strip_where(items, keys, either(a, b), targets, members),
{
    let cur = strip_where(items, keys, a, targets, members);
    assert forall|p: KeyPath| #[trigger] b(p) implies strips_at(cur, keys, p, targets, members)
        == strips_at(items, keys, p, targets, members) && array_at(cur, p) == array_at(items, p) by {
        assert(!a(p));
        lemma_strips_at_frame(items, keys, keys, a, p, targets, members);
    }
    assert(strip_where(cur, keys, b, targets, members) =~= strip_where(
        items,
        keys,
        either(a, b),
        targets,
        members,
    ));
}

pub proof fn lemma_table_sites_placed(items: Map<KeyPath, TomlNode>, tp: KeyPath)
    requires
        tp.len() == 1 || tp.len() == 3,
    ensures
        well_placed(table_sites(items, tp)),
{
}

/// The texts of the keys of the dependencies, among `order` in that order,
/// whose hardcoded features the pass takes out of the table at `tp`.
pub open spec fn stripped_list(
    order: Seq<Seq<char>>,
    items: Map<KeyPath, TomlNode>,
    keys: Map<KeyPath, Seq<char>>,
    tp: KeyPath,
    targets: Seq<Seq<char>>,
    members: Seq<Seq<char>>,
) -> Seq<Seq<char>>
    decreases order.len(),
{
    if order.len() == 0 {
        Seq::empty()
    } else {
        let r = stripped_list(order.drop_last(), items, keys, tp, targets, members);
        if strips_at(items, keys, dep_features_path(tp, order.last()), targets, members) {
            r.push(keys[tp.push(order.last())])
        } else {
            r
        }
    }
}

/// What the pass reports of a dependency table: the key texts of the
/// dependencies it changed, in the table's order.
pub open spec fn table_report(
    items: Map<KeyPath, TomlNode>,
    keys: Map<KeyPath, Seq<char>>,
    order: Map<KeyPath, Seq<Seq<char>>>,
    tp: KeyPath,
    targets: Seq<Seq<char>>,
    members: Seq<Seq<char>>,
) -> Seq<Seq<char>> {
    if table_reached(items, tp) && order.contains_key(tp) {
        stripped_list(order[tp], items, keys, tp, targets, members)
    } else {
        Seq::empty()
    }
}

/// Two documents that agree on what the pass reads of a table give the same
/// report for it.
pub proof fn lemma_stripped_list_agree(
    order: Seq<Seq<char>>,
    i1: Map<KeyPath, TomlNode>,
    k1: Map<KeyPath, Seq<char>>,
    i2: Map<KeyPath, TomlNode>,
    k2: Map<KeyPath, Seq<char>>,
    tp: KeyPath,
    targets: Seq<Seq<char>>,
    members: Seq<Seq<char>>,
)
    requires
        forall|k: Seq<char>|
            #![trigger dep_features_path(tp, k)]
            strips_at(i1, k1, dep_features_path(tp, k), targets, members) == strips_at(
                i2,
                k2,
                dep_features_path(tp, k),
                targets,
                members,
            ) && k1.get(tp.push(k)) == k2.get(tp.push(k)),
    ensures
        stripped_list(order, i1, k1, tp, targets, members) == stripped_list(
            order,
            i2,
            k2,
            tp,
            targets,
            members,
        ),
    decreases order.len(),
{
    if order.len() > 0 {
        lemma_stripped_list_agree(order.drop_last(), i1, k1, i2, k2, tp, targets, members);
        let k = order.last();
        let _ = dep_features_path(tp, k);
        if strips_at(i1, k1, dep_features_path(tp, k), targets, members) {
            assert(dep_features_path(tp, k).drop_last() =~= tp.push(k));
        }
    }
}

/// The sites of a table whose dependency is among the first `j` keys.
pub open spec fn visited_sites(
    items: Map<KeyPath, TomlNode>,
    tp: KeyPath,
    keys: Seq<Seq<char>>,
    j: int,
) -> spec_fn(KeyPath) -> bool {
    |p: KeyPath| table_sites(items, tp)(p) && keys.take(j).contains(p[tp.len() as int])
}

/// Strips every dependency of a table; gives the key texts of the
/// dependencies changed, in the table's order.
pub(crate) fn strip_table(
    doc: &mut DocumentMut,
    t: &DepTable,
    targets: &Vec<String>,
    members: &Vec<String>,
) -> (r: Vec<String>)
    requires
        table_path(*t).len() == 1 || table_path(*t).len() == 3,
        toml_arrays_hold_values(*old(doc)),
    ensures
        toml_arrays_hold_values(*final(doc)),
        forall|q: KeyPath|
            !(table_sites(toml_items(*old(doc)), table_path(*t))(q) && strips_at(
                toml_items(*old(doc)),
                toml_key_text(*old(doc)),
                q,
                texts(targets@),
                texts(members@),
            )) ==> #[trigger] toml_values(*final(doc)).get(q) == toml_values(*old(doc)).get(q),
        table_reached(toml_items(*old(doc)), table_path(*t)) ==> (toml_key_order(*old(doc)).get(
            table_path(*t),
        ) matches Some(ks) && lists_table_keys(ks, toml_items(*old(doc)), table_path(*t))),
        toml_items(*final(doc)) == strip_where(
            toml_items(*old(doc)),
            toml_key_text(*old(doc)),
            table_sites(toml_items(*old(doc)), table_path(*t)),
            texts(targets@),
            texts(members@),
        ),
        texts(r@) == table_report(
            toml_items(*old(doc)),
            toml_key_text(*old(doc)),
            toml_key_order(*old(doc)),
            table_path(*t),
            texts(targets@),
            texts(members@),
        ),
        forall|q: KeyPath|
            !table_sites(toml_items(*old(doc)), table_path(*t))(q) ==> #[trigger] toml_key_text(
                *final(doc),
            ).get(q) == toml_key_text(*old(doc)).get(q),
        forall|q: KeyPath|
            q.len() != 2 && q.len() != 4 ==> #[trigger] toml_key_order(*final(doc)).get(q)
                == toml_key_order(*old(doc)).get(q),
        r.len() == 0 ==> *final(doc) == *old(doc),
{
    let ghost orig = toml_items(*doc);
    let ghost okeys = toml_key_text(*doc);
    let ghost oorder = toml_key_order(*doc);
    let ghost tp = table_path(*t);
    let ghost tt = texts(targets@);
    let ghost mm = texts(members@);
    let mut changed: Vec<String> = Vec::new();
    let keys = match dep_table_keys(doc, t) {
        Some(k) => k,
        None => {
            proof {
                lemma_strip_nowhere(orig, okeys, table_sites(orig, tp), tt, mm);
                assert(texts(changed@) =~= Seq::<Seq<char>>::empty());
            }
            return changed;
        },
    };
    let ghost ks = texts(keys@);
    let mut j: usize = 0;
    proof {
        assert(ks =~= keys@.map_values(|k: String| k@));
        assert forall|p: KeyPath| !#[trigger] visited_sites(orig, tp, ks, 0)(p) by {
            assert(ks.take(0) =~= Seq::<Seq<char>>::empty());
        }
        lemma_strip_nowhere(orig, okeys, visited_sites(orig, tp, ks, 0), tt, mm);
        assert(texts(changed@) =~= Seq::<Seq<char>>::empty());
        assert(ks.take(0) =~= Seq::<Seq<char>>::empty());
    }
    while j < keys.len()
        invariant
            0 <= j <= keys.len(),
            orig == toml_items(*old(doc)),
            okeys == toml_key_text(*old(doc)),
            oorder == toml_key_order(*old(doc)),
            tp == table_path(*t),
            tp.len() == 1 || tp.len() == 3,
            tt == texts(targets@),
            mm == texts(members@),
            ks == texts(keys@),
            oorder.get(tp) == Some(ks),
            table_reached(orig, tp),
            crate::toml_model::lists_keys_of(keys@, orig, tp),
            toml_items(*doc) == strip_where(orig, okeys, visited_sites(orig, tp, ks, j as int), tt, mm),
            texts(changed@) == stripped_list(ks.take(j as int), orig, okeys, tp, tt, mm),
            forall|q: KeyPath|
                !visited_sites(orig, tp, ks, j as int)(q) ==> #[trigger] toml_key_text(*doc).get(q)
                    == okeys.get(q),
            forall|q: KeyPath|
                q.len() != 2 && q.len() != 4 ==> #[trigger] toml_key_order(*doc).get(q)
                    == oorder.get(q),
            changed.len() == 0 ==> *doc == *old(doc),
            toml_arrays_hold_values(*doc),
            forall|q: KeyPath|
                !(visited_sites(orig, tp, ks, j as int)(q) && strips_at(orig, okeys, q, tt, mm))
                    ==> #[trigger] toml_values(*doc).get(q) == toml_values(*old(doc)).get(q),
            lists_table_keys(ks, orig, tp),
        decreases keys.len() - j,
    {
        let dep = &keys[j];
        let ghost q = dep_features_path(tp, dep@);
        let ghost before = visited_sites(orig, tp, ks, j as int);
        let ghost cur = toml_items(*doc);
        let ghost ckeys = toml_key_text(*doc);
        proof {
            reveal_strlit("features");
            assert(ks[j as int] == dep@);
            lemma_take_excludes_next(ks, j as int);
            assert(well_placed(before)) by {
                assert forall|p: KeyPath| #[trigger] before(p) implies (p.len() == 3 || p.len()
                    == 5) && p.last() == "features"@ by {}
            }
            assert(q.take(tp.len() as int) =~= tp);
            assert(q[tp.len() as int] == dep@);
            assert(!before(q));
            lemma_strips_at_frame(orig, okeys, ckeys, before, q, tt, mm);
            lemma_strip_step(orig, okeys, before, q, tt, mm);
            // the table itself is not a site
            assert(!before(tp)) by {
                if before(tp) {
                    assert(tp.len() == tp.len() + 2);
                }
            }
            assert(!before(tp.take(1))) by {
                if before(tp.take(1)) {
                    assert(tp.take(1).len() == 1);
                }
            }
            lemma_strip_where_outside(orig, okeys, before, tt, mm, tp);
            lemma_strip_where_outside(orig, okeys, before, tt, mm, tp.take(1));
            assert(q.drop_last() =~= tp.push(dep@));
            assert(!before(tp.push(dep@))) by {
                if before(tp.push(dep@)) {
                    assert(tp.push(dep@).len() == tp.len() + 1);
                }
            }
            assert(ckeys.get(tp.push(dep@)) == okeys.get(tp.push(dep@)));
            // strip_dependency reads key texts of the present document
            lemma_strip_where_keys(cur, ckeys, okeys, |p: KeyPath| p == q, tt, mm);
            assert(strip_one(cur, ckeys, q, tt, mm) == strip_one(cur, okeys, q, tt, mm)) by {
                assert(ckeys.get(q.drop_last()) == okeys.get(q.drop_last()));
            }
        }
        let ghost vcur = toml_values(*doc);
        let ghost dcur = *doc;
        let hit = strip_dependency(doc, t, dep, targets, members);
        proof {
            let after = visited_sites(orig, tp, ks, j + 1);
            assert(ks.take(j + 1) =~= ks.take(j as int).push(dep@));
            assert(ks.take(j + 1)[j as int] == dep@);
            assert(table_sites(orig, tp)(q));
            assert(after(q));
            assert forall|p: KeyPath| #[trigger] with_site(before, q)(p) == after(p) by {
                if table_sites(orig, tp)(p) {
                    let x = p[tp.len() as int];
                    if x == dep@ {
                        assert(p =~= q);
                    } else {
                        lemma_take_next(ks, j as int);
                    }
                }
            }
            lemma_strip_where_ext(orig, okeys, with_site(before, q), after, tt, mm);
            assert(ks.take(j + 1).drop_last() =~= ks.take(j as int));
            assert forall|r: KeyPath| !#[trigger] after(r) implies toml_key_text(*doc).get(r)
                == okeys.get(r) by {
                assert(r != q);
                assert(!before(r));
            }
            assert forall|r: KeyPath| !(#[trigger] after(r) && strips_at(orig, okeys, r, tt, mm))
                implies toml_values(*doc).get(r) == toml_values(*old(doc)).get(r) by {
                if r == q {
                    assert(vcur.get(r) == toml_values(*old(doc)).get(r));
                    if !strips_at(orig, okeys, r, tt, mm) {
                        assert(*doc == dcur);
                    }
                } else {
                    assert(!(before(r) && strips_at(orig, okeys, r, tt, mm)));
                }
            }
        }
        match hit {
            Some(text) => {
                changed.push(text);
            },
            None => {},
        }
        j = j + 1;
    }
    proof {
        assert(ks.take(j as int) =~= ks);
        let all = table_sites(orig, tp);
        let seen = visited_sites(orig, tp, ks, j as int);
        assert forall|p: KeyPath| #![trigger all(p)] all(p) && !seen(p) implies !strips_at(
            orig,
            okeys,
            p,
            tt,
            mm,
        ) by {
            assert(p.drop_last() =~= tp.push(p[tp.len() as int]));
        }
        assert(strip_where(orig, okeys, seen, tt, mm) =~= strip_where(orig, okeys, all, tt, mm));
        assert(oorder.contains_key(tp));
    }
    changed
}

/// A report stays the same where what it reads of a table is unchanged:
/// the table, its order, and its dependency entries, none of which the pass
/// at `sites` touched.
pub proof fn lemma_table_report_frame(
    items: Map<KeyPath, TomlNode>,
    keys: Map<KeyPath, Seq<char>>,
    order: Map<KeyPath, Seq<Seq<char>>>,
    now_keys: Map<KeyPath, Seq<char>>,
    now_order: Map<KeyPath, Seq<Seq<char>>>,
    sites: spec_fn(KeyPath) -> bool,
    tp: KeyPath,
    targets: Seq<Seq<char>>,
    members: Seq<Seq<char>>,
)
    requires
        well_placed(sites),
        tp.len() == 1 || tp.len() == 3,
        tp.last() != "features"@,
        now_order.get(tp) == order.get(tp),
        forall|r: KeyPath| !#[trigger] sites(r) ==> now_keys.get(r) == keys.get(r),
        forall|k: Seq<char>| !#[trigger] sites(dep_features_path(tp, k)),
    ensures
        table_report(strip_where(items, keys, sites, targets, members), now_keys, now_order, tp, targets, members)
            == table_report(items, keys, order, tp, targets, members),
{
    reveal_strlit("features");
    let cur = strip_where(items, keys, sites, targets, members);
    assert(!sites(tp)) by {
        if sites(tp) {
            assert(tp.last() == "features"@);
        }
    }
    assert(!sites(tp.take(1))) by {
        if sites(tp.take(1)) {
            assert(tp.take(1).len() == 1);
        }
    }
    lemma_strip_where_outside(items, keys, sites, targets, members, tp);
    lemma_strip_where_outside(items, keys, sites, targets, members, tp.take(1));
    assert forall|k: Seq<char>|
        #![trigger dep_features_path(tp, k)]
        strips_at(cur, now_keys, dep_features_path(tp, k), targets, members) == strips_at(
            items,
            keys,
            dep_features_path(tp, k),
            targets,
            members,
        ) && now_keys.get(tp.push(k)) == keys.get(tp.push(k)) by {
        let q = dep_features_path(tp, k);
        assert(!sites(q));
        lemma_strips_at_frame(items, keys, now_keys, sites, q, targets, members);
        assert(!sites(tp.push(k))) by {
            if sites(tp.push(k)) {
                assert(tp.push(k).len() == 2 || tp.push(k).len() == 4);
            }
        }
    }
    if table_reached(items, tp) && order.contains_key(tp) {
        lemma_stripped_list_agree(order[tp], cur, now_keys, items, keys, tp, targets, members);
    }
}

/// The `features` paths of the dependencies of the target tables
/// `[target.<name>.dependencies]`, where such a table is read.
pub open spec fn target_sites(items: Map<KeyPath, TomlNode>) -> spec_fn(KeyPath) -> bool {
    |p: KeyPath|
        p.len() == 5 && p[0] == "target"@ && p[2] == "dependencies"@ && table_sites(
            items,
            p.take(3),
        )(p)
}

/// The target sites whose target is among the first `j` names.
pub open spec fn visited_targets(
    items: Map<KeyPath, TomlNode>,
    names: Seq<Seq<char>>,
    j: int,
) -> spec_fn(KeyPath) -> bool {
    |p: KeyPath| target_sites(items)(p) && names.take(j).contains(p[1])
}

/// The key path of the dependency table of a target.
pub open spec fn target_table(name: Seq<char>) -> KeyPath {
    seq!["target"@, name, "dependencies"@]
}

/// For targets among `names`, in that order: the key text of the target
/// paired with that of each dependency changed in its table, in the table's
/// order.
pub open spec fn target_pairs(
    names: Seq<Seq<char>>,
    items: Map<KeyPath, TomlNode>,
    keys: Map<KeyPath, Seq<char>>,
    order: Map<KeyPath, Seq<Seq<char>>>,
    targets: Seq<Seq<char>>,
    members: Seq<Seq<char>>,
) -> Seq<(Seq<char>, Seq<char>)>
    decreases names.len(),
{
    if names.len() == 0 {
        Seq::empty()
    } else {
        let n = names.last();
        let text = match keys.get(seq!["target"@, n]) {
            Some(t) => t,
            None => n,
        };
        target_pairs(names.drop_last(), items, keys, order, targets, members) + paired_with(
            text,
            table_report(items, keys, order, target_table(n), targets, members),
        )
    }
}

/// What the pass reports of the target tables, in the order of `[target]`.
pub open spec fn targets_report(
    items: Map<KeyPath, TomlNode>,
    keys: Map<KeyPath, Seq<char>>,
    order: Map<KeyPath, Seq<Seq<char>>>,
    targets: Seq<Seq<char>>,
    members: Seq<Seq<char>>,
) -> Seq<(Seq<char>, Seq<char>)> {
    if items.get(seq!["target"@]) == Some(TomlNode::Table) && order.contains_key(seq!["target"@]) {
        target_pairs(order[seq!["target"@]], items, keys, order, targets, members)
    } else {
        Seq::empty()
    }
}

/// Two documents that agree on the key text of each target and on what the
/// pass reports of each target table.
pub open spec fn target_tables_agree(
    i1: Map<KeyPath, TomlNode>,
    k1: Map<KeyPath, Seq<char>>,
    o1: Map<KeyPath, Seq<Seq<char>>>,
    i2: Map<KeyPath, TomlNode>,
    k2: Map<KeyPath, Seq<char>>,
    o2: Map<KeyPath, Seq<Seq<char>>>,
    targets: Seq<Seq<char>>,
    members: Seq<Seq<char>>,
) -> bool {
    forall|n: Seq<char>|
        #![trigger target_table(n)]
        k1.get(seq!["target"@, n]) == k2.get(seq!["target"@, n]) && table_report(
            i1,
            k1,
            o1,
            target_table(n),
            targets,
            members,
        ) == table_report(i2, k2, o2, target_table(n), targets, members)
}

pub proof fn lemma_target_pairs_agree(
    names: Seq<Seq<char>>,
    i1: Map<KeyPath, TomlNode>,
    k1: Map<KeyPath, Seq<char>>,
    o1: Map<KeyPath, Seq<Seq<char>>>,
    i2: Map<KeyPath, TomlNode>,
    k2: Map<KeyPath, Seq<char>>,
    o2: Map<KeyPath, Seq<Seq<char>>>,
    targets: Seq<Seq<char>>,
    members: Seq<Seq<char>>,
)
    requires
        target_tables_agree(i1, k1, o1, i2, k2, o2, targets, members),
    ensures
        target_pairs(names, i1, k1, o1, targets, members) == target_pairs(
            names,
            i2,
            k2,
            o2,
            targets,
            members,
        ),
    decreases names.len(),
{
    if names.len() > 0 {
        lemma_target_pairs_agree(names.drop_last(), i1, k1, o1, i2, k2, o2, targets, members);
        let n = names.last();
        let _ = target_table(n);
        assert(k1.get(seq!["target"@, n]) == k2.get(seq!["target"@, n]));
    }
}

/// Strips the dependencies of every target table; gives the pairs of target
/// and dependency key texts changed, in the tables' order.
pub(crate) fn strip_targets(doc: &mut DocumentMut, targets: &Vec<String>, members: &Vec<String>) -> (r:
    Vec<(String, String)>)
    requires
        toml_arrays_hold_values(*old(doc)),
    ensures
        toml_items(*old(doc)).get(seq!["target"@]) == Some(TomlNode::Table) ==> (toml_key_order(
            *old(doc),
        ).get(seq!["target"@]) matches Some(ns) && lists_table_keys(
            ns,
            toml_items(*old(doc)),
            seq!["target"@],
        )),
        forall|n: Seq<char>|
            #[trigger] table_reached(toml_items(*old(doc)), target_table(n)) ==> (toml_key_order(
                *old(doc),
            ).get(target_table(n)) matches Some(ks) && lists_table_keys(
                ks,
                toml_items(*old(doc)),
                target_table(n),
            )),
        toml_arrays_hold_values(*final(doc)),
        forall|q: KeyPath|
            !(target_sites(toml_items(*old(doc)))(q) && strips_at(
                toml_items(*old(doc)),
                toml_key_text(*old(doc)),
                q,
                texts(targets@),
                texts(members@),
            )) ==> #[trigger] toml_values(*final(doc)).get(q) == toml_values(*old(doc)).get(q),
        toml_items(*final(doc)) == strip_where(
            toml_items(*old(doc)),
            toml_key_text(*old(doc)),
            target_sites(toml_items(*old(doc))),
            texts(targets@),
            texts(members@),
        ),
        pair_texts(r@) == targets_report(
            toml_items(*old(doc)),
            toml_key_text(*old(doc)),
            toml_key_order(*old(doc)),
            texts(targets@),
            texts(members@),
        ),
        forall|q: KeyPath|
            !target_sites(toml_items(*old(doc)))(q) ==> #[trigger] toml_key_text(*final(doc)).get(q)
                == toml_key_text(*old(doc)).get(q),
        forall|q: KeyPath|
            q.len() != 2 && q.len() != 4 ==> #[trigger] toml_key_order(*final(doc)).get(q)
                == toml_key_order(*old(doc)).get(q),
        r.len() == 0 ==> *final(doc) == *old(doc),
{
    let ghost orig = toml_items(*doc);
    let ghost okeys = toml_key_text(*doc);
    let ghost oorder = toml_key_order(*doc);
    let ghost tt = texts(targets@);
    let ghost mm = texts(members@);
    let mut out: Vec<(String, String)> = Vec::new();
    let names = match table_keys_1(doc, "target") {
        Some(n) => n,
        None => {
            proof {
                assert forall|p: KeyPath| !#[trigger] target_sites(orig)(p) by {
                    if target_sites(orig)(p) {
                        assert(p.take(3).take(1) =~= seq!["target"@]);
                    }
                }
                lemma_strip_nowhere(orig, okeys, target_sites(orig), tt, mm);
                assert(pair_texts(out@) =~= Seq::<(Seq<char>, Seq<char>)>::empty());
                assert forall|n: Seq<char>| !#[trigger] table_reached(orig, target_table(n)) by {
                    assert(target_table(n).take(1) =~= seq!["target"@]);
                }
            }
            return out;
        },
    };
    let ghost ns = texts(names@);
    let mut j: usize = 0;
    proof {
        assert(ns =~= names@.map_values(|k: String| k@));
        assert(ns.take(0) =~= Seq::<Seq<char>>::empty());
        lemma_strip_nowhere(orig, okeys, visited_targets(orig, ns, 0), tt, mm);
        assert(pair_texts(out@) =~= Seq::<(Seq<char>, Seq<char>)>::empty());
    }
    while j < names.len()
        invariant
            0 <= j <= names.len(),
            orig == toml_items(*old(doc)),
            okeys == toml_key_text(*old(doc)),
            oorder == toml_key_order(*old(doc)),
            tt == texts(targets@),
            mm == texts(members@),
            ns == texts(names@),
            orig.get(seq!["target"@]) == Some(TomlNode::Table),
            oorder.get(seq!["target"@]) == Some(ns),
            crate::toml_model::lists_keys_of(names@, orig, seq!["target"@]),
            toml_items(*doc) == strip_where(orig, okeys, visited_targets(orig, ns, j as int), tt, mm),
            pair_texts(out@) == target_pairs(ns.take(j as int), orig, okeys, oorder, tt, mm),
            forall|q: KeyPath|
                !visited_targets(orig, ns, j as int)(q) ==> #[trigger] toml_key_text(*doc).get(q)
                    == okeys.get(q),
            forall|q: KeyPath|
                q.len() != 2 && q.len() != 4 ==> #[trigger] toml_key_order(*doc).get(q)
                    == oorder.get(q),
            out.len() == 0 ==> *doc == *old(doc),
            forall|n: Seq<char>|
                #[trigger] table_reached(orig, target_table(n)) && ns.take(j as int).contains(n) ==> (
                oorder.get(target_table(n)) matches Some(ks) && lists_table_keys(
                    ks,
                    orig,
                    target_table(n),
                )),
            toml_arrays_hold_values(*doc),
            forall|q: KeyPath|
                !(visited_targets(orig, ns, j as int)(q) && strips_at(orig, okeys, q, tt, mm))
                    ==> #[trigger] toml_values(*doc).get(q) == toml_values(*old(doc)).get(q),
        decreases names.len() - j,
    {
        let name = names[j].clone();
        let t = DepTable::Target(name.clone());
        let ghost tp = table_path(t);
        let ghost cur = toml_items(*doc);
        let ghost ckeys = toml_key_text(*doc);
        let ghost corder = toml_key_order(*doc);
        let ghost before = visited_targets(orig, ns, j as int);
        let ghost step = table_sites(orig, tp);
        proof {
            reveal_strlit("features");
            reveal_strlit("dependencies");
            assert(tp == target_table(name@));
            assert(ns[j as int] == name@);
            lemma_take_excludes_next(ns, j as int);
            assert(well_placed(before)) by {
                assert forall|p: KeyPath| #[trigger] before(p) implies (p.len() == 3 || p.len()
                    == 5) && p.last() == "features"@ by {}
            }
            assert(!before(tp)) by {
                if before(tp) {
                    assert(tp.len() == 3);
                }
            }
            assert(!before(tp.take(1))) by {
                if before(tp.take(1)) {
                    assert(tp.take(1).len() == 1);
                }
            }
            lemma_strip_where_outside(orig, okeys, before, tt, mm, tp);
            lemma_strip_where_outside(orig, okeys, before, tt, mm, tp.take(1));
            assert(tp.take(1) =~= seq!["target"@]);
            let tn = seq!["target"@, name@];
            assert(!before(tn)) by {
                if before(tn) {
                    assert(tn.len() == 2);
                }
            }
            lemma_strip_where_outside(orig, okeys, before, tt, mm, tn);
            assert(tn =~= seq!["target"@].push(name@));
            assert(orig.contains_key(tn));
            assert(ckeys.get(tn) == okeys.get(tn));
            assert forall|p: KeyPath| #[trigger] table_sites(cur, tp)(p) == step(p) by {}
            assert forall|k: Seq<char>| !#[trigger] before(dep_features_path(tp, k)) by {
                let p = dep_features_path(tp, k);
                assert(p[1] == name@);
            }
            assert(tp[2] == "dependencies"@);
            assert(tp.last() != "features"@) by {
                assert("features"@.len() != "dependencies"@.len());
            }
            lemma_table_report_frame(orig, okeys, oorder, ckeys, corder, before, tp, tt, mm);
        }
        let name_text = match key_text_2(doc, "target", name.as_str()) {
            Some(x) => x,
            None => {
                proof {
                    assert(false);
                }
                String::new()
            },
        };
        let ghost vcur = toml_values(*doc);
        let changed = strip_table(doc, &t, targets, members);
        proof {
            assert(corder.get(tp) == oorder.get(tp));
            assert(table_reached(cur, tp) == table_reached(orig, tp));
            if table_reached(orig, tp) {
                let ks = oorder[tp];
                assert forall|k: Seq<char>| cur.contains_key(tp.push(k)) == orig.contains_key(
                    #[trigger] tp.push(k),
                ) by {
                    assert(!before(tp.push(k))) by {
                        if before(tp.push(k)) {
                            assert(tp.push(k).len() == 4);
                        }
                    }
                    lemma_strip_where_outside(orig, okeys, before, tt, mm, tp.push(k));
                }
                assert(lists_table_keys(ks, orig, tp));
            }
            assert forall|n: Seq<char>|
                #[trigger] table_reached(orig, target_table(n)) && ns.take(j + 1).contains(n) implies (
                oorder.get(target_table(n)) matches Some(ks) && lists_table_keys(
                    ks,
                    orig,
                    target_table(n),
                )) by {
                lemma_take_next(ns, j as int);
            }
            lemma_strip_where_ext(cur, ckeys, table_sites(cur, tp), step, tt, mm);
            lemma_table_sites_placed(orig, tp);
            assert forall|p: KeyPath| #[trigger] step(p) implies ckeys.get(p.drop_last()) == okeys.get(
                p.drop_last(),
            ) by {
                assert(!before(p.drop_last())) by {
                    if before(p.drop_last()) {
                        assert(p.drop_last().len() == 4);
                    }
                }
            }
            lemma_strip_where_keys(cur, ckeys, okeys, step, tt, mm);
            assert forall|p: KeyPath| #[trigger] before(p) implies !step(p) by {
                if step(p) {
                    assert(p[1] == tp[1]);
                }
            }
            lemma_strip_compose(orig, okeys, before, step, tt, mm);
            let after = visited_targets(orig, ns, j + 1);
            assert(ns.take(j + 1) =~= ns.take(j as int).push(name@));
            assert forall|p: KeyPath| #[trigger] either(before, step)(p) == after(p) by {
                if step(p) {
                    assert(p.take(3) =~= tp);
                    assert(ns.take(j + 1)[j as int] == name@);
                }
                if target_sites(orig)(p) && p[1] == name@ {
                    assert(p.take(3) =~= tp);
                }
                if target_sites(orig)(p) && p[1] != name@ {
                    let x = p[1];
                    lemma_take_next(ns, j as int);
                }
            }
            lemma_strip_where_ext(orig, okeys, either(before, step), after, tt, mm);
            assert forall|r: KeyPath| !#[trigger] after(r) implies toml_key_text(*doc).get(r)
                == okeys.get(r) by {
                assert(!either(before, step)(r));
                assert(!before(r));
                assert(!step(r));
            }
            assert forall|r: KeyPath| !(#[trigger] after(r) && strips_at(orig, okeys, r, tt, mm))
                implies toml_values(*doc).get(r) == toml_values(*old(doc)).get(r) by {
                if step(r) {
                    assert(!before(r));
                    lemma_strips_at_frame(orig, okeys, ckeys, before, r, tt, mm);
                    assert(either(before, step)(r));
                    assert(!strips_at(cur, ckeys, r, tt, mm));
                    assert(vcur.get(r) == toml_values(*old(doc)).get(r));
                } else {
                    assert(vcur.get(r) == toml_values(*old(doc)).get(r)) by {
                        if before(r) {
                            assert(either(before, step)(r));
                        }
                    }
                }
            }
            assert(ns.take(j + 1).drop_last() =~= ns.take(j as int));
        }
        append_pairs(&mut out, &name_text, &changed);
        j = j + 1;
    }
    proof {
        assert(ns.take(j as int) =~= ns);
        let all = target_sites(orig);
        let seen = visited_targets(orig, ns, j as int);
        assert forall|p: KeyPath| #![trigger all(p)] all(p) && !seen(p) implies !strips_at(
            orig,
            okeys,
            p,
            tt,
            mm,
        ) by {
            if strips_at(orig, okeys, p, tt, mm) {
                assert(p.drop_last().take(1) =~= seq!["target"@]);
                assert(p.drop_last()[1] == p[1]);
            }
        }
        assert(strip_where(orig, okeys, seen, tt, mm) =~= strip_where(orig, okeys, all, tt, mm));
        assert forall|n: Seq<char>| #[trigger] table_reached(orig, target_table(n)) implies ns.contains(
            n,
        ) by {
            let p = target_table(n);
            assert(p.take(1) =~= seq!["target"@]);
            assert(orig.contains_key(p) && p.len() > 1 && p.take(1) == seq!["target"@]);
            assert(p[1] == n);
        }
    }
    out
}


/// Every `features` path that the first pass looks at: the dependencies of
/// `[dependencies]`, of `[dev-dependencies]` and of each
/// `[target.<name>.dependencies]`.
pub open spec fn pass_sites(items: Map<KeyPath, TomlNode>) -> spec_fn(KeyPath) -> bool {
    either(
        either(
            table_sites(items, seq!["dependencies"@]),
            table_sites(items, seq!["dev-dependencies"@]),
        ),
        target_sites(items),
    )
}

/// What the first pass changed in a manifest, each list in the order of its
/// table.
pub struct StripReport {
    /// The key texts of the dependencies in `[dependencies]` whose hardcoded
    /// features left.
    pub dependencies: Vec<String>,
    /// The same for `[dev-dependencies]`.
    pub dev_dependencies: Vec<String>,
    /// The key texts of target and dependency, for the dependencies of the
    /// target tables whose hardcoded features left.
    pub targets: Vec<(String, String)>,
}

/// The first pass over a whole manifest.
pub(crate) fn strip_all(doc: &mut DocumentMut, targets: &Vec<String>, members: &Vec<String>) -> (r:
    StripReport)
    requires
        toml_arrays_hold_values(*old(doc)),
    ensures
        table_reached(toml_items(*old(doc)), seq!["dependencies"@]) ==> (toml_key_order(*old(doc)).get(
            seq!["dependencies"@],
        ) matches Some(ks) && lists_table_keys(ks, toml_items(*old(doc)), seq!["dependencies"@])),
        table_reached(toml_items(*old(doc)), seq!["dev-dependencies"@]) ==> (toml_key_order(
            *old(doc),
        ).get(seq!["dev-dependencies"@]) matches Some(ks) && lists_table_keys(
            ks,
            toml_items(*old(doc)),
            seq!["dev-dependencies"@],
        )),
        toml_items(*old(doc)).get(seq!["target"@]) == Some(TomlNode::Table) ==> (toml_key_order(
            *old(doc),
        ).get(seq!["target"@]) matches Some(ns) && lists_table_keys(
            ns,
            toml_items(*old(doc)),
            seq!["target"@],
        )),
        forall|n: Seq<char>|
            #[trigger] table_reached(toml_items(*old(doc)), target_table(n)) ==> (toml_key_order(
                *old(doc),
            ).get(target_table(n)) matches Some(ks) && lists_table_keys(
                ks,
                toml_items(*old(doc)),
                target_table(n),
            )),
        toml_arrays_hold_values(*final(doc)),
        forall|q: KeyPath|
            !(pass_sites(toml_items(*old(doc)))(q) && strips_at(
                toml_items(*old(doc)),
                toml_key_text(*old(doc)),
                q,
                texts(targets@),
                texts(members@),
            )) ==> #[trigger] toml_values(*final(doc)).get(q) == toml_values(*old(doc)).get(q),
        toml_items(*final(doc)) == strip_where(
            toml_items(*old(doc)),
            toml_key_text(*old(doc)),
            pass_sites(toml_items(*old(doc))),
            texts(targets@),
            texts(members@),
        ),
        texts(r.dependencies@) == table_report(
            toml_items(*old(doc)),
            toml_key_text(*old(doc)),
            toml_key_order(*old(doc)),
            seq!["dependencies"@],
            texts(targets@),
            texts(members@),
        ),
        texts(r.dev_dependencies@) == table_report(
            toml_items(*old(doc)),
            toml_key_text(*old(doc)),
            toml_key_order(*old(doc)),
            seq!["dev-dependencies"@],
            texts(targets@),
            texts(members@),
        ),
        pair_texts(r.targets@) == targets_report(
            toml_items(*old(doc)),
            toml_key_text(*old(doc)),
            toml_key_order(*old(doc)),
            texts(targets@),
            texts(members@),
        ),
        forall|q: KeyPath|
            !pass_sites(toml_items(*old(doc)))(q) ==> #[trigger] toml_key_text(*final(doc)).get(q)
                == toml_key_text(*old(doc)).get(q),
        forall|q: KeyPath|
            q.len() != 2 && q.len() != 4 ==> #[trigger] toml_key_order(*final(doc)).get(q)
                == toml_key_order(*old(doc)).get(q),
        r.dependencies.len() == 0 && r.dev_dependencies.len() == 0 && r.targets.len() == 0
            ==> *final(doc) == *old(doc),
{
    let ghost d0 = toml_items(*doc);
    let ghost k0 = toml_key_text(*doc);
    let ghost o0 = toml_key_order(*doc);
    let ghost tt = texts(targets@);
    let ghost mm = texts(members@);
    let deps_table = DepTable::Section(String::from_str("dependencies"));
    let dev_table = DepTable::Section(String::from_str("dev-dependencies"));
    let ghost tdeps = seq!["dependencies"@];
    let ghost tdev = seq!["dev-dependencies"@];
    let ghost s1 = table_sites(d0, tdeps);
    let ghost s2 = table_sites(d0, tdev);
    let ghost st = target_sites(d0);
    let ghost e12 = either(s1, s2);
    proof {
        reveal_strlit("dependencies");
        reveal_strlit("dev-dependencies");
        reveal_strlit("target");
        reveal_strlit("features");
        assert(table_path(deps_table) =~= tdeps);
        assert(table_path(dev_table) =~= tdev);
    }
    let dependencies = strip_table(doc, &deps_table, targets, members);
    let ghost d1 = toml_items(*doc);
    let ghost k1 = toml_key_text(*doc);
    let ghost o1 = toml_key_order(*doc);
    let ghost v1 = toml_values(*doc);
    proof {
        lemma_table_sites_placed(d0, tdeps);
        lemma_table_sites_placed(d0, tdev);
        assert(!s1(tdev));
        lemma_strip_where_outside(d0, k0, s1, tt, mm, tdev);
        assert forall|p: KeyPath| #[trigger] table_sites(d1, tdev)(p) == s2(p) by {}
        assert forall|k: Seq<char>| !#[trigger] s1(dep_features_path(tdev, k)) by {
            let p = dep_features_path(tdev, k);
            if s1(p) {
                assert(p.take(1)[0] == p[0]);
                assert("dependencies"@.len() != "dev-dependencies"@.len());
            }
        }
        assert(tdev.last() != "features"@) by {
            assert("features"@.len() != "dev-dependencies"@.len());
        }
        lemma_table_report_frame(d0, k0, o0, k1, o1, s1, tdev, tt, mm);
        assert(o1.get(tdev) == o0.get(tdev));
        assert forall|k: Seq<char>| d1.contains_key(tdev.push(k)) == d0.contains_key(
            #[trigger] tdev.push(k),
        ) by {
            assert(!s1(tdev.push(k))) by {
                if s1(tdev.push(k)) {
                    assert(tdev.push(k).len() == 2);
                }
            }
            lemma_strip_where_outside(d0, k0, s1, tt, mm, tdev.push(k));
        }
    }
    let dev_dependencies = strip_table(doc, &dev_table, targets, members);
    let ghost d2 = toml_items(*doc);
    let ghost k2 = toml_key_text(*doc);
    let ghost o2 = toml_key_order(*doc);
    let ghost v2 = toml_values(*doc);
    proof {
        lemma_strip_where_ext(d1, k1, table_sites(d1, tdev), s2, tt, mm);
        assert forall|p: KeyPath| #[trigger] s2(p) implies k1.get(p.drop_last()) == k0.get(
            p.drop_last(),
        ) by {
            assert(!s1(p.drop_last())) by {
                if s1(p.drop_last()) {
                    assert(p.drop_last().len() == 3);
                }
            }
        }
        lemma_strip_where_keys(d1, k1, k0, s2, tt, mm);
        assert forall|p: KeyPath| #[trigger] s1(p) implies !s2(p) by {
            assert(p.take(1)[0] == p[0]);
            assert(p[0] == "dependencies"@);
            assert("dependencies"@.len() != "dev-dependencies"@.len());
        }
        lemma_strip_compose(d0, k0, s1, s2, tt, mm);
        assert(well_placed(e12));
        assert forall|r: KeyPath| !#[trigger] e12(r) implies k2.get(r) == k0.get(r) by {
            assert(!table_sites(d1, tdev)(r));
        }
        assert forall|r: KeyPath| !(#[trigger] e12(r) && strips_at(d0, k0, r, tt, mm)) implies v2.get(r)
            == toml_values(*old(doc)).get(r) by {
            if s2(r) {
                assert(!s1(r));
                lemma_strips_at_frame(d0, k0, k1, s1, r, tt, mm);
                assert(table_sites(d1, tdev)(r));
            }
        }
        // the target tables and `[target]` are not sites of the sections
        assert forall|p: KeyPath| #[trigger] target_sites(d2)(p) == st(p) by {
            let tp = p.take(3);
            if p.len() == 5 && p[0] == "target"@ {
                assert(tp[0] == "target"@);
                assert(!e12(tp)) by {
                    if e12(tp) {
                        assert(tp.take(1)[0] == tp[0]);
                        assert("target"@.len() != "dependencies"@.len());
                        assert("target"@.len() != "dev-dependencies"@.len());
                    }
                }
                assert(!e12(tp.take(1))) by {
                    assert(tp.take(1).len() == 1);
                }
                lemma_strip_where_outside(d0, k0, e12, tt, mm, tp);
                lemma_strip_where_outside(d0, k0, e12, tt, mm, tp.take(1));
            }
        }
        // what the target tables report is read from what was there
        let tg = seq!["target"@];
        assert(!e12(tg)) by {
            if e12(tg) {
                assert(tg.len() == 1);
            }
        }
        lemma_strip_where_outside(d0, k0, e12, tt, mm, tg);
        assert forall|n: Seq<char>|
            #![trigger target_table(n)]
            k2.get(seq!["target"@, n]) == k0.get(seq!["target"@, n]) && table_report(
                d2,
                k2,
                o2,
                target_table(n),
                tt,
                mm,
            ) == table_report(d0, k0, o0, target_table(n), tt, mm) by {
            let tp = target_table(n);
            assert(!e12(seq!["target"@, n])) by {
                if e12(seq!["target"@, n]) {
                    assert(seq!["target"@, n].len() == 2);
                }
            }
            assert(tp.last() != "features"@) by {
                assert("features"@.len() != "dependencies"@.len());
            }
            assert forall|k: Seq<char>| !#[trigger] e12(dep_features_path(tp, k)) by {
                let p = dep_features_path(tp, k);
                if e12(p) {
                    assert(p.take(1)[0] == p[0]);
                    assert(p[0] == "target"@);
                    assert("target"@.len() != "dependencies"@.len());
                    assert("target"@.len() != "dev-dependencies"@.len());
                }
            }
            lemma_table_report_frame(d0, k0, o0, k2, o2, e12, tp, tt, mm);
        }
        assert(target_tables_agree(d2, k2, o2, d0, k0, o0, tt, mm));
        assert(o1.get(tg) == o0.get(tg));
        assert(o2.get(tg) == o1.get(tg));
        assert(d2.get(tg) == d0.get(tg));
        if d0.get(tg) == Some(TomlNode::Table) && o0.contains_key(tg) {
            lemma_target_pairs_agree(o0[tg], d2, k2, o2, d0, k0, o0, tt, mm);
        }
        assert(targets_report(d2, k2, o2, tt, mm) == targets_report(d0, k0, o0, tt, mm));
    }
    let target_changes = strip_targets(doc, targets, members);
    proof {
        lemma_strip_where_ext(d2, k2, target_sites(d2), st, tt, mm);
        assert forall|p: KeyPath| #[trigger] st(p) implies k2.get(p.drop_last()) == k0.get(
            p.drop_last(),
        ) by {
            assert(!e12(p.drop_last())) by {
                if e12(p.drop_last()) {
                    assert(p.drop_last().len() == 4);
                }
            }
        }
        lemma_strip_where_keys(d2, k2, k0, st, tt, mm);
        assert(well_placed(st));
        assert forall|p: KeyPath| #[trigger] e12(p) implies !st(p) by {
            if st(p) {
                assert(p.len() == 5);
            }
        }
        lemma_strip_compose(d0, k0, e12, st, tt, mm);
        lemma_strip_where_ext(d0, k0, either(e12, st), pass_sites(d0), tt, mm);
        assert forall|q: KeyPath| !#[trigger] pass_sites(d0)(q) implies toml_key_text(*doc).get(q)
            == k0.get(q) by {
            assert(!target_sites(d2)(q));
            assert(!e12(q));
        }
        assert forall|q: KeyPath| !(#[trigger] pass_sites(d0)(q) && strips_at(d0, k0, q, tt, mm))
            implies toml_values(*doc).get(q) == toml_values(*old(doc)).get(q) by {
            if st(q) {
                assert(!e12(q));
                lemma_strips_at_frame(d0, k0, k2, e12, q, tt, mm);
                assert(target_sites(d2)(q));
            }
            assert(v2.get(q) == toml_values(*old(doc)).get(q));
        }
    }
    proof {
        let tg = seq!["target"@];
        assert(o2.get(tg) == o0.get(tg));
        assert forall|n: Seq<char>| d2.contains_key(tg.push(n)) == d0.contains_key(
            #[trigger] tg.push(n),
        ) by {
            assert(!e12(tg.push(n))) by {
                if e12(tg.push(n)) {
                    assert(tg.push(n).len() == 2);
                }
            }
            lemma_strip_where_outside(d0, k0, e12, tt, mm, tg.push(n));
        }
        assert forall|n: Seq<char>| #[trigger] table_reached(d0, target_table(n)) implies (o0.get(
            target_table(n),
        ) matches Some(ks) && lists_table_keys(ks, d0, target_table(n))) by {
            let tp = target_table(n);
            assert(tp.take(1) =~= tg);
            assert(!e12(tp)) by {
                if e12(tp) {
                    assert(tp.take(1)[0] == tp[0]);
                    assert("target"@.len() != "dependencies"@.len());
                    assert("target"@.len() != "dev-dependencies"@.len());
                }
            }
            assert(!e12(tg)) by {
                if e12(tg) {
                    assert(tg.len() == 1);
                }
            }
            lemma_strip_where_outside(d0, k0, e12, tt, mm, tp);
            lemma_strip_where_outside(d0, k0, e12, tt, mm, tg);
            assert(table_reached(d2, tp));
            assert(o2.get(tp) == o0.get(tp));
            assert forall|k: Seq<char>| d2.contains_key(tp.push(k)) == d0.contains_key(
                #[trigger] tp.push(k),
            ) by {
                assert(!e12(tp.push(k))) by {
                    if e12(tp.push(k)) {
                        assert(tp.push(k).len() == 4);
                    }
                }
                lemma_strip_where_outside(d0, k0, e12, tt, mm, tp.push(k));
            }
        }
    }
    StripReport { dependencies, dev_dependencies, targets: target_changes }
}

} // verus!
