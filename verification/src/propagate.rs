//! The second pass: a feature of a crate lists `dep/feature` for each
//! workspace dependency that has that feature too.

use vstd::prelude::*;
use vstd::string::*;
use toml_edit::DocumentMut;
use crate::strings::{append_pairs, lemma_paired_append, lemma_take_excludes_next, lemma_take_next, pair_texts, texts};
use crate::toml_model::{
    array_at, is_array_at, node_at_1, node_at_2, push_text_2, text_view, toml_items, KeyPath,
    NodeKind, TomlNode, toml_arrays_hold_values, toml_key_order, toml_key_text, toml_values,
};
use crate::workspace::{deps_having, deps_with_feature, features_to_propagate, CrateInfo};

verus! {

/// The entry `dep/feature` that enables `feature` on `dep`.
pub open spec fn dep_feature(dep: Seq<char>, feature: Seq<char>) -> Seq<char> {
    dep + "/"@ + feature
}

/// The entries that enable `feature` on each of `deps`.
pub open spec fn dep_features(deps: Seq<Seq<char>>, feature: Seq<char>) -> Seq<Seq<char>> {
    deps.map_values(|d: Seq<char>| dep_feature(d, feature))
}

/// An array with each of `vals` appended, in order, unless the array
/// already lists it.
pub open spec fn append_missing(e: Seq<Option<Seq<char>>>, vals: Seq<Seq<char>>) -> Seq<
    Option<Seq<char>>,
>
    decreases vals.len(),
{
    if vals.len() == 0 {
        e
    } else {
        let r = append_missing(e, vals.drop_last());
        if r.contains(Some(vals.last())) {
            r
        } else {
            r.push(Some(vals.last()))
        }
    }
}

/// The feature table is read where `features` is a table or an inline
/// table.
pub open spec fn feature_table_reached(items: Map<KeyPath, TomlNode>) -> bool {
    ||| items.get(seq!["features"@]) == Some(TomlNode::Table)
    ||| items.get(seq!["features"@]) == Some(TomlNode::InlineTable)
}

/// Whether the pass writes into the array of feature `f`: the feature
/// table is read, and `f` is an array in it.
pub open spec fn writes_feature(items: Map<KeyPath, TomlNode>, f: Seq<char>) -> bool {
    feature_table_reached(items) && is_array_at(items, seq!["features"@, f])
}

/// The document after the pass, where `plan` gives for each feature the
/// entries its array must list, or `None` for a feature left alone.
pub open spec fn propagate_where(
    items: Map<KeyPath, TomlNode>,
    plan: spec_fn(Seq<char>) -> Option<Seq<Seq<char>>>,
) -> Map<KeyPath, TomlNode> {
    Map::new(
        |p: KeyPath| items.contains_key(p),
        |p: KeyPath|
            if p.len() == 2 && p[0] == "features"@ && writes_feature(items, p[1]) {
                match plan(p[1]) {
                    Some(vals) => TomlNode::Array(append_missing(array_at(items, p), vals)),
                    None => items[p],
                }
            } else {
                items[p]
            },
    )
}

/// What the pass plans for a crate: each feature that is to be propagated
/// and that the crate has must list `dep/feature` for each dependency whose
/// crate has that feature too.
pub open spec fn crate_plan(c: CrateInfo, crates: Seq<CrateInfo>, targets: Seq<Seq<char>>) -> spec_fn(
    Seq<char>,
) -> Option<Seq<Seq<char>>> {
    |f: Seq<char>|
        if targets.contains(f) && texts(c.features@).contains(f) {
            Some(dep_features(deps_having(texts(c.dependencies@), crates, f), f))
        } else {
            None
        }
}

/// The pass adds `v` to the array of feature `f`.
pub open spec fn adds(
    items: Map<KeyPath, TomlNode>,
    plan: spec_fn(Seq<char>) -> Option<Seq<Seq<char>>>,
    f: Seq<char>,
    v: Seq<char>,
) -> bool {
    &&& writes_feature(items, f)
    &&& plan(f) matches Some(vals)
    &&& vals.contains(v)
    &&& !array_at(items, seq!["features"@, f]).contains(Some(v))
}

pub proof fn lemma_append_missing_contains(e: Seq<Option<Seq<char>>>, vals: Seq<Seq<char>>, x: Option<
    Seq<char>,
>)
    ensures
        append_missing(e, vals).contains(x) <==> (e.contains(x) || (x matches Some(v)
            && vals.contains(v))),
    decreases vals.len(),
{
    if vals.len() > 0 {
        lemma_append_missing_contains(e, vals.drop_last(), x);
        let r = append_missing(e, vals.drop_last());
        if vals.drop_last().contains(x->0) && x is Some {
            let i = choose|i: int| 0 <= i < vals.drop_last().len() && vals.drop_last()[i] == x->0;
            assert(vals[i] == x->0);
        }
        if x is Some && vals.contains(x->0) && !vals.drop_last().contains(x->0) {
            let v = x->0;
            let i = choose|i: int| 0 <= i < vals.len() && vals[i] == v;
            if i < vals.len() - 1 {
                assert(vals.drop_last()[i] == v);
            }
            assert(v == vals.last());
        }
        if !r.contains(Some(vals.last())) {
            let r2 = r.push(Some(vals.last()));
            assert(r2[r.len() as int] == Some(vals.last()));
            if r.contains(x) {
                let i = choose|i: int| 0 <= i < r.len() && r[i] == x;
                assert(r2[i] == x);
            }
            if r2.contains(x) && x != Some(vals.last()) {
                let i = choose|i: int| 0 <= i < r2.len() && r2[i] == x;
                assert(r[i] == x);
            }
        }
    }
}

/// Appending entries that are all listed already changes nothing.
pub proof fn lemma_append_missing_listed(e: Seq<Option<Seq<char>>>, vals: Seq<Seq<char>>)
    requires
        forall|i: int| 0 <= i < vals.len() ==> e.contains(Some(#[trigger] vals[i])),
    ensures
        append_missing(e, vals) == e,
    decreases vals.len(),
{
    if vals.len() > 0 {
        assert forall|i: int| 0 <= i < vals.drop_last().len() implies e.contains(
            Some(#[trigger] vals.drop_last()[i]),
        ) by {
            assert(vals.drop_last()[i] == vals[i]);
        }
        lemma_append_missing_listed(e, vals.drop_last());
        assert(e.contains(Some(vals[vals.len() - 1])));
    }
}

/// Whether an array lists a string.
fn lists_value(a: &Vec<Option<String>>, v: &String) -> (r: bool)
    ensures
        r == a@.map_values(|o: Option<String>| text_view(o)).contains(Some(v@)),
{
    let ghost av = a@.map_values(|o: Option<String>| text_view(o));
    let mut i: usize = 0;
    while i < a.len()
        invariant
            0 <= i <= a.len(),
            av == a@.map_values(|o: Option<String>| text_view(o)),
            forall|k: int| 0 <= k < i ==> av[k] != Some(v@),
        decreases a.len() - i,
    {
        let hit = match &a[i] {
            Some(s) => s.eq(v),
            None => false,
        };
        if hit {
            assert(av[i as int] == Some(v@));
            return true;
        }
        i = i + 1;
    }
    false
}


/// The pass at one feature `f` of a crate.
pub open spec fn propagate_one(
    items: Map<KeyPath, TomlNode>,
    f: Seq<char>,
    vals: Seq<Seq<char>>,
) -> Map<KeyPath, TomlNode> {
    if writes_feature(items, f) {
        items.insert(
            seq!["features"@, f],
            TomlNode::Array(append_missing(array_at(items, seq!["features"@, f]), vals)),
        )
    } else {
        items
    }
}

/// Adds to the array of feature `f` the entry `dep/f` of each dependency of
/// the crate whose crate has `f` too; gives the entries added.
fn propagate_feature(doc: &mut DocumentMut, c: &CrateInfo, crates: &Vec<CrateInfo>, f: &String) -> (r:
    Vec<String>)
    ensures
        toml_items(*final(doc)) == propagate_one(
            toml_items(*old(doc)),
            f@,
            dep_features(deps_having(texts(c.dependencies@), crates@, f@), f@),
        ),
        texts(r@).no_duplicates(),
        forall|v: Seq<char>|
            #![trigger texts(r@).contains(v)]
            texts(r@).contains(v) <==> (writes_feature(toml_items(*old(doc)), f@) && dep_features(
                deps_having(texts(c.dependencies@), crates@, f@),
                f@,
            ).contains(v) && !array_at(toml_items(*old(doc)), seq!["features"@, f@]).contains(
                Some(v),
            )),
        toml_key_text(*final(doc)) == toml_key_text(*old(doc)),
        toml_key_order(*final(doc)) == toml_key_order(*old(doc)),
        r.len() == 0 ==> *final(doc) == *old(doc),
        toml_arrays_hold_values(*old(doc)) ==> toml_arrays_hold_values(*final(doc)),
        forall|q: KeyPath|
            q != seq!["features"@, f@] ==> #[trigger] toml_values(*final(doc)).get(q) == toml_values(
                *old(doc),
            ).get(q),
        !writes_feature(toml_items(*old(doc)), f@) ==> *final(doc) == *old(doc),
{
    let ghost orig = toml_items(*doc);
    let ghost pf = seq!["features"@, f@];
    let ds = deps_with_feature(c, crates, f);
    let ghost vals = dep_features(texts(ds@), f@);
    let ghost e = array_at(orig, pf);
    let mut added: Vec<String> = Vec::new();
    proof {
        assert(texts(added@) =~= Seq::<Seq<char>>::empty());
    }
    if ds.len() == 0 {
        proof {
            assert(vals =~= Seq::<Seq<char>>::empty());
            if writes_feature(orig, f@) {
                assert(orig.insert(pf, TomlNode::Array(e)) =~= orig);
            }
        }
        return added;
    }
    match node_at_1(doc, "features") {
        Some(NodeKind::Table) => {},
        Some(NodeKind::InlineTable) => {},
        _ => {
            return added;
        },
    }
    let mut cur = match node_at_2(doc, "features", f.as_str()) {
        Some(NodeKind::Array(v)) => v,
        _ => {
            return added;
        },
    };
    let mut k: usize = 0;
    proof {
        assert(vals.take(0) =~= Seq::<Seq<char>>::empty());
        assert(orig.insert(pf, TomlNode::Array(e)) =~= orig);
    }
    while k < ds.len()
        invariant
            0 <= k <= ds.len() == vals.len(),
            vals == dep_features(texts(ds@), f@),
            orig == toml_items(*old(doc)),
            pf == seq!["features"@, f@],
            e == array_at(orig, pf),
            writes_feature(orig, f@),
            cur@.map_values(|o: Option<String>| text_view(o)) == append_missing(e, vals.take(k as int)),
            toml_items(*doc) == orig.insert(pf, TomlNode::Array(append_missing(e, vals.take(k as int)))),
            texts(added@).no_duplicates(),
            forall|v: Seq<char>|
                #![trigger texts(added@).contains(v)]
                texts(added@).contains(v) <==> (vals.take(k as int).contains(v) && !e.contains(Some(v))),
            toml_key_text(*doc) == toml_key_text(*old(doc)),
            toml_key_order(*doc) == toml_key_order(*old(doc)),
            added.len() == 0 ==> *doc == *old(doc),
            toml_arrays_hold_values(*old(doc)) ==> toml_arrays_hold_values(*doc),
            forall|q: KeyPath|
                q != pf ==> #[trigger] toml_values(*doc).get(q) == toml_values(*old(doc)).get(q),
        decreases ds.len() - k,
    {
        let mut v = ds[k].clone();
        v.append("/");
        v.append(f.as_str());
        let ghost before = append_missing(e, vals.take(k as int));
        let ghost prev = texts(added@);
        proof {
            assert(v@ == vals[k as int]);
            assert(vals.take(k + 1).drop_last() =~= vals.take(k as int));
            assert(vals.take(k + 1).last() == v@);
            lemma_append_missing_contains(e, vals.take(k as int), Some(v@));
        }
        if !lists_value(&cur, &v) {
            let ghost items_now = toml_items(*doc);
            proof {
                assert(items_now.get(pf) == Some(TomlNode::Array(before)));
                assert(array_at(items_now, crate::toml_model::path2("features"@, f@)) == before);
            }
            push_text_2(doc, "features", f.as_str(), v.as_str());
            cur.push(Some(v.clone()));
            proof {
                assert(cur@.map_values(|o: Option<String>| text_view(o)) =~= before.push(Some(v@)));
                assert(items_now.insert(pf, TomlNode::Array(before)).insert(
                    pf,
                    TomlNode::Array(before.push(Some(v@))),
                ) =~= orig.insert(pf, TomlNode::Array(before.push(Some(v@)))));
            }
            added.push(v);
            proof {
                assert(texts(added@) =~= prev.push(vals[k as int]));
                assert forall|a: int, b: int|
                    0 <= a < b < texts(added@).len() implies texts(added@)[a] != texts(
                    added@,
                )[b] by {
                    if b == prev.len() {
                        assert(prev[a] == texts(added@)[a]);
                        assert(prev.contains(prev[a]));
                    }
                }
            }
        }
        proof {
            let x = vals[k as int];
            assert forall|w: Seq<char>| #![trigger texts(added@).contains(w)]
                texts(added@).contains(w) <==> (vals.take(k + 1).contains(w) && !e.contains(
                    Some(w),
                )) by {
                if w == x {
                    assert(vals.take(k + 1)[k as int] == w);
                    if texts(added@) != prev {
                        assert(texts(added@)[prev.len() as int] == w);
                    }
                } else {
                    if texts(added@).contains(w) {
                        let i = choose|i: int| 0 <= i < texts(added@).len() && #[trigger] texts(added@)[i] == w;
                        assert(prev[i] == w);
                    }
                    if prev.contains(w) {
                        let i = choose|i: int| 0 <= i < prev.len() && #[trigger] prev[i] == w;
                        assert(texts(added@)[i] == w);
                    }
                    lemma_take_next(vals, k as int);
                }
            }
        }
        k = k + 1;
    }
    proof {
        assert(vals.take(k as int) =~= vals);
    }
    added
}


/// The plan, for the features among the first `j` of `present` only.
pub open spec fn plan_upto(
    plan: spec_fn(Seq<char>) -> Option<Seq<Seq<char>>>,
    present: Seq<Seq<char>>,
    j: int,
) -> spec_fn(Seq<char>) -> Option<Seq<Seq<char>>> {
    |f: Seq<char>|
        if present.take(j).contains(f) {
            plan(f)
        } else {
            None
        }
}

pub proof fn lemma_propagate_where_ext(
    items: Map<KeyPath, TomlNode>,
    p1: spec_fn(Seq<char>) -> Option<Seq<Seq<char>>>,
    p2: spec_fn(Seq<char>) -> Option<Seq<Seq<char>>>,
)
    requires
        forall|f: Seq<char>| #[trigger] p1(f) == p2(f),
    ensures
        propagate_where(items, p1) == propagate_where(items, p2),
{
    assert(propagate_where(items, p1) =~= propagate_where(items, p2));
}

/// Where the plan leaves a feature alone, the pass leaves its array, and
/// the feature table, as they were.
pub proof fn lemma_propagate_where_frame(
    items: Map<KeyPath, TomlNode>,
    plan: spec_fn(Seq<char>) -> Option<Seq<Seq<char>>>,
    f: Seq<char>,
)
    requires
        plan(f) is None,
    ensures
        writes_feature(propagate_where(items, plan), f) == writes_feature(items, f),
        array_at(propagate_where(items, plan), seq!["features"@, f]) == array_at(
            items,
            seq!["features"@, f],
        ),
{
    let cur = propagate_where(items, plan);
    let pt = seq!["features"@];
    assert(cur.get(pt) == items.get(pt));
    let pf = seq!["features"@, f];
    assert(pf[1] == f);
    assert(cur.get(pf) == items.get(pf));
}

/// Adds to each feature of the crate that is to be propagated the entries
/// `dep/feature` that its workspace dependencies call for; gives the pairs
/// of feature and entry added.
pub(crate) fn propagate_crate(
    doc: &mut DocumentMut,
    c: &CrateInfo,
    crates: &Vec<CrateInfo>,
    targets: &Vec<String>,
) -> (r: Vec<(String, String)>)
    ensures
        toml_items(*final(doc)) == propagate_where(
            toml_items(*old(doc)),
            crate_plan(*c, crates@, texts(targets@)),
        ),
        pair_texts(r@).no_duplicates(),
        forall|f: Seq<char>, v: Seq<char>|
            #![trigger pair_texts(r@).contains((f, v))]
            pair_texts(r@).contains((f, v)) <==> adds(
                toml_items(*old(doc)),
                crate_plan(*c, crates@, texts(targets@)),
                f,
                v,
            ),
        toml_key_text(*final(doc)) == toml_key_text(*old(doc)),
        toml_key_order(*final(doc)) == toml_key_order(*old(doc)),
        r.len() == 0 ==> *final(doc) == *old(doc),
        toml_arrays_hold_values(*old(doc)) ==> toml_arrays_hold_values(*final(doc)),
        forall|q: KeyPath|
            !(q.len() == 2 && q[0] == "features"@ && writes_feature(toml_items(*old(doc)), q[1]))
                ==> #[trigger] toml_values(*final(doc)).get(q) == toml_values(*old(doc)).get(q),
{
    let ghost orig = toml_items(*doc);
    let ghost plan = crate_plan(*c, crates@, texts(targets@));
    let present = features_to_propagate(c, targets);
    let ghost ps = texts(present@);
    let mut out: Vec<(String, String)> = Vec::new();
    let mut j: usize = 0;
    proof {
        assert(ps.take(0) =~= Seq::<Seq<char>>::empty());
        assert(propagate_where(orig, plan_upto(plan, ps, 0)) =~= orig);
        assert(pair_texts(out@) =~= Seq::<(Seq<char>, Seq<char>)>::empty());
    }
    while j < present.len()
        invariant
            0 <= j <= present.len(),
            orig == toml_items(*old(doc)),
            plan == crate_plan(*c, crates@, texts(targets@)),
            ps == texts(present@),
            ps.no_duplicates(),
            forall|f: Seq<char>|
                #![trigger ps.contains(f)]
                ps.contains(f) <==> (texts(targets@).contains(f) && texts(c.features@).contains(f)),
            toml_items(*doc) == propagate_where(orig, plan_upto(plan, ps, j as int)),
            pair_texts(out@).no_duplicates(),
            forall|f: Seq<char>, v: Seq<char>|
                #![trigger pair_texts(out@).contains((f, v))]
                pair_texts(out@).contains((f, v)) <==> (ps.take(j as int).contains(f) && adds(
                    orig,
                    plan,
                    f,
                    v,
                )),
            toml_key_text(*doc) == toml_key_text(*old(doc)),
            toml_key_order(*doc) == toml_key_order(*old(doc)),
            out.len() == 0 ==> *doc == *old(doc),
            toml_arrays_hold_values(*old(doc)) ==> toml_arrays_hold_values(*doc),
            forall|q: KeyPath|
                !(q.len() == 2 && q[0] == "features"@ && writes_feature(orig, q[1])) ==> #[trigger] toml_values(
                    *doc,
                ).get(q) == toml_values(*old(doc)).get(q),
        decreases present.len() - j,
    {
        let f = &present[j];
        let ghost cur = toml_items(*doc);
        let ghost before = plan_upto(plan, ps, j as int);
        let ghost after = plan_upto(plan, ps, j + 1);
        proof {
            assert(ps[j as int] == f@);
            lemma_take_excludes_next(ps, j as int);
            assert(ps.contains(f@));
            lemma_propagate_where_frame(orig, before, f@);
        }
        let ghost vcur = toml_values(*doc);
        let added = propagate_feature(doc, c, crates, f);
        proof {
            let pf1 = seq!["features"@, f@];
            assert forall|q: KeyPath|
                !(q.len() == 2 && q[0] == "features"@ && writes_feature(orig, q[1])) implies #[trigger] toml_values(
                    *doc,
                ).get(q) == toml_values(*old(doc)).get(q) by {
                assert(vcur.get(q) == toml_values(*old(doc)).get(q));
                if q == pf1 {
                    assert(q[1] == f@);
                }
            }
            let vals = dep_features(deps_having(texts(c.dependencies@), crates@, f@), f@);
            assert(plan(f@) == Some(vals));
            assert(ps.take(j + 1) =~= ps.take(j as int).push(f@));
            assert(ps.take(j + 1)[j as int] == f@);
            assert forall|g: Seq<char>| #[trigger] after(g) == (if g == f@ {
                plan(g)
            } else {
                before(g)
            }) by {
                if g != f@ {
                    lemma_take_next(ps, j as int);
                }
            }
            let pf = seq!["features"@, f@];
            let lhs = propagate_one(cur, f@, vals);
            let rhs = propagate_where(orig, after);
            assert(pf[0] == "features"@ && pf[1] == f@ && pf.len() == 2);
            assert forall|p: KeyPath| #[trigger] lhs.contains_key(p) == rhs.contains_key(p) by {}
            assert forall|p: KeyPath| lhs.contains_key(p) implies #[trigger] lhs[p] == rhs[p] by {
                if p.len() == 2 && p[0] == "features"@ && p[1] == f@ {
                    assert(p =~= pf);
                } else if p.len() == 2 && p[0] == "features"@ {
                    assert(after(p[1]) == before(p[1]));
                    assert(p != pf);
                }
            }
            assert(lhs =~= rhs);
        }
        let ghost prev = pair_texts(out@);
        proof {
            assert forall|v: Seq<char>| #![trigger prev.contains((f@, v))] !prev.contains((f@, v)) by {
                if prev.contains((f@, v)) {
                    assert(ps.take(j as int).contains(f@));
                }
            }
            lemma_paired_append(prev, f@, texts(added@));
        }
        append_pairs(&mut out, f, &added);
        proof {
            let ad = texts(added@);
            assert(added.len() > 0 ==> out.len() > 0) by {
                if added.len() > 0 {
                    assert(pair_texts(out@).len() > 0);
                }
            }
            assert forall|g: Seq<char>, v: Seq<char>|
                #![trigger pair_texts(out@).contains((g, v))]
                pair_texts(out@).contains((g, v)) <==> (ps.take(j + 1).contains(g) && adds(
                    orig,
                    plan,
                    g,
                    v,
                )) by {
                if g == f@ {
                    assert(ps.take(j + 1)[j as int] == g);
                } else {
                    lemma_take_next(ps, j as int);
                }
            }
        }
        j = j + 1;
    }
    proof {
        assert(ps.take(j as int) =~= ps);
        assert forall|f: Seq<char>| #[trigger] plan_upto(plan, ps, j as int)(f) == plan(f) by {}
        lemma_propagate_where_ext(orig, plan_upto(plan, ps, j as int), plan);
        assert forall|f: Seq<char>, v: Seq<char>|
            #![trigger pair_texts(out@).contains((f, v))]
            pair_texts(out@).contains((f, v)) <==> adds(orig, plan, f, v) by {
            if adds(orig, plan, f, v) {
                assert(ps.contains(f));
            }
        }
    }
    out
}

} // verus!
