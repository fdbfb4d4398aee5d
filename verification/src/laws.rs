//! What holds of the two passes on every manifest.

use vstd::prelude::*;
use crate::propagate::{
    adds, append_missing, crate_plan, dep_feature, dep_features, lemma_append_missing_contains,
    lemma_append_missing_listed, propagate_where, writes_feature,
};
use crate::manifest::{dep_features_path, table_reached};
use crate::strings::{
    distinct, feature_list, is_white_space, lemma_distinct_props, paired_with, split_commas, texts,
    trim, trim_end, trim_start,
};
use crate::strip::{
    lemma_strip_where_outside, lemma_without_targets_clean, lemma_without_targets_len, pass_sites,
    lemma_table_sites_placed, strip_where, stripped_list, strips_at, table_report, table_sites,
    target_pairs, target_sites, target_table,
    targets_report, well_placed, without_targets, is_target_feature, not_target,
};
use crate::toml_model::{array_at, KeyPath, TomlNode};
use crate::workspace::{crate_names, deps_having, features_of, has_feature, CrateInfo};

verus! {

pub proof fn lemma_deps_having(deps: Seq<Seq<char>>, crates: Seq<CrateInfo>, f: Seq<char>, d: Seq<char>)
    ensures
        deps_having(deps, crates, f).contains(d) <==> (deps.contains(d) && has_feature(crates, d, f)),
    decreases deps.len(),
{
    if deps.len() > 0 {
        lemma_deps_having(deps.drop_last(), crates, f, d);
        let r = deps_having(deps.drop_last(), crates, f);
        if deps.contains(d) && !deps.drop_last().contains(d) {
            let i = choose|i: int| 0 <= i < deps.len() && deps[i] == d;
            if i < deps.len() - 1 {
                assert(deps.drop_last()[i] == d);
            }
        }
        if deps.drop_last().contains(d) {
            let i = choose|i: int| 0 <= i < deps.drop_last().len() && deps.drop_last()[i] == d;
            assert(deps[i] == d);
        }
        if has_feature(crates, deps.last(), f) {
            let r2 = r.push(deps.last());
            assert(r2[r.len() as int] == deps.last());
            if r.contains(d) {
                let i = choose|i: int| 0 <= i < r.len() && r[i] == d;
                assert(r2[i] == d);
            }
            if r2.contains(d) && d != deps.last() {
                let i = choose|i: int| 0 <= i < r2.len() && r2[i] == d;
                assert(r[i] == d);
            }
        }
    }
}

/// What the tool is for: after the second pass, where a crate has a
/// feature that is to be propagated and its feature table lists it as an
/// array, that array lists `dep/feature` for every workspace dependency
/// `dep` of the crate whose crate has the feature too.
pub proof fn law_propagation_lists_every_dependency(
    items: Map<KeyPath, TomlNode>,
    c: CrateInfo,
    crates: Seq<CrateInfo>,
    targets: Seq<Seq<char>>,
    f: Seq<char>,
    dep: Seq<char>,
)
    requires
        writes_feature(items, f),
        targets.contains(f),
        texts(c.features@).contains(f),
        texts(c.dependencies@).contains(dep),
        has_feature(crates, dep, f),
    ensures
        array_at(
            propagate_where(items, crate_plan(c, crates, targets)),
            seq!["features"@, f],
        ).contains(Some(dep_feature(dep, f))),
{
    let pf = seq!["features"@, f];
    assert(pf[1] == f);
    let ds = deps_having(texts(c.dependencies@), crates, f);
    lemma_deps_having(texts(c.dependencies@), crates, f, dep);
    let i = choose|i: int| 0 <= i < ds.len() && ds[i] == dep;
    let vals = dep_features(ds, f);
    assert(vals[i] == dep_feature(dep, f));
    lemma_append_missing_contains(array_at(items, pf), vals, Some(dep_feature(dep, f)));
}

/// The second pass keeps every entry that was there, in its place, and
/// changes nothing but the arrays of the feature table.
pub proof fn law_propagation_only_appends(
    items: Map<KeyPath, TomlNode>,
    plan: spec_fn(Seq<char>) -> Option<Seq<Seq<char>>>,
    p: KeyPath,
)
    ensures
        propagate_where(items, plan).contains_key(p) == items.contains_key(p),
        !(p.len() == 2 && p[0] == "features"@) ==> propagate_where(items, plan).get(p) == items.get(p),
        array_at(propagate_where(items, plan), p).take(array_at(items, p).len() as int) == array_at(
            items,
            p,
        ),
{
    let r = propagate_where(items, plan);
    if p.len() == 2 && p[0] == "features"@ && writes_feature(items, p[1]) {
        if plan(p[1]) is Some {
            lemma_append_missing_prefix(array_at(items, p), plan(p[1])->0);
        }
    }
    assert(array_at(items, p).take(array_at(items, p).len() as int) =~= array_at(items, p));
}

pub proof fn lemma_append_missing_prefix(e: Seq<Option<Seq<char>>>, vals: Seq<Seq<char>>)
    ensures
        append_missing(e, vals).len() >= e.len(),
        append_missing(e, vals).take(e.len() as int) == e,
    decreases vals.len(),
{
    if vals.len() > 0 {
        lemma_append_missing_prefix(e, vals.drop_last());
        let r = append_missing(e, vals.drop_last());
        assert(r.push(Some(vals.last())).take(e.len() as int) =~= r.take(e.len() as int));
    }
    assert(e.take(e.len() as int) =~= e);
}

/// Running the second pass again changes nothing and adds nothing.
pub proof fn law_propagation_idempotent(
    items: Map<KeyPath, TomlNode>,
    plan: spec_fn(Seq<char>) -> Option<Seq<Seq<char>>>,
    f: Seq<char>,
    v: Seq<char>,
)
    ensures
        propagate_where(propagate_where(items, plan), plan) == propagate_where(items, plan),
        !adds(propagate_where(items, plan), plan, f, v),
{
    let r = propagate_where(items, plan);
    let pt = seq!["features"@];
    assert(r.get(pt) == items.get(pt));
    assert forall|g: Seq<char>| #[trigger] writes_feature(r, g) == writes_feature(items, g) by {
        let pg = seq!["features"@, g];
        assert(pg[1] == g);
        assert(pg.len() == 2 && pg[0] == "features"@);
    }
    assert forall|p: KeyPath|
        p.len() == 2 && p[0] == "features"@ && writes_feature(r, p[1]) && plan(p[1]) is Some
        implies #[trigger] append_missing(array_at(r, p), plan(p[1])->0) == array_at(r, p) by {
        let vals = plan(p[1])->0;
        let e = array_at(items, p);
        assert(p =~= seq!["features"@, p[1]]);
        assert forall|i: int| 0 <= i < vals.len() implies append_missing(e, vals).contains(
            Some(#[trigger] vals[i]),
        ) by {
            lemma_append_missing_contains(e, vals, Some(vals[i]));
        }
        lemma_append_missing_listed(append_missing(e, vals), vals);
    }
    assert(propagate_where(r, plan) =~= r);
    let pf = seq!["features"@, f];
    assert(pf[1] == f);
    if writes_feature(r, f) && plan(f) is Some {
        let vals = plan(f)->0;
        if vals.contains(v) {
            lemma_append_missing_contains(array_at(items, pf), vals, Some(v));
        }
    }
}

/// After the first pass no workspace dependency that the pass reads lists
/// a feature to propagate, so running the pass again changes nothing. The
/// second run reads the key texts of the manifest the first left, which
/// are those it read wherever it did not strip.
pub proof fn law_strip_idempotent(
    items: Map<KeyPath, TomlNode>,
    keys: Map<KeyPath, Seq<char>>,
    keys2: Map<KeyPath, Seq<char>>,
    targets: Seq<Seq<char>>,
    members: Seq<Seq<char>>,
    p: KeyPath,
)
    requires
        forall|q: KeyPath| !#[trigger] pass_sites(items)(q) ==> keys2.get(q) == keys.get(q),
    ensures
        !(pass_sites(strip_where(items, keys, pass_sites(items), targets, members))(p) && strips_at(
            strip_where(items, keys, pass_sites(items), targets, members),
            keys2,
            p,
            targets,
            members,
        )),
        strip_where(
            strip_where(items, keys, pass_sites(items), targets, members),
            keys2,
            pass_sites(strip_where(items, keys, pass_sites(items), targets, members)),
            targets,
            members,
        ) == strip_where(items, keys, pass_sites(items), targets, members),
{
    let s = pass_sites(items);
    let r = strip_where(items, keys, s, targets, members);
    reveal_strlit("features");
    reveal_strlit("dependencies");
    assert(well_placed(s)) by {
        assert forall|q: KeyPath| #[trigger] s(q) implies (q.len() == 3 || q.len() == 5) && q.last()
            == "features"@ by {}
    }
    // The tables that decide the sites are not sites themselves.
    assert forall|q: KeyPath| #[trigger] pass_sites(r)(q) == s(q) by {
        let t1 = seq!["dependencies"@];
        let t2 = seq!["dev-dependencies"@];
        assert(!s(t1) && !s(t2));
        lemma_strip_where_outside(items, keys, s, targets, members, t1);
        lemma_strip_where_outside(items, keys, s, targets, members, t2);
        if q.len() == 5 && q[2] == "dependencies"@ {
            let tp = q.take(3);
            assert(tp.last() == "dependencies"@);
            assert("dependencies"@.len() != "features"@.len());
            assert(!s(tp)) by {
                if s(tp) {
                    assert(tp.last() == "features"@);
                }
            }
            assert(!s(tp.take(1)));
            lemma_strip_where_outside(items, keys, s, targets, members, tp);
            lemma_strip_where_outside(items, keys, s, targets, members, tp.take(1));
        }
    }
    lemma_strip_leaves_clean(items, keys, keys2, s, targets, members);
    assert(strip_where(r, keys2, pass_sites(r), targets, members) =~= r);
}

/// Where the pass has been, it leaves nothing to strip: read again, with
/// key texts that agree with those it read wherever it did not strip, no
/// site of `sites` strips.
pub proof fn lemma_strip_leaves_clean(
    items: Map<KeyPath, TomlNode>,
    keys: Map<KeyPath, Seq<char>>,
    keys2: Map<KeyPath, Seq<char>>,
    s: spec_fn(KeyPath) -> bool,
    targets: Seq<Seq<char>>,
    members: Seq<Seq<char>>,
)
    requires
        well_placed(s),
        forall|q: KeyPath| !#[trigger] s(q) ==> keys2.get(q) == keys.get(q),
    ensures
        forall|q: KeyPath|
            #[trigger] s(q) ==> !strips_at(strip_where(items, keys, s, targets, members), keys2, q, targets, members),
{
    let r = strip_where(items, keys, s, targets, members);
    reveal_strlit("features");
    assert forall|q: KeyPath| #[trigger] s(q) implies !strips_at(r, keys2, q, targets, members) by {
        let e = array_at(items, q);
        let d = q.drop_last();
        assert(!s(d)) by {
            if s(d) {
                assert(d.len() == 2 || d.len() == 4);
            }
        }
        if strips_at(items, keys, q, targets, members) {
            lemma_without_targets_clean(e, targets);
            let w = without_targets(e, targets);
            lemma_without_targets_len(w, targets);
            if w.len() > 0 {
                assert(r.get(q) == Some(TomlNode::Array(w)));
                assert(array_at(r, q) == w);
            }
        } else {
            let ws = q.drop_last().push("workspace"@);
            reveal_strlit("workspace");
            assert(ws.last() == "workspace"@);
            assert("workspace"@.len() != "features"@.len());
            assert(!s(ws)) by {
                if s(ws) {
                    assert(ws.last() == "features"@);
                }
            }
            lemma_strip_where_outside(items, keys, s, targets, members, d);
            lemma_strip_where_outside(items, keys, s, targets, members, ws);
            assert(keys2.get(d) == keys.get(d));
            assert(r.get(q) == items.get(q));
            assert(array_at(r, q) == array_at(items, q));
        }
    }
}

/// The first pass on one top-level table, run again on what it left,
/// strips nothing there and reports nothing. The second run reads key texts
/// that agree with those the first read wherever the first did not strip.
pub proof fn law_section_strip_idempotent(
    items: Map<KeyPath, TomlNode>,
    keys: Map<KeyPath, Seq<char>>,
    keys2: Map<KeyPath, Seq<char>>,
    order2: Map<KeyPath, Seq<Seq<char>>>,
    section: Seq<char>,
    targets: Seq<Seq<char>>,
    members: Seq<Seq<char>>,
)
    requires
        forall|q: KeyPath| !#[trigger] table_sites(items, seq![section])(q) ==> keys2.get(q) == keys.get(q),
    ensures
        ({
            let r = strip_where(items, keys, table_sites(items, seq![section]), targets, members);
            &&& strip_where(r, keys2, table_sites(r, seq![section]), targets, members) == r
            &&& table_report(r, keys2, order2, seq![section], targets, members) == Seq::<
                Seq<char>,
            >::empty()
        }),
{
    let tp = seq![section];
    let s = table_sites(items, tp);
    let r = strip_where(items, keys, s, targets, members);
    lemma_table_sites_placed(items, tp);
    assert(!s(tp)) by {
        if s(tp) {
            assert(tp.len() == 1);
        }
    }
    lemma_strip_where_outside(items, keys, s, targets, members, tp);
    assert forall|q: KeyPath| #[trigger] table_sites(r, tp)(q) == s(q) by {}
    lemma_strip_leaves_clean(items, keys, keys2, s, targets, members);
    assert(strip_where(r, keys2, table_sites(r, tp), targets, members) =~= r);
    if table_reached(r, tp) && order2.contains_key(tp) {
        assert forall|k: Seq<char>| !#[trigger] strips_at(r, keys2, dep_features_path(tp, k), targets, members) by {
            let q = dep_features_path(tp, k);
            assert(q.take(1) =~= tp);
            assert(s(q));
        }
        lemma_stripped_list_none(order2[tp], r, keys2, tp, targets, members);
    }
}

/// A table none of whose dependencies the pass strips gives an empty report.
pub proof fn lemma_stripped_list_none(
    order: Seq<Seq<char>>,
    items: Map<KeyPath, TomlNode>,
    keys: Map<KeyPath, Seq<char>>,
    tp: KeyPath,
    targets: Seq<Seq<char>>,
    members: Seq<Seq<char>>,
)
    requires
        forall|k: Seq<char>| !#[trigger] strips_at(items, keys, dep_features_path(tp, k), targets, members),
    ensures
        stripped_list(order, items, keys, tp, targets, members) == Seq::<Seq<char>>::empty(),
    decreases order.len(),
{
    if order.len() > 0 {
        lemma_stripped_list_none(order.drop_last(), items, keys, tp, targets, members);
        assert(!strips_at(items, keys, dep_features_path(tp, order.last()), targets, members));
    }
}

/// Target tables none of whose dependencies the pass strips give no pairs.
pub proof fn lemma_target_pairs_none(
    names: Seq<Seq<char>>,
    items: Map<KeyPath, TomlNode>,
    keys: Map<KeyPath, Seq<char>>,
    order: Map<KeyPath, Seq<Seq<char>>>,
    targets: Seq<Seq<char>>,
    members: Seq<Seq<char>>,
)
    requires
        forall|n: Seq<char>|
            #[trigger] table_report(items, keys, order, target_table(n), targets, members)
                == Seq::<Seq<char>>::empty(),
    ensures
        target_pairs(names, items, keys, order, targets, members) == Seq::<
            (Seq<char>, Seq<char>),
        >::empty(),
    decreases names.len(),
{
    if names.len() > 0 {
        lemma_target_pairs_none(names.drop_last(), items, keys, order, targets, members);
        let n = names.last();
        assert(table_report(items, keys, order, target_table(n), targets, members) =~= Seq::<
            Seq<char>,
        >::empty());
        assert forall|t: Seq<char>| paired_with(t, Seq::<Seq<char>>::empty()) =~= Seq::<
            (Seq<char>, Seq<char>),
        >::empty() by {}
    }
}

/// A manifest that the first pass finds clean: it strips nothing there and
/// reports nothing, whatever order its tables list their keys in.
pub proof fn lemma_clean_reports_nothing(
    items: Map<KeyPath, TomlNode>,
    keys: Map<KeyPath, Seq<char>>,
    order: Map<KeyPath, Seq<Seq<char>>>,
    targets: Seq<Seq<char>>,
    members: Seq<Seq<char>>,
)
    requires
        forall|q: KeyPath| #[trigger] pass_sites(items)(q) ==> !strips_at(items, keys, q, targets, members),
    ensures
        strip_where(items, keys, pass_sites(items), targets, members) == items,
        table_report(items, keys, order, seq!["dependencies"@], targets, members) == Seq::<
            Seq<char>,
        >::empty(),
        table_report(items, keys, order, seq!["dev-dependencies"@], targets, members) == Seq::<
            Seq<char>,
        >::empty(),
        targets_report(items, keys, order, targets, members) == Seq::<(Seq<char>, Seq<char>)>::empty(),
{
    reveal_strlit("features");
    reveal_strlit("dependencies");
    reveal_strlit("dev-dependencies");
    reveal_strlit("target");
    assert(strip_where(items, keys, pass_sites(items), targets, members) =~= items);
    let t1 = seq!["dependencies"@];
    let t2 = seq!["dev-dependencies"@];
    if table_reached(items, t1) {
        assert forall|k: Seq<char>| !#[trigger] strips_at(items, keys, dep_features_path(t1, k), targets, members) by {
            let p = dep_features_path(t1, k);
            assert(p.take(1) =~= t1);
            assert(pass_sites(items)(p));
        }
        if order.contains_key(t1) {
            lemma_stripped_list_none(order[t1], items, keys, t1, targets, members);
        }
    }
    if table_reached(items, t2) {
        assert forall|k: Seq<char>| !#[trigger] strips_at(items, keys, dep_features_path(t2, k), targets, members) by {
            let p = dep_features_path(t2, k);
            assert(p.take(1) =~= t2);
            assert(pass_sites(items)(p));
        }
        if order.contains_key(t2) {
            lemma_stripped_list_none(order[t2], items, keys, t2, targets, members);
        }
    }
    assert forall|n: Seq<char>|
        #[trigger] table_report(items, keys, order, target_table(n), targets, members) == Seq::<
            Seq<char>,
        >::empty() by {
        let tp = target_table(n);
        if table_reached(items, tp) {
            assert forall|k: Seq<char>| !#[trigger] strips_at(items, keys, dep_features_path(tp, k), targets, members) by {
                let p = dep_features_path(tp, k);
                assert(p.take(3) =~= tp);
                assert(target_sites(items)(p));
            }
            if order.contains_key(tp) {
                lemma_stripped_list_none(order[tp], items, keys, tp, targets, members);
            }
        }
    }
    let tg = seq!["target"@];
    if items.get(tg) == Some(TomlNode::Table) && order.contains_key(tg) {
        lemma_target_pairs_none(order[tg], items, keys, order, targets, members);
    }
}

/// Running the tool a second time changes nothing: on a manifest that the
/// first pass and then the second pass left, the first pass strips and
/// reports nothing, and the second pass adds nothing. The second run reads
/// key texts that agree with those the first read wherever the first did
/// not strip; the order of the tables' keys may be any.
pub proof fn law_second_run_changes_nothing(
    items: Map<KeyPath, TomlNode>,
    keys: Map<KeyPath, Seq<char>>,
    keys2: Map<KeyPath, Seq<char>>,
    order2: Map<KeyPath, Seq<Seq<char>>>,
    plan: spec_fn(Seq<char>) -> Option<Seq<Seq<char>>>,
    targets: Seq<Seq<char>>,
    members: Seq<Seq<char>>,
    f: Seq<char>,
    v: Seq<char>,
)
    requires
        forall|q: KeyPath| !#[trigger] pass_sites(items)(q) ==> keys2.get(q) == keys.get(q),
    ensures
        ({
            let after = propagate_where(strip_where(items, keys, pass_sites(items), targets, members), plan);
            &&& strip_where(after, keys2, pass_sites(after), targets, members) == after
            &&& table_report(after, keys2, order2, seq!["dependencies"@], targets, members) == Seq::<
                Seq<char>,
            >::empty()
            &&& table_report(after, keys2, order2, seq!["dev-dependencies"@], targets, members)
                == Seq::<Seq<char>>::empty()
            &&& targets_report(after, keys2, order2, targets, members) == Seq::<
                (Seq<char>, Seq<char>),
            >::empty()
            &&& propagate_where(after, plan) == after
            &&& !adds(after, plan, f, v)
        }),
{
    let r = strip_where(items, keys, pass_sites(items), targets, members);
    let after = propagate_where(r, plan);
    assert forall|q: KeyPath| #[trigger] pass_sites(r)(q) implies !strips_at(r, keys2, q, targets, members) by {
        law_strip_idempotent(items, keys, keys2, targets, members, q);
    }
    assert forall|q: KeyPath| #[trigger] pass_sites(after)(q) implies !strips_at(after, keys2, q, targets, members) by {
        law_propagation_keeps_dependencies_clean(r, keys2, plan, targets, members, q);
    }
    lemma_clean_reports_nothing(after, keys2, order2, targets, members);
    law_propagation_idempotent(r, plan, f, v);
}

/// The second pass undoes nothing of the first: a manifest with no
/// hardcoded feature to take out has none after the features are
/// propagated either.
pub proof fn law_propagation_keeps_dependencies_clean(
    items: Map<KeyPath, TomlNode>,
    keys: Map<KeyPath, Seq<char>>,
    plan: spec_fn(Seq<char>) -> Option<Seq<Seq<char>>>,
    targets: Seq<Seq<char>>,
    members: Seq<Seq<char>>,
    p: KeyPath,
)
    requires
        forall|q: KeyPath| #[trigger] pass_sites(items)(q) ==> !strips_at(items, keys, q, targets, members),
    ensures
        !(pass_sites(propagate_where(items, plan))(p) && strips_at(
            propagate_where(items, plan),
            keys,
            p,
            targets,
            members,
        )),
{
    let r = propagate_where(items, plan);
    reveal_strlit("features");
    reveal_strlit("dependencies");
    reveal_strlit("dev-dependencies");
    reveal_strlit("target");
    reveal_strlit("workspace");
    // Only paths `features.<name>` change; no site reads one.
    assert forall|k: KeyPath| !(k.len() == 2 && k[0] == "features"@) implies #[trigger] r.get(k)
        == items.get(k) by {}
    let t1 = seq!["dependencies"@];
    let t2 = seq!["dev-dependencies"@];
    assert(r.get(t1) == items.get(t1));
    assert(r.get(t2) == items.get(t2));
    if p.len() == 5 {
        let tp = p.take(3);
        assert(r.get(tp) == items.get(tp));
        assert(r.get(tp.take(1)) == items.get(tp.take(1)));
    }
    assert(pass_sites(r)(p) == pass_sites(items)(p));
    if pass_sites(items)(p) {
        let d = p.drop_last();
        let w = p.drop_last().push("workspace"@);
        if d.len() == 2 {
            assert(p.take(1)[0] == p[0]);
            assert(d[0] == p[0]);
            assert(p[0] == "dependencies"@ || p[0] == "dev-dependencies"@);
            assert("features"@.len() != "dependencies"@.len());
            assert("features"@.len() != "dev-dependencies"@.len());
        }
        assert(r.get(d) == items.get(d));
        assert(r.get(w) == items.get(w));
        assert(r.get(p) == items.get(p));
        assert(array_at(r, p) == array_at(items, p));
    }
}


/// The features looked up for a crate's name are that crate's own, wherever
/// it stands in the list, as long as no later crate has the same name.
pub proof fn law_features_of_crate(crates: Seq<CrateInfo>, i: int)
    requires
        0 <= i < crates.len(),
        forall|j: int| i < j < crates.len() ==> #[trigger] crates[j].name@ != crates[i].name@,
    ensures
        features_of(crates, crates[i].name@) == Some(texts(crates[i].features@)),
    decreases crates.len(),
{
    if i < crates.len() - 1 {
        let d = crates.drop_last();
        assert(crates[crates.len() - 1].name@ != crates[i].name@);
        assert(d[i] == crates[i]);
        assert forall|j: int| i < j < d.len() implies #[trigger] d[j].name@ != d[i].name@ by {
            assert(d[j] == crates[j]);
        }
        law_features_of_crate(d, i);
    }
}

/// No features are found for a name that no crate has.
pub proof fn law_features_of_unknown(crates: Seq<CrateInfo>, name: Seq<char>)
    requires
        forall|j: int| 0 <= j < crates.len() ==> #[trigger] crates[j].name@ != name,
    ensures
        features_of(crates, name) is None,
    decreases crates.len(),
{
    if crates.len() > 0 {
        let d = crates.drop_last();
        assert(crates[crates.len() - 1].name@ != name);
        assert forall|j: int| 0 <= j < d.len() implies #[trigger] d[j].name@ != name by {
            assert(d[j] == crates[j]);
        }
        law_features_of_unknown(d, name);
    }
}

/// A dependency whose crate lists a feature is among the dependencies that
/// have it, wherever that crate stands in the list.
pub proof fn law_dependency_with_feature_is_found(
    deps: Seq<Seq<char>>,
    crates: Seq<CrateInfo>,
    i: int,
    f: Seq<char>,
)
    requires
        0 <= i < crates.len(),
        forall|j: int| i < j < crates.len() ==> #[trigger] crates[j].name@ != crates[i].name@,
        deps.contains(crates[i].name@),
        texts(crates[i].features@).contains(f),
    ensures
        deps_having(deps, crates, f).contains(crates[i].name@),
{
    law_features_of_crate(crates, i);
    lemma_deps_having(deps, crates, f, crates[i].name@);
}

/// The elements kept of a `features` array are exactly those that do not
/// name a feature to propagate, in their order.
pub proof fn law_without_targets_keeps_the_others(e: Seq<Option<Seq<char>>>, targets: Seq<Seq<char>>)
    ensures
        without_targets(e, targets) == e.filter(not_target(targets)),
    decreases e.len(),
{
    reveal_with_fuel(Seq::filter, 2);
    if e.len() > 0 {
        law_without_targets_keeps_the_others(e.drop_first(), targets);
        let head = seq![e[0]];
        Seq::filter_distributes_over_add(head, e.drop_first(), not_target(targets));
        assert(head + e.drop_first() =~= e);
        assert(head.drop_last() =~= Seq::<Option<Seq<char>>>::empty());
        assert(head.last() == e[0]);
        if is_target_feature(e[0], targets) {
            assert(head.filter(not_target(targets)) =~= Seq::<Option<Seq<char>>>::empty());
            assert(Seq::<Option<Seq<char>>>::empty() + e.drop_first().filter(not_target(targets))
                =~= e.drop_first().filter(not_target(targets)));
        } else {
            assert(head.filter(not_target(targets)) =~= head);
        }
    }
}

/// The offset of the first character that is not white space, and what
/// `trim_start` leaves: the text from there on.
pub proof fn lemma_trim_start_at(s: Seq<char>) -> (i: int)
    ensures
        0 <= i <= s.len(),
        trim_start(s) == s.subrange(i, s.len() as int),
        forall|k: int| 0 <= k < i ==> is_white_space(#[trigger] s[k]),
        i < s.len() ==> !is_white_space(s[i]),
    decreases s.len(),
{
    if s.len() > 0 && is_white_space(s[0]) {
        let i0 = lemma_trim_start_at(s.drop_first());
        assert(s.drop_first().subrange(i0, s.drop_first().len() as int) =~= s.subrange(
            i0 + 1,
            s.len() as int,
        ));
        assert forall|k: int| 0 <= k < i0 + 1 implies is_white_space(#[trigger] s[k]) by {
            if k > 0 {
                assert(s[k] == s.drop_first()[k - 1]);
            }
        }
        if i0 + 1 < s.len() {
            assert(s[i0 + 1] == s.drop_first()[i0]);
        }
        i0 + 1
    } else {
        assert(s.subrange(0, s.len() as int) =~= s);
        0
    }
}

/// The length that `trim_end` keeps: everything after it is white space,
/// and the last character kept is not.
pub proof fn lemma_trim_end_at(s: Seq<char>) -> (j: int)
    ensures
        0 <= j <= s.len(),
        trim_end(s) == s.subrange(0, j),
        forall|k: int| j <= k < s.len() ==> is_white_space(#[trigger] s[k]),
        j > 0 ==> !is_white_space(s[j - 1]),
    decreases s.len(),
{
    if s.len() > 0 && is_white_space(s.last()) {
        let j0 = lemma_trim_end_at(s.drop_last());
        assert(s.drop_last().subrange(0, j0) =~= s.subrange(0, j0));
        assert forall|k: int| j0 <= k < s.len() implies is_white_space(#[trigger] s[k]) by {
            if k < s.len() - 1 {
                assert(s[k] == s.drop_last()[k]);
            }
        }
        if j0 > 0 {
            assert(s[j0 - 1] == s.drop_last()[j0 - 1]);
        }
        j0
    } else {
        assert(s.subrange(0, s.len() as int) =~= s);
        s.len() as int
    }
}

/// `trim` takes off all the white space at both ends and nothing else: what
/// it leaves is a contiguous part of the text, everything before and after
/// that part is white space, and the part neither starts nor ends with white
/// space.
pub proof fn law_trim_takes_all_white_space(s: Seq<char>)
    ensures
        exists|i: int, j: int|
            #![trigger s.subrange(i, j)]
            0 <= i <= j <= s.len() && trim(s) == s.subrange(i, j) && (forall|k: int|
                0 <= k < i ==> is_white_space(#[trigger] s[k])) && (forall|k: int|
                j <= k < s.len() ==> is_white_space(#[trigger] s[k])),
        trim(s).len() > 0 ==> !is_white_space(trim(s)[0]) && !is_white_space(trim(s).last()),
{
    let i = lemma_trim_start_at(s);
    let u = s.subrange(i, s.len() as int);
    let j = lemma_trim_end_at(u);
    assert(u.subrange(0, j) =~= s.subrange(i, i + j));
    assert forall|k: int| i + j <= k < s.len() implies is_white_space(#[trigger] s[k]) by {
        assert(s[k] == u[k - i]);
    }
    if trim(s).len() > 0 {
        assert(trim(s)[0] == s[i]);
        assert(trim(s).last() == u[j - 1]);
    }
    assert(trim(s) == s.subrange(i, i + j));
}

/// Each feature named on the command line neither starts nor ends with
/// white space, and each trimmed piece between commas is named.
pub proof fn law_feature_list_trimmed(text: Seq<char>, x: Seq<char>)
    ensures
        feature_list(text).contains(x) ==> (x.len() > 0 ==> !is_white_space(x[0])
            && !is_white_space(x.last())),
        forall|k: int|
            0 <= k < split_commas(text).len() ==> feature_list(text).contains(
                trim(#[trigger] split_commas(text)[k]),
            ),
{
    let pieces = split_commas(text).map_values(|p: Seq<char>| trim(p));
    lemma_distinct_props(pieces);
    assert(feature_list(text) == distinct(pieces));
    if feature_list(text).contains(x) {
        assert(distinct(pieces).contains(x));
        assert(pieces.contains(x));
        let k = choose|k: int| 0 <= k < pieces.len() && pieces[k] == x;
        law_trim_takes_all_white_space(split_commas(text)[k]);
    }
    assert forall|k: int| 0 <= k < split_commas(text).len() implies feature_list(text).contains(
        trim(#[trigger] split_commas(text)[k]),
    ) by {
        assert(pieces[k] == trim(split_commas(text)[k]));
        assert(pieces.contains(pieces[k]));
        assert(distinct(pieces).contains(pieces[k]));
    }
}

/// The workspace's member names are exactly the packages' names, as they
/// are: each crate's name is among them, and each of them is some crate's
/// name.
pub proof fn law_member_names_are_package_names(crates: Seq<CrateInfo>)
    ensures
        forall|i: int|
            0 <= i < crates.len() ==> distinct(crate_names(crates)).contains(#[trigger] crates[i].name@),
        forall|x: Seq<char>|
            #[trigger] distinct(crate_names(crates)).contains(x) ==> exists|i: int|
                0 <= i < crates.len() && #[trigger] crates[i].name@ == x,
{
    lemma_distinct_props(crate_names(crates));
    assert forall|i: int| 0 <= i < crates.len() implies distinct(crate_names(crates)).contains(
        #[trigger] crates[i].name@,
    ) by {
        assert(crate_names(crates)[i] == crates[i].name@);
        assert(crate_names(crates).contains(crates[i].name@));
        assert(distinct(crate_names(crates)).contains(crates[i].name@));
    }
    assert forall|x: Seq<char>| #[trigger] distinct(crate_names(crates)).contains(x) implies exists|
        i: int,
    | 0 <= i < crates.len() && #[trigger] crates[i].name@ == x by {
        assert(crate_names(crates).contains(x));
        let i = choose|i: int| 0 <= i < crate_names(crates).len() && crate_names(crates)[i] == x;
        assert(crates[i].name@ == x);
    }
}

/// The entry that names a dependency's feature is, character for
/// character, the dependency's name as given, a slash, and the feature.
pub proof fn law_dependency_feature_text(dep: Seq<char>, feature: Seq<char>)
    ensures
        dep_feature(dep, feature).len() == dep.len() + 1 + feature.len(),
        dep_feature(dep, feature).take(dep.len() as int) == dep,
        dep_feature(dep, feature)[dep.len() as int] == '/',
        dep_feature(dep, feature).skip(dep.len() as int + 1) == feature,
{
    reveal_strlit("/");
    let t = dep_feature(dep, feature);
    assert(t.take(dep.len() as int) =~= dep);
    assert(t.skip(dep.len() as int + 1) =~= feature);
}

} // verus!
