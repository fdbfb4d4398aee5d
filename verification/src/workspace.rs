//! The crates of a workspace as the propagation sees them: each with its
//! name, its features and the workspace members it depends on.

use vstd::prelude::*;
use crate::strings::{contains_text, distinct, lemma_distinct_props, texts};

verus! {

/// A crate of the workspace.
pub struct CrateInfo {
    pub name: String,
    /// The features that its manifest defines; `new` lists each once.
    pub features: Vec<String>,
    /// The crates that it depends on; `new` lists each once.
    pub dependencies: Vec<String>,
}

impl CrateInfo {
    /// No feature and no dependency is listed twice.
    pub open spec fn well_formed(&self) -> bool {
        &&& texts(self.features@).no_duplicates()
        &&& texts(self.dependencies@).no_duplicates()
    }
}

/// The elements of `s` that are in `set`, in their order.
pub open spec fn members_of(s: Seq<Seq<char>>, set: Seq<Seq<char>>) -> Seq<Seq<char>>
    decreases s.len(),
{
    if s.len() == 0 {
        s
    } else {
        let r = members_of(s.drop_last(), set);
        if set.contains(s.last()) {
            r.push(s.last())
        } else {
            r
        }
    }
}

/// The names of a list of crates.
pub open spec fn crate_names(crates: Seq<CrateInfo>) -> Seq<Seq<char>> {
    crates.map_values(|c: CrateInfo| c.name@)
}

/// The features of the crate of a given name; where two crates have that
/// name, the later one's.
pub open spec fn features_of(crates: Seq<CrateInfo>, name: Seq<char>) -> Option<Seq<Seq<char>>>
    decreases crates.len(),
{
    if crates.len() == 0 {
        None
    } else if crates.last().name@ == name {
        Some(texts(crates.last().features@))
    } else {
        features_of(crates.drop_last(), name)
    }
}

/// Whether the crate of a given name has a feature.
pub open spec fn has_feature(crates: Seq<CrateInfo>, name: Seq<char>, f: Seq<char>) -> bool {
    features_of(crates, name) matches Some(fs) && fs.contains(f)
}

/// The dependencies, in their order, whose crates have the feature `f`.
pub open spec fn deps_having(deps: Seq<Seq<char>>, crates: Seq<CrateInfo>, f: Seq<char>) -> Seq<
    Seq<char>,
>
    decreases deps.len(),
{
    if deps.len() == 0 {
        deps
    } else {
        let r = deps_having(deps.drop_last(), crates, f);
        if has_feature(crates, deps.last(), f) {
            r.push(deps.last())
        } else {
            r
        }
    }
}

/// The features to propagate that a crate has, in the order of `targets`,
/// each once.
pub open spec fn shared_features(targets: Seq<Seq<char>>, features: Seq<Seq<char>>) -> Seq<
    Seq<char>,
> {
    distinct(members_of(targets, features))
}

/// Copies of strings.
pub fn copy_strings(v: &Vec<String>) -> (r: Vec<String>)
    ensures
        texts(r@) == texts(v@),
{
    let mut r: Vec<String> = Vec::new();
    let mut i: usize = 0;
    while i < v.len()
        invariant
            0 <= i <= v.len(),
            texts(r@) == texts(v@).take(i as int),
        decreases v.len() - i,
    {
        r.push(v[i].clone());
        proof {
            assert(texts(v@).take(i + 1) =~= texts(v@).take(i as int).push(v@[i as int]@));
            assert(texts(r@) =~= texts(v@).take(i + 1));
        }
        i = i + 1;
    }
    assert(texts(v@).take(i as int) =~= texts(v@));
    r
}

/// Each string once, in the order of first occurrence.
pub fn distinct_strings(v: &Vec<String>) -> (r: Vec<String>)
    ensures
        texts(r@) == distinct(texts(v@)),
        texts(r@).no_duplicates(),
{
    let mut r: Vec<String> = Vec::new();
    let mut i: usize = 0;
    assert(texts(v@).take(0) =~= Seq::<Seq<char>>::empty());
    while i < v.len()
        invariant
            0 <= i <= v.len(),
            texts(r@) == distinct(texts(v@).take(i as int)),
        decreases v.len() - i,
    {
        proof {
            assert(texts(v@).take(i + 1).drop_last() =~= texts(v@).take(i as int));
            assert(texts(v@).take(i + 1).last() == v@[i as int]@);
        }
        if !contains_text(&r, &v[i]) {
            r.push(v[i].clone());
            assert(texts(r@) =~= distinct(texts(v@).take(i as int)).push(v@[i as int]@));
        }
        i = i + 1;
    }
    assert(texts(v@).take(i as int) =~= texts(v@));
    proof {
        lemma_distinct_props(texts(v@));
    }
    r
}

/// The elements of `v` that are in `set`, in their order.
pub fn retain_members(v: &Vec<String>, set: &Vec<String>) -> (r: Vec<String>)
    ensures
        texts(r@) == members_of(texts(v@), texts(set@)),
{
    let mut r: Vec<String> = Vec::new();
    let mut i: usize = 0;
    assert(texts(v@).take(0) =~= Seq::<Seq<char>>::empty());
    while i < v.len()
        invariant
            0 <= i <= v.len(),
            texts(r@) == members_of(texts(v@).take(i as int), texts(set@)),
        decreases v.len() - i,
    {
        proof {
            assert(texts(v@).take(i + 1).drop_last() =~= texts(v@).take(i as int));
            assert(texts(v@).take(i + 1).last() == v@[i as int]@);
        }
        if contains_text(set, &v[i]) {
            r.push(v[i].clone());
            assert(texts(r@) =~= members_of(texts(v@).take(i as int), texts(set@)).push(
                v@[i as int]@,
            ));
        }
        i = i + 1;
    }
    assert(texts(v@).take(i as int) =~= texts(v@));
    r
}

impl CrateInfo {
    /// A crate with the given name, features and dependencies, each kept
    /// once.
    pub fn new(name: String, features: Vec<String>, dependencies: Vec<String>) -> (r: CrateInfo)
        ensures
            r.name@ == name@,
            texts(r.features@) == distinct(texts(features@)),
            texts(r.dependencies@) == distinct(texts(dependencies@)),
            r.well_formed(),
    {
        proof {
            lemma_distinct_props(texts(features@));
            lemma_distinct_props(texts(dependencies@));
        }
        CrateInfo {
            name,
            features: distinct_strings(&features),
            dependencies: distinct_strings(&dependencies),
        }
    }
}

/// The names of the workspace's packages, each once.
pub fn workspace_package_names(crates: &Vec<CrateInfo>) -> (r: Vec<String>)
    ensures
        texts(r@) == distinct(crate_names(crates@)),
        texts(r@).no_duplicates(),
{
    let mut names: Vec<String> = Vec::new();
    let mut i: usize = 0;
    while i < crates.len()
        invariant
            0 <= i <= crates.len(),
            texts(names@) == crate_names(crates@).take(i as int),
        decreases crates.len() - i,
    {
        names.push(crates[i].name.clone());
        proof {
            assert(crate_names(crates@).take(i + 1) =~= crate_names(crates@).take(i as int).push(
                crates@[i as int].name@,
            ));
            assert(texts(names@) =~= crate_names(crates@).take(i + 1));
        }
        i = i + 1;
    }
    assert(crate_names(crates@).take(i as int) =~= crate_names(crates@));
    distinct_strings(&names)
}

/// The crates with their dependencies narrowed to the workspace's
/// packages.
pub fn retain_workspace_dependencies(crates: &Vec<CrateInfo>, names: &Vec<String>) -> (r: Vec<
    CrateInfo,
>)
    ensures
        r.len() == crates.len(),
        forall|i: int|
            0 <= i < r.len() ==> {
                &&& (#[trigger] r@[i]).name@ == crates@[i].name@
                &&& texts(r@[i].features@) == texts(crates@[i].features@)
                &&& texts(r@[i].dependencies@) == members_of(
                    texts(crates@[i].dependencies@),
                    texts(names@),
                )
            },
{
    let mut r: Vec<CrateInfo> = Vec::new();
    let mut i: usize = 0;
    while i < crates.len()
        invariant
            0 <= i <= crates.len(),
            r.len() == i,
            forall|k: int|
                0 <= k < i ==> {
                    &&& (#[trigger] r@[k]).name@ == crates@[k].name@
                    &&& texts(r@[k].features@) == texts(crates@[k].features@)
                    &&& texts(r@[k].dependencies@) == members_of(
                        texts(crates@[k].dependencies@),
                        texts(names@),
                    )
                },
        decreases crates.len() - i,
    {
        let c = &crates[i];
        r.push(
            CrateInfo {
                name: c.name.clone(),
                features: copy_strings(&c.features),
                dependencies: retain_members(&c.dependencies, names),
            },
        );
        i = i + 1;
    }
    r
}

/// The features of the workspace crate of a given name.
pub fn feature_list_of<'a>(crates: &'a Vec<CrateInfo>, name: &String) -> (r: Option<&'a Vec<String>>)
    ensures
        match r {
            Some(fs) => features_of(crates@, name@) == Some(texts(fs@)),
            None => features_of(crates@, name@) is None,
        },
{
    let mut i = crates.len();
    assert(crates@.take(i as int) =~= crates@);
    while i > 0
        invariant
            0 <= i <= crates.len(),
            features_of(crates@, name@) == features_of(crates@.take(i as int), name@),
        decreases i,
    {
        let k = i - 1;
        assert(crates@.take(i as int).drop_last() =~= crates@.take(k as int));
        assert(crates@.take(i as int).last() == crates@[k as int]);
        if crates[k].name.eq(name) {
            return Some(&crates[k].features);
        }
        i = k;
    }
    None
}

/// The dependencies of a crate whose crates have the feature `f`.
pub fn deps_with_feature(c: &CrateInfo, crates: &Vec<CrateInfo>, f: &String) -> (r: Vec<String>)
    ensures
        texts(r@) == deps_having(texts(c.dependencies@), crates@, f@),
{
    let deps = &c.dependencies;
    let mut r: Vec<String> = Vec::new();
    let mut i: usize = 0;
    assert(texts(deps@).take(0) =~= Seq::<Seq<char>>::empty());
    while i < deps.len()
        invariant
            0 <= i <= deps.len(),
            texts(r@) == deps_having(texts(deps@).take(i as int), crates@, f@),
        decreases deps.len() - i,
    {
        proof {
            assert(texts(deps@).take(i + 1).drop_last() =~= texts(deps@).take(i as int));
            assert(texts(deps@).take(i + 1).last() == deps@[i as int]@);
        }
        let has = match feature_list_of(crates, &deps[i]) {
            Some(fs) => contains_text(fs, f),
            None => false,
        };
        if has {
            r.push(deps[i].clone());
            assert(texts(r@) =~= deps_having(texts(deps@).take(i as int), crates@, f@).push(
                deps@[i as int]@,
            ));
        }
        i = i + 1;
    }
    assert(texts(deps@).take(i as int) =~= texts(deps@));
    r
}

/// The features to propagate that a crate has, each once.
pub fn features_to_propagate(c: &CrateInfo, targets: &Vec<String>) -> (r: Vec<String>)
    ensures
        texts(r@) == shared_features(texts(targets@), texts(c.features@)),
        texts(r@).no_duplicates(),
        forall|f: Seq<char>|
            #![trigger texts(r@).contains(f)]
            texts(r@).contains(f) <==> (texts(targets@).contains(f) && texts(c.features@).contains(f)),
{
    let shared = retain_members(targets, &c.features);
    let r = distinct_strings(&shared);
    proof {
        lemma_distinct_props(members_of(texts(targets@), texts(c.features@)));
        lemma_members_of(texts(targets@), texts(c.features@));
        let m = members_of(texts(targets@), texts(c.features@));
        assert forall|f: Seq<char>| #![trigger texts(r@).contains(f)] texts(r@).contains(f) <==> (
        texts(targets@).contains(f) && texts(c.features@).contains(f)) by {
            assert(distinct(m).contains(f) <==> m.contains(f));
            assert(m.contains(f) <==> (texts(targets@).contains(f) && texts(c.features@).contains(
                f,
            )));
        }
    }
    r
}

pub proof fn lemma_members_of(s: Seq<Seq<char>>, set: Seq<Seq<char>>)
    ensures
        forall|x: Seq<char>| #[trigger] members_of(s, set).contains(x) <==> (s.contains(x) && set.contains(x)),
    decreases s.len(),
{
    if s.len() > 0 {
        lemma_members_of(s.drop_last(), set);
        let r = members_of(s.drop_last(), set);
        assert forall|x: Seq<char>| #[trigger] members_of(s, set).contains(x) <==> (s.contains(x)
            && set.contains(x)) by {
            if s.contains(x) && !s.drop_last().contains(x) {
                let i = choose|i: int| 0 <= i < s.len() && s[i] == x;
                if i < s.len() - 1 {
                    assert(s.drop_last()[i] == x);
                }
            }
            if s.drop_last().contains(x) {
                let i = choose|i: int| 0 <= i < s.drop_last().len() && s.drop_last()[i] == x;
                assert(s[i] == x);
            }
            if set.contains(s.last()) {
                assert(r.push(s.last())[r.len() as int] == s.last());
                if r.contains(x) {
                    let i = choose|i: int| 0 <= i < r.len() && r[i] == x;
                    assert(r.push(s.last())[i] == x);
                }
                if r.push(s.last()).contains(x) && x != s.last() {
                    let i = choose|i: int| 0 <= i < r.len() + 1 && r.push(s.last())[i] == x;
                    assert(r[i] == x);
                }
            }
        }
    }
}

} // verus!
