//! A crate's manifest as a parsed TOML document, and the places in it where
//! the dependencies of the crate are listed.

use vstd::prelude::*;
use vstd::string::*;
use toml_edit::DocumentMut;
use crate::propagate::{adds, crate_plan, propagate_crate, propagate_where, writes_feature};
use crate::strings::texts;
use crate::workspace::CrateInfo;
use crate::strings::pair_texts;
use crate::strip::{
    pass_sites, strip_all, strip_table, strip_targets, strip_where, strips_at, table_report,
    table_sites,
    target_sites, target_table, targets_report, StripReport,
};
use crate::toml_model::{
    array_at, is_array_at, lists_keys_of, node_at_2, node_at_3, node_at_4, node_at_5,
    node_view, parse_document, path2, path3, path4, path5, remove_array_element_3,
    remove_array_element_5, remove_inline_key_3, remove_inline_key_5, render_document, table_keys_1,
    table_keys_3, toml_items, toml_parse, toml_text, KeyPath, NodeKind, TomlNode, key_text_2,
    key_text_4, toml_key_order, toml_key_text, toml_arrays_hold_values, toml_values, empty_document,
};

verus! {

/// Why a manifest could not be read.
#[derive(Debug)]
pub enum ManifestError {
    /// The text is not a TOML document; the parser's message.
    Parse(String),
}

/// A crate's `Cargo.toml`, parsed into a document that the passes edit in
/// place.
pub struct Manifest {
    doc: DocumentMut,
}

impl View for Manifest {
    type V = Map<KeyPath, TomlNode>;

    closed spec fn view(&self) -> Map<KeyPath, TomlNode> {
        toml_items(self.doc)
    }
}

impl Manifest {
    /// Every array of the manifest holds only values, as the parser and the
    /// edits of the passes leave it.
    #[verifier::type_invariant]
    closed spec fn arrays_hold_values(self) -> bool {
        toml_arrays_hold_values(self.doc)
    }

    /// The text that the manifest renders to.
    pub closed spec fn text(&self) -> Seq<char> {
        toml_text(self.doc)
    }

    /// Parses a manifest's text.
    pub fn parse(text: &str) -> (r: Result<Manifest, ManifestError>)
        ensures
            match r {
                Ok(m) => toml_parse(text@) == Some(m@),
                Err(_) => toml_parse(text@) is None,
            },
    {
        match parse_document(text) {
            Ok(doc) => Ok(Manifest { doc }),
            Err(msg) => Err(ManifestError::Parse(msg)),
        }
    }

    /// The text of the last key of each key path, as the manifest writes
    /// it: quotes, where the key is quoted, included.
    pub closed spec fn key_texts(&self) -> Map<KeyPath, Seq<char>> {
        toml_key_text(self.doc)
    }

    /// The keys of each table, in the order of the manifest.
    pub closed spec fn key_order(&self) -> Map<KeyPath, Seq<Seq<char>>> {
        toml_key_order(self.doc)
    }

    /// Each item that is not a table, as the manifest writes it: values
    /// such as `workspace = true` or `version = "1"`, and arrays.
    pub closed spec fn values(&self) -> Map<KeyPath, Seq<char>> {
        toml_values(self.doc)
    }

    /// Takes the features to propagate out of the `features` arrays of the
    /// workspace dependencies of the top-level table `section`; gives the
    /// key texts of the dependencies so changed, in the table's order, which
    /// lists each key of the table once. Nothing else changes: no other item,
    /// no value outside the arrays it strips, no key text outside them, no
    /// order of keys but that within dependency entries. Where none changed, the
    /// manifest is left exactly as it was.
    pub fn remove_hardcoded_features(
        &mut self,
        section: &str,
        targets: &Vec<String>,
        members: &Vec<String>,
    ) -> (r: Vec<String>)
        ensures
            final(self)@ == strip_where(
                old(self)@,
                old(self).key_texts(),
                table_sites(old(self)@, seq![section@]),
                texts(targets@),
                texts(members@),
            ),
            texts(r@) == table_report(
                old(self)@,
                old(self).key_texts(),
                old(self).key_order(),
                seq![section@],
                texts(targets@),
                texts(members@),
            ),
            forall|q: KeyPath|
                !table_sites(old(self)@, seq![section@])(q) ==> #[trigger] final(self).key_texts().get(
                    q,
                ) == old(self).key_texts().get(q),
            forall|q: KeyPath|
                !(table_sites(old(self)@, seq![section@])(q) && strips_at(
                    old(self)@,
                    old(self).key_texts(),
                    q,
                    texts(targets@),
                    texts(members@),
                )) ==> #[trigger] final(self).values().get(q) == old(self).values().get(q),
            forall|q: KeyPath|
                q.len() != 2 && q.len() != 4 ==> #[trigger] final(self).key_order().get(q)
                    == old(self).key_order().get(q),
            table_reached(old(self)@, seq![section@]) ==> (old(self).key_order().get(seq![section@])
                matches Some(ks) && lists_table_keys(ks, old(self)@, seq![section@])),
            r.len() == 0 ==> *final(self) == *old(self),
    {
        proof {
            use_type_invariant(&*self);
        }
        let t = DepTable::Section(String::from_str(section));
        assert(table_path(t) =~= seq![section@]);
        let mut doc = empty_document();
        std::mem::swap(&mut doc, &mut self.doc);
        let r = strip_table(&mut doc, &t, targets, members);
        std::mem::swap(&mut doc, &mut self.doc);
        r
    }

    /// The same for the dependency tables of every target,
    /// `[target.<name>.dependencies]`; gives the key texts of target and
    /// dependency so changed, in the order of the tables. Nothing else
    /// changes, as with `remove_hardcoded_features`. Where none changed, the
    /// manifest is left exactly as it was.
    pub fn remove_hardcoded_target_features(
        &mut self,
        targets: &Vec<String>,
        members: &Vec<String>,
    ) -> (r: Vec<(String, String)>)
        ensures
            final(self)@ == strip_where(
                old(self)@,
                old(self).key_texts(),
                target_sites(old(self)@),
                texts(targets@),
                texts(members@),
            ),
            pair_texts(r@) == targets_report(
                old(self)@,
                old(self).key_texts(),
                old(self).key_order(),
                texts(targets@),
                texts(members@),
            ),
            forall|q: KeyPath|
                !target_sites(old(self)@)(q) ==> #[trigger] final(self).key_texts().get(q)
                    == old(self).key_texts().get(q),
            forall|q: KeyPath|
                !(target_sites(old(self)@)(q) && strips_at(
                    old(self)@,
                    old(self).key_texts(),
                    q,
                    texts(targets@),
                    texts(members@),
                )) ==> #[trigger] final(self).values().get(q) == old(self).values().get(q),
            forall|q: KeyPath|
                q.len() != 2 && q.len() != 4 ==> #[trigger] final(self).key_order().get(q)
                    == old(self).key_order().get(q),
            r.len() == 0 ==> *final(self) == *old(self),
            old(self)@.get(seq!["target"@]) == Some(TomlNode::Table) ==> (old(self).key_order().get(
                seq!["target"@],
            ) matches Some(ns) && lists_table_keys(ns, old(self)@, seq!["target"@])),
            forall|n: Seq<char>|
                #[trigger] table_reached(old(self)@, target_table(n)) ==> (old(self).key_order().get(
                    target_table(n),
                ) matches Some(ks) && lists_table_keys(ks, old(self)@, target_table(n))),
    {
        proof {
            use_type_invariant(&*self);
        }
        let mut doc = empty_document();
        std::mem::swap(&mut doc, &mut self.doc);
        let r = strip_targets(&mut doc, targets, members);
        std::mem::swap(&mut doc, &mut self.doc);
        r
    }

    /// The first pass: `[dependencies]`, `[dev-dependencies]`, then the
    /// target tables. Nothing else changes, as with
    /// `remove_hardcoded_features`. Where nothing changed, the manifest is
    /// left exactly as it was.
    pub fn strip_hardcoded_features(&mut self, targets: &Vec<String>, members: &Vec<String>) -> (r:
        StripReport)
        ensures
            final(self)@ == strip_where(
                old(self)@,
                old(self).key_texts(),
                pass_sites(old(self)@),
                texts(targets@),
                texts(members@),
            ),
            texts(r.dependencies@) == table_report(
                old(self)@,
                old(self).key_texts(),
                old(self).key_order(),
                seq!["dependencies"@],
                texts(targets@),
                texts(members@),
            ),
            texts(r.dev_dependencies@) == table_report(
                old(self)@,
                old(self).key_texts(),
                old(self).key_order(),
                seq!["dev-dependencies"@],
                texts(targets@),
                texts(members@),
            ),
            pair_texts(r.targets@) == targets_report(
                old(self)@,
                old(self).key_texts(),
                old(self).key_order(),
                texts(targets@),
                texts(members@),
            ),
            forall|q: KeyPath|
                !pass_sites(old(self)@)(q) ==> #[trigger] final(self).key_texts().get(q)
                    == old(self).key_texts().get(q),
            forall|q: KeyPath|
                q.len() != 2 && q.len() != 4 ==> #[trigger] final(self).key_order().get(q)
                    == old(self).key_order().get(q),
            forall|q: KeyPath|
                !(pass_sites(old(self)@)(q) && strips_at(
                    old(self)@,
                    old(self).key_texts(),
                    q,
                    texts(targets@),
                    texts(members@),
                )) ==> #[trigger] final(self).values().get(q) == old(self).values().get(q),
            r.dependencies.len() == 0 && r.dev_dependencies.len() == 0 && r.targets.len() == 0
                ==> *final(self) == *old(self),
            table_reached(old(self)@, seq!["dependencies"@]) ==> (old(self).key_order().get(
                seq!["dependencies"@],
            ) matches Some(ks) && lists_table_keys(ks, old(self)@, seq!["dependencies"@])),
            table_reached(old(self)@, seq!["dev-dependencies"@]) ==> (old(self).key_order().get(
                seq!["dev-dependencies"@],
            ) matches Some(ks) && lists_table_keys(ks, old(self)@, seq!["dev-dependencies"@])),
            old(self)@.get(seq!["target"@]) == Some(TomlNode::Table) ==> (old(self).key_order().get(
                seq!["target"@],
            ) matches Some(ns) && lists_table_keys(ns, old(self)@, seq!["target"@])),
            forall|n: Seq<char>|
                #[trigger] table_reached(old(self)@, target_table(n)) ==> (old(self).key_order().get(
                    target_table(n),
                ) matches Some(ks) && lists_table_keys(ks, old(self)@, target_table(n))),
    {
        proof {
            use_type_invariant(&*self);
        }
        let mut doc = empty_document();
        std::mem::swap(&mut doc, &mut self.doc);
        let r = strip_all(&mut doc, targets, members);
        std::mem::swap(&mut doc, &mut self.doc);
        r
    }

    /// The second pass for the crate of this manifest: each feature that is
    /// to be propagated and that the crate has, where the feature table
    /// lists it as an array, gets `dep/feature` for each workspace
    /// dependency whose crate has the feature too, unless the array lists it
    /// already. Gives the pairs of feature and entry added. Nothing but those
    /// arrays changes.
    pub fn propagate_crate_features(
        &mut self,
        c: &CrateInfo,
        crates: &Vec<CrateInfo>,
        targets: &Vec<String>,
    ) -> (r: Vec<(String, String)>)
        ensures
            final(self)@ == propagate_where(old(self)@, crate_plan(*c, crates@, texts(targets@))),
            pair_texts(r@).no_duplicates(),
            forall|f: Seq<char>, v: Seq<char>|
                #![trigger pair_texts(r@).contains((f, v))]
                pair_texts(r@).contains((f, v)) <==> adds(
                    old(self)@,
                    crate_plan(*c, crates@, texts(targets@)),
                    f,
                    v,
                ),
            final(self).key_texts() == old(self).key_texts(),
            final(self).key_order() == old(self).key_order(),
            forall|q: KeyPath|
                !(q.len() == 2 && q[0] == "features"@ && writes_feature(old(self)@, q[1]))
                    ==> #[trigger] final(self).values().get(q) == old(self).values().get(q),
            r.len() == 0 ==> *final(self) == *old(self),
    {
        proof {
            use_type_invariant(&*self);
        }
        let mut doc = empty_document();
        std::mem::swap(&mut doc, &mut self.doc);
        let r = propagate_crate(&mut doc, c, crates, targets);
        std::mem::swap(&mut doc, &mut self.doc);
        r
    }

    /// The manifest's text, with the edits made so far.
    pub fn render(&self) -> (r: String)
        ensures
            r@ == self.text(),
    {
        render_document(&self.doc)
    }
}

/// A table of dependencies in a manifest.
pub enum DepTable {
    /// A top-level table such as `[dependencies]`, by its key.
    Section(String),
    /// The `[target.<name>.dependencies]` table of a target, by its name.
    Target(String),
}

/// The key path of a dependency table.
pub open spec fn table_path(t: DepTable) -> KeyPath {
    match t {
        DepTable::Section(s) => seq![s@],
        DepTable::Target(name) => seq!["target"@, name@, "dependencies"@],
    }
}

/// A dependency table is read where it is a `[header]` table, reached
/// through `[header]` tables.
pub open spec fn table_reached(items: Map<KeyPath, TomlNode>, tp: KeyPath) -> bool {
    &&& items.get(tp) == Some(TomlNode::Table)
    &&& tp.len() == 3 ==> items.get(tp.take(1)) == Some(TomlNode::Table)
}

/// `ks` lists the keys of the table at `tp`, each once.
pub open spec fn lists_table_keys(ks: Seq<Seq<char>>, items: Map<KeyPath, TomlNode>, tp: KeyPath) -> bool {
    &&& ks.no_duplicates()
    &&& forall|k: Seq<char>|
        #![trigger ks.contains(k)]
        #![trigger items.contains_key(tp.push(k))]
        ks.contains(k) <==> items.contains_key(tp.push(k))
}

/// The path of the `features` key of a dependency in a table.
pub open spec fn dep_features_path(tp: KeyPath, dep: Seq<char>) -> KeyPath {
    tp.push(dep).push("features"@)
}

/// The path of the `workspace` key of a dependency in a table.
pub open spec fn dep_workspace_path(tp: KeyPath, dep: Seq<char>) -> KeyPath {
    tp.push(dep).push("workspace"@)
}

/// The keys of a dependency table, where it is read.
pub(crate) fn dep_table_keys(doc: &DocumentMut, t: &DepTable) -> (r: Option<Vec<String>>)
    ensures
        r is Some <==> table_reached(toml_items(*doc), table_path(*t)),
        r matches Some(ks) ==> lists_keys_of(ks@, toml_items(*doc), table_path(*t)),
        r matches Some(ks) ==> toml_key_order(*doc).get(table_path(*t)) == Some(
            ks@.map_values(|k: String| k@),
        ),
{
    match t {
        DepTable::Section(s) => table_keys_1(doc, s.as_str()),
        DepTable::Target(name) => {
            let r = table_keys_3(doc, "target", name.as_str(), "dependencies");
            proof {
                assert(seq!["target"@, name@, "dependencies"@].take(1) =~= seq!["target"@]);
            }
            r
        },
    }
}

/// The text of a dependency's key, as its table writes it.
pub(crate) fn dep_key_text(doc: &DocumentMut, t: &DepTable, dep: &str) -> (r: Option<String>)
    ensures
        (table_reached(toml_items(*doc), table_path(*t)) && toml_items(*doc).contains_key(
            table_path(*t).push(dep@),
        )) ==> r is Some,
        toml_items(*doc).contains_key(table_path(*t).push(dep@)) ==> (r matches Some(x)
            ==> toml_key_text(*doc).get(table_path(*t).push(dep@)) == Some(x@)),
{
    match t {
        DepTable::Section(s) => {
            assert(seq![s@].push(dep@) =~= path2(s@, dep@));
            key_text_2(doc, s.as_str(), dep)
        },
        DepTable::Target(name) => {
            assert(seq!["target"@, name@, "dependencies"@].push(dep@) =~= path4(
                "target"@,
                name@,
                "dependencies"@,
                dep@,
            ));
            assert(seq!["target"@, name@, "dependencies"@].take(1) =~= seq!["target"@]);
            key_text_4(doc, "target", name.as_str(), "dependencies", dep)
        },
    }
}

/// The item of a dependency in a table.
pub(crate) fn dep_node(doc: &DocumentMut, t: &DepTable, dep: &str) -> (r: Option<NodeKind>)
    ensures
        node_view(r) == toml_items(*doc).get(table_path(*t).push(dep@)),
{
    match t {
        DepTable::Section(s) => {
            let r = node_at_2(doc, s.as_str(), dep);
            assert(seq![s@].push(dep@) =~= path2(s@, dep@));
            r
        },
        DepTable::Target(name) => {
            let r = node_at_4(doc, "target", name.as_str(), "dependencies", dep);
            assert(seq!["target"@, name@, "dependencies"@].push(dep@) =~= path4(
                "target"@,
                name@,
                "dependencies"@,
                dep@,
            ));
            r
        },
    }
}

/// The item under a key of a dependency's inline table.
pub(crate) fn dep_key_node(doc: &DocumentMut, t: &DepTable, dep: &str, key: &str) -> (r: Option<
    NodeKind,
>)
    ensures
        node_view(r) == toml_items(*doc).get(table_path(*t).push(dep@).push(key@)),
{
    match t {
        DepTable::Section(s) => {
            let r = node_at_3(doc, s.as_str(), dep, key);
            assert(seq![s@].push(dep@).push(key@) =~= path3(s@, dep@, key@));
            r
        },
        DepTable::Target(name) => {
            let r = node_at_5(doc, "target", name.as_str(), "dependencies", dep, key);
            assert(seq!["target"@, name@, "dependencies"@].push(dep@).push(key@) =~= path5(
                "target"@,
                name@,
                "dependencies"@,
                dep@,
                key@,
            ));
            r
        },
    }
}

/// Removes one element of a dependency's `features` array.
pub(crate) fn remove_dep_feature(doc: &mut DocumentMut, t: &DepTable, dep: &str, idx: usize)
    requires
        is_array_at(toml_items(*old(doc)), dep_features_path(table_path(*t), dep@)),
        idx < array_at(toml_items(*old(doc)), dep_features_path(table_path(*t), dep@)).len(),
        toml_arrays_hold_values(*old(doc)),
    ensures
        toml_arrays_hold_values(*final(doc)),
        forall|q: KeyPath|
            q != dep_features_path(table_path(*t), dep@) ==> #[trigger] toml_values(*final(doc)).get(q)
                == toml_values(*old(doc)).get(q),
        toml_items(*final(doc)) == toml_items(*old(doc)).insert(
            dep_features_path(table_path(*t), dep@),
            TomlNode::Array(
                array_at(toml_items(*old(doc)), dep_features_path(table_path(*t), dep@)).remove(
                    idx as int,
                ),
            ),
        ),
        toml_key_text(*final(doc)) == toml_key_text(*old(doc)),
        toml_key_order(*final(doc)) == toml_key_order(*old(doc)),
{
    match t {
        DepTable::Section(s) => {
            assert(dep_features_path(table_path(*t), dep@) =~= path3(s@, dep@, "features"@));
            remove_array_element_3(doc, s.as_str(), dep, "features", idx);
        },
        DepTable::Target(name) => {
            assert(dep_features_path(table_path(*t), dep@) =~= path5(
                "target"@,
                name@,
                "dependencies"@,
                dep@,
                "features"@,
            ));
            remove_array_element_5(doc, "target", name.as_str(), "dependencies", dep, "features", idx);
        },
    }
}

/// Removes the `features` key of a dependency's inline table.
pub(crate) fn remove_dep_features_key(doc: &mut DocumentMut, t: &DepTable, dep: &str)
    requires
        toml_items(*old(doc)).get(table_path(*t).push(dep@)) == Some(TomlNode::InlineTable),
        is_array_at(toml_items(*old(doc)), dep_features_path(table_path(*t), dep@)),
    ensures
        toml_items(*final(doc)) == toml_items(*old(doc)).remove(
            dep_features_path(table_path(*t), dep@),
        ),
        toml_key_text(*final(doc)) == toml_key_text(*old(doc)).remove(
            dep_features_path(table_path(*t), dep@),
        ),
        toml_values(*final(doc)) == toml_values(*old(doc)).remove(
            dep_features_path(table_path(*t), dep@),
        ),
        toml_arrays_hold_values(*old(doc)) ==> toml_arrays_hold_values(*final(doc)),
        forall|q: KeyPath|
            q != table_path(*t).push(dep@) ==> #[trigger] toml_key_order(*final(doc)).get(q)
                == toml_key_order(*old(doc)).get(q),
{
    match t {
        DepTable::Section(s) => {
            assert(dep_features_path(table_path(*t), dep@) =~= path3(s@, dep@, "features"@));
            assert(table_path(*t).push(dep@) =~= path2(s@, dep@));
            remove_inline_key_3(doc, s.as_str(), dep, "features");
        },
        DepTable::Target(name) => {
            assert(dep_features_path(table_path(*t), dep@) =~= path5(
                "target"@,
                name@,
                "dependencies"@,
                dep@,
                "features"@,
            ));
            assert(table_path(*t).push(dep@) =~= path4(
                "target"@,
                name@,
                "dependencies"@,
                dep@,
            ));
            remove_inline_key_5(doc, "target", name.as_str(), "dependencies", dep, "features");
        },
    }
}

} // verus!
