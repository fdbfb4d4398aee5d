//! The part of a TOML document that the propagation logic reads, as a map
//! from key paths to item kinds, and the calls into `toml_edit` that read
//! and edit a parsed document.

use vstd::prelude::*;
use toml_edit::{DocumentMut, Item, Value};

verus! {

/// A key path: the keys looked up one after the other from the root table.
pub type KeyPath = Seq<Seq<char>>;

/// The kind of an item that a key path reaches.
pub enum TomlNode {
    /// A `[header]` table, or an implicit table of dotted keys.
    Table,
    /// An inline table `{ .. }`.
    InlineTable,
    /// An inline array; each element is its text when it is a string.
    Array(Seq<Option<Seq<char>>>),
    /// Any other value or an array of tables.
    Other,
}

#[verifier::external_type_specification]
#[verifier::external_body]
pub struct ExDocumentMut(DocumentMut);

/// What a parsed document holds: each key path that names an item reached
/// from the root table by looking keys up in tables and inline tables
/// (empty placeholder items are not reached), mapped to that item's kind.
/// No key path goes through an array. The elements of an array are its
/// values as `Array::iter` gives them; the parser and `Array::push` put
/// nothing else in an array.
pub uninterp spec fn toml_items(doc: DocumentMut) -> Map<KeyPath, TomlNode>;

/// The text that a document renders to, comments and layout included.
pub uninterp spec fn toml_text(doc: DocumentMut) -> Seq<char>;

/// The text of the last key of each key path that `toml_items` holds, as
/// the document writes that key (`Key`'s `Display`): a quoted key keeps its
/// quotes.
pub uninterp spec fn toml_key_text(doc: DocumentMut) -> Map<KeyPath, Seq<char>>;

/// The keys of each table and inline table that `toml_items` holds, in the
/// order of the table's entries (empty placeholders left out).
pub uninterp spec fn toml_key_order(doc: DocumentMut) -> Map<KeyPath, Seq<Seq<char>>>;

/// Whether every array of the document holds only values. An array keeps
/// its elements as a list of `Item`s; `Array::iter` hands out those that are
/// values, and `Array::remove` panics on one that is not. Through
/// `IndexMut<usize>` on an `Item` a caller can leave another kind of item
/// in an array; the parser (`push_formatted`), `Array::push` and
/// `Array::remove` put none there.
pub uninterp spec fn toml_arrays_hold_values(doc: DocumentMut) -> bool;

/// For each key path of `toml_items` whose item is neither a table nor an
/// inline table, that item as `Item`'s `Display` renders it on its own: a
/// value of any kind, an array, or an array of tables.
pub uninterp spec fn toml_values(doc: DocumentMut) -> Map<KeyPath, Seq<char>>;

/// What parsing a text gives: the items of the document, or `None` where
/// the text is not a TOML document.
pub uninterp spec fn toml_parse(text: Seq<char>) -> Option<Map<KeyPath, TomlNode>>;

/// An item kind as the reading calls hand it out.
pub enum NodeKind {
    Table,
    InlineTable,
    Array(Vec<Option<String>>),
    Other,
}

pub open spec fn text_view(o: Option<String>) -> Option<Seq<char>> {
    match o {
        Some(s) => Some(s@),
        None => None,
    }
}

impl View for NodeKind {
    type V = TomlNode;

    open spec fn view(&self) -> TomlNode {
        match self {
            NodeKind::Table => TomlNode::Table,
            NodeKind::InlineTable => TomlNode::InlineTable,
            NodeKind::Array(v) => TomlNode::Array(v@.map_values(|o: Option<String>| text_view(o))),
            NodeKind::Other => TomlNode::Other,
        }
    }
}

pub open spec fn node_view(n: Option<NodeKind>) -> Option<TomlNode> {
    match n {
        Some(k) => Some(k@),
        None => None,
    }
}

pub open spec fn path1(a: Seq<char>) -> KeyPath {
    seq![a]
}

pub open spec fn path2(a: Seq<char>, b: Seq<char>) -> KeyPath {
    seq![a, b]
}

pub open spec fn path3(a: Seq<char>, b: Seq<char>, c: Seq<char>) -> KeyPath {
    seq![a, b, c]
}

pub open spec fn path4(a: Seq<char>, b: Seq<char>, c: Seq<char>, d: Seq<char>) -> KeyPath {
    seq![a, b, c, d]
}

pub open spec fn path5(
    a: Seq<char>,
    b: Seq<char>,
    c: Seq<char>,
    d: Seq<char>,
    e: Seq<char>,
) -> KeyPath {
    seq![a, b, c, d, e]
}

/// The keys of a table, as a sequence without repeats; every key path
/// that goes through the table goes through one of them.
pub open spec fn lists_keys_of(
    keys: Seq<String>,
    items: Map<KeyPath, TomlNode>,
    table: KeyPath,
) -> bool {
    &&& keys.map_values(|k: String| k@).no_duplicates()
    &&& forall|k: Seq<char>|
        #![trigger items.contains_key(table.push(k))]
        keys.map_values(|k: String| k@).contains(k) <==> items.contains_key(table.push(k))
    &&& forall|p: KeyPath|
        #![trigger items.contains_key(p), p.take(table.len() as int)]
        items.contains_key(p) && p.len() > table.len() && p.take(table.len() as int) == table
            ==> keys.map_values(|k: String| k@).contains(p[table.len() as int])
}

/// `DocumentMut::from_str` (`str::parse`): parses a TOML document. The
/// items of the result are what `toml_parse` gives for the text; an error
/// comes exactly where `toml_parse` gives `None`. The error's message is
/// handed on as `toml_edit::TomlError` displays it, and nothing is stated of
/// it. The parser fills arrays with `Array::push_formatted`, which stores
/// values only.
#[verifier::external_body]
pub(crate) fn parse_document(text: &str) -> (r: Result<DocumentMut, String>)
    ensures
        match r {
            Ok(doc) => toml_parse(text@) == Some(toml_items(doc)) && toml_arrays_hold_values(doc),
            Err(_) => toml_parse(text@) is None,
        },
{
    text.parse::<DocumentMut>().map_err(|e| e.to_string())
}

/// `DocumentMut::new`: an empty document, which has no array.
#[verifier::external_body]
pub(crate) fn empty_document() -> (r: DocumentMut)
    ensures
        toml_arrays_hold_values(r),
{
    DocumentMut::new()
}

/// `DocumentMut`'s `Display`: the document's text, which is `toml_text`.
#[verifier::external_body]
pub(crate) fn render_document(doc: &DocumentMut) -> (r: String)
    ensures
        r@ == toml_text(*doc),
{
    doc.to_string()
}

/// `Table::get` on the root table, then `Item::get` with each further key,
/// and the kind of the item reached, as `Item`'s and `Value`'s variants tell
/// it, with `Value::as_str` of each element of an array: the node at the
/// path of 1 key(s), or `None` where no item is there.
#[verifier::external_body]
pub(crate) fn node_at_1(doc: &DocumentMut, a: &str) -> (r: Option<NodeKind>)
    ensures
        node_view(r) == toml_items(*doc).get(path1(a@)),
{
    match doc.get(a) {
        Some(Item::Table(_)) => Some(NodeKind::Table),
        Some(Item::Value(Value::InlineTable(_))) => Some(NodeKind::InlineTable),
        Some(Item::Value(Value::Array(a))) => Some(NodeKind::Array(
            a.iter().map(|v| v.as_str().map(|s| s.to_string())).collect(),
        )),
        Some(_) => Some(NodeKind::Other),
        None => None,
    }
}

/// `Table::get` on the root table, then `Item::get` with each further key,
/// and the kind of the item reached, as `Item`'s and `Value`'s variants tell
/// it, with `Value::as_str` of each element of an array: the node at the
/// path of 2 key(s), or `None` where no item is there.
#[verifier::external_body]
pub(crate) fn node_at_2(doc: &DocumentMut, a: &str, b: &str) -> (r: Option<NodeKind>)
    ensures
        node_view(r) == toml_items(*doc).get(path2(a@, b@)),
{
    match doc.get(a).and_then(|i| i.get(b)) {
        Some(Item::Table(_)) => Some(NodeKind::Table),
        Some(Item::Value(Value::InlineTable(_))) => Some(NodeKind::InlineTable),
        Some(Item::Value(Value::Array(a))) => Some(NodeKind::Array(
            a.iter().map(|v| v.as_str().map(|s| s.to_string())).collect(),
        )),
        Some(_) => Some(NodeKind::Other),
        None => None,
    }
}

/// `Table::get` on the root table, then `Item::get` with each further key,
/// and the kind of the item reached, as `Item`'s and `Value`'s variants tell
/// it, with `Value::as_str` of each element of an array: the node at the
/// path of 3 key(s), or `None` where no item is there.
#[verifier::external_body]
pub(crate) fn node_at_3(doc: &DocumentMut, a: &str, b: &str, c: &str) -> (r: Option<NodeKind>)
    ensures
        node_view(r) == toml_items(*doc).get(path3(a@, b@, c@)),
{
    match doc.get(a).and_then(|i| i.get(b)).and_then(|i| i.get(c)) {
        Some(Item::Table(_)) => Some(NodeKind::Table),
        Some(Item::Value(Value::InlineTable(_))) => Some(NodeKind::InlineTable),
        Some(Item::Value(Value::Array(a))) => Some(NodeKind::Array(
            a.iter().map(|v| v.as_str().map(|s| s.to_string())).collect(),
        )),
        Some(_) => Some(NodeKind::Other),
        None => None,
    }
}

/// `Table::get` on the root table, then `Item::get` with each further key,
/// and the kind of the item reached, as `Item`'s and `Value`'s variants tell
/// it, with `Value::as_str` of each element of an array: the node at the
/// path of 4 key(s), or `None` where no item is there.
#[verifier::external_body]
pub(crate) fn node_at_4(doc: &DocumentMut, a: &str, b: &str, c: &str, d: &str) -> (r: Option<NodeKind>)
    ensures
        node_view(r) == toml_items(*doc).get(path4(a@, b@, c@, d@)),
{
    match doc.get(a).and_then(|i| i.get(b)).and_then(|i| i.get(c)).and_then(|i| i.get(d)) {
        Some(Item::Table(_)) => Some(NodeKind::Table),
        Some(Item::Value(Value::InlineTable(_))) => Some(NodeKind::InlineTable),
        Some(Item::Value(Value::Array(a))) => Some(NodeKind::Array(
            a.iter().map(|v| v.as_str().map(|s| s.to_string())).collect(),
        )),
        Some(_) => Some(NodeKind::Other),
        None => None,
    }
}

/// `Table::get` on the root table, then `Item::get` with each further key,
/// and the kind of the item reached, as `Item`'s and `Value`'s variants tell
/// it, with `Value::as_str` of each element of an array: the node at the
/// path of 5 key(s), or `None` where no item is there.
#[verifier::external_body]
pub(crate) fn node_at_5(doc: &DocumentMut, a: &str, b: &str, c: &str, d: &str, e: &str) -> (r: Option<NodeKind>)
    ensures
        node_view(r) == toml_items(*doc).get(path5(a@, b@, c@, d@, e@)),
{
    match doc.get(a).and_then(|i| i.get(b)).and_then(|i| i.get(c)).and_then(|i| i.get(d)).and_then(|i| i.get(e)) {
        Some(Item::Table(_)) => Some(NodeKind::Table),
        Some(Item::Value(Value::InlineTable(_))) => Some(NodeKind::InlineTable),
        Some(Item::Value(Value::Array(a))) => Some(NodeKind::Array(
            a.iter().map(|v| v.as_str().map(|s| s.to_string())).collect(),
        )),
        Some(_) => Some(NodeKind::Other),
        None => None,
    }
}

/// `Table::get` on the root table, `Item::as_table`, and `Table::iter`'s
/// keys: the keys of the table at a root key, in the table's order, where
/// that item is a `[header]` table.
#[verifier::external_body]
pub(crate) fn table_keys_1(doc: &DocumentMut, a: &str) -> (r: Option<Vec<String>>)
    ensures
        r is Some <==> toml_items(*doc).get(path1(a@)) == Some(TomlNode::Table),
        r matches Some(ks) ==> lists_keys_of(ks@, toml_items(*doc), path1(a@)),
        r matches Some(ks) ==> toml_key_order(*doc).get(path1(a@)) == Some(
            ks@.map_values(|k: String| k@),
        ),
{
    doc.get(a).and_then(|i| i.as_table()).map(|t| t.iter().map(|(k, _)| k.to_string()).collect())
}

/// As `table_keys_1`, for the table reached from a root `[header]` table
/// by two more keys, with `Table::get` and `Item::get`.
#[verifier::external_body]
pub(crate) fn table_keys_3(doc: &DocumentMut, a: &str, b: &str, c: &str) -> (r: Option<Vec<String>>)
    ensures
        r is Some <==> (toml_items(*doc).get(path1(a@)) == Some(TomlNode::Table)
            && toml_items(*doc).get(path3(a@, b@, c@)) == Some(TomlNode::Table)),
        r matches Some(ks) ==> lists_keys_of(ks@, toml_items(*doc), path3(a@, b@, c@)),
        r matches Some(ks) ==> toml_key_order(*doc).get(path3(a@, b@, c@)) == Some(
            ks@.map_values(|k: String| k@),
        ),
{
    let t = doc.get(a).and_then(|i| i.as_table()).and_then(|t| t.get(b));
    t.and_then(|i| i.get(c)).and_then(|i| i.as_table()).map(
        |t| t.iter().map(|(k, _)| k.to_string()).collect(),
    )
}

/// `Table::get` on the root table, `Item::as_table`, `Table::key` and
/// `Key`'s `Display`: the text of key `b` as the `[header]` table at `a`
/// writes it.
#[verifier::external_body]
pub(crate) fn key_text_2(doc: &DocumentMut, a: &str, b: &str) -> (r: Option<String>)
    ensures
        (toml_items(*doc).get(path1(a@)) == Some(TomlNode::Table) && toml_items(
            *doc,
        ).contains_key(path2(a@, b@))) ==> r is Some,
        toml_items(*doc).contains_key(path2(a@, b@)) ==> (r matches Some(t) ==> toml_key_text(
            *doc,
        ).get(path2(a@, b@)) == Some(t@)),
{
    doc.get(a).and_then(|i| i.as_table()).and_then(|t| t.key(b)).map(|k| k.to_string())
}

/// As `key_text_2`, for key `d` of the `[header]` table reached from a
/// root `[header]` table by the keys `b` and `c`, with `Table::get` and
/// `Item::get`.
#[verifier::external_body]
pub(crate) fn key_text_4(doc: &DocumentMut, a: &str, b: &str, c: &str, d: &str) -> (r: Option<String>)
    ensures
        (toml_items(*doc).get(path1(a@)) == Some(TomlNode::Table) && toml_items(*doc).get(
            path3(a@, b@, c@),
        ) == Some(TomlNode::Table) && toml_items(*doc).contains_key(path4(a@, b@, c@, d@)))
            ==> r is Some,
        toml_items(*doc).contains_key(path4(a@, b@, c@, d@)) ==> (r matches Some(t)
            ==> toml_key_text(*doc).get(path4(a@, b@, c@, d@)) == Some(t@)),
{
    let t = doc.get(a).and_then(|i| i.as_table()).and_then(|t| t.get(b));
    t.and_then(|i| i.get(c)).and_then(|i| i.as_table()).and_then(|t| t.key(d)).map(
        |k| k.to_string(),
    )
}

pub open spec fn array_at(items: Map<KeyPath, TomlNode>, p: KeyPath) -> Seq<Option<Seq<char>>> {
    match items.get(p) {
        Some(TomlNode::Array(e)) => e,
        _ => Seq::empty(),
    }
}

pub open spec fn is_array_at(items: Map<KeyPath, TomlNode>, p: KeyPath) -> bool {
    items.get(p) matches Some(TomlNode::Array(_))
}

/// `Table::get_mut` on the root table, `Item::get_mut` with each further
/// key, `Item::as_array_mut` and `Array::remove`: removes the element at
/// `idx` from the array at the path. Every key of the path is there, so
/// `Item::get_mut` adds no placeholder; the array holds only values, so
/// `Array::remove` does not panic, and `idx` counts the same elements as
/// `Array::iter`. No other item changes.
#[verifier::external_body]
pub(crate) fn remove_array_element_3(doc: &mut DocumentMut, a: &str, b: &str, c: &str, idx: usize)
    requires
        is_array_at(toml_items(*old(doc)), path3(a@, b@, c@)),
        idx < array_at(toml_items(*old(doc)), path3(a@, b@, c@)).len(),
        toml_arrays_hold_values(*old(doc)),
    ensures
        toml_arrays_hold_values(*final(doc)),
        forall|q: KeyPath|
            q != path3(a@, b@, c@) ==> #[trigger] toml_values(*final(doc)).get(q) == toml_values(*old(doc)).get(q),
        toml_items(*final(doc)) == toml_items(*old(doc)).insert(
            path3(a@, b@, c@),
            TomlNode::Array(array_at(toml_items(*old(doc)), path3(a@, b@, c@)).remove(idx as int)),
        ),
        toml_key_text(*final(doc)) == toml_key_text(*old(doc)),
        toml_key_order(*final(doc)) == toml_key_order(*old(doc)),
{
    if let Some(arr) = doc.get_mut(a).and_then(|i| i.get_mut(b)).and_then(|i| i.get_mut(c)).and_then(|i| i.as_array_mut()) {
        arr.remove(idx);
    }
}

/// `Table::get_mut` on the root table, `Item::get_mut` with each further
/// key, `Item::as_array_mut` and `Array::remove`: removes the element at
/// `idx` from the array at the path. Every key of the path is there, so
/// `Item::get_mut` adds no placeholder; the array holds only values, so
/// `Array::remove` does not panic, and `idx` counts the same elements as
/// `Array::iter`. No other item changes.
#[verifier::external_body]
pub(crate) fn remove_array_element_5(doc: &mut DocumentMut, a: &str, b: &str, c: &str, d: &str, e: &str, idx: usize)
    requires
        is_array_at(toml_items(*old(doc)), path5(a@, b@, c@, d@, e@)),
        idx < array_at(toml_items(*old(doc)), path5(a@, b@, c@, d@, e@)).len(),
        toml_arrays_hold_values(*old(doc)),
    ensures
        toml_arrays_hold_values(*final(doc)),
        forall|q: KeyPath|
            q != path5(a@, b@, c@, d@, e@) ==> #[trigger] toml_values(*final(doc)).get(q) == toml_values(*old(doc)).get(q),
        toml_items(*final(doc)) == toml_items(*old(doc)).insert(
            path5(a@, b@, c@, d@, e@),
            TomlNode::Array(array_at(toml_items(*old(doc)), path5(a@, b@, c@, d@, e@)).remove(idx as int)),
        ),
        toml_key_text(*final(doc)) == toml_key_text(*old(doc)),
        toml_key_order(*final(doc)) == toml_key_order(*old(doc)),
{
    if let Some(arr) = doc.get_mut(a).and_then(|i| i.get_mut(b)).and_then(|i| i.get_mut(c)).and_then(|i| i.get_mut(d)).and_then(|i| i.get_mut(e)).and_then(|i| i.as_array_mut()) {
        arr.remove(idx);
    }
}

/// `Table::get_mut` on the root table, `Item::get_mut` with each further
/// key, `Item::as_inline_table_mut` and `InlineTable::remove`: removes the
/// last key of the path from the inline table that holds it, keeping the
/// order of the others. The removed item is an array, so no other key path
/// goes away. No other key changes: `Item::get_mut` finds every key of the
/// path in place.
#[verifier::external_body]
pub(crate) fn remove_inline_key_3(doc: &mut DocumentMut, a: &str, b: &str, c: &str)
    requires
        toml_items(*old(doc)).get(path2(a@, b@)) == Some(TomlNode::InlineTable),
        is_array_at(toml_items(*old(doc)), path3(a@, b@, c@)),
    ensures
        toml_items(*final(doc)) == toml_items(*old(doc)).remove(path3(a@, b@, c@)),
        toml_key_text(*final(doc)) == toml_key_text(*old(doc)).remove(path3(a@, b@, c@)),
        toml_values(*final(doc)) == toml_values(*old(doc)).remove(path3(a@, b@, c@)),
        toml_arrays_hold_values(*old(doc)) ==> toml_arrays_hold_values(*final(doc)),
        toml_key_order(*final(doc)) == toml_key_order(*old(doc)).insert(
            path2(a@, b@),
            toml_key_order(*old(doc))[path2(a@, b@)].filter(|x: Seq<char>| x != c@),
        ),
{
    if let Some(t) = doc.get_mut(a).and_then(|i| i.get_mut(b)).and_then(|i| i.as_inline_table_mut()) {
        t.remove(c);
    }
}

/// `Table::get_mut` on the root table, `Item::get_mut` with each further
/// key, `Item::as_inline_table_mut` and `InlineTable::remove`: removes the
/// last key of the path from the inline table that holds it, keeping the
/// order of the others. The removed item is an array, so no other key path
/// goes away. No other key changes: `Item::get_mut` finds every key of the
/// path in place.
#[verifier::external_body]
pub(crate) fn remove_inline_key_5(doc: &mut DocumentMut, a: &str, b: &str, c: &str, d: &str, e: &str)
    requires
        toml_items(*old(doc)).get(path4(a@, b@, c@, d@)) == Some(TomlNode::InlineTable),
        is_array_at(toml_items(*old(doc)), path5(a@, b@, c@, d@, e@)),
    ensures
        toml_items(*final(doc)) == toml_items(*old(doc)).remove(path5(a@, b@, c@, d@, e@)),
        toml_key_text(*final(doc)) == toml_key_text(*old(doc)).remove(path5(a@, b@, c@, d@, e@)),
        toml_values(*final(doc)) == toml_values(*old(doc)).remove(path5(a@, b@, c@, d@, e@)),
        toml_arrays_hold_values(*old(doc)) ==> toml_arrays_hold_values(*final(doc)),
        toml_key_order(*final(doc)) == toml_key_order(*old(doc)).insert(
            path4(a@, b@, c@, d@),
            toml_key_order(*old(doc))[path4(a@, b@, c@, d@)].filter(|x: Seq<char>| x != e@),
        ),
{
    if let Some(t) = doc.get_mut(a).and_then(|i| i.get_mut(b)).and_then(|i| i.get_mut(c)).and_then(|i| i.get_mut(d)).and_then(|i| i.as_inline_table_mut()) {
        t.remove(e);
    }
}

/// `Table::get_mut` on the root table, `Item::get_mut`,
/// `Item::as_array_mut` and `Array::push`: appends a string to the array at
/// a path of two keys, as a value. No other item changes.
#[verifier::external_body]
pub(crate) fn push_text_2(doc: &mut DocumentMut, a: &str, b: &str, text: &str)
    requires
        is_array_at(toml_items(*old(doc)), path2(a@, b@)),
    ensures
        toml_items(*final(doc)) == toml_items(*old(doc)).insert(
            path2(a@, b@),
            TomlNode::Array(array_at(toml_items(*old(doc)), path2(a@, b@)).push(Some(text@))),
        ),
        forall|q: KeyPath|
            q != path2(a@, b@) ==> #[trigger] toml_values(*final(doc)).get(q) == toml_values(
                *old(doc),
            ).get(q),
        toml_arrays_hold_values(*old(doc)) ==> toml_arrays_hold_values(*final(doc)),
        toml_key_text(*final(doc)) == toml_key_text(*old(doc)),
        toml_key_order(*final(doc)) == toml_key_order(*old(doc)),
{
    if let Some(arr) = doc.get_mut(a).and_then(|i| i.get_mut(b)).and_then(|i| i.as_array_mut()) {
        arr.push(text);
    }
}

} // verus!
