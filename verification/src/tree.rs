//! The configuration file as its own syntax tree, with comments and layout,
//! and the operations of the store carried out on it.
//!
//! The tree belongs to `toml_edit`. What it holds is told by a map from keys to
//! [`Node`]s; order, comments and layout are no part of that.
use crate::doc::{
    after_ops, changed, changed_at, get, item_view, key_at, lemma_get_push, lemma_key_from, put,
    removed_then_get, set_then_get, table_view, tables_at, without, Change, ChangeView, DocOp,
    Entries, Entry, Item, ItemView, OpView, Section, Step, StepView, Value, ValueView,
};
use crate::float::{widened_numbers_are_numbers, Float32, Float64};
use vstd::prelude::*;

verus! {

/// What a key of the tree holds, as far as edits read it.
pub enum Node {
    Text(Seq<char>),
    Flag(bool),
    /// A floating-point number, by its bit pattern.
    Number(u64),
    /// An array of texts.
    Texts(Seq<Seq<char>>),
    /// Any other value.
    Other,
    Table(Map<Seq<char>, Node>),
    Tables(Seq<Map<Seq<char>, Node>>),
}

/// How a table is written: what stands before its header and behind it, and its
/// keys in order.
pub struct Outline {
    pub lead: Seq<char>,
    pub tail: Seq<char>,
    pub lines: Seq<Line>,
}

/// A key with what stands before it: blank lines and comments.
pub struct Line {
    pub key: Seq<char>,
    pub lead: Seq<char>,
    pub held: Held,
}

/// How what a key holds is written.
pub enum Held {
    /// A value, with what stands behind it on its line.
    Value(Seq<char>),
    Table(Outline),
    Tables(Seq<Outline>),
}

/// Position of a key, from `from` on.
pub open spec fn line_from(lines: Seq<Line>, key: Seq<char>, from: int) -> Option<int>
    decreases lines.len() - from,
{
    if from < 0 || from >= lines.len() {
        None
    } else if lines[from].key == key {
        Some(from)
    } else {
        line_from(lines, key, from + 1)
    }
}

/// A table that nothing was written into yet.
pub open spec fn bare() -> Outline {
    Outline { lead: Seq::empty(), tail: Seq::empty(), lines: Seq::empty() }
}

impl Outline {
    /// Position of a key.
    pub open spec fn line(self, key: Seq<char>) -> Option<int> {
        line_from(self.lines, key, 0)
    }

    /// How what a key holds is written.
    pub open spec fn held(self, key: Seq<char>) -> Held {
        self.lines[self.line(key)->0].held
    }

    /// With something else under a key. The key stays where it is, with what
    /// stands before it; a new one goes last, with nothing before it.
    pub open spec fn with(self, key: Seq<char>, held: Held) -> Outline {
        Outline {
            lines: match self.line(key) {
                Some(i) => self.lines.update(i, Line { held, ..self.lines[i] }),
                None => self.lines.push(Line { key, lead: Seq::empty(), held }),
            },
            ..self
        }
    }

    /// Without a key.
    pub open spec fn less(self, key: Seq<char>) -> Outline {
        Outline {
            lines: match self.line(key) {
                Some(i) => self.lines.remove(i),
                None => self.lines,
            },
            ..self
        }
    }
}

/// A TOML document that can be edited.
#[verifier::external_type_specification]
#[verifier::external_body]
pub struct ExDocument(toml_edit::DocumentMut);

/// A table block of a document. A table comes from a text or from the operations
/// here, and neither leaves a key in it that holds nothing.
#[verifier::external_type_specification]
#[verifier::external_body]
pub struct ExTable(toml_edit::Table);

/// An array of table blocks of a document. An array comes from a text or from
/// the operations here, and neither puts anything but tables into it.
#[verifier::external_type_specification]
#[verifier::external_body]
pub struct ExTables(toml_edit::ArrayOfTables);

/// What a document holds.
pub uninterp spec fn document_contents(tree: toml_edit::DocumentMut) -> Map<Seq<char>, Node>;

/// What a table holds: the keys whose item is not `Item::None`.
pub uninterp spec fn contents(table: toml_edit::Table) -> Map<Seq<char>, Node>;

/// What the tables of an array hold, in order.
pub uninterp spec fn members(tables: toml_edit::ArrayOfTables) -> Seq<Map<Seq<char>, Node>>;

/// How a document is written: its root table.
pub uninterp spec fn document_outline(tree: toml_edit::DocumentMut) -> Outline;

/// What stands at the end of a document, behind everything else.
pub uninterp spec fn ending(tree: toml_edit::DocumentMut) -> Seq<char>;

/// How a table is written: the texts of its own decor, and its keys in the order
/// of iteration, each with the text before it in its leaf decor. A decor without
/// a text is one with an empty text.
pub uninterp spec fn outline(table: toml_edit::Table) -> Outline;

/// How the tables of an array are written, in order.
pub uninterp spec fn outlines(tables: toml_edit::ArrayOfTables) -> Seq<Outline>;

/// The text of a document.
pub uninterp spec fn printed(tree: toml_edit::DocumentMut) -> Seq<char>;

/// What a text holds when it is read as a TOML document, or what is said
/// against it.
pub uninterp spec fn document_of(text: Seq<char>) -> Result<Map<Seq<char>, Node>, Seq<char>>;

/// The bit pattern of the floating-point number that digits are in TOML, where
/// they are one.
pub uninterp spec fn numeral(digits: Seq<char>) -> Option<u64>;

/// `DocumentMut::from_str`: what is read depends on the text alone, and so does
/// what is said against a text that is no document. That, and not how TOML is
/// read, is claimed.
#[verifier::external_body]
fn read_document(text: &str) -> (r: Result<toml_edit::DocumentMut, String>)
    ensures
        match r {
            Ok(tree) => document_of(text@) is Ok && document_of(text@)->Ok_0 == document_contents(
                tree,
            ),
            Err(e) => document_of(text@) is Err && document_of(text@)->Err_0 == e@,
        },
{
    text.parse::<toml_edit::DocumentMut>().map_err(|e| e.to_string())
}

/// `DocumentMut` as `Display`: the text of the document. It has a name, and no
/// more is said of it.
#[verifier::external_body]
fn print_document(tree: &toml_edit::DocumentMut) -> (r: String)
    ensures
        r@ == printed(*tree),
{
    tree.to_string()
}

/// `DocumentMut::clone`: the copy holds the same, and is written and printed the
/// same.
#[verifier::external_body]
fn copy_document(tree: &toml_edit::DocumentMut) -> (r: toml_edit::DocumentMut)
    ensures
        document_contents(r) == document_contents(*tree),
        printed(r) == printed(*tree),
        document_outline(r) == document_outline(*tree),
        ending(r) == ending(*tree),
{
    tree.clone()
}

/// `DocumentMut::as_table`: the root table.
#[verifier::external_body]
fn root(tree: &toml_edit::DocumentMut) -> (r: &toml_edit::Table)
    ensures
        contents(*r) == document_contents(*tree),
{
    tree.as_table()
}

/// `DocumentMut::as_table_mut`: the root table. What happens to it happens to
/// the document, and what stands at the end of the document is left alone.
#[verifier::external_body]
fn root_mut(tree: &mut toml_edit::DocumentMut) -> (r: &mut toml_edit::Table)
    ensures
        contents(*r) == document_contents(*old(tree)),
        document_contents(*final(tree)) == contents(*final(r)),
        outline(*r) == document_outline(*old(tree)),
        document_outline(*final(tree)) == outline(*final(r)),
        ending(*final(tree)) == ending(*old(tree)),
{
    tree.as_table_mut()
}

/// `Table::iter`: every key of the table, once.
#[verifier::external_body]
fn keys_of(table: &toml_edit::Table) -> (r: Vec<String>)
    ensures
        r.deep_view().no_duplicates(),
        forall|key: Seq<char>| #[trigger]
            r.deep_view().contains(key) <==> contents(*table).contains_key(key),
{
    table.iter().map(|(key, _)| key.to_string()).collect()
}

/// `Table::contains_key`: whether the table has the key.
#[verifier::external_body]
fn has_key(table: &toml_edit::Table, key: &str) -> (r: bool)
    ensures
        r == contents(*table).contains_key(key@),
{
    table.contains_key(key)
}

/// `Table::get` and `Item::as_str`: the text that a key holds, where it holds
/// one.
#[verifier::external_body]
fn text_in(table: &toml_edit::Table, key: &str) -> (r: Option<String>)
    ensures
        match r {
            Some(text) => contents(*table).contains_key(key@) && contents(*table)[key@]
                == Node::Text(text@),
            None => contents(*table).contains_key(key@) ==> !(contents(*table)[key@] is Text),
        },
{
    table.get(key).and_then(|item| item.as_str()).map(|text| text.to_string())
}

/// `Table::get` and `Item::as_table`: the table block that a key holds, where
/// it holds one.
#[verifier::external_body]
fn table_in<'t>(table: &'t toml_edit::Table, key: &str) -> (r: Option<&'t toml_edit::Table>)
    ensures
        match r {
            Some(inner) => contents(*table).contains_key(key@) && contents(*table)[key@]
                == Node::Table(contents(*inner)),
            None => contents(*table).contains_key(key@) ==> !(contents(*table)[key@] is Table),
        },
{
    table.get(key).and_then(|item| item.as_table())
}

/// `Table::get` and `Item::as_array_of_tables`: the array of table blocks that
/// a key holds, where it holds one.
#[verifier::external_body]
fn tables_in<'t>(table: &'t toml_edit::Table, key: &str) -> (r: Option<
    &'t toml_edit::ArrayOfTables,
>)
    ensures
        match r {
            Some(inner) => contents(*table).contains_key(key@) && contents(*table)[key@]
                == Node::Tables(members(*inner)),
            None => contents(*table).contains_key(key@) ==> !(contents(*table)[key@] is Tables),
        },
{
    table.get(key).and_then(|item| item.as_array_of_tables())
}

/// `ArrayOfTables::len`: how many tables there are.
#[verifier::external_body]
fn count(tables: &toml_edit::ArrayOfTables) -> (r: usize)
    ensures
        r == members(*tables).len(),
{
    tables.len()
}

/// `ArrayOfTables::get`: one table of the array. It has one at every position
/// below its length, so nothing is unwrapped in vain.
#[verifier::external_body]
fn member(tables: &toml_edit::ArrayOfTables, i: usize) -> (r: &toml_edit::Table)
    requires
        i < members(*tables).len(),
    ensures
        contents(*r) == members(*tables)[i as int],
{
    tables.get(i).unwrap()
}

/// `Table::new`: a table without keys and without a decor.
#[verifier::external_body]
fn new_table() -> (r: toml_edit::Table)
    ensures
        contents(r).is_empty(),
        outline(r) == bare(),
{
    toml_edit::Table::new()
}

/// `ArrayOfTables::new`: an array without tables.
#[verifier::external_body]
fn new_tables() -> (r: toml_edit::ArrayOfTables)
    ensures
        members(r).len() == 0,
        outlines(r).len() == 0,
{
    toml_edit::ArrayOfTables::new()
}

/// `Table::index_mut` with `toml_edit::value` of a text: the key holds it from
/// now on, with nothing behind it. `index_mut` goes through `Table::entry`, so a
/// key that is there stays where it is with its own decor, and a new one goes
/// last without any.
#[verifier::external_body]
fn put_text(table: &mut toml_edit::Table, key: &str, text: &str)
    ensures
        contents(*final(table)) == contents(*old(table)).insert(key@, Node::Text(text@)),
        outline(*final(table)) == outline(*old(table)).with(key@, Held::Value(Seq::empty())),
{
    table[key] = toml_edit::value(text);
}

/// `Table::index_mut` with `toml_edit::value` of a truth value: the key holds it
/// from now on, with nothing behind it, placed as by [`put_text`].
#[verifier::external_body]
fn put_flag(table: &mut toml_edit::Table, key: &str, on: bool)
    ensures
        contents(*final(table)) == contents(*old(table)).insert(key@, Node::Flag(on)),
        outline(*final(table)) == outline(*old(table)).with(key@, Held::Value(Seq::empty())),
{
    table[key] = toml_edit::value(on);
}

/// `Table::index_mut` with `toml_edit::value` of an array of texts: the key
/// holds the array from now on, with nothing behind it, placed as by
/// [`put_text`].
#[verifier::external_body]
fn put_texts(table: &mut toml_edit::Table, key: &str, texts: &Vec<String>)
    ensures
        contents(*final(table)) == contents(*old(table)).insert(
            key@,
            Node::Texts(texts.deep_view()),
        ),
        outline(*final(table)) == outline(*old(table)).with(key@, Held::Value(Seq::empty())),
{
    table[key] = toml_edit::value(texts.iter().map(|t| t.as_str()).collect::<toml_edit::Array>());
}

/// The same floating-point number. One NaN is as good as another.
pub open spec fn same_double(a: u64, b: u64) -> bool {
    a == b || (Float64 { bits: a }.nan() && Float64 { bits: b }.nan())
}

/// `Value::from_str`, and `Table::index_mut` with `toml_edit::value` of the
/// number that was read: the key holds the number from now on, with nothing
/// behind it, placed as by [`put_text`], and its bit pattern is given back.
/// Digits that are read as anything but a floating-point number change nothing.
/// Which number digits stand for is not told.
#[verifier::external_body]
fn put_number(table: &mut toml_edit::Table, key: &str, digits: &str) -> (r: Option<u64>)
    ensures
        match r {
            Some(bits) => {
                &&& numeral(digits@) is Some
                &&& same_double(bits, numeral(digits@)->0)
                &&& contents(*final(table)) == contents(*old(table)).insert(
                    key@,
                    Node::Number(bits),
                )
                &&& outline(*final(table)) == outline(*old(table)).with(
                    key@,
                    Held::Value(Seq::empty()),
                )
            },
            None => numeral(digits@) is None && *final(table) == *old(table),
        },
{
    match digits.parse::<toml_edit::Value>() {
        Ok(toml_edit::Value::Float(number)) => {
            let bits: u64 = number.value().to_bits();
            table[key] = toml_edit::value(number.into_value());
            Some(bits)
        },
        _ => None,
    }
}

/// `Table::index_mut` with `Item::Table`: the key holds the table from now on,
/// as it is written, placed as by [`put_text`].
#[verifier::external_body]
fn put_table(table: &mut toml_edit::Table, key: &str, inner: toml_edit::Table)
    ensures
        contents(*final(table)) == contents(*old(table)).insert(key@, Node::Table(contents(inner))),
        outline(*final(table)) == outline(*old(table)).with(key@, Held::Table(outline(inner))),
{
    table[key] = toml_edit::Item::Table(inner);
}

/// `Table::index_mut` with `Item::ArrayOfTables`: the key holds the array from
/// now on, as it is written, placed as by [`put_text`].
#[verifier::external_body]
fn put_tables(table: &mut toml_edit::Table, key: &str, inner: toml_edit::ArrayOfTables)
    ensures
        contents(*final(table)) == contents(*old(table)).insert(key@, Node::Tables(members(inner))),
        outline(*final(table)) == outline(*old(table)).with(key@, Held::Tables(outlines(inner))),
{
    table[key] = toml_edit::Item::ArrayOfTables(inner);
}

/// `Table::remove`: the key goes, and the others stay in order, since it is
/// `shift_remove` underneath.
#[verifier::external_body]
fn remove_key(table: &mut toml_edit::Table, key: &str)
    ensures
        contents(*final(table)) == contents(*old(table)).remove(key@),
        outline(*final(table)) == outline(*old(table)).less(key@),
{
    table.remove(key);
}

/// `Table::index_mut` and `Item::as_table_mut`: the table block that a key
/// holds. What happens to it happens under the key, which
/// stays where it is.
#[verifier::external_body]
fn table_under<'t>(table: &'t mut toml_edit::Table, key: &str) -> (r: &'t mut toml_edit::Table)
    requires
        contents(*old(table)).contains_key(key@),
        contents(*old(table))[key@] is Table,
    ensures
        contents(*old(table))[key@] == Node::Table(contents(*r)),
        contents(*final(table)) == contents(*old(table)).insert(
            key@,
            Node::Table(contents(*final(r))),
        ),
        outline(*old(table)).held(key@) == Held::Table(outline(*r)),
        outline(*final(table)) == outline(*old(table)).with(
            key@,
            Held::Table(outline(*final(r))),
        ),
{
    table[key].as_table_mut().unwrap()
}

/// `Table::index_mut` and `Item::as_array_of_tables_mut`: the array of table
/// blocks that a key holds. What happens to it happens under the key, which
/// stays where it is.
#[verifier::external_body]
fn tables_under<'t>(table: &'t mut toml_edit::Table, key: &str) -> (r:
    &'t mut toml_edit::ArrayOfTables)
    requires
        contents(*old(table)).contains_key(key@),
        contents(*old(table))[key@] is Tables,
    ensures
        contents(*old(table))[key@] == Node::Tables(members(*r)),
        contents(*final(table)) == contents(*old(table)).insert(
            key@,
            Node::Tables(members(*final(r))),
        ),
        outline(*old(table)).held(key@) == Held::Tables(outlines(*r)),
        outline(*final(table)) == outline(*old(table)).with(
            key@,
            Held::Tables(outlines(*final(r))),
        ),
{
    table[key].as_array_of_tables_mut().unwrap()
}

/// `ArrayOfTables::get_mut`: one table of the array. What happens to it happens
/// in the array.
#[verifier::external_body]
fn member_mut(tables: &mut toml_edit::ArrayOfTables, i: usize) -> (r: &mut toml_edit::Table)
    requires
        i < members(*old(tables)).len(),
    ensures
        contents(*r) == members(*old(tables))[i as int],
        members(*final(tables)) == members(*old(tables)).update(i as int, contents(*final(r))),
        outline(*r) == outlines(*old(tables))[i as int],
        outlines(*final(tables)) == outlines(*old(tables)).update(i as int, outline(*final(r))),
{
    tables.get_mut(i).unwrap()
}

/// `ArrayOfTables::push`: the table joins the end.
#[verifier::external_body]
fn push_member(tables: &mut toml_edit::ArrayOfTables, table: toml_edit::Table)
    ensures
        members(*final(tables)) == members(*old(tables)).push(contents(table)),
        outlines(*final(tables)) == outlines(*old(tables)).push(outline(table)),
{
    tables.push(table);
}

/// `ArrayOfTables::remove`: one table leaves the array.
#[verifier::external_body]
fn remove_member(tables: &mut toml_edit::ArrayOfTables, i: usize)
    requires
        i < members(*old(tables)).len(),
    ensures
        members(*final(tables)) == members(*old(tables)).remove(i as int),
        outlines(*final(tables)) == outlines(*old(tables)).remove(i as int),
{
    tables.remove(i);
}

/// A value of a table is what the tree holds. Of a value that edits do not read
/// only that is told.
pub open spec fn value_mirrors(value: ValueView, node: Node) -> bool {
    match value {
        ValueView::Text(text) => node == Node::Text(text),
        ValueView::Flag(on) => node == Node::Flag(on),
        ValueView::Number(number) => match node {
            Node::Number(bits) => Float64 { bits }.stands_for(number),
            _ => false,
        },
        ValueView::Texts(texts) => node == Node::Texts(texts),
        ValueView::Other => !(node is Text) && !(node is Table) && !(node is Tables),
    }
}

/// A table holds what the tree holds: the same keys, and behind each key the
/// same.
pub open spec fn mirrors(t: Entries, m: Map<Seq<char>, Node>) -> bool
    decreases t,
{
    &&& forall|key: Seq<char>| #[trigger] m.contains_key(key) <==> key_at(t, key) is Some
    &&& forall|i: int|
        0 <= i < t.len() && key_at(t, t[i].0) == Some(i) ==> node_mirrors(
            (#[trigger] t[i]).1,
            m[t[i].0],
        )
}

/// A key of a table holds what the key of the tree holds.
pub open spec fn node_mirrors(item: ItemView, node: Node) -> bool
    decreases item,
{
    match (item, node) {
        (ItemView::Value(value), _) => value_mirrors(value, node),
        (ItemView::Table(t), Node::Table(m)) => mirrors(t, m),
        (ItemView::Tables(ts), Node::Tables(ms)) => {
            &&& ts.len() == ms.len()
            &&& forall|i: int| 0 <= i < ts.len() ==> mirrors(#[trigger] ts[i], ms[i])
        },
        _ => false,
    }
}

/// One key of a table against the tree.
pub open spec fn key_mirrors(t: Entries, m: Map<Seq<char>, Node>, key: Seq<char>) -> bool {
    match get(t, key) {
        Some(item) => m.contains_key(key) && node_mirrors(item, m[key]),
        None => !m.contains_key(key),
    }
}

proof fn lemma_key_mirrors(t: Entries, m: Map<Seq<char>, Node>, key: Seq<char>)
    requires
        mirrors(t, m),
    ensures
        key_mirrors(t, m, key),
{
    lemma_key_from(t, key, 0);
    match key_at(t, key) {
        Some(i) => {
            assert(t[i].0 == key);
            assert(m.contains_key(key));
        },
        None => {
            assert(m.contains_key(key) <==> key_at(t, key) is Some);
        },
    }
}

proof fn lemma_mirrors(t: Entries, m: Map<Seq<char>, Node>)
    requires
        forall|key: Seq<char>| #[trigger] key_mirrors(t, m, key),
    ensures
        mirrors(t, m),
{
    assert forall|key: Seq<char>| #[trigger] m.contains_key(key) <==> key_at(t, key) is Some by {
        assert(key_mirrors(t, m, key));
    }
    assert forall|i: int| 0 <= i < t.len() && key_at(t, t[i].0) == Some(i) implies node_mirrors(
        (#[trigger] t[i]).1,
        m[t[i].0],
    ) by {
        assert(key_mirrors(t, m, t[i].0));
    }
}

proof fn lemma_mirrors_put(
    t: Entries,
    m: Map<Seq<char>, Node>,
    key: Seq<char>,
    item: ItemView,
    node: Node,
)
    requires
        mirrors(t, m),
        node_mirrors(item, node),
    ensures
        mirrors(put(t, key, item), m.insert(key, node)),
{
    assert forall|other: Seq<char>| #[trigger]
        key_mirrors(put(t, key, item), m.insert(key, node), other) by {
        set_then_get(t, key, item, other);
        lemma_key_mirrors(t, m, other);
    }
    lemma_mirrors(put(t, key, item), m.insert(key, node));
}

proof fn lemma_mirrors_without(t: Entries, m: Map<Seq<char>, Node>, key: Seq<char>)
    requires
        mirrors(t, m),
    ensures
        mirrors(without(t, key), m.remove(key)),
{
    assert forall|other: Seq<char>| #[trigger] key_mirrors(without(t, key), m.remove(key), other) by {
        removed_then_get(t, key, other);
        lemma_key_mirrors(t, m, other);
    }
    lemma_mirrors(without(t, key), m.remove(key));
}

proof fn lemma_finite(table: toml_edit::Table, keys: Seq<Seq<char>>)
    requires
        forall|key: Seq<char>| #[trigger]
            keys.contains(key) <==> contents(table).contains_key(key),
    ensures
        contents(table).dom().finite(),
{
    assert(contents(table).dom() =~= keys.to_set());
    vstd::seq_lib::seq_to_set_is_finite(keys);
}

/// Reads a table of the tree, and everything in it.
fn section_of(table: &toml_edit::Table) -> (r: Section)
    ensures
        mirrors(table_view(r), contents(*table)),
    decreases contents(*table),
{
    let keys = keys_of(table);
    let ghost names = keys.deep_view();
    let ghost m = contents(*table);
    proof {
        lemma_finite(*table, names);
    }
    let mut entries: Vec<Entry> = Vec::new();
    let mut i: usize = 0;
    while i < keys.len()
        invariant
            i <= keys@.len(),
            names == keys.deep_view(),
            m == contents(*table),
            m.dom().finite(),
            names.no_duplicates(),
            forall|key: Seq<char>| #[trigger] names.contains(key) <==> m.contains_key(key),
            entries@.len() == i,
            forall|j: int|
                0 <= j < i ==> (#[trigger] entries@[j]).key@ == names[j] && node_mirrors(
                    item_view(entries@[j].item),
                    m[names[j]],
                ),
        decreases keys@.len() - i,
    {
        let key = keys[i].as_str();
        assert(names[i as int] == key@);
        assert(names.contains(key@));
        let item = item_of(table, key);
        entries.push(Entry { key: keys[i].clone(), item });
        i = i + 1;
    }
    let r = Section { entries };
    proof {
        let t = table_view(r);
        assert forall|key: Seq<char>| #[trigger] key_mirrors(t, m, key) by {
            lemma_key_from(t, key, 0);
            match key_at(t, key) {
                Some(j) => {
                    assert(names[j] == key);
                    assert(names.contains(key));
                },
                None => {
                    if names.contains(key) {
                        let j = choose|j: int| 0 <= j < names.len() && names[j] == key;
                        assert(t[j].0 == key);
                    }
                },
            }
        }
        lemma_mirrors(t, m);
    }
    r
}

/// Reads what a key of the tree holds.
fn item_of(table: &toml_edit::Table, key: &str) -> (r: Item)
    requires
        contents(*table).dom().finite(),
        contents(*table).contains_key(key@),
    ensures
        node_mirrors(item_view(r), contents(*table)[key@]),
    decreases contents(*table)[key@],
{
    let ghost node = contents(*table)[key@];
    match table_in(table, key) {
        Some(inner) => {
            assert(decreases_to!(node => node->Table_0));
            return Item::Table(section_of(inner));
        },
        None => {},
    }
    match tables_in(table, key) {
        Some(inner) => {
            let n: usize = count(inner);
            let ghost ms = members(*inner);
            let mut sections: Vec<Section> = Vec::new();
            let mut i: usize = 0;
            while i < n
                invariant
                    i <= n == ms.len(),
                    ms == members(*inner),
                    node == Node::Tables(ms),
                    node == contents(*table)[key@],
                    sections@.len() == i,
                    forall|j: int|
                        0 <= j < i ==> mirrors(table_view(#[trigger] sections@[j]), ms[j]),
                decreases n - i,
            {
                let one = member(inner, i);
                assert(decreases_to!(node => node->Tables_0[i as int]));
                sections.push(section_of(one));
                i = i + 1;
            }
            let r = Item::Tables(sections);
            assert forall|j: int| 0 <= j < ms.len() implies mirrors(
                #[trigger] item_view(r)->Tables_0[j],
                ms[j],
            ) by {
                assert(item_view(r)->Tables_0[j] == table_view(sections@[j]));
            }
            return r;
        },
        None => {},
    }
    match text_in(table, key) {
        Some(text) => Item::Value(Value::Text(text)),
        None => Item::Value(Value::Other),
    }
}

/// The digits that a number can be spelled with.
pub open spec fn spells<F: Fn(Float32) -> String>(spell: F, number: Float32, digits: String) -> bool {
    call_ensures(spell, (number,), digits)
}

/// Digits that are read as a number.
pub open spec fn read_as(digits: Seq<char>, number: Float32) -> bool {
    match numeral(digits) {
        Some(bits) => Float64 { bits }.stands_for(number),
        None => false,
    }
}

/// However a number is spelled, its digits are read as that number.
pub open spec fn spelled_well<F: Fn(Float32) -> String>(spell: F, number: Float32) -> bool {
    forall|digits: String| #[trigger] spells(spell, number, digits) ==> read_as(digits@, number)
}

/// A value can be written.
pub open spec fn value_writable<F: Fn(Float32) -> String>(spell: F, value: ValueView) -> bool {
    match value {
        ValueView::Number(number) => spelled_well(spell, number),
        ValueView::Other => false,
        _ => true,
    }
}

/// Everything in an item can be written.
pub open spec fn item_writable<F: Fn(Float32) -> String>(spell: F, item: ItemView) -> bool
    decreases item,
{
    match item {
        ItemView::Value(value) => value_writable(spell, value),
        ItemView::Table(t) => writable(spell, t),
        ItemView::Tables(ts) => all_writable(spell, ts),
    }
}

/// Everything in some tables can be written.
pub open spec fn all_writable<F: Fn(Float32) -> String>(spell: F, ts: Seq<Entries>) -> bool
    decreases ts,
{
    forall|i: int| 0 <= i < ts.len() ==> writable(spell, #[trigger] ts[i])
}

/// Everything in a table can be written.
pub open spec fn writable<F: Fn(Float32) -> String>(spell: F, t: Entries) -> bool
    decreases t,
{
    forall|i: int| 0 <= i < t.len() ==> item_writable(spell, (#[trigger] t[i]).1)
}

/// How an item is written that was just put there: without any comment, and
/// with its keys in order.
pub open spec fn item_outline(item: ItemView) -> Held
    decreases item,
{
    match item {
        ItemView::Value(_) => Held::Value(Seq::empty()),
        ItemView::Table(t) => Held::Table(fresh_outline(t, t.len() as int)),
        ItemView::Tables(ts) => Held::Tables(fresh_outlines(ts)),
    }
}

/// How new tables are written.
pub open spec fn fresh_outlines(ts: Seq<Entries>) -> Seq<Outline>
    decreases ts,
{
    Seq::new(
        ts.len(),
        |i: int|
            if 0 <= i < ts.len() {
                fresh_outline(ts[i], ts[i].len() as int)
            } else {
                bare()
            },
    )
}

/// How a new table with the first `n` keys is written. A key that is there
/// already is passed over.
pub open spec fn fresh_outline(t: Entries, n: int) -> Outline
    decreases t, n,
{
    if n <= 0 || n > t.len() {
        bare()
    } else {
        let before = fresh_outline(t, n - 1);
        if key_at(t.take(n - 1), t[n - 1].0) is Some {
            before
        } else {
            before.with(t[n - 1].0, item_outline(t[n - 1].1))
        }
    }
}

/// How a table that holds `t` is written after a change.
pub open spec fn relaid(o: Outline, t: Entries, change: ChangeView) -> Outline {
    match change {
        ChangeView::Put { key, item } => o.with(key, item_outline(item)),
        ChangeView::Remove { key } => o.less(key),
        ChangeView::Push { key, table } => {
            let fresh = fresh_outline(table, table.len() as int);
            match get(t, key) {
                None => o.with(key, Held::Tables(seq![fresh])),
                Some(ItemView::Tables(_)) => o.with(
                    key,
                    Held::Tables(o.held(key)->Tables_0.push(fresh)),
                ),
                _ => o,
            }
        },
        ChangeView::RemoveAt { key, index } => match get(t, key) {
            Some(ItemView::Tables(ts)) => if index < ts.len() {
                o.with(key, Held::Tables(o.held(key)->Tables_0.remove(index as int)))
            } else {
                o
            },
            _ => o,
        },
        ChangeView::ReplaceAt { key, index, table } => match get(t, key) {
            Some(ItemView::Tables(ts)) => if index < ts.len() {
                o.with(
                    key,
                    Held::Tables(
                        o.held(key)->Tables_0.update(
                            index as int,
                            fresh_outline(table, table.len() as int),
                        ),
                    ),
                )
            } else {
                o
            },
            _ => o,
        },
    }
}

/// How a table that holds `t` is written after a change to the table at the end
/// of the path, from the step at `from` on.
pub open spec fn relaid_at(
    o: Outline,
    t: Entries,
    path: Seq<StepView>,
    from: int,
    change: ChangeView,
) -> Outline
    decreases path.len() - from,
{
    if from < 0 || from >= path.len() {
        relaid(o, t, change)
    } else {
        let key = path[from].key;
        match path[from].index {
            Some(i) => match get(t, key) {
                Some(ItemView::Tables(ts)) => if i < ts.len() {
                    let inner = o.held(key)->Tables_0;
                    o.with(
                        key,
                        Held::Tables(
                            inner.update(
                                i as int,
                                relaid_at(inner[i as int], ts[i as int], path, from + 1, change),
                            ),
                        ),
                    )
                } else {
                    o
                },
                _ => o,
            },
            None => match get(t, key) {
                Some(ItemView::Table(inner)) => o.with(
                    key,
                    Held::Table(relaid_at(o.held(key)->Table_0, inner, path, from + 1, change)),
                ),
                None => o.with(
                    key,
                    Held::Table(relaid_at(bare(), Seq::empty(), path, from + 1, change)),
                ),
                _ => o,
            },
        }
    }
}

/// How a document that holds `t` is written after the first `n` operations.
pub open spec fn relaid_ops(o: Outline, t: Entries, ops: Seq<OpView>, n: int) -> Outline
    decreases n,
{
    if n <= 0 {
        o
    } else {
        relaid_at(
            relaid_ops(o, t, ops, n - 1),
            after_ops(t, ops, n - 1),
            ops[n - 1].path,
            0,
            ops[n - 1].change,
        )
    }
}

proof fn lemma_line_from(lines: Seq<Line>, key: Seq<char>, from: int)
    requires
        0 <= from,
    ensures
        match line_from(lines, key, from) {
            Some(i) => from <= i < lines.len() && lines[i].key == key && forall|j: int|
                from <= j < i ==> (#[trigger] lines[j]).key != key,
            None => forall|j: int| from <= j < lines.len() ==> (#[trigger] lines[j]).key != key,
        },
    decreases lines.len() - from,
{
    if from < lines.len() && lines[from].key != key {
        lemma_line_from(lines, key, from + 1);
    }
}

proof fn lemma_line_is(lines: Seq<Line>, key: Seq<char>, from: int, i: int)
    requires
        0 <= from <= i < lines.len(),
        lines[i].key == key,
        forall|j: int| from <= j < i ==> (#[trigger] lines[j]).key != key,
    ensures
        line_from(lines, key, from) == Some(i),
    decreases i - from,
{
    if from < i {
        lemma_line_is(lines, key, from + 1, i);
    }
}

proof fn lemma_with_twice(o: Outline, key: Seq<char>, a: Held, b: Held)
    ensures
        o.with(key, a).held(key) == a,
        o.with(key, a).with(key, b) == o.with(key, b),
{
    let once = o.with(key, a);
    lemma_line_from(o.lines, key, 0);
    let i = match o.line(key) {
        Some(i) => i,
        None => o.lines.len() as int,
    };
    assert forall|j: int| 0 <= j < i implies (#[trigger] once.lines[j]).key != key by {
        assert(once.lines[j] == o.lines[j]);
    }
    lemma_line_is(once.lines, key, 0, i);
    assert(once.with(key, b).lines =~= o.with(key, b).lines);
}

/// Puts a value under a key.
fn write_value<F: Fn(Float32) -> String>(
    table: &mut toml_edit::Table,
    key: &str,
    value: &Value,
    spell: &F,
) -> (r: bool)
    requires
        forall|number: Float32| call_requires(*spell, (number,)),
    ensures
        r ==> exists|node: Node| #[trigger]
            value_mirrors(value.deep_view(), node) && contents(*final(table)) == contents(
                *old(table),
            ).insert(key@, node),
        r ==> outline(*final(table)) == outline(*old(table)).with(
            key@,
            Held::Value(Seq::empty()),
        ),
        value_writable(*spell, value.deep_view()) ==> r,
{
    match value {
        Value::Text(text) => {
            put_text(table, key, text.as_str());
            assert(value_mirrors(value.deep_view(), Node::Text(text@)));
            true
        },
        Value::Flag(on) => {
            put_flag(table, key, *on);
            assert(value_mirrors(value.deep_view(), Node::Flag(*on)));
            true
        },
        Value::Number(number) => {
            let digits = spell(*number);
            assert(spells(*spell, *number, digits));
            match put_number(table, key, digits.as_str()) {
                Some(bits) => {
                    let double = Float64::from_bits(bits);
                    let done = double.is_for(*number);
                    proof {
                        if read_as(digits@, *number) {
                            let read = Float64 { bits: numeral(digits@)->0 };
                            widened_numbers_are_numbers(*number, read);
                        }
                    }
                    assert(done ==> value_mirrors(value.deep_view(), Node::Number(bits)));
                    done
                },
                None => false,
            }
        },
        Value::Texts(texts) => {
            put_texts(table, key, texts);
            assert(value_mirrors(value.deep_view(), Node::Texts(texts.deep_view())));
            true
        },
        Value::Other => false,
    }
}

/// Puts an item under a key.
fn write_item<F: Fn(Float32) -> String>(
    table: &mut toml_edit::Table,
    key: &str,
    item: &Item,
    spell: &F,
) -> (r: bool)
    requires
        forall|number: Float32| call_requires(*spell, (number,)),
    ensures
        r ==> exists|node: Node| #[trigger]
            node_mirrors(item_view(*item), node) && contents(*final(table)) == contents(
                *old(table),
            ).insert(key@, node),
        r ==> outline(*final(table)) == outline(*old(table)).with(
            key@,
            item_outline(item_view(*item)),
        ),
        item_writable(*spell, item_view(*item)) ==> r,
    decreases item,
{
    match item {
        Item::Value(value) => {
            let ghost m = contents(*table);
            let done = write_value(table, key, value, spell);
            proof {
                if done {
                    let node = choose|node: Node| #[trigger]
                        value_mirrors(value.deep_view(), node) && contents(*table) == m.insert(
                            key@,
                            node,
                        );
                    assert(node_mirrors(item_view(*item), node));
                }
            }
            done
        },
        Item::Table(section) => match written(section, spell) {
            Some(inner) => {
                assert(node_mirrors(item_view(*item), Node::Table(contents(inner))));
                put_table(table, key, inner);
                true
            },
            None => false,
        },
        Item::Tables(sections) => {
            let ghost ts = item_view(*item)->Tables_0;
            let mut inner = new_tables();
            let mut i: usize = 0;
            while i < sections.len()
                invariant
                    i <= sections@.len(),
                    *item == Item::Tables(*sections),
                    item_view(*item) == ItemView::Tables(ts),
                    ts.len() == sections@.len(),
                    forall|number: Float32| call_requires(*spell, (number,)),
                    members(inner).len() == i,
                    outlines(inner) == fresh_outlines(ts).take(i as int),
                    forall|j: int| 0 <= j < i ==> mirrors(#[trigger] ts[j], members(inner)[j]),
                decreases sections@.len() - i,
            {
                assert(decreases_to!(*item => item->Tables_0@[i as int]));
                assert(ts[i as int] == table_view(sections@[i as int]));
                match written(&sections[i], spell) {
                    Some(one) => {
                        push_member(&mut inner, one);
                        assert(outlines(inner) =~= fresh_outlines(ts).take(i + 1));
                    },
                    None => {
                        assert(item_writable(*spell, ItemView::Tables(ts)) ==> writable(
                            *spell,
                            ts[i as int],
                        ));
                        return false;
                    },
                }
                i = i + 1;
            }
            assert(node_mirrors(item_view(*item), Node::Tables(members(inner))));
            assert(outlines(inner) =~= fresh_outlines(ts));
            put_tables(table, key, inner);
            true
        },
    }
}

/// A table of the tree that holds what a table of the document holds.
fn written<F: Fn(Float32) -> String>(section: &Section, spell: &F) -> (r: Option<toml_edit::Table>)
    requires
        forall|number: Float32| call_requires(*spell, (number,)),
    ensures
        r matches Some(table) ==> mirrors(table_view(*section), contents(table)) && outline(table)
            == fresh_outline(table_view(*section), table_view(*section).len() as int),
        writable(*spell, table_view(*section)) ==> r is Some,
    decreases section,
{
    let ghost t = table_view(*section);
    let mut table = new_table();
    let mut i: usize = 0;
    proof {
        assert forall|key: Seq<char>| #[trigger] key_mirrors(t.take(0), contents(table), key) by {
        }
        lemma_mirrors(t.take(0), contents(table));
    }
    while i < section.entries.len()
        invariant
            i <= section.entries@.len() == t.len(),
            t == table_view(*section),
            forall|number: Float32| call_requires(*spell, (number,)),
            mirrors(t.take(i as int), contents(table)),
            outline(table) == fresh_outline(t, i as int),
        decreases section.entries@.len() - i,
    {
        let ghost m = contents(table);
        let entry = &section.entries[i];
        assert(t[i as int] == (entry.key@, item_view(entry.item)));
        assert(t.take(i + 1) =~= t.take(i as int).push(t[i as int]));
        proof {
            lemma_key_mirrors(t.take(i as int), m, entry.key@);
        }
        if !has_key(&table, entry.key.as_str()) {
            if !write_item(&mut table, entry.key.as_str(), &entry.item, spell) {
                return None;
            }
            proof {
                let node = choose|node: Node| #[trigger]
                    node_mirrors(item_view(entry.item), node) && contents(table) == m.insert(
                        entry.key@,
                        node,
                    );
                lemma_key_mirrors(t.take(i as int), m, entry.key@);
                lemma_mirrors_put(t.take(i as int), m, entry.key@, item_view(entry.item), node);
                assert(put(t.take(i as int), entry.key@, item_view(entry.item)) =~= t.take(i + 1));
            }
        } else {
            proof {
                assert forall|key: Seq<char>| #[trigger] key_mirrors(t.take(i + 1), m, key) by {
                    lemma_key_mirrors(t.take(i as int), m, key);
                    lemma_key_mirrors(t.take(i as int), m, entry.key@);
                    lemma_get_push(t.take(i as int), t[i as int], key);
                }
                lemma_mirrors(t.take(i + 1), m);
            }
        }
        i = i + 1;
    }
    assert(t.take(i as int) =~= t);
    Some(table)
}

/// What a change brings can be written.
pub open spec fn change_writable<F: Fn(Float32) -> String>(spell: F, change: ChangeView) -> bool {
    match change {
        ChangeView::Put { key, item } => item_writable(spell, item),
        ChangeView::Push { key, table } => writable(spell, table),
        ChangeView::ReplaceAt { key, index, table } => writable(spell, table),
        _ => true,
    }
}

/// How many tables a key holds, where it holds an array of them.
fn count_in(table: &toml_edit::Table, key: &str) -> (r: Option<usize>)
    ensures
        match r {
            Some(n) => contents(*table).contains_key(key@) && contents(*table)[key@] is Tables
                && contents(*table)[key@]->Tables_0.len() == n,
            None => contents(*table).contains_key(key@) ==> !(contents(*table)[key@] is Tables),
        },
{
    match tables_in(table, key) {
        Some(inner) => Some(count(inner)),
        None => None,
    }
}

/// Makes one change to a table of the tree. Where something cannot be written,
/// the answer is no.
fn change_table<F: Fn(Float32) -> String>(
    table: &mut toml_edit::Table,
    Ghost(t): Ghost<Entries>,
    change: &Change,
    spell: &F,
) -> (r: bool)
    requires
        mirrors(t, contents(*old(table))),
        forall|number: Float32| call_requires(*spell, (number,)),
    ensures
        r ==> mirrors(changed(t, change.deep_view()), contents(*final(table))),
        r ==> outline(*final(table)) == relaid(outline(*old(table)), t, change.deep_view()),
        change_writable(*spell, change.deep_view()) ==> r,
{
    let ghost m = contents(*table);
    let ghost o = outline(*table);
    match change {
        Change::Put { key, item } => {
            let done = write_item(table, key.as_str(), item, spell);
            proof {
                if done {
                    let node = choose|node: Node| #[trigger]
                        node_mirrors(item_view(*item), node) && contents(*table) == m.insert(
                            key@,
                            node,
                        );
                    lemma_mirrors_put(t, m, key@, item_view(*item), node);
                }
            }
            done
        },
        Change::Remove { key } => {
            remove_key(table, key.as_str());
            proof {
                lemma_mirrors_without(t, m, key@);
            }
            true
        },
        Change::Push { key, table: section } => {
            let one = match written(section, spell) {
                Some(one) => one,
                None => {
                    return false;
                },
            };
            let ghost fresh = contents(one);
            proof {
                lemma_key_mirrors(t, m, key@);
            }
            if !has_key(table, key.as_str()) {
                let mut inner = new_tables();
                push_member(&mut inner, one);
                let ghost ms = members(inner);
                assert(outlines(inner) =~= seq![outline(one)]);
                put_tables(table, key.as_str(), inner);
                proof {
                    let ts = Seq::<Entries>::empty().push(table_view(*section));
                    assert(node_mirrors(ItemView::Tables(ts), Node::Tables(ms)));
                    lemma_mirrors_put(t, m, key@, ItemView::Tables(ts), Node::Tables(ms));
                }
            } else if count_in(table, key.as_str()).is_some() {
                let ghost before = m[key@]->Tables_0;
                push_member(tables_under(table, key.as_str()), one);
                assert(outline(*table) == o.with(
                    key@,
                    Held::Tables(o.held(key@)->Tables_0.push(outline(one))),
                ));
                proof {
                    let ts = tables_at(t, key@)->0;
                    let ms = before.push(fresh);
                    assert(node_mirrors(
                        ItemView::Tables(ts.push(table_view(*section))),
                        Node::Tables(ms),
                    ));
                    lemma_mirrors_put(
                        t,
                        m,
                        key@,
                        ItemView::Tables(ts.push(table_view(*section))),
                        Node::Tables(ms),
                    );
                }
            }
            true
        },
        Change::RemoveAt { key, index } => {
            proof {
                lemma_key_mirrors(t, m, key@);
            }
            match count_in(table, key.as_str()) {
                Some(n) => {
                    if *index < n {
                        let ghost before = m[key@]->Tables_0;
                        remove_member(tables_under(table, key.as_str()), *index);
                        proof {
                            let ts = get(t, key@)->0->Tables_0;
                            let ms = before.remove(*index as int);
                            assert(node_mirrors(
                                ItemView::Tables(ts.remove(*index as int)),
                                Node::Tables(ms),
                            ));
                            lemma_mirrors_put(
                                t,
                                m,
                                key@,
                                ItemView::Tables(ts.remove(*index as int)),
                                Node::Tables(ms),
                            );
                        }
                    }
                },
                None => {},
            }
            true
        },
        Change::ReplaceAt { key, index, table: section } => {
            let one = match written(section, spell) {
                Some(one) => one,
                None => {
                    return false;
                },
            };
            let ghost fresh = contents(one);
            proof {
                lemma_key_mirrors(t, m, key@);
            }
            match count_in(table, key.as_str()) {
                Some(n) => {
                    if *index < n {
                        let ghost before = m[key@]->Tables_0;
                        *member_mut(tables_under(table, key.as_str()), *index) = one;
                        proof {
                            let ts = get(t, key@)->0->Tables_0;
                            let ms = before.update(*index as int, fresh);
                            let after = ts.update(*index as int, table_view(*section));
                            assert(node_mirrors(ItemView::Tables(after), Node::Tables(ms)));
                            lemma_mirrors_put(
                                t,
                                m,
                                key@,
                                ItemView::Tables(after),
                                Node::Tables(ms),
                            );
                        }
                    }
                },
                None => {},
            }
            true
        },
    }
}

/// Makes one change to the table that the path leads to, from the step at
/// `from` on.
fn change_at<F: Fn(Float32) -> String>(
    table: &mut toml_edit::Table,
    Ghost(t): Ghost<Entries>,
    path: &Vec<Step>,
    from: usize,
    change: &Change,
    spell: &F,
) -> (r: bool)
    requires
        mirrors(t, contents(*old(table))),
        from <= path@.len(),
        forall|number: Float32| call_requires(*spell, (number,)),
    ensures
        r ==> mirrors(
            changed_at(t, path.deep_view(), from as int, change.deep_view()),
            contents(*final(table)),
        ),
        r ==> outline(*final(table)) == relaid_at(
            outline(*old(table)),
            t,
            path.deep_view(),
            from as int,
            change.deep_view(),
        ),
        change_writable(*spell, change.deep_view()) ==> r,
    decreases path@.len() - from,
{
    if from == path.len() {
        return change_table(table, Ghost(t), change, spell);
    }
    let ghost m = contents(*table);
    let ghost o = outline(*table);
    let ghost steps = path.deep_view();
    let key = path[from].key.as_str();
    proof {
        assert(steps[from as int] == path@[from as int].deep_view());
        lemma_key_mirrors(t, m, key@);
    }
    match path[from].index {
        Some(n) => match count_in(table, key) {
            Some(len) => {
                if n < len {
                    let ghost ts = get(t, key@)->0->Tables_0;
                    let ghost before = m[key@]->Tables_0;
                    let inner = member_mut(tables_under(table, key), n);
                    let done = change_at(
                        inner,
                        Ghost(ts[n as int]),
                        path,
                        from + 1,
                        change,
                        spell,
                    );
                    proof {
                        if done {
                            let made = changed_at(
                                ts[n as int],
                                steps,
                                from + 1,
                                change.deep_view(),
                            );
                            let ms = contents(*table)[key@]->Tables_0;
                            let after = ts.update(n as int, made);
                            assert(node_mirrors(ItemView::Tables(after), Node::Tables(ms)));
                            assert(contents(*table) =~= m.insert(key@, Node::Tables(ms)));
                            lemma_mirrors_put(
                                t,
                                m,
                                key@,
                                ItemView::Tables(after),
                                Node::Tables(ms),
                            );
                        }
                    }
                    done
                } else {
                    true
                }
            },
            None => true,
        },
        None => {
            if !has_key(table, key) {
                let fresh = new_table();
                proof {
                    assert forall|k: Seq<char>| #[trigger]
                        key_mirrors(Seq::empty(), contents(fresh), k) by {
                    }
                    lemma_mirrors(Seq::empty(), contents(fresh));
                }
                put_table(table, key, fresh);
                proof {
                    lemma_with_twice(o, key@, Held::Table(bare()), Held::Table(bare()));
                }
                let inner = table_under(table, key);
                let done = change_at(
                    inner,
                    Ghost(Seq::empty()),
                    path,
                    from + 1,
                    change,
                    spell,
                );
                proof {
                    if done {
                        let made = changed_at(
                            Seq::empty(),
                            steps,
                            from + 1,
                            change.deep_view(),
                        );
                        let node = contents(*table)[key@];
                        assert(node_mirrors(ItemView::Table(made), node));
                        assert(contents(*table) =~= m.insert(key@, node));
                        lemma_mirrors_put(t, m, key@, ItemView::Table(made), node);
                        let laid = relaid_at(
                            bare(),
                            Seq::empty(),
                            steps,
                            from + 1,
                            change.deep_view(),
                        );
                        lemma_with_twice(o, key@, Held::Table(bare()), Held::Table(laid));
                    }
                }
                done
            } else if table_in(table, key).is_some() {
                let ghost inside = get(t, key@)->0->Table_0;
                let inner = table_under(table, key);
                let done = change_at(inner, Ghost(inside), path, from + 1, change, spell);
                proof {
                    if done {
                        let made = changed_at(inside, steps, from + 1, change.deep_view());
                        let node = contents(*table)[key@];
                        assert(node_mirrors(ItemView::Table(made), node));
                        assert(contents(*table) =~= m.insert(key@, node));
                        lemma_mirrors_put(t, m, key@, ItemView::Table(made), node);
                    }
                }
                done
            } else {
                true
            }
        },
    }
}

/// Every number is spelled as one.
pub open spec fn spells_numbers<F: Fn(Float32) -> String>(spell: F) -> bool {
    forall|number: Float32| #[trigger] spelled_well(spell, number)
}

/// A key more keeps a table writable.
pub proof fn lemma_writable_put<F: Fn(Float32) -> String>(
    spell: F,
    t: Entries,
    key: Seq<char>,
    item: ItemView,
)
    requires
        writable(spell, t),
        item_writable(spell, item),
    ensures
        writable(spell, put(t, key, item)),
{
    let u = put(t, key, item);
    lemma_key_from(t, key, 0);
    assert forall|i: int| 0 <= i < u.len() implies item_writable(spell, (#[trigger] u[i]).1) by {
        if key_at(t, key) == Some(i) || i >= t.len() {
            assert(u[i].1 == item);
        } else {
            assert(u[i] == t[i]);
        }
    }
}

/// The document that a text is, with what it holds.
pub(crate) fn open_document(text: &str) -> (r: Result<(toml_edit::DocumentMut, Section), String>)
    ensures
        match r {
            Ok(opened) => {
                &&& document_of(text@) is Ok
                &&& document_of(text@)->Ok_0 == document_contents(opened.0)
                &&& mirrors(table_view(opened.1), document_contents(opened.0))
            },
            Err(e) => document_of(text@) is Err && document_of(text@)->Err_0 == e@,
        },
{
    match read_document(text) {
        Ok(tree) => {
            let section = section_of(root(&tree));
            Ok((tree, section))
        },
        Err(e) => Err(e),
    }
}

/// A copy of a document after some operations, and its text. Where something
/// cannot be written, there is none.
pub(crate) fn edited<F: Fn(Float32) -> String>(
    tree: &toml_edit::DocumentMut,
    Ghost(t): Ghost<Entries>,
    ops: &Vec<DocOp>,
    spell: &F,
) -> (r: Option<(toml_edit::DocumentMut, String)>)
    requires
        mirrors(t, document_contents(*tree)),
        forall|number: Float32| call_requires(*spell, (number,)),
    ensures
        r matches Some(made) ==> {
            &&& mirrors(
                after_ops(t, ops.deep_view(), ops@.len() as int),
                document_contents(made.0),
            )
            &&& document_outline(made.0) == relaid_ops(
                document_outline(*tree),
                t,
                ops.deep_view(),
                ops@.len() as int,
            )
            &&& ending(made.0) == ending(*tree)
            &&& made.1@ == printed(made.0)
        },
        (forall|i: int|
            0 <= i < ops@.len() ==> change_writable(*spell, (#[trigger] ops.deep_view()[i]).change))
            ==> r is Some,
{
    let mut copy = copy_document(tree);
    let mut i: usize = 0;
    while i < ops.len()
        invariant
            i <= ops@.len(),
            mirrors(after_ops(t, ops.deep_view(), i as int), document_contents(copy)),
            document_outline(copy) == relaid_ops(
                document_outline(*tree),
                t,
                ops.deep_view(),
                i as int,
            ),
            ending(copy) == ending(*tree),
            forall|number: Float32| call_requires(*spell, (number,)),
        decreases ops@.len() - i,
    {
        assert(ops.deep_view()[i as int] == ops@[i as int].deep_view());
        let table = root_mut(&mut copy);
        let done = change_at(
            table,
            Ghost(after_ops(t, ops.deep_view(), i as int)),
            &ops[i].path,
            0,
            &ops[i].change,
            spell,
        );
        if !done {
            return None;
        }
        i = i + 1;
    }
    let text = print_document(&copy);
    Some((copy, text))
}

/// The key of a table under which a change takes place.
pub open spec fn touched_key(path: Seq<StepView>, from: int, change: ChangeView) -> Seq<char> {
    if 0 <= from < path.len() {
        path[from].key
    } else {
        match change {
            ChangeView::Put { key, .. } => key,
            ChangeView::Remove { key } => key,
            ChangeView::Push { key, .. } => key,
            ChangeView::RemoveAt { key, .. } => key,
            ChangeView::ReplaceAt { key, .. } => key,
        }
    }
}

/// Whether a change takes a key out of the table itself.
pub open spec fn takes_a_key(path: Seq<StepView>, from: int, change: ChangeView) -> bool {
    !(0 <= from < path.len()) && change is Remove
}

/// Every key is where it was, with what stood before it. What is new comes
/// last.
pub open spec fn leads_kept(before: Outline, after: Outline) -> bool {
    &&& after.lead == before.lead
    &&& after.tail == before.tail
    &&& before.lines.len() <= after.lines.len()
    &&& forall|i: int|
        0 <= i < before.lines.len() ==> (#[trigger] after.lines[i]).key == before.lines[i].key
            && after.lines[i].lead == before.lines[i].lead
}

/// A change keeps comments and order. A key that it takes out leaves the others
/// in order, each with what stood around it. Otherwise every key stays in its
/// place with what stood before it; the lines of all keys but the touched one
/// stay as they are; and of an array of tables only the one that the path leads
/// into is written anew.
pub proof fn a_change_keeps_comments(
    o: Outline,
    t: Entries,
    path: Seq<StepView>,
    from: int,
    change: ChangeView,
)
    ensures
        ({
            let key = touched_key(path, from, change);
            let after = relaid_at(o, t, path, from, change);
            if takes_a_key(path, from, change) {
                after == (Outline {
                    lines: match o.line(key) {
                        Some(i) => o.lines.remove(i),
                        None => o.lines,
                    },
                    ..o
                })
            } else {
                &&& leads_kept(o, after)
                &&& after.lines.len() <= o.lines.len() + 1
                &&& forall|i: int|
                    0 <= i < o.lines.len() && o.lines[i].key != key ==> #[trigger] after.lines[i]
                        == o.lines[i]
            }
        }),
        0 <= from < path.len() && path[from].index is Some ==> {
            let key = path[from].key;
            let before = o.held(key)->Tables_0;
            let after = relaid_at(o, t, path, from, change).held(key)->Tables_0;
            o.line(key) is Some && path[from].index->0 < before.len() ==> forall|j: int|
                0 <= j < before.len() && j != path[from].index->0 ==> #[trigger] after[j]
                    == before[j]
        },
{
    let key = touched_key(path, from, change);
    lemma_line_from(o.lines, key, 0);
    if 0 <= from < path.len() && path[from].index is Some && o.line(key) is Some {
        let i = path[from].index->0 as int;
        let inner = o.held(key)->Tables_0;
        match get(t, key) {
            Some(ItemView::Tables(ts)) => {
                if i < ts.len() {
                    let made = relaid_at(inner[i], ts[i], path, from + 1, change);
                    let held = Held::Tables(inner.update(i, made));
                    lemma_with_twice(o, key, held, held);
                }
            },
            _ => {},
        }
    }
}

/// Edits that take no key out of the root keep its comments and its order: every
/// key stays in its place with what stood before it, and the line of a key that
/// none of them touches stays as it is, with everything in it.
pub proof fn edits_keep_comments(o: Outline, t: Entries, ops: Seq<OpView>, n: int, key: Seq<char>)
    requires
        0 <= n <= ops.len(),
        forall|i: int|
            0 <= i < ops.len() ==> !takes_a_key((#[trigger] ops[i]).path, 0, ops[i].change),
    ensures
        leads_kept(o, relaid_ops(o, t, ops, n)),
        (forall|i: int|
            0 <= i < ops.len() ==> touched_key((#[trigger] ops[i]).path, 0, ops[i].change) != key)
            ==> forall|j: int|
            0 <= j < o.lines.len() && o.lines[j].key == key ==> #[trigger] relaid_ops(
                o,
                t,
                ops,
                n,
            ).lines[j] == o.lines[j],
    decreases n,
{
    if n > 0 {
        edits_keep_comments(o, t, ops, n - 1, key);
        let before = relaid_ops(o, t, ops, n - 1);
        let op = ops[n - 1];
        a_change_keeps_comments(before, after_ops(t, ops, n - 1), op.path, 0, op.change);
        let after = relaid_ops(o, t, ops, n);
        assert forall|i: int| 0 <= i < o.lines.len() implies (#[trigger] after.lines[i]).key
            == o.lines[i].key && after.lines[i].lead == o.lines[i].lead by {
            assert(before.lines[i].key == o.lines[i].key);
        }
        if forall|i: int|
            0 <= i < ops.len() ==> touched_key((#[trigger] ops[i]).path, 0, ops[i].change) != key {
            assert(touched_key(op.path, 0, op.change) != key);
            assert forall|j: int| 0 <= j < o.lines.len() && o.lines[j].key
                == key implies #[trigger] after.lines[j] == o.lines[j] by {
                assert(before.lines[j] == o.lines[j]);
            }
        }
    }
}

} // verus!
