//! A configuration document as a tree of tables, and the primitive changes
//! that an edit makes to it.
//!
//! The tree holds what an edit reads: which keys a table has, which of them
//! are tables or arrays of tables, and the texts among the values. Every
//! other value stands as [`Value::Other`]. A change is a [`DocOp`]: the table
//! it acts on, by the path from the root, and what happens to one of its keys.
//! The same operations can be carried out on the file's own syntax tree, so
//! that comments and layout stay as they are.
use crate::float::Float32;
use crate::text::{copy_texts, same_text};
use vstd::prelude::*;

verus! {

/// A value of the document.
#[derive(Debug)]
pub enum Value {
    Text(String),
    Flag(bool),
    Number(Float32),
    Texts(Vec<String>),
    /// A value that edits neither read nor write.
    Other,
}

/// A key of a table and what it holds.
#[derive(Debug)]
pub struct Entry {
    pub key: String,
    pub item: Item,
}

/// A table, its keys in the order of the file.
#[derive(Debug)]
pub struct Section {
    pub entries: Vec<Entry>,
}

/// What a key holds: a value, a table block, or an array of table blocks.
#[derive(Debug)]
pub enum Item {
    Value(Value),
    Table(Section),
    Tables(Vec<Section>),
}

/// What a [`Value`] holds.
pub enum ValueView {
    Text(Seq<char>),
    Flag(bool),
    Number(Float32),
    Texts(Seq<Seq<char>>),
    Other,
}

/// The keys of a table with what they hold, in order.
pub type Entries = Seq<(Seq<char>, ItemView)>;

/// What an [`Item`] holds.
pub enum ItemView {
    Value(ValueView),
    Table(Seq<(Seq<char>, ItemView)>),
    Tables(Seq<Seq<(Seq<char>, ItemView)>>),
}

impl DeepView for Value {
    type V = ValueView;

    open spec fn deep_view(&self) -> ValueView {
        match self {
            Value::Text(text) => ValueView::Text(text@),
            Value::Flag(on) => ValueView::Flag(*on),
            Value::Number(number) => ValueView::Number(*number),
            Value::Texts(texts) => ValueView::Texts(texts.deep_view()),
            Value::Other => ValueView::Other,
        }
    }
}

/// The contents of a table.
pub open spec fn table_view(t: Section) -> Entries
    decreases t,
{
    Seq::new(
        t.entries@.len(),
        |i: int|
            if 0 <= i < t.entries@.len() {
                (t.entries@[i].key@, item_view(t.entries@[i].item))
            } else {
                arbitrary()
            },
    )
}

/// The contents of an item.
pub open spec fn item_view(item: Item) -> ItemView
    decreases item,
{
    match item {
        Item::Value(v) => ItemView::Value(v.deep_view()),
        Item::Table(t) => ItemView::Table(table_view(t)),
        Item::Tables(ts) => ItemView::Tables(
            Seq::new(
                ts@.len(),
                |i: int|
                    if 0 <= i < ts@.len() {
                        table_view(ts@[i])
                    } else {
                        arbitrary()
                    },
            ),
        ),
    }
}

/// The contents of a list of tables.
pub open spec fn tables_view(ts: Seq<Section>) -> Seq<Entries> {
    Seq::new(ts.len(), |i: int| table_view(ts[i]))
}

impl DeepView for Section {
    type V = Entries;

    open spec fn deep_view(&self) -> Entries {
        table_view(*self)
    }
}

impl DeepView for Item {
    type V = ItemView;

    open spec fn deep_view(&self) -> ItemView {
        item_view(*self)
    }
}

/// Position of the key at or after `from`.
pub open spec fn key_from(t: Entries, key: Seq<char>, from: int) -> Option<int>
    decreases t.len() - from,
{
    if from < 0 || from >= t.len() {
        None
    } else if t[from].0 == key {
        Some(from)
    } else {
        key_from(t, key, from + 1)
    }
}

/// Position of the key.
pub open spec fn key_at(t: Entries, key: Seq<char>) -> Option<int> {
    key_from(t, key, 0)
}

/// What the key holds.
pub open spec fn get(t: Entries, key: Seq<char>) -> Option<ItemView> {
    match key_at(t, key) {
        Some(i) => Some(t[i].1),
        None => None,
    }
}

/// The table with the key holding `item`: in its place, or at the end where
/// the key is new.
pub open spec fn put(t: Entries, key: Seq<char>, item: ItemView) -> Entries {
    match key_at(t, key) {
        Some(i) => t.update(i, (key, item)),
        None => t.push((key, item)),
    }
}

/// The table without the key.
pub open spec fn without(t: Entries, key: Seq<char>) -> Entries
    decreases t.len(),
{
    if t.len() == 0 {
        t
    } else {
        let rest = without(t.drop_last(), key);
        if t.last().0 == key {
            rest
        } else {
            rest.push(t.last())
        }
    }
}

/// The text that the key holds, where it holds one.
pub open spec fn text_at(t: Entries, key: Seq<char>) -> Option<Seq<char>> {
    match get(t, key) {
        Some(ItemView::Value(ValueView::Text(text))) => Some(text),
        _ => None,
    }
}

/// The array of tables that the key holds; an absent key is an empty array,
/// and any other shape is none.
pub open spec fn tables_at(t: Entries, key: Seq<char>) -> Option<Seq<Entries>> {
    match get(t, key) {
        None => Some(Seq::empty()),
        Some(ItemView::Tables(ts)) => Some(ts),
        _ => None,
    }
}

/// Whether the key is absent or holds a table block.
pub open spec fn table_shaped(t: Entries, key: Seq<char>) -> bool {
    match get(t, key) {
        None => true,
        Some(ItemView::Table(_)) => true,
        _ => false,
    }
}

/// One step from a table to a table inside it: the table block of a key, or
/// one member of its array of tables.
#[derive(Debug)]
pub struct Step {
    pub key: String,
    pub index: Option<usize>,
}

/// What a [`Step`] says.
pub struct StepView {
    pub key: Seq<char>,
    pub index: Option<usize>,
}

impl DeepView for Step {
    type V = StepView;

    open spec fn deep_view(&self) -> StepView {
        StepView { key: self.key@, index: self.index }
    }
}

/// What happens to one key of a table.
#[derive(Debug)]
pub enum Change {
    /// The key holds the item from now on.
    Put { key: String, item: Item },
    /// The key goes.
    Remove { key: String },
    /// The table joins the end of the key's array, which is made where absent.
    Push { key: String, table: Section },
    /// The member leaves the key's array.
    RemoveAt { key: String, index: usize },
    /// The member of the key's array is replaced.
    ReplaceAt { key: String, index: usize, table: Section },
}

/// What a [`Change`] says.
pub enum ChangeView {
    Put { key: Seq<char>, item: ItemView },
    Remove { key: Seq<char> },
    Push { key: Seq<char>, table: Entries },
    RemoveAt { key: Seq<char>, index: usize },
    ReplaceAt { key: Seq<char>, index: usize, table: Entries },
}

impl DeepView for Change {
    type V = ChangeView;

    open spec fn deep_view(&self) -> ChangeView {
        match self {
            Change::Put { key, item } => ChangeView::Put { key: key@, item: item_view(*item) },
            Change::Remove { key } => ChangeView::Remove { key: key@ },
            Change::Push { key, table } => ChangeView::Push { key: key@, table: table_view(*table) },
            Change::RemoveAt { key, index } => ChangeView::RemoveAt { key: key@, index: *index },
            Change::ReplaceAt { key, index, table } => ChangeView::ReplaceAt {
                key: key@,
                index: *index,
                table: table_view(*table),
            },
        }
    }
}

/// A change to one table of the document. A step to a table block that is not
/// there makes it.
#[derive(Debug)]
pub struct DocOp {
    pub path: Vec<Step>,
    pub change: Change,
}

/// What a [`DocOp`] says.
pub struct OpView {
    pub path: Seq<StepView>,
    pub change: ChangeView,
}

impl DeepView for DocOp {
    type V = OpView;

    open spec fn deep_view(&self) -> OpView {
        OpView { path: self.path.deep_view(), change: self.change.deep_view() }
    }
}

/// The table after a change to it. A change that names a member or an array
/// that is not there leaves the table as it is.
pub open spec fn changed(t: Entries, change: ChangeView) -> Entries {
    match change {
        ChangeView::Put { key, item } => put(t, key, item),
        ChangeView::Remove { key } => without(t, key),
        ChangeView::Push { key, table } => match tables_at(t, key) {
            Some(ts) => put(t, key, ItemView::Tables(ts.push(table))),
            None => t,
        },
        ChangeView::RemoveAt { key, index } => match get(t, key) {
            Some(ItemView::Tables(ts)) => if index < ts.len() {
                put(t, key, ItemView::Tables(ts.remove(index as int)))
            } else {
                t
            },
            _ => t,
        },
        ChangeView::ReplaceAt { key, index, table } => match get(t, key) {
            Some(ItemView::Tables(ts)) => if index < ts.len() {
                put(t, key, ItemView::Tables(ts.update(index as int, table)))
            } else {
                t
            },
            _ => t,
        },
    }
}

/// The table after a change to the table at the end of the path, from the
/// step at `from` on. A path that leads nowhere leaves it as it is.
pub open spec fn changed_at(
    t: Entries,
    path: Seq<StepView>,
    from: int,
    change: ChangeView,
) -> Entries
    decreases path.len() - from,
{
    if from < 0 || from >= path.len() {
        changed(t, change)
    } else {
        let key = path[from].key;
        match path[from].index {
            Some(i) => match get(t, key) {
                Some(ItemView::Tables(ts)) => if i < ts.len() {
                    put(
                        t,
                        key,
                        ItemView::Tables(
                            ts.update(i as int, changed_at(ts[i as int], path, from + 1, change)),
                        ),
                    )
                } else {
                    t
                },
                _ => t,
            },
            None => match get(t, key) {
                Some(ItemView::Table(inner)) => put(
                    t,
                    key,
                    ItemView::Table(changed_at(inner, path, from + 1, change)),
                ),
                None => put(
                    t,
                    key,
                    ItemView::Table(changed_at(Seq::empty(), path, from + 1, change)),
                ),
                _ => t,
            },
        }
    }
}

/// The document after one operation.
pub open spec fn after_op(doc: Entries, op: OpView) -> Entries {
    changed_at(doc, op.path, 0, op.change)
}

/// The document after the first `n` of the operations, in order.
pub open spec fn after_ops(doc: Entries, ops: Seq<OpView>, n: int) -> Entries
    decreases n,
{
    if n <= 0 {
        doc
    } else {
        after_op(after_ops(doc, ops, n - 1), ops[n - 1])
    }
}

/// Where a key is found, and where it is not.
pub proof fn lemma_key_from(t: Entries, key: Seq<char>, from: int)
    requires
        0 <= from,
    ensures
        match key_from(t, key, from) {
            Some(i) => from <= i < t.len() && t[i].0 == key && forall|j: int|
                from <= j < i ==> (#[trigger] t[j]).0 != key,
            None => forall|j: int| from <= j < t.len() ==> (#[trigger] t[j]).0 != key,
        },
    decreases t.len() - from,
{
    if from < t.len() && t[from].0 != key {
        lemma_key_from(t, key, from + 1);
    }
}

proof fn lemma_key_from_is(t: Entries, key: Seq<char>, from: int, i: int)
    requires
        0 <= from <= i < t.len(),
        t[i].0 == key,
        forall|j: int| from <= j < i ==> (#[trigger] t[j]).0 != key,
    ensures
        key_from(t, key, from) == Some(i),
    decreases i - from,
{
    if from < i {
        lemma_key_from_is(t, key, from + 1, i);
    }
}

/// A key that was set reads back what it was set to, and every other key
/// reads as before.
pub proof fn set_then_get(t: Entries, key: Seq<char>, item: ItemView, other: Seq<char>)
    ensures
        get(put(t, key, item), key) == Some(item),
        other != key ==> get(put(t, key, item), other) == get(t, other),
{
    let u = put(t, key, item);
    lemma_key_from(t, key, 0);
    match key_at(t, key) {
        Some(i) => {
            lemma_key_from_is(u, key, 0, i);
        },
        None => {
            lemma_key_from_is(u, key, 0, t.len() as int);
        },
    }
    if other != key {
        lemma_key_from(t, other, 0);
        lemma_key_from(u, other, 0);
        match key_at(t, other) {
            Some(j) => {
                lemma_key_from_is(u, other, 0, j);
            },
            None => {
                match key_at(u, other) {
                    Some(j) => {
                        assert(u[j].0 == other);
                        if j < t.len() {
                            assert(t[j].0 != other);
                        }
                    },
                    None => {},
                }
            },
        }
    }
}

/// What a key holds in a table that is one entry longer.
pub proof fn lemma_get_push(t: Entries, entry: (Seq<char>, ItemView), key: Seq<char>)
    ensures
        get(t.push(entry), key) == match get(t, key) {
            Some(item) => Some(item),
            None => if entry.0 == key {
                Some(entry.1)
            } else {
                None
            },
        },
{
    let u = t.push(entry);
    lemma_key_from(t, key, 0);
    lemma_key_from(u, key, 0);
    match key_at(t, key) {
        Some(i) => {
            lemma_key_from_is(u, key, 0, i);
        },
        None => {
            if entry.0 == key {
                lemma_key_from_is(u, key, 0, t.len() as int);
            } else {
                match key_at(u, key) {
                    Some(j) => {
                        if j < t.len() {
                            assert(t[j].0 != key);
                        }
                    },
                    None => {},
                }
            }
        },
    }
}

/// A key that was removed holds nothing, and every other key reads as before.
pub proof fn removed_then_get(t: Entries, key: Seq<char>, other: Seq<char>)
    ensures
        get(without(t, key), key) is None,
        other != key ==> get(without(t, key), other) == get(t, other),
    decreases t.len(),
{
    if t.len() > 0 {
        let rest = without(t.drop_last(), key);
        removed_then_get(t.drop_last(), key, other);
        assert(t =~= t.drop_last().push(t.last()));
        lemma_get_push(t.drop_last(), t.last(), other);
        if t.last().0 != key {
            lemma_get_push(rest, t.last(), key);
            lemma_get_push(rest, t.last(), other);
        }
    }
}

impl Section {
    /// A table without keys.
    pub fn new() -> (r: Section)
        ensures
            table_view(r) == Seq::<(Seq<char>, ItemView)>::empty(),
    {
        let r = Section { entries: Vec::new() };
        assert(table_view(r) =~= Seq::empty());
        r
    }

    fn position(&self, key: &str) -> (r: Option<usize>)
        ensures
            match r {
                Some(i) => key_at(table_view(*self), key@) == Some(i as int) && i
                    < self.entries@.len(),
                None => key_at(table_view(*self), key@) is None,
            },
    {
        let mut i: usize = 0;
        while i < self.entries.len()
            invariant
                i <= self.entries.len(),
                key_at(table_view(*self), key@) == key_from(table_view(*self), key@, i as int),
            decreases self.entries.len() - i,
        {
            if same_text(self.entries[i].key.as_str(), key) {
                return Some(i);
            }
            i = i + 1;
        }
        None
    }

    /// What the key holds.
    pub fn get(&self, key: &str) -> (r: Option<&Item>)
        ensures
            match r {
                Some(item) => get(table_view(*self), key@) == Some(item_view(*item)),
                None => get(table_view(*self), key@) is None,
            },
    {
        match self.position(key) {
            Some(i) => Some(&self.entries[i].item),
            None => None,
        }
    }

    /// The text that the key holds, where it holds one.
    pub fn text(&self, key: &str) -> (r: Option<&String>)
        ensures
            match r {
                Some(text) => text_at(table_view(*self), key@) == Some(text@),
                None => text_at(table_view(*self), key@) is None,
            },
    {
        match self.get(key) {
            Some(Item::Value(Value::Text(text))) => Some(text),
            _ => None,
        }
    }

    /// Makes the key hold the item.
    pub fn set(&mut self, key: &str, item: Item)
        ensures
            table_view(*final(self)) == put(table_view(*old(self)), key@, item_view(item)),
    {
        let ghost before = table_view(*self);
        match self.position(key) {
            Some(i) => {
                proof {
                    lemma_key_from(before, key@, 0);
                }
                self.entries[i].item = item;
                assert(table_view(*self) =~= put(before, key@, item_view(item)));
            },
            None => {
                self.entries.push(Entry { key: key.to_owned(), item });
                assert(table_view(*self) =~= put(before, key@, item_view(item)));
            },
        }
    }

    /// Drops the key.
    pub fn remove(&mut self, key: &str)
        ensures
            table_view(*final(self)) == without(table_view(*old(self)), key@),
    {
        let ghost before = table_view(*self);
        let ghost mut rest: Entries = Seq::empty();
        let mut i: usize = self.entries.len();
        assert(before.take(i as int) =~= before);
        while i > 0
            invariant
                i <= self.entries@.len(),
                i <= before.len(),
                table_view(*self) =~= before.take(i as int) + rest,
                without(before, key@) =~= without(before.take(i as int), key@) + rest,
            decreases i,
        {
            i = i - 1;
            let ghost whole = table_view(*self);
            let ghost last = before[i as int];
            proof {
                assert(before.take(i + 1).drop_last() =~= before.take(i as int));
                assert(whole[i as int] == last);
            }
            if same_text(self.entries[i].key.as_str(), key) {
                self.entries.remove(i);
                assert(table_view(*self) =~= whole.remove(i as int));
                assert(table_view(*self) =~= before.take(i as int) + rest);
            } else {
                proof {
                    rest = seq![last] + rest;
                    assert(table_view(*self) =~= before.take(i as int) + rest);
                }
            }
        }
    }
}

impl Clone for Value {
    fn clone(&self) -> (r: Value)
        ensures
            r.deep_view() == self.deep_view(),
    {
        match self {
            Value::Text(text) => Value::Text(text.clone()),
            Value::Flag(on) => Value::Flag(*on),
            Value::Number(number) => Value::Number(*number),
            Value::Texts(texts) => Value::Texts(copy_texts(texts)),
            Value::Other => Value::Other,
        }
    }
}

/// A copy of a table.
pub fn copy_table(t: &Section) -> (r: Section)
    ensures
        table_view(r) == table_view(*t),
    decreases t,
{
    let mut entries: Vec<Entry> = Vec::new();
    let mut i: usize = 0;
    while i < t.entries.len()
        invariant
            i <= t.entries.len(),
            entries@.len() == i,
            forall|j: int|
                0 <= j < i ==> (#[trigger] entries@[j]).key@ == t.entries@[j].key@ && item_view(
                    entries@[j].item,
                ) == item_view(t.entries@[j].item),
        decreases t.entries.len() - i,
    {
        let key = t.entries[i].key.clone();
        let item = copy_item(&t.entries[i].item);
        entries.push(Entry { key, item });
        i = i + 1;
    }
    let r = Section { entries };
    assert(table_view(r) =~= table_view(*t));
    r
}

/// A copy of an item.
pub fn copy_item(item: &Item) -> (r: Item)
    ensures
        item_view(r) == item_view(*item),
    decreases item,
{
    match item {
        Item::Value(v) => Item::Value(v.clone()),
        Item::Table(t) => Item::Table(copy_table(t)),
        Item::Tables(ts) => {
            let mut out: Vec<Section> = Vec::new();
            let mut i: usize = 0;
            while i < ts.len()
                invariant
                    i <= ts.len(),
                    *item == Item::Tables(*ts),
                    out@.len() == i,
                    forall|j: int|
                        0 <= j < i ==> table_view(#[trigger] out@[j]) == table_view(ts@[j]),
                decreases ts.len() - i,
            {
                assert(decreases_to!(*item => item->Tables_0@[i as int]));
                out.push(copy_table(&ts[i]));
                i = i + 1;
            }
            let r = Item::Tables(out);
            assert(item_view(r)->Tables_0 =~= item_view(*item)->Tables_0);
            r
        },
    }
}

impl Section {
    /// Makes one change to the table.
    pub fn change(&mut self, change: &Change)
        ensures
            table_view(*final(self)) == changed(table_view(*old(self)), change.deep_view()),
    {
        let ghost before = table_view(*self);
        match change {
            Change::Put { key, item } => {
                let copy = copy_item(item);
                self.set(key.as_str(), copy);
            },
            Change::Remove { key } => {
                self.remove(key.as_str());
            },
            Change::Push { key, table } => {
                let copy = copy_table(table);
                match self.position(key.as_str()) {
                    None => {
                        let mut only: Vec<Section> = Vec::new();
                        only.push(copy);
                        let item = Item::Tables(only);
                        assert(item_view(item)->Tables_0 =~= Seq::empty().push(table_view(*table)));
                        self.set(key.as_str(), item);
                    },
                    Some(i) => {
                        proof {
                            lemma_key_from(before, key@, 0);
                        }
                        match &mut self.entries[i].item {
                            Item::Tables(ts) => {
                                let ghost old_tables = item_view(Item::Tables(*ts))->Tables_0;
                                ts.push(copy);
                                assert(item_view(Item::Tables(*ts))->Tables_0 =~= old_tables.push(
                                    table_view(*table),
                                ));
                            },
                            _ => {},
                        }
                        assert(table_view(*self) =~= changed(before, change.deep_view()));
                    },
                }
            },
            Change::RemoveAt { key, index } => {
                match self.position(key.as_str()) {
                    None => {},
                    Some(i) => {
                        proof {
                            lemma_key_from(before, key@, 0);
                        }
                        match &mut self.entries[i].item {
                            Item::Tables(ts) => {
                                let ghost old_tables = item_view(Item::Tables(*ts))->Tables_0;
                                if *index < ts.len() {
                                    ts.remove(*index);
                                    assert(item_view(Item::Tables(*ts))->Tables_0
                                        =~= old_tables.remove(*index as int));
                                }
                            },
                            _ => {},
                        }
                        assert(table_view(*self) =~= changed(before, change.deep_view()));
                    },
                }
            },
            Change::ReplaceAt { key, index, table } => {
                let copy = copy_table(table);
                match self.position(key.as_str()) {
                    None => {},
                    Some(i) => {
                        proof {
                            lemma_key_from(before, key@, 0);
                        }
                        match &mut self.entries[i].item {
                            Item::Tables(ts) => {
                                let ghost old_tables = item_view(Item::Tables(*ts))->Tables_0;
                                if *index < ts.len() {
                                    ts[*index] = copy;
                                    assert(item_view(Item::Tables(*ts))->Tables_0
                                        =~= old_tables.update(*index as int, table_view(*table)));
                                }
                            },
                            _ => {},
                        }
                        assert(table_view(*self) =~= changed(before, change.deep_view()));
                    },
                }
            },
        }
    }

    /// Makes one change to the table that the path leads to, from the step at
    /// `from` on.
    fn change_at(&mut self, path: &Vec<Step>, from: usize, change: &Change)
        requires
            from <= path@.len(),
        ensures
            table_view(*final(self)) == changed_at(
                table_view(*old(self)),
                path.deep_view(),
                from as int,
                change.deep_view(),
            ),
        decreases path@.len() - from,
    {
        let ghost before = table_view(*self);
        if from == path.len() {
            self.change(change);
            return;
        }
        let key = path[from].key.as_str();
        assert(path.deep_view()[from as int].key == key@);
        match path[from].index {
            Some(n) => {
                match self.position(key) {
                    None => {},
                    Some(i) => {
                        proof {
                            lemma_key_from(before, key@, 0);
                        }
                        match &mut self.entries[i].item {
                            Item::Tables(ts) => {
                                let ghost old_tables = item_view(Item::Tables(*ts))->Tables_0;
                                if n < ts.len() {
                                    ts[n].change_at(path, from + 1, change);
                                    assert(item_view(Item::Tables(*ts))->Tables_0
                                        =~= old_tables.update(
                                        n as int,
                                        changed_at(
                                            old_tables[n as int],
                                            path.deep_view(),
                                            from + 1,
                                            change.deep_view(),
                                        ),
                                    ));
                                }
                            },
                            _ => {},
                        }
                        assert(table_view(*self) =~= changed_at(
                            before,
                            path.deep_view(),
                            from as int,
                            change.deep_view(),
                        ));
                    },
                }
            },
            None => {
                match self.position(key) {
                    None => {
                        let mut inner = Section::new();
                        inner.change_at(path, from + 1, change);
                        self.set(key, Item::Table(inner));
                    },
                    Some(i) => {
                        proof {
                            lemma_key_from(before, key@, 0);
                        }
                        match &mut self.entries[i].item {
                            Item::Table(inner) => {
                                inner.change_at(path, from + 1, change);
                            },
                            _ => {},
                        }
                        assert(table_view(*self) =~= changed_at(
                            before,
                            path.deep_view(),
                            from as int,
                            change.deep_view(),
                        ));
                    },
                }
            },
        }
    }

    /// Carries out one operation on the document.
    pub fn run(&mut self, op: &DocOp)
        ensures
            table_view(*final(self)) == after_op(table_view(*old(self)), op.deep_view()),
    {
        self.change_at(&op.path, 0, &op.change);
    }
}

} // verus!
