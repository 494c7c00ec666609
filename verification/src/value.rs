//! Values: what a syntax tree says, with the syntax taken away. A document
//! is a mapping from block names to values.
use vstd::prelude::*;
use crate::ast::{ast_views, entry_views, Ast, AstView};
use crate::error::ConversionError;
use crate::numeral::Numeral;

verus! {

/// A value of the document model.
#[derive(Debug, PartialEq, Eq)]
pub enum Value {
    /// A text.
    String(String),
    /// A number.
    Number(Numeral),
    /// A bare name.
    Symbol(String),
    /// A name applied to arguments.
    Message(String, Vec<Value>),
    /// A directed relation from the first value to the second.
    Edge(Box<Value>, Box<Value>),
    /// A key and what belongs to it.
    Pair(Box<Value>, Box<Value>),
    /// Values in order.
    Vec(Vec<Value>),
    /// Values by name.
    Mapping(Document),
}

/// A mapping from names to values. No name occurs twice: the first value
/// that is entered under a name stays, and later ones are dropped. The
/// entries keep the order in which they were entered.
#[derive(Debug, PartialEq, Eq)]
pub struct Document {
    entries: Vec<(String, Value)>,
}

/// A [`Value`] as a mathematical value.
pub enum ValueView {
    String(Seq<char>),
    Number(Seq<char>),
    Symbol(Seq<char>),
    Message(Seq<char>, Seq<ValueView>),
    Edge(Box<ValueView>, Box<ValueView>),
    Pair(Box<ValueView>, Box<ValueView>),
    Vec(Seq<ValueView>),
    Mapping(Seq<(Seq<char>, ValueView)>),
}

impl Value {
    /// The value as a mathematical value.
    pub open spec fn view(&self) -> ValueView
        decreases self,
    {
        match self {
            Value::String(text) => ValueView::String(text@),
            Value::Number(n) => ValueView::Number(n@),
            Value::Symbol(name) => ValueView::Symbol(name@),
            Value::Message(name, args) => ValueView::Message(name@, value_views(args@)),
            Value::Edge(from, to) => ValueView::Edge(Box::new(from.view()), Box::new(to.view())),
            Value::Pair(key, value) => ValueView::Pair(
                Box::new(key.view()),
                Box::new(value.view()),
            ),
            Value::Vec(items) => ValueView::Vec(value_views(items@)),
            Value::Mapping(document) => ValueView::Mapping(document.view()),
        }
    }
}

/// The views of a sequence of values, one by one.
pub open spec fn value_views(values: Seq<Value>) -> Seq<ValueView>
    decreases values,
{
    Seq::new(
        values.len(),
        |i: int|
            if 0 <= i < values.len() {
                values[i].view()
            } else {
                arbitrary()
            },
    )
}

/// The views of a sequence of named values, one by one.
pub open spec fn named_views(entries: Seq<(String, Value)>) -> Seq<(Seq<char>, ValueView)>
    decreases entries,
{
    Seq::new(
        entries.len(),
        |i: int|
            if 0 <= i < entries.len() {
                (entries[i].0@, entries[i].1.view())
            } else {
                arbitrary()
            },
    )
}

/// Whether an entry of `entries` has the name `name`.
pub open spec fn has_name(entries: Seq<(Seq<char>, ValueView)>, name: Seq<char>) -> bool {
    exists|i: int| 0 <= i < entries.len() && #[trigger] entries[i].0 == name
}

/// Whether no two entries of `entries` have the same name.
pub open spec fn distinct_names(entries: Seq<(Seq<char>, ValueView)>) -> bool {
    forall|i: int, j: int|
        0 <= i < j < entries.len() ==> #[trigger] entries[i].0 != #[trigger] entries[j].0
}

/// The value of the first entry of `entries` that has the name `name`.
pub open spec fn lookup(entries: Seq<(Seq<char>, ValueView)>, name: Seq<char>) -> Option<ValueView>
    decreases entries.len(),
{
    if entries.len() == 0 {
        None
    } else if entries[0].0 == name {
        Some(entries[0].1)
    } else {
        lookup(entries.drop_first(), name)
    }
}

/// `entries` with `(name, value)` entered: added at the end where the name
/// is new, and dropped where the name is taken.
pub open spec fn entered(
    entries: Seq<(Seq<char>, ValueView)>,
    name: Seq<char>,
    value: ValueView,
) -> Seq<(Seq<char>, ValueView)> {
    if has_name(entries, name) {
        entries
    } else {
        entries.push((name, value))
    }
}

/// `lookup` finds something exactly where an entry has the name.
pub proof fn lemma_lookup_some(entries: Seq<(Seq<char>, ValueView)>, name: Seq<char>)
    ensures
        lookup(entries, name) is Some <==> has_name(entries, name),
    decreases entries.len(),
{
    if entries.len() > 0 {
        let tail = entries.drop_first();
        lemma_lookup_some(tail, name);
        if entries[0].0 == name {
            assert(has_name(entries, name));
        } else {
            if has_name(tail, name) {
                let i = choose|i: int| 0 <= i < tail.len() && #[trigger] tail[i].0 == name;
                assert(entries[i + 1].0 == name);
            }
            if has_name(entries, name) {
                let i = choose|i: int| 0 <= i < entries.len() && #[trigger] entries[i].0 == name;
                assert(tail[i - 1].0 == name);
            }
        }
    }
}

/// `lookup` finds the value of the entry that has the name and before which
/// no entry has it.
pub proof fn lemma_lookup_first(entries: Seq<(Seq<char>, ValueView)>, name: Seq<char>, i: int)
    requires
        0 <= i < entries.len(),
        entries[i].0 == name,
        forall|j: int| 0 <= j < i ==> (#[trigger] entries[j]).0 != name,
    ensures
        lookup(entries, name) == Some(entries[i].1),
    decreases entries.len(),
{
    if i > 0 {
        let tail = entries.drop_first();
        assert(entries[0].0 != name);
        assert(tail[i - 1] == entries[i]);
        assert forall|j: int| 0 <= j < i - 1 implies (#[trigger] tail[j]).0 != name by {
            assert(tail[j] == entries[j + 1]);
        }
        lemma_lookup_first(tail, name, i - 1);
    }
}

/// Entering is first-write-wins: afterwards a name leads to what it led to
/// before, and the entered name, where it was free, leads to the entered
/// value.
pub proof fn lemma_entered(
    entries: Seq<(Seq<char>, ValueView)>,
    name: Seq<char>,
    value: ValueView,
    other: Seq<char>,
)
    ensures
        has_name(entered(entries, name, value), other) <==> has_name(entries, other) || other
            == name,
        lookup(entered(entries, name, value), other) == if has_name(entries, other) {
            lookup(entries, other)
        } else if other == name {
            Some(value)
        } else {
            None
        },
    decreases entries.len(),
{
    let after = entered(entries, name, value);
    lemma_lookup_some(entries, other);
    lemma_lookup_some(after, other);
    if has_name(entries, name) {
    } else if entries.len() == 0 {
        assert(after[0] == (name, value));
        assert(after.drop_first() =~= Seq::<(Seq<char>, ValueView)>::empty());
        assert(!has_name(entries, other));
    } else {
        let tail = entries.drop_first();
        lemma_has_name_step(entries, name);
        lemma_has_name_step(entries, other);
        lemma_entered(tail, name, value, other);
        assert(after[0] == entries[0]);
        assert(after.drop_first() =~= entered(tail, name, value));
        lemma_lookup_some(tail, other);
    }
}

/// An entry has a name where the first entry has it or one of the others.
pub proof fn lemma_has_name_step(entries: Seq<(Seq<char>, ValueView)>, name: Seq<char>)
    requires
        entries.len() > 0,
    ensures
        has_name(entries, name) <==> entries[0].0 == name || has_name(entries.drop_first(), name),
{
    let tail = entries.drop_first();
    if has_name(entries, name) {
        let k = choose|k: int| 0 <= k < entries.len() && #[trigger] entries[k].0 == name;
        if k > 0 {
            assert(tail[k - 1].0 == name);
        }
    }
    if has_name(tail, name) {
        let k = choose|k: int| 0 <= k < tail.len() && #[trigger] tail[k].0 == name;
        assert(entries[k + 1].0 == name);
    }
}

/// Entering keeps the names distinct.
pub proof fn lemma_entered_distinct(
    entries: Seq<(Seq<char>, ValueView)>,
    name: Seq<char>,
    value: ValueView,
)
    requires
        distinct_names(entries),
    ensures
        distinct_names(entered(entries, name, value)),
{
    let after = entered(entries, name, value);
    if !has_name(entries, name) {
        assert forall|i: int, j: int| 0 <= i < j < after.len() implies #[trigger] after[i].0
            != #[trigger] after[j].0 by {
            if j == entries.len() {
                assert(entries[i].0 != name);
            } else {
                assert(entries[i].0 != entries[j].0);
            }
        }
    }
}

/// The entry that a top-level value makes: it has to be a pair of a string,
/// the name, and a vector, which is entered under that name as it is.
pub open spec fn entry_of(value: ValueView) -> Result<(Seq<char>, ValueView), ConversionError> {
    match value {
        ValueView::Pair(key, content) => match *key {
            ValueView::String(name) => if *content is Vec {
                Ok((name, *content))
            } else {
                Err(ConversionError::InvalidTopLevel)
            },
            _ => Err(ConversionError::NonStringKey),
        },
        _ => Err(ConversionError::InvalidTopLevel),
    }
}

/// The document that `values` make when they are entered one after the
/// other, or the error of the first of them that makes no entry.
pub open spec fn assembled(values: Seq<ValueView>) -> Result<
    Seq<(Seq<char>, ValueView)>,
    ConversionError,
>
    decreases values.len(),
{
    if values.len() == 0 {
        Ok(Seq::empty())
    } else {
        match assembled(values.drop_last()) {
            Err(error) => Err(error),
            Ok(entries) => match entry_of(values.last()) {
                Err(error) => Err(error),
                Ok((name, content)) => Ok(entered(entries, name, content)),
            },
        }
    }
}

/// An error among the first `k` values is the error of the whole.
pub proof fn lemma_assembled_error(values: Seq<ValueView>, k: int)
    requires
        0 <= k <= values.len(),
        assembled(values.take(k)) is Err,
    ensures
        assembled(values) == assembled(values.take(k)),
    decreases values.len() - k,
{
    if k < values.len() {
        assert(values.take(k + 1).drop_last() =~= values.take(k));
        lemma_assembled_error(values, k + 1);
    } else {
        assert(values.take(k) =~= values);
    }
}

impl Document {
    #[verifier::type_invariant]
    spec fn well_formed(&self) -> bool {
        distinct_names(named_views(self.entries@))
    }

    /// The entries of the document, in the order in which they were entered.
    pub closed spec fn view(&self) -> Seq<(Seq<char>, ValueView)>
        decreases self,
    {
        named_views(self.entries@)
    }

    /// The document as a mapping: each name with the value entered under it.
    pub open spec fn map(&self) -> Map<Seq<char>, ValueView> {
        Map::new(|name: Seq<char>| has_name(self@, name), |name: Seq<char>| lookup(self@, name)->0)
    }

    /// The document without entries.
    pub fn new() -> (document: Document)
        ensures
            document@ == Seq::<(Seq<char>, ValueView)>::empty(),
    {
        let entries: Vec<(String, Value)> = Vec::new();
        assert(named_views(entries@) =~= Seq::empty());
        Document { entries }
    }

    /// The number of entries. No two of them share a name.
    pub fn len(&self) -> (n: usize)
        ensures
            n == self@.len(),
            distinct_names(self@),
    {
        proof {
            use_type_invariant(self);
        }
        self.entries.len()
    }

    /// The `i`-th entry, counted from 0 in the order of entering, if there
    /// are that many.
    pub fn entry(&self, i: usize) -> (e: Option<(&String, &Value)>)
        ensures
            match e {
                Some(found) => i < self@.len() && (found.0@, found.1@) == self@[i as int],
                None => i >= self@.len(),
            },
    {
        if i < self.entries.len() {
            let e = &self.entries[i];
            Some((&e.0, &e.1))
        } else {
            None
        }
    }

    fn find(&self, name: &String) -> (at: Option<usize>)
        ensures
            match at {
                Some(i) => i < self@.len() && self@[i as int].0 == name@,
                None => !has_name(self@, name@),
            },
    {
        let mut i: usize = 0;
        while i < self.entries.len()
            invariant
                i <= self.entries.len(),
                forall|j: int| 0 <= j < i ==> (#[trigger] self@[j]).0 != name@,
            decreases self.entries.len() - i,
        {
            if self.entries[i].0 == *name {
                return Some(i);
            }
            i += 1;
        }
        None
    }

    /// The value entered under `name`, if there is one.
    pub fn get(&self, name: &str) -> (value: Option<&Value>)
        ensures
            match value {
                Some(v) => lookup(self@, name@) == Some(v@),
                None => lookup(self@, name@) is None,
            },
            match value {
                Some(v) => self.map().contains_key(name@) && self.map()[name@] == v@,
                None => !self.map().contains_key(name@),
            },
    {
        proof {
            lemma_lookup_some(self@, name@);
        }
        let key = name.to_owned();
        match self.find(&key) {
            Some(i) => {
                proof {
                    use_type_invariant(self);
                    lemma_lookup_first(self@, name@, i as int);
                }
                Some(&self.entries[i].1)
            },
            None => None,
        }
    }

    /// Whether a value is entered under `name`.
    pub fn contains(&self, name: &str) -> (found: bool)
        ensures
            found == has_name(self@, name@),
            found == self.map().contains_key(name@),
    {
        let key = name.to_owned();
        self.find(&key).is_some()
    }

    /// Enters `value` under `name`, unless the name is taken: then the
    /// document stays as it is and `value` is dropped. Returns whether the
    /// value was entered.
    pub fn insert(&mut self, name: String, value: Value) -> (added: bool)
        ensures
            added == !has_name(old(self)@, name@),
            final(self)@ == entered(old(self)@, name@, value@),
    {
        proof {
            use_type_invariant(&*self);
        }
        if self.find(&name).is_some() {
            return false;
        }
        let ghost before = self@;
        let ghost n = name@;
        let ghost v = value@;
        // The entries are taken out for the push and put back after it: while
        // they are lent out, the invariant of the document could not be held.
        let mut entries: Vec<(String, Value)> = Vec::new();
        std::mem::swap(&mut entries, &mut self.entries);
        entries.push((name, value));
        proof {
            assert(named_views(entries@) =~= before.push((n, v)));
            lemma_entered_distinct(before, n, v);
        }
        self.entries = entries;
        true
    }

    /// Makes a document of reduced blocks: enters each under its name, in
    /// order. Where two have the same name the first stays.
    pub fn assemble(values: Vec<Value>) -> (r: Result<Document, ConversionError>)
        ensures
            match assembled(value_views(values@)) {
                Ok(entries) => r matches Ok(document) && document@ == entries,
                Err(error) => r == Err::<Document, ConversionError>(error),
            },
    {
        let mut document = Document::new();
        let ghost all = value_views(values@);
        assert(all.take(0) =~= Seq::<ValueView>::empty());
        for value in it: values
            invariant
                it.seq() == values@,
                all == value_views(values@),
                assembled(all.take(it.index() as int)) == Ok::<
                    Seq<(Seq<char>, ValueView)>,
                    ConversionError,
                >(document@),
        {
            let ghost i = it.index() as int;
            proof {
                reveal_with_fuel(Value::view, 3);
                assert(all.take(i + 1).drop_last() =~= all.take(i));
                assert(all.take(i + 1).last() == value@);
            }
            let failure = match value {
                Value::Pair(key, content) => match *key {
                    Value::String(name) => match *content {
                        Value::Vec(items) => {
                            document.insert(name, Value::Vec(items));
                            None
                        },
                        _ => Some(ConversionError::InvalidTopLevel),
                    },
                    _ => Some(ConversionError::NonStringKey),
                },
                _ => Some(ConversionError::InvalidTopLevel),
            };
            if let Some(error) = failure {
                proof {
                    lemma_assembled_error(all, i + 1);
                }
                return Err(error);
            }
        }
        assert(all.take(all.len() as int) =~= all);
        Ok(document)
    }
}

impl Clone for Value {
    fn clone(&self) -> (copy: Self)
        ensures
            copy@ == self@,
        decreases self,
    {
        match self {
            Value::String(text) => Value::String(text.clone()),
            Value::Number(n) => Value::Number(n.clone()),
            Value::Symbol(name) => Value::Symbol(name.clone()),
            Value::Message(name, args) => Value::Message(name.clone(), clone_values(args)),
            Value::Edge(from, to) => Value::Edge(
                Box::new((**from).clone()),
                Box::new((**to).clone()),
            ),
            Value::Pair(key, value) => Value::Pair(
                Box::new((**key).clone()),
                Box::new((**value).clone()),
            ),
            Value::Vec(items) => Value::Vec(clone_values(items)),
            Value::Mapping(document) => Value::Mapping(document.clone()),
        }
    }
}

impl Clone for Document {
    fn clone(&self) -> (copy: Self)
        ensures
            copy@ == self@,
        decreases self,
    {
        proof {
            use_type_invariant(self);
        }
        let mut entries: Vec<(String, Value)> = Vec::new();
        let mut i: usize = 0;
        while i < self.entries.len()
            invariant
                i <= self.entries.len(),
                entries.len() == i,
                forall|j: int|
                    0 <= j < i ==> (#[trigger] entries@[j]).0@ == self.entries@[j].0@
                        && entries@[j].1.view() == self.entries@[j].1.view(),
            decreases self.entries.len() - i,
        {
            let name = self.entries[i].0.clone();
            let value = self.entries[i].1.clone();
            entries.push((name, value));
            i += 1;
        }
        assert(named_views(entries@) =~= named_views(self.entries@));
        Document { entries }
    }
}

fn clone_values(values: &Vec<Value>) -> (copies: Vec<Value>)
    ensures
        value_views(copies@) == value_views(values@),
    decreases values,
{
    let mut copies: Vec<Value> = Vec::new();
    let mut i: usize = 0;
    while i < values.len()
        invariant
            i <= values.len(),
            copies.len() == i,
            forall|j: int| 0 <= j < i ==> (#[trigger] copies@[j]).view() == values@[j].view(),
        decreases values.len() - i,
    {
        copies.push(values[i].clone());
        i += 1;
    }
    assert(value_views(copies@) =~= value_views(values@));
    copies
}

/// What a syntax tree says: literals stay as they are, a bare name is a
/// symbol, an edge is an edge of what its two ends say, an assignment or
/// annotation is the pair of what its target and its right-hand side say,
/// a struct is the vector of its pairs, a message keeps its name, and a
/// block is the pair of its name, as a string, and the vector of its
/// statements.
pub open spec fn reduced(ast: AstView) -> ValueView
    decreases ast,
{
    match ast {
        AstView::Block { name, content } => ValueView::Pair(
            Box::new(ValueView::String(name)),
            Box::new(ValueView::Vec(reduced_all(content))),
        ),
        AstView::Leaf { name } => ValueView::Symbol(name),
        AstView::Edge { from, to } => ValueView::Edge(
            Box::new(reduced(*from)),
            Box::new(reduced(*to)),
        ),
        AstView::LeafDef { target, stmt } => ValueView::Pair(
            Box::new(reduced(*target)),
            Box::new(reduced(*stmt)),
        ),
        AstView::EdgeDef { target, stmt } => ValueView::Pair(
            Box::new(reduced(*target)),
            Box::new(reduced(*stmt)),
        ),
        AstView::Struct(entries) => ValueView::Vec(reduced_entries(entries)),
        AstView::Message { name, args } => ValueView::Message(name, reduced_all(args)),
        AstView::String(text) => ValueView::String(text),
        AstView::Number(text) => ValueView::Number(text),
    }
}

/// What each of `nodes` says, in order.
pub open spec fn reduced_all(nodes: Seq<AstView>) -> Seq<ValueView>
    decreases nodes,
{
    Seq::new(
        nodes.len(),
        |i: int|
            if 0 <= i < nodes.len() {
                reduced(nodes[i])
            } else {
                arbitrary()
            },
    )
}

/// The pairs of what the keys and values of `entries` say, in order.
pub open spec fn reduced_entries(entries: Seq<(AstView, AstView)>) -> Seq<ValueView>
    decreases entries,
{
    Seq::new(
        entries.len(),
        |i: int|
            if 0 <= i < entries.len() {
                ValueView::Pair(Box::new(reduced(entries[i].0)), Box::new(reduced(entries[i].1)))
            } else {
                arbitrary()
            },
    )
}

/// Folds a syntax tree into the value it stands for. The tree is used up.
pub fn reduce(ast: Ast) -> (value: Value)
    ensures
        value@ == reduced(ast@),
    decreases ast,
{
    match ast {
        Ast::Block { name, content } => {
            let key = Value::String(name);
            let body = Value::Vec(reduce_all(content));
            assert(key@ == ValueView::String(name@));
            assert(body@ == ValueView::Vec(reduced_all(ast_views(content@))));
            Value::Pair(Box::new(key), Box::new(body))
        },
        Ast::Leaf { name } => Value::Symbol(name),
        Ast::Edge { from, to } => Value::Edge(Box::new(reduce(*from)), Box::new(reduce(*to))),
        Ast::LeafDef { target, stmt } => Value::Pair(
            Box::new(reduce(*target)),
            Box::new(reduce(*stmt)),
        ),
        Ast::EdgeDef { target, stmt } => Value::Pair(
            Box::new(reduce(*target)),
            Box::new(reduce(*stmt)),
        ),
        Ast::Struct(entries) => Value::Vec(reduce_entries(entries)),
        Ast::Message { name, args } => Value::Message(name, reduce_all(args)),
        Ast::String(text) => Value::String(text),
        Ast::Number(n) => Value::Number(n),
    }
}

/// Folds each of `nodes`, in order.
pub fn reduce_all(nodes: Vec<Ast>) -> (values: Vec<Value>)
    ensures
        value_views(values@) == reduced_all(ast_views(nodes@)),
    decreases nodes,
{
    let mut values: Vec<Value> = Vec::new();
    let ghost all = nodes@;
    for node in it: nodes
        invariant
            it.seq() == all,
            all == nodes@,
            values.len() == it.index(),
            forall|i: int| 0 <= i < values.len() ==> (#[trigger] values@[i]).view() == reduced(all[i].view()),
    {
        values.push(reduce(node));
    }
    assert(value_views(values@) =~= reduced_all(ast_views(nodes@)));
    values
}

fn reduce_entries(entries: Vec<(Ast, Ast)>) -> (values: Vec<Value>)
    ensures
        value_views(values@) == reduced_entries(entry_views(entries@)),
    decreases entries,
{
    let mut values: Vec<Value> = Vec::new();
    let ghost all = entries@;
    for entry in it: entries
        invariant
            it.seq() == all,
            all == entries@,
            values.len() == it.index(),
            forall|i: int|
                0 <= i < values.len() ==> (#[trigger] values@[i]).view() == ValueView::Pair(
                    Box::new(reduced(all[i].0.view())),
                    Box::new(reduced(all[i].1.view())),
                ),
    {
        let (key, value) = entry;
        values.push(Value::Pair(Box::new(reduce(key)), Box::new(reduce(value))));
    }
    assert(value_views(values@) =~= reduced_entries(entry_views(entries@)));
    values
}

} // verus!
