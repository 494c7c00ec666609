//! The syntax tree that the parser builds.
use vstd::prelude::*;
use crate::numeral::Numeral;

verus! {

/// A node of the syntax tree. Each node owns its children.
#[derive(Debug, PartialEq, Eq)]
pub enum Ast {
    /// A named top-level section and the statements in it.
    Block { name: String, content: Vec<Ast> },
    /// A bare identifier.
    Leaf { name: String },
    /// A directed relation between two keys.
    Edge { from: Box<Ast>, to: Box<Ast> },
    /// An assignment, `target = stmt`.
    LeafDef { target: Box<Ast>, stmt: Box<Ast> },
    /// An annotation of an edge, `edge : stmt`.
    EdgeDef { target: Box<Ast>, stmt: Box<Ast> },
    /// The `key: value` pairs between two braces, in order.
    Struct(Vec<(Ast, Ast)>),
    /// A call-like form, `name(arg, ...)`.
    Message { name: String, args: Vec<Ast> },
    /// A string literal.
    String(String),
    /// A number literal.
    Number(Numeral),
}

/// An [`Ast`] as a mathematical value.
pub enum AstView {
    Block { name: Seq<char>, content: Seq<AstView> },
    Leaf { name: Seq<char> },
    Edge { from: Box<AstView>, to: Box<AstView> },
    LeafDef { target: Box<AstView>, stmt: Box<AstView> },
    EdgeDef { target: Box<AstView>, stmt: Box<AstView> },
    Struct(Seq<(AstView, AstView)>),
    Message { name: Seq<char>, args: Seq<AstView> },
    String(Seq<char>),
    Number(Seq<char>),
}

impl Ast {
    /// The tree as a mathematical value.
    pub open spec fn view(&self) -> AstView
        decreases self,
    {
        match self {
            Ast::Block { name, content } => AstView::Block {
                name: name@,
                content: ast_views(content@),
            },
            Ast::Leaf { name } => AstView::Leaf { name: name@ },
            Ast::Edge { from, to } => AstView::Edge {
                from: Box::new(from.view()),
                to: Box::new(to.view()),
            },
            Ast::LeafDef { target, stmt } => AstView::LeafDef {
                target: Box::new(target.view()),
                stmt: Box::new(stmt.view()),
            },
            Ast::EdgeDef { target, stmt } => AstView::EdgeDef {
                target: Box::new(target.view()),
                stmt: Box::new(stmt.view()),
            },
            Ast::Struct(entries) => AstView::Struct(entry_views(entries@)),
            Ast::Message { name, args } => AstView::Message { name: name@, args: ast_views(args@) },
            Ast::String(text) => AstView::String(text@),
            Ast::Number(n) => AstView::Number(n@),
        }
    }
}

/// The views of a sequence of trees, one by one.
pub open spec fn ast_views(nodes: Seq<Ast>) -> Seq<AstView>
    decreases nodes,
{
    Seq::new(
        nodes.len(),
        |i: int|
            if 0 <= i < nodes.len() {
                nodes[i].view()
            } else {
                arbitrary()
            },
    )
}

/// The views of a sequence of `key: value` pairs, one by one.
pub open spec fn entry_views(entries: Seq<(Ast, Ast)>) -> Seq<(AstView, AstView)>
    decreases entries,
{
    Seq::new(
        entries.len(),
        |i: int|
            if 0 <= i < entries.len() {
                (entries[i].0.view(), entries[i].1.view())
            } else {
                arbitrary()
            },
    )
}

impl Clone for Ast {
    fn clone(&self) -> (copy: Self)
        ensures
            copy@ == self@,
        decreases self,
    {
        match self {
            Ast::Block { name, content } => Ast::Block {
                name: name.clone(),
                content: clone_nodes(content),
            },
            Ast::Leaf { name } => Ast::Leaf { name: name.clone() },
            Ast::Edge { from, to } => Ast::Edge {
                from: Box::new((**from).clone()),
                to: Box::new((**to).clone()),
            },
            Ast::LeafDef { target, stmt } => Ast::LeafDef {
                target: Box::new((**target).clone()),
                stmt: Box::new((**stmt).clone()),
            },
            Ast::EdgeDef { target, stmt } => Ast::EdgeDef {
                target: Box::new((**target).clone()),
                stmt: Box::new((**stmt).clone()),
            },
            Ast::Struct(entries) => Ast::Struct(clone_entries(entries)),
            Ast::Message { name, args } => Ast::Message {
                name: name.clone(),
                args: clone_nodes(args),
            },
            Ast::String(text) => Ast::String(text.clone()),
            Ast::Number(n) => Ast::Number(n.clone()),
        }
    }
}

fn clone_nodes(nodes: &Vec<Ast>) -> (copies: Vec<Ast>)
    ensures
        ast_views(copies@) == ast_views(nodes@),
    decreases nodes,
{
    let mut copies: Vec<Ast> = Vec::new();
    let mut i: usize = 0;
    while i < nodes.len()
        invariant
            i <= nodes.len(),
            copies.len() == i,
            forall|j: int| 0 <= j < i ==> (#[trigger] copies@[j]).view() == nodes@[j].view(),
        decreases nodes.len() - i,
    {
        copies.push(nodes[i].clone());
        i += 1;
    }
    assert(ast_views(copies@) =~= ast_views(nodes@));
    copies
}

fn clone_entries(entries: &Vec<(Ast, Ast)>) -> (copies: Vec<(Ast, Ast)>)
    ensures
        entry_views(copies@) == entry_views(entries@),
    decreases entries,
{
    let mut copies: Vec<(Ast, Ast)> = Vec::new();
    let mut i: usize = 0;
    while i < entries.len()
        invariant
            i <= entries.len(),
            copies.len() == i,
            forall|j: int|
                0 <= j < i ==> (#[trigger] copies@[j]).0.view() == entries@[j].0.view()
                    && copies@[j].1.view() == entries@[j].1.view(),
        decreases entries.len() - i,
    {
        let key = entries[i].0.clone();
        let value = entries[i].1.clone();
        copies.push((key, value));
        i += 1;
    }
    assert(entry_views(copies@) =~= entry_views(entries@));
    copies
}

} // verus!
