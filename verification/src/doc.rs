//! The `Doc` document algebra.

use vstd::prelude::*;
use std::rc::Rc;

use crate::lit::{IntoText, Lit};
use crate::model::{concat_model, join_model, size, spec_render, DocV};
use crate::render::layout_exec;

verus! {

/// An immutable, cheaply clonable description of a document's layout.
/// `None` is the empty document; every other node is shared through an `Rc`.
pub struct Doc(pub(crate) Option<Rc<Node>>);

/// The node kinds behind a non-empty [`Doc`].
pub(crate) enum Node {
    Text(Lit),
    Line,
    SoftLine,
    HardLine,
    Cat(Doc, Doc),
    Nest(isize, Doc),
    Group(Doc),
}

impl Node {
    pub(crate) closed spec fn model(self) -> DocV
        decreases self,
    {
        match self {
            Node::Text(l) => DocV::Text(l.chars()),
            Node::Line => DocV::Line,
            Node::SoftLine => DocV::SoftLine,
            Node::HardLine => DocV::HardLine,
            Node::Cat(a, b) => DocV::Cat(Box::new(a.model()), Box::new(b.model())),
            Node::Nest(j, x) => DocV::Nest(j as int, Box::new(x.model())),
            Node::Group(x) => DocV::Group(Box::new(x.model())),
        }
    }
}

impl Doc {
    pub(crate) closed spec fn model(self) -> DocV
        decreases self,
    {
        match self.0 {
            None => DocV::Nil,
            Some(rc) => (*rc).model(),
        }
    }
}

impl View for Doc {
    type V = DocV;

    closed spec fn view(&self) -> DocV {
        self.model()
    }
}

/// `Rc::clone` (std): a new handle to the same allocation, so the pointee is
/// the very value the given handle points to.
#[verifier::external_body]
fn rc_clone(r: &Rc<Node>) -> (c: Rc<Node>)
    ensures
        *c == **r,
{
    Rc::clone(r)
}

impl Clone for Doc {
    /// A reference-count bump; the copy describes the same document.
    fn clone(&self) -> (d: Doc)
        ensures
            d@ == self@,
    {
        match &self.0 {
            None => Doc(None),
            Some(rc) => Doc(Some(rc_clone(rc))),
        }
    }
}

impl Doc {
    fn from_node(n: Node) -> (d: Doc)
        ensures
            d@ == n.model(),
    {
        Doc(Some(Rc::new(n)))
    }

    /// The empty document: renders to nothing, identity of `append`.
    pub fn nil() -> (d: Doc)
        ensures
            d@ == DocV::Nil,
    {
        Doc(None)
    }

    /// A literal, unbreakable piece of text. A `&'static str` is kept without
    /// copying, a `String` is moved in; the width is measured once, here, as
    /// the number of Unicode scalar values. The text should hold no `'\n'`
    /// (use the line breaks): one would be printed as is but not counted as
    /// a line break by the width accounting.
    pub fn text<S: IntoText>(s: S) -> (d: Doc)
        ensures
            d@ == DocV::Text(s.text_view()),
    {
        Doc::from_node(Node::Text(Lit::new(s.into_text())))
    }

    /// A space when its group is flat, a newline when it is broken.
    pub fn line() -> (d: Doc)
        ensures
            d@ == DocV::Line,
    {
        Doc::from_node(Node::Line)
    }

    /// Nothing when its group is flat, a newline when it is broken.
    pub fn softline() -> (d: Doc)
        ensures
            d@ == DocV::SoftLine,
    {
        Doc::from_node(Node::SoftLine)
    }

    /// Always a newline; forces every enclosing group to break.
    pub fn hardline() -> (d: Doc)
        ensures
            d@ == DocV::HardLine,
    {
        Doc::from_node(Node::HardLine)
    }

    /// `self` followed by `other`.
    pub fn append(self, other: Doc) -> (d: Doc)
        ensures
            d@ == DocV::Cat(Box::new(self@), Box::new(other@)),
    {
        Doc::from_node(Node::Cat(self, other))
    }

    /// Adds `indent` columns to every line break inside `self`.
    pub fn nest(self, indent: isize) -> (d: Doc)
        ensures
            d@ == DocV::Nest(indent as int, Box::new(self@)),
    {
        Doc::from_node(Node::Nest(indent, self))
    }

    /// A layout choice point: flat if it fits, otherwise every flexible break
    /// inside is broken.
    pub fn group(self) -> (d: Doc)
        ensures
            d@ == DocV::Group(Box::new(self@)),
    {
        Doc::from_node(Node::Group(self))
    }
}

/// How a document's model is built from its representation.
pub(crate) proof fn lemma_unfold(d: &Doc)
    ensures
        d@ == match d.0 {
            None => DocV::Nil,
            Some(rc) => match *rc {
                Node::Text(l) => DocV::Text(l.chars()),
                Node::Line => DocV::Line,
                Node::SoftLine => DocV::SoftLine,
                Node::HardLine => DocV::HardLine,
                Node::Cat(a, b) => DocV::Cat(Box::new(a@), Box::new(b@)),
                Node::Nest(j, x) => DocV::Nest(j as int, Box::new(x@)),
                Node::Group(x) => DocV::Group(Box::new(x@)),
            },
        },
{
}

/// The models of a list of documents.
pub open spec fn views(ds: Seq<Doc>) -> Seq<DocV> {
    ds.map_values(|d: Doc| d@)
}

/// Moves the items of `docs` into a vector that holds them in reverse order,
/// so that popping it yields them first to last.
fn reversed(docs: Vec<Doc>) -> (rev: Vec<Doc>)
    ensures
        rev@.len() == docs@.len(),
        forall|k: int| 0 <= k < rev@.len() ==> #[trigger] rev@[k] == docs@[docs@.len() - 1 - k],
{
    let mut rest = docs;
    let mut rev: Vec<Doc> = Vec::new();
    while rest.len() > 0
        invariant
            rest@ == docs@.take(rest@.len() as int),
            rev@.len() + rest@.len() == docs@.len(),
            forall|k: int| 0 <= k < rev@.len() ==> #[trigger] rev@[k] == docs@[docs@.len() - 1 - k],
        decreases rest@.len(),
    {
        let d = rest.pop().unwrap();
        rev.push(d);
        assert(rest@ =~= docs@.take(rest@.len() as int));
    }
    rev
}

impl Doc {
    /// Every document of `docs`, in order: a left fold of `append`; the empty
    /// document for no items.
    pub fn concat(docs: Vec<Doc>) -> (d: Doc)
        ensures
            d@ == concat_model(views(docs@)),
    {
        let ghost ds = views(docs@);
        let n = docs.len();
        let mut rev = reversed(docs);
        if n == 0 {
            return Doc::nil();
        }
        let mut acc = rev.pop().unwrap();
        let mut i: usize = 1;
        assert(ds.take(1).drop_last() =~= Seq::<DocV>::empty());
        while i < n
            invariant
                1 <= i <= n,
                n == ds.len(),
                rev@.len() == n - i,
                forall|k: int| 0 <= k < rev@.len() ==> #[trigger] rev@[k]@ == ds[n - 1 - k],
                acc@ == concat_model(ds.take(i as int)),
            decreases n - i,
        {
            let d = rev.pop().unwrap();
            assert(ds.take(i + 1).drop_last() =~= ds.take(i as int));
            acc = acc.append(d);
            i = i + 1;
        }
        assert(ds.take(n as int) =~= ds);
        acc
    }

    /// Every document of `docs`, in order, with a copy of `sep` between
    /// consecutive items; the empty document for no items.
    pub fn join(sep: Doc, docs: Vec<Doc>) -> (d: Doc)
        ensures
            d@ == join_model(sep@, views(docs@)),
    {
        let ghost ds = views(docs@);
        let n = docs.len();
        let mut rev = reversed(docs);
        if n == 0 {
            return Doc::nil();
        }
        let mut acc = rev.pop().unwrap();
        let mut i: usize = 1;
        assert(ds.take(1).drop_last() =~= Seq::<DocV>::empty());
        while i < n
            invariant
                1 <= i <= n,
                n == ds.len(),
                rev@.len() == n - i,
                forall|k: int| 0 <= k < rev@.len() ==> #[trigger] rev@[k]@ == ds[n - 1 - k],
                acc@ == join_model(sep@, ds.take(i as int)),
            decreases n - i,
        {
            let d = rev.pop().unwrap();
            assert(ds.take(i + 1).drop_last() =~= ds.take(i as int));
            acc = acc.append(sep.clone()).append(d);
            i = i + 1;
        }
        assert(ds.take(n as int) =~= ds);
        acc
    }
}

#[verifier::external_type_specification]
#[verifier::external_body]
pub struct ExFmtError(core::fmt::Error);

impl Doc {
    /// The laid-out text of this document at target line length `width`
    /// (in Unicode scalars).
    pub fn render(&self, width: usize) -> (s: String)
        ensures
            s@ == spec_render(self@, width),
    {
        let mut out = String::new();
        layout_exec(self, width, &mut out);
        out
    }

    /// Appends the laid-out text of this document to `out`; writing into a
    /// `String` cannot fail, so the result is always `Ok`.
    pub fn render_into(&self, width: usize, out: &mut String) -> (r: core::fmt::Result)
        ensures
            r is Ok,
            final(out)@ == old(out)@ + spec_render(self@, width),
    {
        layout_exec(self, width, out);
        Ok(())
    }
}

impl Default for Doc {
    /// The empty document, as `Doc::nil`.
    fn default() -> (d: Doc)
        ensures
            d@ == DocV::Nil,
    {
        Doc::nil()
    }
}

impl From<&'static str> for Doc {
    /// A text document, as `Doc::text`.
    fn from(s: &'static str) -> (d: Doc)
        ensures
            d@ == DocV::Text(s@),
    {
        Doc::text(s)
    }
}

/// Equal models do not make equal values (a text may be held borrowed or
/// owned), so no single result value is named here; the `from` impls state
/// the model of what they return.
impl vstd::std_specs::convert::FromSpecImpl<&'static str> for Doc {
    open spec fn obeys_from_spec() -> bool {
        false
    }

    open spec fn from_spec(s: &'static str) -> Doc {
        arbitrary()
    }
}

impl From<String> for Doc {
    /// A text document, as `Doc::text`.
    fn from(s: String) -> (d: Doc)
        ensures
            d@ == DocV::Text(s@),
    {
        Doc::text(s)
    }
}

/// As for `&'static str`: the `from` impl states the model it returns.
impl vstd::std_specs::convert::FromSpecImpl<String> for Doc {
    open spec fn obeys_from_spec() -> bool {
        false
    }

    open spec fn from_spec(s: String) -> Doc {
        arbitrary()
    }
}

/// The handle of a document, if it is not empty.
pub(crate) open spec fn handles(d: Doc) -> Seq<Rc<Node>> {
    match d.0 {
        None => seq![],
        Some(rc) => seq![rc],
    }
}

/// The child handles of a node, left child first.
pub(crate) open spec fn child_handles(n: Node) -> Seq<Rc<Node>> {
    match n {
        Node::Cat(a, b) => handles(a) + handles(b),
        Node::Nest(_, x) => handles(x),
        Node::Group(x) => handles(x),
        _ => seq![],
    }
}

/// The node with every child slot emptied: same kind, same indentation,
/// leaves unchanged. Dropping it recurses no further.
pub(crate) open spec fn emptied(n: Node) -> Node {
    match n {
        Node::Cat(_, _) => Node::Cat(Doc(None), Doc(None)),
        Node::Nest(j, _) => Node::Nest(j, Doc(None)),
        Node::Group(_) => Node::Group(Doc(None)),
        _ => n,
    }
}

/// Total number of document nodes reachable from a list of handles.
pub(crate) open spec fn handles_size(s: Seq<Rc<Node>>) -> nat
    decreases s.len(),
{
    if s.len() == 0 {
        0
    } else {
        size((*s.last()).model()) + handles_size(s.drop_last())
    }
}

proof fn lemma_handles_size_append(s: Seq<Rc<Node>>, t: Seq<Rc<Node>>)
    ensures
        handles_size(s + t) == handles_size(s) + handles_size(t),
    decreases t.len(),
{
    if t.len() == 0 {
        assert(s + t =~= s);
    } else {
        assert((s + t).drop_last() =~= s + t.drop_last());
        lemma_handles_size_append(s, t.drop_last());
    }
}

proof fn lemma_child_handles_size(n: Node)
    ensures
        handles_size(child_handles(n)) < size(n.model()),
{
    assert forall|d: Doc| #[trigger] handles_size(handles(d)) <= size(d@) by {
        match d.0 {
            None => {},
            Some(rc) => {
                assert(handles(d).drop_last() =~= Seq::<Rc<Node>>::empty());
            },
        }
    }
    match n {
        Node::Cat(a, b) => {
            lemma_handles_size_append(handles(a), handles(b));
            assert(handles_size(handles(a)) <= size(a@));
            assert(handles_size(handles(b)) <= size(b@));
        },
        Node::Nest(_, x) => {
            assert(handles_size(handles(x)) <= size(x@));
        },
        Node::Group(x) => {
            assert(handles_size(handles(x)) <= size(x@));
        },
        _ => {},
    }
}

/// `Vec::new` (std): an empty vector. It allocates nothing, so it cannot
/// fail.
#[verifier::external_body]
fn new_stack() -> (s: Vec<Rc<Node>>)
    ensures
        s@ == Seq::<Rc<Node>>::empty(),
    opens_invariants none
    no_unwind
{
    Vec::new()
}

/// `Vec::push` (std): appends `rc`. Its one documented panic is a new
/// capacity above `isize::MAX` bytes, which for 8-byte handles needs more
/// handles than any address space can hold; the vector's capacity is not
/// modelled, so no `requires` spells that bound out.
#[verifier::external_body]
fn push_handle(s: &mut Vec<Rc<Node>>, rc: Rc<Node>)
    ensures
        final(s)@ == old(s)@.push(rc),
    opens_invariants none
    no_unwind
{
    s.push(rc)
}

/// `Vec::pop` (std): removes and returns the last handle, `None` when empty.
#[verifier::external_body]
fn pop_handle(s: &mut Vec<Rc<Node>>) -> (r: Option<Rc<Node>>)
    ensures
        old(s)@.len() == 0 ==> r is None && final(s)@ == old(s)@,
        old(s)@.len() > 0 ==> r == Some(old(s)@.last()) && final(s)@ == old(s)@.drop_last(),
    opens_invariants none
    no_unwind
{
    s.pop()
}

/// `Rc::try_unwrap` (std): the node itself when `rc` is its only handle,
/// otherwise `rc` handed back.
#[verifier::external_body]
fn unwrap_unique(rc: Rc<Node>) -> (r: Result<Node, Rc<Node>>)
    ensures
        match r {
            Ok(n) => n == *rc,
            Err(e) => e == rc,
        },
    opens_invariants none
    no_unwind
{
    Rc::try_unwrap(rc)
}

/// Moves a document's handle out of it (onto `stack`, if there is one),
/// leaving the empty document.
fn take_handle(d: &mut Doc, stack: &mut Vec<Rc<Node>>)
    ensures
        final(stack)@ == old(stack)@ + handles(*old(d)),
        final(d).0 is None,
    opens_invariants none
    no_unwind
{
    let mut h: Option<Rc<Node>> = None;
    std::mem::swap(&mut h, &mut d.0);
    match h {
        Some(rc) => push_handle(stack, rc),
        None => {},
    }
    assert(final(stack)@ =~= old(stack)@ + handles(*old(d))) by {
        assert(old(stack)@ + Seq::<Rc<Node>>::empty() =~= old(stack)@);
    }
}

/// Moves the child handles of a node onto `stack`, leaving empty documents in
/// their place, so that the node itself then drops without recursing.
fn take_children(node: &mut Node, stack: &mut Vec<Rc<Node>>)
    ensures
        final(stack)@ == old(stack)@ + child_handles(*old(node)),
        *final(node) == emptied(*old(node)),
    opens_invariants none
    no_unwind
{
    match node {
        Node::Cat(a, b) => {
            let ghost s0 = stack@;
            let ghost ha = handles(*a);
            let ghost hb = handles(*b);
            take_handle(a, stack);
            take_handle(b, stack);
            assert(stack@ =~= s0 + (ha + hb));
        },
        Node::Nest(_, x) => {
            take_handle(x, stack);
        },
        Node::Group(x) => {
            take_handle(x, stack);
        },
        _ => {},
    }
}

impl Doc {
    /// Dismantles a uniquely owned document iteratively, with an explicit
    /// work list instead of one call frame per level. An empty document or a
    /// leaf is left as it is; an inner node's handle is taken out of `self`
    /// (a shared node is then only released, without allocating).
    fn release(&mut self)
        ensures
            old(self)@ is Cat || old(self)@ is Nest || old(self)@ is Group ==> final(self).0 is None,
            !(old(self)@ is Cat || old(self)@ is Nest || old(self)@ is Group) ==> *final(self)
                == *old(self),
        opens_invariants none
        no_unwind
    {
        match &self.0 {
            None => { return; },
            Some(rc) => match &**rc {
                Node::Cat(..) | Node::Nest(..) | Node::Group(..) => {},
                _ => { return; },
            },
        }
        let mut taken: Option<Rc<Node>> = None;
        std::mem::swap(&mut taken, &mut self.0);
        let rc = match taken {
            None => { return; },
            Some(rc) => rc,
        };
        let mut node = match unwrap_unique(rc) {
            Ok(node) => node,
            Err(_) => { return; },
        };
        let mut stack: Vec<Rc<Node>> = new_stack();
        proof {
            lemma_child_handles_size(node);
            assert(stack@ + child_handles(node) =~= child_handles(node));
        }
        take_children(&mut node, &mut stack);
        loop
            invariant
                self.0 is None,
                old(self)@ is Cat || old(self)@ is Nest || old(self)@ is Group,
            decreases handles_size(stack@),
        {
            let ghost s0 = stack@;
            let rc = match pop_handle(&mut stack) {
                None => { return; },
                Some(rc) => rc,
            };
            let ghost popped = stack@;
            assert(handles_size(s0) == size((*rc).model()) + handles_size(popped));
            match unwrap_unique(rc) {
                Ok(mut n) => {
                    proof {
                        lemma_child_handles_size(n);
                        lemma_handles_size_append(popped, child_handles(n));
                    }
                    take_children(&mut n, &mut stack);
                },
                Err(_) => {},
            }
        }
    }
}

impl Drop for Doc {
    /// Tears the document down with `release`, so dropping a deep document
    /// never recurses one call frame per level.
    fn drop(&mut self)
        ensures
            old(self)@ is Cat || old(self)@ is Nest || old(self)@ is Group ==> final(self)@
                == DocV::Nil,
            !(old(self)@ is Cat || old(self)@ is Nest || old(self)@ is Group) ==> final(self)@
                == old(self)@,
        opens_invariants none
        no_unwind
    {
        self.release();
        proof {
            lemma_unfold(self);
        }
    }
}

} // verus!
