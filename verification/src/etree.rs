//! The document tree and the event-driven builder that reconstructs it.
//!
//! A tree is built from a flat stream of start/end/text events by a stack of
//! in-progress elements. The builder enforces the nesting discipline (every
//! end event must close the innermost open element), decodes tag and text
//! bytes, and recovers once from text whose character references fail to
//! resolve by rewriting each literal `&` to `&amp;` and retrying.

use crate::text::{chars_to_string, push_char, str_chars, trim, trim_str};
use vstd::prelude::*;
use vstd::string::StringExecFns;
use vstd::utf8::{decode_utf8, valid_utf8};

verus! {

/// One node of the document tree: an element with a name and ordered
/// children, or a piece of text.
pub enum ETNode {
    ElementNode(ETElement),
    TextNode(String),
}

/// An element of the document tree. `children` keeps document order: the
/// order in which the start and text events were observed.
pub struct ETElement {
    pub name: String,
    pub children: Vec<ETNode>,
}

/// Mathematical model of a tree node.
pub enum NodeModel {
    Element(ElemModel),
    Text(Seq<char>),
}

/// Mathematical model of an element.
pub struct ElemModel {
    pub name: Seq<char>,
    pub children: Seq<NodeModel>,
}

/// Model of a tree node.
pub open spec fn node_model(n: ETNode) -> NodeModel
    decreases n,
{
    match n {
        ETNode::ElementNode(e) => NodeModel::Element(elem_model(e)),
        ETNode::TextNode(t) => NodeModel::Text(t@),
    }
}

/// Model of an element.
pub open spec fn elem_model(e: ETElement) -> ElemModel
    decreases e,
{
    ElemModel { name: e.name@, children: children_model(e.children@) }
}

/// Model of a sequence of child nodes, one model per node, in order.
pub open spec fn children_model(s: Seq<ETNode>) -> Seq<NodeModel>
    decreases s,
{
    if s.len() == 0 {
        Seq::empty()
    } else {
        children_model(s.drop_last()).push(node_model(s.last()))
    }
}

pub proof fn lemma_children_model(s: Seq<ETNode>)
    ensures
        children_model(s).len() == s.len(),
        forall|i: int| 0 <= i < s.len() ==> children_model(s)[i] == node_model(s[i]),
    decreases s.len(),
{
    if s.len() > 0 {
        lemma_children_model(s.drop_last());
        assert forall|i: int| 0 <= i < s.len() implies children_model(s)[i] == node_model(s[i]) by {
            if i < s.len() - 1 {
                assert(s.drop_last()[i] == s[i]);
            }
        }
    }
}

impl View for ETNode {
    type V = NodeModel;

    open spec fn view(&self) -> NodeModel {
        node_model(*self)
    }
}

impl View for ETElement {
    type V = ElemModel;

    open spec fn view(&self) -> ElemModel {
        elem_model(*self)
    }
}

/// The element children among `children`, in document order; text nodes are
/// left out.
pub open spec fn elem_children_model(children: Seq<NodeModel>) -> Seq<ElemModel>
    decreases children,
{
    if children.len() == 0 {
        Seq::empty()
    } else {
        let rest = elem_children_model(children.drop_last());
        match children.last() {
            NodeModel::Element(e) => rest.push(e),
            NodeModel::Text(_) => rest,
        }
    }
}

/// The contents of the text nodes among `children`, in document order.
pub open spec fn texts_of(children: Seq<NodeModel>) -> Seq<Seq<char>>
    decreases children,
{
    if children.len() == 0 {
        Seq::empty()
    } else {
        let rest = texts_of(children.drop_last());
        match children.last() {
            NodeModel::Element(_) => rest,
            NodeModel::Text(t) => rest.push(t),
        }
    }
}

/// The given pieces of text joined by a single space between each two.
pub open spec fn space_join(ts: Seq<Seq<char>>) -> Seq<char>
    decreases ts,
{
    if ts.len() == 0 {
        Seq::empty()
    } else if ts.len() == 1 {
        ts[0]
    } else {
        space_join(ts.drop_last()) + seq![' '] + ts.last()
    }
}

/// The shallow text of an element: the contents of its direct text children
/// joined by a single space, trimmed. Text inside child elements is never
/// included.
pub open spec fn shallow_text(e: ElemModel) -> Seq<char> {
    trim(space_join(texts_of(e.children)))
}

/// The models of a sequence of borrowed elements.
pub open spec fn ref_models(r: Seq<&ETElement>) -> Seq<ElemModel> {
    Seq::new(r.len(), |i: int| elem_model(*r[i]))
}

impl ETElement {
    /// The element children of this element, in document order, leaving text
    /// nodes out.
    pub fn get_children_ref(&self) -> (r: Vec<&ETElement>)
        ensures
            ref_models(r@) == elem_children_model(self@.children),
    {
        let ghost cm = children_model(self.children@);
        proof {
            lemma_children_model(self.children@);
            assert(cm.subrange(0, 0) =~= Seq::<NodeModel>::empty());
        }
        let mut out: Vec<&ETElement> = Vec::new();
        let mut i: usize = 0;
        while i < self.children.len()
            invariant
                i <= self.children@.len(),
                ref_models(out@) =~= elem_children_model(cm.subrange(0, i as int)),
            decreases self.children@.len() - i,
        {
            proof {
                let pre = cm.subrange(0, i as int + 1);
                assert(pre.drop_last() =~= cm.subrange(0, i as int));
                assert(pre.last() == node_model(self.children@[i as int]));
            }
            match &self.children[i] {
                ETNode::ElementNode(e) => {
                    let ghost old_out = out@;
                    out.push(e);
                    proof {
                        assert(ref_models(out@) =~= ref_models(old_out).push(elem_model(*e)));
                    }
                },
                ETNode::TextNode(_) => {},
            }
            i = i + 1;
        }
        proof {
            assert(cm.subrange(0, self.children@.len() as int) =~= cm);
        }
        out
    }

    /// The shallow text of this element: its direct text children joined by
    /// a single space, trimmed.
    pub fn get_text(&self) -> (r: String)
        ensures
            r@ == shallow_text(self@),
    {
        let ghost cm = children_model(self.children@);
        proof {
            lemma_children_model(self.children@);
            assert(cm.subrange(0, 0) =~= Seq::<NodeModel>::empty());
        }
        let mut acc = String::new();
        let mut first = true;
        let mut i: usize = 0;
        while i < self.children.len()
            invariant
                i <= self.children@.len(),
                acc@ == space_join(texts_of(cm.subrange(0, i as int))),
                first <==> texts_of(cm.subrange(0, i as int)).len() == 0,
            decreases self.children@.len() - i,
        {
            let ghost pre0 = cm.subrange(0, i as int);
            proof {
                let pre = cm.subrange(0, i as int + 1);
                assert(pre.drop_last() =~= pre0);
                assert(pre.last() == node_model(self.children@[i as int]));
            }
            match &self.children[i] {
                ETNode::ElementNode(_) => {},
                ETNode::TextNode(t) => {
                    if !first {
                        push_char(&mut acc, ' ');
                    }
                    acc.append(t.as_str());
                    proof {
                        let ts = texts_of(pre0).push(t@);
                        assert(ts.drop_last() =~= texts_of(pre0));
                        assert(ts.last() == t@);
                        if texts_of(pre0).len() == 0 {
                            assert(ts.len() == 1);
                            assert(space_join(ts) == t@);
                            assert(acc@ =~= t@);
                        } else {
                            assert(space_join(ts) == space_join(texts_of(pre0)) + seq![' ']
                                + t@);
                            assert(acc@ =~= space_join(texts_of(pre0)) + seq![' '] + t@);
                        }
                    }
                    first = false;
                },
            }
            i = i + 1;
        }
        proof {
            assert(cm.subrange(0, self.children@.len() as int) =~= cm);
        }
        trim_str(acc.as_str())
    }
}

impl Default for ETElement {
    /// The placeholder element: named `empty`, with no children.
    fn default() -> (e: ETElement)
        ensures
            e@.name == "empty"@,
            e@.children =~= Seq::<NodeModel>::empty(),
    {
        ETElement { name: String::from_str("empty"), children: Vec::new() }
    }
}

/// One event of the flat document stream, as handed to the builder: tag
/// names and text arrive as raw bytes, and any event kind the builder does
/// not care about is `Other`.
pub enum Event {
    Start(Vec<u8>),
    End(Vec<u8>),
    Text(Vec<u8>),
    Other,
}

/// Mathematical model of an event.
pub enum EventModel {
    Start(Seq<u8>),
    End(Seq<u8>),
    Text(Seq<u8>),
    Other,
}

impl View for Event {
    type V = EventModel;

    open spec fn view(&self) -> EventModel {
        match self {
            Event::Start(b) => EventModel::Start(b@),
            Event::End(b) => EventModel::End(b@),
            Event::Text(b) => EventModel::Text(b@),
            Event::Other => EventModel::Other,
        }
    }
}

/// A defect that aborts tree construction for the current document.
#[derive(Clone, Copy, PartialEq, Eq, Structural, Debug)]
pub enum BuildError {
    /// Tag or text bytes were not decodable text, or a start tag's name was
    /// empty.
    DecodeError,
    /// Character-reference unescaping of a text node failed even after the
    /// one-shot `&` repair.
    UnescapeError,
    /// An end event named a different tag than the innermost open element.
    MismatchedTag,
    /// An end event arrived while no element was open.
    EndWithoutStart,
}

/// What `unescape` returns for the given characters: the text with all
/// character references resolved, or nothing when a reference is malformed.
/// The result depends on the characters alone.
pub uninterp spec fn unescaped(s: Seq<char>) -> Option<Seq<char>>;

/// Relies on `quick_xml::escape::unescape`: resolves the XML character
/// references of `s`, failing on a malformed or unrecognized reference.
#[verifier::external_body]
fn try_unescape(s: &str) -> (r: Option<String>)
    ensures
        r is Some <==> unescaped(s@) is Some,
        r matches Some(t) ==> Some(t@) == unescaped(s@),
{
    match quick_xml::escape::unescape(s) {
        Ok(t) => Some(t.into_owned()),
        Err(_) => None,
    }
}

/// Relies on `String::from_utf8`: returns the decoded string exactly when
/// the bytes are valid UTF-8.
#[verifier::external_body]
fn utf8_to_string(bytes: Vec<u8>) -> (r: Option<String>)
    ensures
        r is Some <==> valid_utf8(bytes@),
        r matches Some(s) ==> s@ == decode_utf8(bytes@),
{
    String::from_utf8(bytes).ok()
}

/// Every `&` replaced by the five characters of `&amp;`; the one-shot repair
/// applied to text whose unescaping failed.
pub open spec fn amp_repaired(s: Seq<char>) -> Seq<char>
    decreases s.len(),
{
    if s.len() == 0 {
        Seq::empty()
    } else if s[0] == '&' {
        seq!['&', 'a', 'm', 'p', ';'] + amp_repaired(s.drop_first())
    } else {
        seq![s[0]] + amp_repaired(s.drop_first())
    }
}

/// Rewrites every literal `&` to `&amp;`.
fn amp_repair(s: &str) -> (r: String)
    ensures
        r@ == amp_repaired(s@),
{
    let v = str_chars(s);
    let mut out: Vec<char> = Vec::new();
    let mut i: usize = 0;
    proof {
        assert(s@.skip(0) =~= s@);
        assert(Seq::<char>::empty() + amp_repaired(s@) =~= amp_repaired(s@));
    }
    while i < v.len()
        invariant
            i <= v@.len(),
            v@ == s@,
            amp_repaired(s@) == out@ + amp_repaired(s@.skip(i as int)),
        decreases v@.len() - i,
    {
        let c = v[i];
        proof {
            assert(s@.skip(i as int)[0] == s@[i as int]);
            assert(s@.skip(i as int).drop_first() =~= s@.skip(i as int + 1));
        }
        if c == '&' {
            out.push('&');
            out.push('a');
            out.push('m');
            out.push('p');
            out.push(';');
        } else {
            out.push(c);
        }
        i = i + 1;
    }
    proof {
        assert(s@.skip(v@.len() as int) =~= Seq::<char>::empty());
        assert(out@ + Seq::<char>::empty() =~= out@);
    }
    chars_to_string(&out)
}

/// The name carried by a start event: its bytes decoded, which must give a
/// non-empty string.
pub open spec fn start_name(raw: Seq<u8>) -> Result<Seq<char>, BuildError> {
    if valid_utf8(raw) && decode_utf8(raw).len() > 0 {
        Ok(decode_utf8(raw))
    } else {
        Err(BuildError::DecodeError)
    }
}

/// The name carried by an end event: its bytes decoded.
pub open spec fn end_name(raw: Seq<u8>) -> Result<Seq<char>, BuildError> {
    if valid_utf8(raw) {
        Ok(decode_utf8(raw))
    } else {
        Err(BuildError::DecodeError)
    }
}

/// The content of a text event: its bytes decoded, then unescaped; when
/// unescaping fails, unescaped again after the one-shot `&` repair.
pub open spec fn text_content(raw: Seq<u8>) -> Result<Seq<char>, BuildError> {
    if !valid_utf8(raw) {
        Err(BuildError::DecodeError)
    } else {
        let s = decode_utf8(raw);
        match unescaped(s) {
            Some(t) => Ok(t),
            None => match unescaped(amp_repaired(s)) {
                Some(t) => Ok(t),
                None => Err(BuildError::UnescapeError),
            },
        }
    }
}

/// The builder's state: the stack of open elements, and whether the root
/// has already been emitted.
pub struct BuilderModel {
    pub stack: Seq<ElemModel>,
    pub done: bool,
}

/// What one event does to the builder: the next state together with the
/// root, should this event complete the tree, or the defect that aborts the
/// document.
pub open spec fn step(m: BuilderModel, ev: EventModel) -> Result<
    (BuilderModel, Option<ElemModel>),
    BuildError,
> {
    match ev {
        EventModel::Start(raw) => match start_name(raw) {
            Ok(n) => Ok(
                (
                    BuilderModel {
                        stack: m.stack.push(ElemModel { name: n, children: Seq::empty() }),
                        done: m.done,
                    },
                    None,
                ),
            ),
            Err(e) => Err(e),
        },
        EventModel::Text(raw) => {
            if m.stack.len() == 0 {
                Ok((m, None))
            } else {
                match text_content(raw) {
                    Ok(t) => {
                        let top = m.stack.last();
                        let top2 = ElemModel {
                            name: top.name,
                            children: top.children.push(NodeModel::Text(t)),
                        };
                        Ok(
                            (
                                BuilderModel {
                                    stack: m.stack.update(m.stack.len() - 1, top2),
                                    done: m.done,
                                },
                                None,
                            ),
                        )
                    },
                    Err(e) => Err(e),
                }
            }
        },
        EventModel::End(raw) => {
            if m.stack.len() == 0 {
                Err(BuildError::EndWithoutStart)
            } else {
                match end_name(raw) {
                    Ok(n) => {
                        let top = m.stack.last();
                        if top.name != n {
                            Err(BuildError::MismatchedTag)
                        } else if m.stack.len() == 1 {
                            Ok((BuilderModel { stack: Seq::empty(), done: true }, Some(top)))
                        } else {
                            let parent = m.stack[m.stack.len() - 2];
                            let parent2 = ElemModel {
                                name: parent.name,
                                children: parent.children.push(NodeModel::Element(top)),
                            };
                            Ok(
                                (
                                    BuilderModel {
                                        stack: m.stack.drop_last().update(
                                            m.stack.len() - 2,
                                            parent2,
                                        ),
                                        done: m.done,
                                    },
                                    None,
                                ),
                            )
                        }
                    },
                    Err(e) => Err(e),
                }
            }
        },
        EventModel::Other => Ok((m, None)),
    }
}

/// Model of the builder's optional result.
pub open spec fn root_model(r: Option<ETElement>) -> Option<ElemModel> {
    match r {
        Some(e) => Some(elem_model(e)),
        None => None,
    }
}

/// Model of a stack of open elements.
pub open spec fn stack_model(s: Seq<ETElement>) -> Seq<ElemModel> {
    Seq::new(s.len(), |i: int| elem_model(s[i]))
}

/// The builder: a stack of in-progress elements, single-use. Once the root
/// has been produced the builder is done and must not be fed again.
pub struct ETBuilder {
    stack: Vec<ETElement>,
    done: bool,
}

impl View for ETBuilder {
    type V = BuilderModel;

    closed spec fn view(&self) -> BuilderModel {
        BuilderModel { stack: stack_model(self.stack@), done: self.done }
    }
}

impl ETBuilder {
    /// A fresh builder: empty stack, no root produced yet.
    pub fn new() -> (b: ETBuilder)
        ensures
            b@.stack =~= Seq::<ElemModel>::empty(),
            !b@.done,
    {
        ETBuilder { stack: Vec::new(), done: false }
    }

    /// Feeds one event to the builder. Returns the completed root when this
    /// event closes the outermost element, `None` when building goes on, and
    /// the defect that aborts the document otherwise; exactly as [`step`]
    /// says. On a defect the builder is left unchanged.
    pub fn handle_event(&mut self, ev: Event) -> (r: Result<Option<ETElement>, BuildError>)
        requires
            !old(self)@.done,
        ensures
            match r {
                Ok(root) => step(old(self)@, ev@) == Ok::<_, BuildError>(
                    (final(self)@, root_model(root)),
                ),
                Err(e) => step(old(self)@, ev@) == Err::<(BuilderModel, Option<ElemModel>),
                    _,
                >(e) && final(self)@ == old(self)@,
            },
    {
        match ev {
            Event::Start(raw) => {
                match utf8_to_string(raw) {
                    None => Err(BuildError::DecodeError),
                    Some(name) => {
                        if name.as_str().is_empty() {
                            Err(BuildError::DecodeError)
                        } else {
                            let elem = ETElement { name, children: Vec::new() };
                            proof {
                                assert(stack_model(self.stack@.push(elem)) =~= stack_model(
                                    self.stack@,
                                ).push(elem_model(elem)));
                                assert(elem_model(elem).children =~= Seq::<NodeModel>::empty());
                            }
                            self.stack.push(elem);
                            Ok(None)
                        }
                    },
                }
            },
            Event::Text(raw) => {
                if self.stack.len() == 0 {
                    Ok(None)
                } else {
                    match utf8_to_string(raw) {
                        None => Err(BuildError::DecodeError),
                        Some(s) => {
                            let unescaped_text: Option<String> = match try_unescape(s.as_str()) {
                                Some(t) => Some(t),
                                None => {
                                    let repaired = amp_repair(s.as_str());
                                    try_unescape(repaired.as_str())
                                },
                            };
                            match unescaped_text {
                                None => Err(BuildError::UnescapeError),
                                Some(t) => {
                                    let ghost old_stack = self.stack@;
                                    let mut top = self.stack.pop().unwrap();
                                    top.children.push(ETNode::TextNode(t));
                                    proof {
                                        let ghost top0 = old_stack.last();
                                        assert(top.children@.last() == ETNode::TextNode(t));
                                        assert(top.children@.drop_last() =~= top0.children@);
                                        assert(children_model(top.children@) =~= children_model(
                                            top0.children@,
                                        ).push(node_model(ETNode::TextNode(t))));
                                    }
                                    self.stack.push(top);
                                    proof {
                                        assert(stack_model(self.stack@) =~= stack_model(
                                            old_stack,
                                        ).update(old_stack.len() - 1, elem_model(top)));
                                    }
                                    Ok(None)
                                },
                            }
                        },
                    }
                }
            },
            Event::End(raw) => {
                if self.stack.len() == 0 {
                    Err(BuildError::EndWithoutStart)
                } else {
                    match utf8_to_string(raw) {
                        None => Err(BuildError::DecodeError),
                        Some(name) => {
                            let n = self.stack.len();
                            if !(self.stack[n - 1].name == name) {
                                Err(BuildError::MismatchedTag)
                            } else {
                                let ghost old_stack = self.stack@;
                                let top = self.stack.pop().unwrap();
                                if self.stack.len() == 0 {
                                    self.done = true;
                                    proof {
                                        assert(stack_model(self.stack@) =~= Seq::<
                                            ElemModel,
                                        >::empty());
                                    }
                                    Ok(Some(top))
                                } else {
                                    let mut parent = self.stack.pop().unwrap();
                                    parent.children.push(ETNode::ElementNode(top));
                                    proof {
                                        let ghost parent0 = old_stack[old_stack.len() - 2];
                                        assert(parent.children@.last() == ETNode::ElementNode(top));
                                        assert(parent.children@.drop_last() =~= parent0.children@);
                                        assert(children_model(parent.children@) =~= children_model(
                                            parent0.children@,
                                        ).push(node_model(ETNode::ElementNode(top))));
                                    }
                                    self.stack.push(parent);
                                    proof {
                                        assert(stack_model(self.stack@) =~= stack_model(
                                            old_stack,
                                        ).drop_last().update(
                                            old_stack.len() - 2,
                                            elem_model(parent),
                                        ));
                                    }
                                    Ok(None)
                                }
                            }
                        },
                    }
                }
            },
            Event::Other => Ok(None),
        }
    }
}

/// The number of elements in the tree rooted at this node.
pub open spec fn count_elems_node(n: NodeModel) -> nat
    decreases n,
{
    match n {
        NodeModel::Text(_) => 0,
        NodeModel::Element(e) => count_elems(e),
    }
}

/// The number of elements in the tree rooted at this element, the element
/// itself included.
pub open spec fn count_elems(e: ElemModel) -> nat
    decreases e,
{
    1 + count_elems_children(e.children)
}

/// The number of elements in the trees rooted at these nodes, together.
pub open spec fn count_elems_children(s: Seq<NodeModel>) -> nat
    decreases s,
{
    if s.len() == 0 {
        0
    } else {
        count_elems_children(s.drop_last()) + count_elems_node(s.last())
    }
}

/// The number of elements in the trees held by a stack of open elements.
pub open spec fn stack_count(st: Seq<ElemModel>) -> nat
    decreases st,
{
    if st.len() == 0 {
        0
    } else {
        stack_count(st.drop_last()) + count_elems(st.last())
    }
}

/// The number of start events in the stream.
pub open spec fn num_starts(evs: Seq<EventModel>) -> nat
    decreases evs,
{
    if evs.len() == 0 {
        0
    } else {
        num_starts(evs.drop_last()) + (if evs.last() is Start {
            1nat
        } else {
            0nat
        })
    }
}

/// Where a fresh builder stands after a stream of events: still building
/// with the given stack of open elements, finished with a root, aborted by
/// a defect, or misused by events after the root.
pub enum RunState {
    Going(Seq<ElemModel>),
    Finished(ElemModel),
    Failed(BuildError),
    Misused,
}

/// Runs a fresh builder over a whole stream of events, one [`step`] per
/// event.
pub open spec fn run(evs: Seq<EventModel>) -> RunState
    decreases evs.len(),
{
    if evs.len() == 0 {
        RunState::Going(Seq::empty())
    } else {
        match run(evs.drop_last()) {
            RunState::Going(stack) => match step(
                BuilderModel { stack, done: false },
                evs.last(),
            ) {
                Ok(p) => match p.1 {
                    Some(root) => RunState::Finished(root),
                    None => RunState::Going(p.0.stack),
                },
                Err(e) => RunState::Failed(e),
            },
            RunState::Finished(_) => RunState::Misused,
            RunState::Failed(e) => RunState::Failed(e),
            RunState::Misused => RunState::Misused,
        }
    }
}

proof fn lemma_count_children_push(s: Seq<NodeModel>, n: NodeModel)
    ensures
        count_elems_children(s.push(n)) == count_elems_children(s) + count_elems_node(n),
{
    assert(s.push(n).drop_last() =~= s);
    assert(s.push(n).last() == n);
}

proof fn lemma_stack_count_push(st: Seq<ElemModel>, e: ElemModel)
    ensures
        stack_count(st.push(e)) == stack_count(st) + count_elems(e),
{
    assert(st.push(e).drop_last() =~= st);
    assert(st.push(e).last() == e);
}

/// Well-formedness of a node: every element in it has a non-empty name.
pub open spec fn wf_node(n: NodeModel) -> bool
    decreases n,
{
    match n {
        NodeModel::Text(_) => true,
        NodeModel::Element(e) => wf_elem(e),
    }
}

/// Well-formedness of an element: its name is non-empty, and so is every
/// element name below it.
pub open spec fn wf_elem(e: ElemModel) -> bool
    decreases e,
{
    e.name.len() > 0 && wf_children(e.children)
}

/// Well-formedness of a sequence of nodes.
pub open spec fn wf_children(s: Seq<NodeModel>) -> bool
    decreases s,
{
    if s.len() == 0 {
        true
    } else {
        wf_children(s.drop_last()) && wf_node(s.last())
    }
}

/// The builder only ever holds and emits well-formed elements: every frame
/// of a going stack, and the root of a finished run, carries non-empty
/// element names throughout, because a start event with an empty name is
/// refused.
pub proof fn lemma_run_well_formed(evs: Seq<EventModel>)
    ensures
        run(evs) matches RunState::Going(st) ==> forall|i: int|
            0 <= i < st.len() ==> wf_elem(st[i]),
        run(evs) matches RunState::Finished(root) ==> wf_elem(root),
    decreases evs.len(),
{
    if evs.len() > 0 {
        let prefix = evs.drop_last();
        let ev = evs.last();
        lemma_run_well_formed(prefix);
        match run(prefix) {
            RunState::Going(stack) => {
                match ev {
                    EventModel::Start(raw) => {
                        match start_name(raw) {
                            Ok(n) => {
                                let fresh = ElemModel { name: n, children: Seq::empty() };
                                assert(wf_elem(fresh));
                            },
                            Err(_) => {},
                        }
                    },
                    EventModel::Text(raw) => {
                        if stack.len() > 0 {
                            match text_content(raw) {
                                Ok(t) => {
                                    let top = stack.last();
                                    let c2 = top.children.push(NodeModel::Text(t));
                                    assert(c2.drop_last() =~= top.children);
                                    assert(c2.last() == NodeModel::Text(t));
                                    assert(wf_node(NodeModel::Text(t)));
                                    assert(wf_elem(top) ==> wf_children(c2));
                                },
                                Err(_) => {},
                            }
                        }
                    },
                    EventModel::End(raw) => {
                        if stack.len() > 0 {
                            match end_name(raw) {
                                Ok(n) => {
                                    let top = stack.last();
                                    if top.name == n && stack.len() > 1 {
                                        let parent = stack[stack.len() - 2];
                                        let c2 = parent.children.push(NodeModel::Element(top));
                                        assert(c2.drop_last() =~= parent.children);
                                        assert(c2.last() == NodeModel::Element(top));
                                        assert(wf_elem(top) ==> wf_node(NodeModel::Element(top)));
                                        assert(wf_elem(parent) && wf_elem(top) ==> wf_children(
                                            c2,
                                        ));
                                    }
                                },
                                Err(_) => {},
                            }
                        }
                    },
                    EventModel::Other => {},
                }
            },
            RunState::Finished(_) => {},
            RunState::Failed(_) => {},
            RunState::Misused => {},
        }
    }
}

/// While a builder is still going, the elements held by its stack number
/// exactly the start events seen so far; and a finished run's tree holds
/// exactly one element per start event of the stream.
pub proof fn lemma_run_element_count(evs: Seq<EventModel>)
    ensures
        run(evs) matches RunState::Going(st) ==> stack_count(st) == num_starts(evs),
        run(evs) matches RunState::Finished(root) ==> count_elems(root) == num_starts(evs),
    decreases evs.len(),
{
    reveal_with_fuel(stack_count, 3);
    if evs.len() > 0 {
        let prefix = evs.drop_last();
        let ev = evs.last();
        lemma_run_element_count(prefix);
        match run(prefix) {
            RunState::Going(stack) => {
                match ev {
                    EventModel::Start(raw) => {
                        match start_name(raw) {
                            Ok(n) => {
                                let fresh = ElemModel { name: n, children: Seq::empty() };
                                assert(count_elems(fresh) == 1);
                                lemma_stack_count_push(stack, fresh);
                            },
                            Err(_) => {},
                        }
                    },
                    EventModel::Text(raw) => {
                        if stack.len() > 0 {
                            match text_content(raw) {
                                Ok(t) => {
                                    let top = stack.last();
                                    let top2 = ElemModel {
                                        name: top.name,
                                        children: top.children.push(NodeModel::Text(t)),
                                    };
                                    lemma_count_children_push(top.children, NodeModel::Text(t));
                                    assert(count_elems(top2) == count_elems(top));
                                    let st2 = stack.update(stack.len() - 1, top2);
                                    assert(st2 =~= stack.drop_last().push(top2));
                                    lemma_stack_count_push(stack.drop_last(), top2);
                                },
                                Err(_) => {},
                            }
                        }
                    },
                    EventModel::End(raw) => {
                        if stack.len() > 0 {
                            match end_name(raw) {
                                Ok(n) => {
                                    let top = stack.last();
                                    if top.name == n {
                                        if stack.len() == 1 {
                                            assert(stack.drop_last() =~= Seq::<
                                                ElemModel,
                                            >::empty());
                                            assert(stack_count(stack) == count_elems(top));
                                        } else {
                                            let s2 = stack.drop_last();
                                            let parent = stack[stack.len() - 2];
                                            assert(s2.last() == parent);
                                            let parent2 = ElemModel {
                                                name: parent.name,
                                                children: parent.children.push(
                                                    NodeModel::Element(top),
                                                ),
                                            };
                                            lemma_count_children_push(
                                                parent.children,
                                                NodeModel::Element(top),
                                            );
                                            assert(count_elems(parent2) == count_elems(parent)
                                                + count_elems(top));
                                            let st2 = s2.update(stack.len() - 2, parent2);
                                            assert(st2 =~= s2.drop_last().push(parent2));
                                            lemma_stack_count_push(s2.drop_last(), parent2);
                                        }
                                    }
                                },
                                Err(_) => {},
                            }
                        }
                    },
                    EventModel::Other => {},
                }
            },
            RunState::Finished(_) => {},
            RunState::Failed(_) => {},
            RunState::Misused => {},
        }
    }
}

} // verus!
