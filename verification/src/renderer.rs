//! The rendering protocol and the default text serializer.
//!
//! A renderer is a value threaded through the tree walk; every visit
//! returns a new renderer value, so no state is ever shared between
//! sibling subtrees.

use vstd::prelude::*;

use crate::attributes::spec_serialize;
use crate::node::{ElementModel, ElementType, IRNode, NodeModel};
use crate::trust::{push_char, Content, HtmlBlock, SafeString};

verus! {

/// The visitor a tree walk threads its state through. Each transition
/// appends that renderer's rendering of the visited piece to its output.
pub trait Renderer: Sized + Clone {
    type Output;

    /// The output accumulated so far.
    spec fn out(&self) -> Seq<char>;

    /// What this renderer appends when a node begins.
    spec fn begin_model(n: NodeModel) -> Seq<char>;

    /// What this renderer appends when a node ends.
    spec fn end_model(n: NodeModel) -> Seq<char>;

    /// What this renderer appends for a text child.
    spec fn text_model(t: Seq<char>) -> Seq<char>;

    /// What this renderer appends for a raw child.
    spec fn raw_model(t: Seq<char>) -> Seq<char>;

    fn visit_node_begin(&self, node: &IRNode) -> (r: Self)
        ensures
            r.out() == self.out() + Self::begin_model(node.model()),
    ;

    fn visit_node_end(&self, node: &IRNode) -> (r: Self)
        ensures
            r.out() == self.out() + Self::end_model(node.model()),
    ;

    fn visit_text(&self, content: &Content) -> (r: Self)
        ensures
            r.out() == self.out() + Self::text_model(content@),
    ;

    fn visit_raw(&self, html: &HtmlBlock) -> (r: Self)
        ensures
            r.out() == self.out() + Self::raw_model(html@),
    ;

    fn finalize(&self) -> &Self::Output;
}

/// What a renderer emits for a whole node: its begin transition, its
/// children in order, its end transition.
pub open spec fn node_output<R: Renderer>(n: NodeModel) -> Seq<char>
    decreases n,
{
    R::begin_model(n) + children_output::<R>(n.children) + R::end_model(n)
}

/// What a renderer emits for a sequence of children, in order.
pub open spec fn children_output<R: Renderer>(cs: Seq<ElementModel>) -> Seq<char>
    decreases cs,
{
    if cs.len() == 0 {
        Seq::empty()
    } else {
        child_output::<R>(cs[0]) + children_output::<R>(cs.drop_first())
    }
}

/// What a renderer emits for one child.
pub open spec fn child_output<R: Renderer>(c: ElementModel) -> Seq<char>
    decreases c,
{
    match c {
        ElementModel::Text(t) => R::text_model(t),
        ElementModel::Node(n) => node_output::<R>(n),
        ElementModel::Raw(t) => R::raw_model(t),
    }
}

/// One more child appends exactly its own output.
pub proof fn lemma_children_output_push<R: Renderer>(cs: Seq<ElementModel>, i: int)
    requires
        0 <= i < cs.len(),
    ensures
        children_output::<R>(cs.take(i + 1)) == children_output::<R>(cs.take(i)) + child_output::<
            R,
        >(cs[i]),
    decreases i,
{
    if i == 0 {
        let t = cs.take(1);
        assert(t[0] == cs[0]);
        assert(t.drop_first() =~= Seq::<ElementModel>::empty());
        assert(children_output::<R>(cs.take(0)) =~= Seq::<char>::empty());
        assert(children_output::<R>(t.drop_first()) =~= Seq::<char>::empty());
        assert(children_output::<R>(t) == child_output::<R>(t[0]) + children_output::<R>(
            t.drop_first(),
        ));
        assert(children_output::<R>(t) =~= child_output::<R>(cs[0]));
    } else {
        assert(cs.take(i + 1).drop_first() =~= cs.drop_first().take(i));
        assert(cs.take(i).drop_first() =~= cs.drop_first().take(i - 1));
        assert(cs.take(i + 1)[0] == cs[0]);
        assert(cs.take(i)[0] == cs[0]);
        lemma_children_output_push::<R>(cs.drop_first(), i - 1);
        assert(cs.drop_first()[i - 1] == cs[i]);
        assert(child_output::<R>(cs[0]) + (children_output::<R>(cs.drop_first().take(i - 1))
            + child_output::<R>(cs[i])) =~= (child_output::<R>(cs[0]) + children_output::<R>(
            cs.drop_first().take(i - 1),
        )) + child_output::<R>(cs[i]));
    }
}

/// The opening tag of a node: `<`, the tag, the serialized attributes,
/// then `>`, with a space before the bracket for a void-kind node.
pub open spec fn spec_open_tag(n: NodeModel) -> Seq<char> {
    seq!['<'] + n.tag + spec_serialize(n.attrs) + (if n.kind is Void {
        seq![' ', '>']
    } else {
        seq!['>']
    })
}

/// The closing tag of a node: `</`, the tag, `>` for a normal-kind node
/// and nothing for a void-kind one.
pub open spec fn spec_close_tag(n: NodeModel) -> Seq<char> {
    if n.kind is Normal {
        seq!['<', '/'] + n.tag + seq!['>']
    } else {
        Seq::empty()
    }
}

/// What the text serializer emits for a whole node.
pub open spec fn spec_render(n: NodeModel) -> Seq<char> {
    node_output::<HtmlRenderer>(n)
}

/// The default text serializer: accumulates the output markup in an
/// immutable buffer, replaced wholesale on each transition.
#[derive(Clone)]
pub struct HtmlRenderer {
    buffer: HtmlBlock,
}

impl HtmlRenderer {
    /// The accumulated output.
    pub closed spec fn buf(&self) -> Seq<char> {
        self.buffer@
    }

    pub fn new() -> (r: Self)
        ensures
            r.out() == Seq::<char>::empty(),
    {
        let r = HtmlRenderer { buffer: HtmlBlock::from_str("") };
        proof {
            reveal_strlit("");
            assert(r.buf() =~= Seq::<char>::empty());
        }
        r
    }
}

impl Renderer for HtmlRenderer {
    type Output = HtmlBlock;

    open spec fn out(&self) -> Seq<char> {
        self.buf()
    }

    open spec fn begin_model(n: NodeModel) -> Seq<char> {
        spec_open_tag(n)
    }

    open spec fn end_model(n: NodeModel) -> Seq<char> {
        spec_close_tag(n)
    }

    open spec fn text_model(t: Seq<char>) -> Seq<char> {
        t
    }

    open spec fn raw_model(t: Seq<char>) -> Seq<char> {
        t
    }

    /// Append the opening tag of the node.
    fn visit_node_begin(&self, node: &IRNode) -> (r: Self) {
        let mut buffer = String::from_str(self.buffer.as_str());
        push_char(&mut buffer, '<');
        buffer.append(node.get_tag().as_str());
        let attrs_str = node.get_attrs().into_string();
        buffer.append(attrs_str.as_str());
        match node.get_type() {
            ElementType::Void => {
                push_char(&mut buffer, ' ');
                push_char(&mut buffer, '>');
            },
            ElementType::Normal => {
                push_char(&mut buffer, '>');
            },
        }
        let r = HtmlRenderer { buffer: HtmlBlock::from_str(buffer.as_str()) };
        proof {
            assert(r.buf() =~= self.buf() + spec_open_tag(node.model()));
        }
        r
    }

    /// Append the closing tag of a normal-kind node; a void-kind node
    /// has none.
    fn visit_node_end(&self, node: &IRNode) -> (r: Self) {
        let mut buffer = String::from_str(self.buffer.as_str());
        match node.get_type() {
            ElementType::Normal => {
                push_char(&mut buffer, '<');
                push_char(&mut buffer, '/');
                buffer.append(node.get_tag().as_str());
                push_char(&mut buffer, '>');
            },
            ElementType::Void => {
            },
        }
        let r = HtmlRenderer { buffer: HtmlBlock::from_str(buffer.as_str()) };
        proof {
            assert(r.buf() =~= self.buf() + spec_close_tag(node.model()));
        }
        r
    }

    /// Append already-escaped text verbatim.
    fn visit_text(&self, content: &Content) -> (r: Self) {
        let mut buffer = String::from_str(self.buffer.as_str());
        buffer.append(content.as_str());
        let r = HtmlRenderer { buffer: HtmlBlock::from_str(buffer.as_str()) };
        proof {
            assert(r.buf() =~= self.buf() + content@);
        }
        r
    }

    /// Append a trusted raw fragment verbatim, unescaped.
    fn visit_raw(&self, html: &HtmlBlock) -> (r: Self) {
        let mut buffer = String::from_str(self.buffer.as_str());
        buffer.append(html.as_str());
        let r = HtmlRenderer { buffer: HtmlBlock::from_str(buffer.as_str()) };
        proof {
            assert(r.buf() =~= self.buf() + html@);
        }
        r
    }

    /// The accumulated output markup.
    fn finalize(&self) -> (r: &Self::Output)
        ensures
            r@ == self.out(),
    {
        &self.buffer
    }
}

} // verus!
