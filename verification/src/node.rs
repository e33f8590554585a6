//! The intermediate representation: an immutable tree of nodes whose
//! children are text, nested nodes, or trusted raw fragments, walked by a
//! visitor that threads its state through the traversal.

use vstd::prelude::*;

use crate::attributes::{entries_wf, AttrValuesModel, SharedAttrs};
use crate::renderer::{children_output, node_output, Renderer};
use crate::trust::{Content, HtmlBlock, TagName};

verus! {

/// The element kinds of the markup vocabulary.
#[derive(Debug, Clone, Copy)]
pub enum ElementType {
    /// An element that never carries content.
    Void,
    /// An element that may carry content.
    Normal,
}

/// The mathematical shape of a node: its tag, its attribute entries in
/// ascending key order, its kind, and its children in order.
pub struct NodeModel {
    pub tag: Seq<char>,
    pub attrs: Seq<(Seq<char>, AttrValuesModel)>,
    pub kind: ElementType,
    pub children: Seq<ElementModel>,
}

/// The mathematical shape of one child.
pub enum ElementModel {
    Text(Seq<char>),
    Node(NodeModel),
    Raw(Seq<char>),
}

/// A child of a node: escaped text, a nested node, or a trusted raw
/// fragment emitted verbatim.
pub enum Element {
    Text(Content),
    Node(IRNode),
    Raw(HtmlBlock),
}

/// A node of the representation, built once and never mutated.
pub struct IRNode {
    tag: TagName,
    attrs: SharedAttrs,
    tagtype: ElementType,
    childs: Vec<Element>,
}

impl Element {
    /// The shape of this child.
    pub open spec fn model(&self) -> ElementModel
        decreases self,
    {
        match self {
            Element::Text(c) => ElementModel::Text(c@),
            Element::Node(n) => ElementModel::Node(n.model()),
            Element::Raw(h) => ElementModel::Raw(h@),
        }
    }
}

impl IRNode {
    /// The shape of this node.
    pub closed spec fn model(&self) -> NodeModel
        decreases self,
    {
        NodeModel {
            tag: self.tag@,
            attrs: self.attrs.entries(),
            kind: self.tagtype,
            children: elements_model(self.childs@),
        }
    }
}

/// The shapes of a sequence of children, in order.
pub open spec fn elements_model(cs: Seq<Element>) -> Seq<ElementModel>
    decreases cs,
{
    if cs.len() == 0 {
        Seq::empty()
    } else {
        seq![cs[0].model()] + elements_model(cs.drop_first())
    }
}

/// The shapes of children line up with the children themselves.
pub proof fn lemma_elements_model_props(cs: Seq<Element>)
    ensures
        elements_model(cs).len() == cs.len(),
        forall|i: int| 0 <= i < cs.len() ==> elements_model(cs)[i] == (#[trigger] cs[i]).model(),
    decreases cs.len(),
{
    if cs.len() > 0 {
        lemma_elements_model_props(cs.drop_first());
        assert forall|i: int| 0 <= i < cs.len() implies elements_model(cs)[i] == (
        #[trigger] cs[i]).model() by {
            if i > 0 {
                assert(cs.drop_first()[i - 1] == cs[i]);
                assert(elements_model(cs)[i] == elements_model(cs.drop_first())[i - 1]);
            }
        }
    }
}

/// A child is well formed when a node it holds is.
pub open spec fn element_wf(e: ElementModel) -> bool
    decreases e,
{
    match e {
        ElementModel::Node(n) => node_wf(n),
        _ => true,
    }
}

/// A node is well formed when a void-kind node has no children, its
/// attribute entries are sorted and well formed, and every child is well
/// formed in turn.
pub open spec fn node_wf(n: NodeModel) -> bool
    decreases n,
{
    &&& (n.kind is Void ==> n.children.len() == 0)
    &&& entries_wf(n.attrs)
    &&& forall|i: int| 0 <= i < n.children.len() ==> element_wf(#[trigger] n.children[i])
}

/// Anything that can hand itself over as a node of the representation.
pub trait Node {
    /// The shape of the node this value renders to.
    spec fn model(&self) -> NodeModel;

    fn to_irnode(&self) -> (r: IRNode)
        ensures
            r.model() == self.model(),
    ;
}

impl IRNode {
    /// Assemble a node. A void-kind node must be built with no children.
    pub fn new(tag: TagName, attrs: SharedAttrs, tagtype: ElementType, childs: Vec<Element>) -> (r:
        Self)
        requires
            tagtype is Void ==> childs@.len() == 0,
            attrs.wf(),
            forall|i: int| 0 <= i < childs@.len() ==> element_wf((#[trigger] childs@[i]).model()),
        ensures
            r.model() == (NodeModel {
                tag: tag@,
                attrs: attrs.entries(),
                kind: tagtype,
                children: elements_model(childs@),
            }),
            node_wf(r.model()),
    {
        let r = IRNode { tag, attrs, tagtype, childs };
        proof {
            lemma_elements_model_props(r.childs@);
            assert forall|i: int| 0 <= i < r.model().children.len() implies element_wf(
                #[trigger] r.model().children[i],
            ) by {
                assert(r.model().children[i] == r.childs@[i].model());
            }
        }
        r
    }

    pub fn get_tag(&self) -> (r: &TagName)
        ensures
            r@ == self.model().tag,
    {
        &self.tag
    }

    pub fn get_attrs(&self) -> (r: &SharedAttrs)
        ensures
            r.entries() == self.model().attrs,
    {
        &self.attrs
    }

    pub fn get_type(&self) -> (r: &ElementType)
        ensures
            *r == self.model().kind,
    {
        &self.tagtype
    }

    /// Walk this node with a visitor: the node-begin transition, then
    /// each child in order (text, nested node, or raw fragment), then the
    /// node-end transition. The visitor's state is threaded through and
    /// the final state is returned.
    pub fn accept<R: Renderer>(&self, renderer: R) -> (r: R)
        ensures
            r.out() == renderer.out() + node_output::<R>(self.model()),
        decreases self,
    {
        broadcast use vstd::std_specs::vec::group_vec_axioms;

        let ghost m = self.model();
        let r1 = renderer.visit_node_begin(self);
        let n = self.childs.len();
        proof {
            assert(m.children.take(0) =~= Seq::<ElementModel>::empty());
            assert(r1.out() =~= renderer.out() + R::begin_model(m) + children_output::<R>(
                m.children.take(0),
            ));
        }
        let mut cur = r1;
        let mut i: usize = 0;
        while i < n
            invariant
                n == self.childs@.len(),
                i <= n,
                m == self.model(),
                cur.out() == renderer.out() + R::begin_model(m) + children_output::<R>(
                    m.children.take(i as int),
                ),
            decreases n - i,
        {
            let ghost prev = cur.out();
            proof {
                lemma_elements_model_props(self.childs@);
            }
            match &self.childs[i] {
                Element::Text(c) => {
                    cur = cur.visit_text(c);
                },
                Element::Node(nd) => {
                    proof {
                        assert(decreases_to!(self.childs => self.childs[i as int]));
                    }
                    cur = nd.accept(cur);
                },
                Element::Raw(h) => {
                    cur = cur.visit_raw(h);
                },
            }
            proof {
                assert(m.children[i as int] == self.childs@[i as int].model());
                crate::renderer::lemma_children_output_push::<R>(m.children, i as int);
                assert(cur.out() =~= renderer.out() + R::begin_model(m) + children_output::<R>(
                    m.children.take(i + 1),
                ));
            }
            i = i + 1;
        }
        proof {
            lemma_elements_model_props(self.childs@);
            assert(m.children.take(n as int) =~= m.children);
        }
        let r = cur.visit_node_end(self);
        proof {
            assert(r.out() =~= renderer.out() + node_output::<R>(m));
        }
        r
    }
}

impl Clone for Element {
    fn clone(&self) -> (r: Self)
        ensures
            r.model() == self.model(),
        decreases self,
    {
        match self {
            Element::Text(c) => Element::Text(c.clone()),
            Element::Node(n) => Element::Node(n.clone()),
            Element::Raw(h) => Element::Raw(h.clone()),
        }
    }
}

impl Clone for IRNode {
    fn clone(&self) -> (r: Self)
        ensures
            r.model() == self.model(),
        decreases self,
    {
        broadcast use vstd::std_specs::vec::group_vec_axioms;

        let n = self.childs.len();
        let mut childs: Vec<Element> = Vec::new();
        let mut i: usize = 0;
        while i < n
            invariant
                n == self.childs@.len(),
                i <= n,
                childs@.len() == i,
                forall|j: int|
                    0 <= j < i ==> (#[trigger] childs@[j]).model() == self.childs@[j].model(),
            decreases n - i,
        {
            proof {
                assert(decreases_to!(self.childs => self.childs[i as int]));
            }
            childs.push(self.childs[i].clone());
            i = i + 1;
        }
        let r = IRNode {
            tag: self.tag.clone(),
            attrs: self.attrs.clone(),
            tagtype: self.tagtype,
            childs,
        };
        proof {
            lemma_elements_model_props(r.childs@);
            lemma_elements_model_props(self.childs@);
            assert forall|j: int|
                0 <= j < r.childs@.len() implies elements_model(r.childs@)[j] == elements_model(
                self.childs@,
            )[j] by {
                assert(elements_model(r.childs@)[j] == r.childs@[j].model());
                assert(elements_model(self.childs@)[j] == self.childs@[j].model());
            }
            assert(elements_model(r.childs@) =~= elements_model(self.childs@));
        }
        r
    }
}

/// Metadata content: document-level elements such as titles and links.
pub trait MetadataContent: Node {

}

/// Flow content: most elements that stand in a document body.
pub trait FlowContent: Node {

}

/// Sectioning content: elements that outline document structure.
pub trait Sectioning: Node {

}

/// Heading content.
pub trait Heading: Node {

}

/// Phrasing content: text and text-level markup.
pub trait Phrasing: Node {

}

/// Embedded content: elements that pull in an external resource.
pub trait Embedded: Node {

}

/// Interactive content.
pub trait Interactive: Node {

}

/// Palpable content: elements with non-empty content.
pub trait Palpable: Node {

}

/// Script-supporting elements.
pub trait Script: Node {

}

/// Form-associated elements.
pub trait Formassociated: Node {

}

/// Transparent content: elements that take their parent's content model.
pub trait Transparentcontent: Node {

}

/// Children admissible inside an ordered list.
pub trait OlContent: Node {

}

} // verus!
