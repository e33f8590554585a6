//! Concrete vocabulary elements, each a typed constructor over the
//! intermediate representation.

use vstd::prelude::*;

use crate::attributes::{Attributes, Global, Image, SharedAttrs};
use crate::node::{
    element_wf, elements_model, Element, ElementModel, ElementType, FlowContent, Heading, IRNode,
    Node, NodeModel,
};
use crate::trust::{Content, TagName};

verus! {

/// A top-level heading. Carries text content only.
pub struct H1 {
    attrs: SharedAttrs,
    content: Content,
}

impl H1 {
    #[verifier::type_invariant]
    spec fn inv(&self) -> bool {
        self.attrs.wf()
    }

    pub fn new(attrs: Attributes<Global>, content: Content) -> (r: Self)
        requires
            attrs.table.wf(),
        ensures
            r.model() == (NodeModel {
                tag: "h1"@,
                attrs: attrs.table.entries(),
                kind: ElementType::Normal,
                children: seq![ElementModel::Text(content@)],
            }),
    {
        H1 { attrs: SharedAttrs::from_map(attrs.table), content }
    }
}

impl Node for H1 {
    closed spec fn model(&self) -> NodeModel {
        NodeModel {
            tag: "h1"@,
            attrs: self.attrs.entries(),
            kind: ElementType::Normal,
            children: seq![ElementModel::Text(self.content@)],
        }
    }

    fn to_irnode(&self) -> (r: IRNode) {
        proof {
            use_type_invariant(&*self);
        }
        let childs = vec![Element::Text(self.content.clone())];
        proof {
            crate::node::lemma_elements_model_props(childs@);
            assert(elements_model(childs@) =~= seq![ElementModel::Text(self.content@)]);
        }
        IRNode::new(
            TagName::from_str("h1"),
            self.attrs.clone(),
            ElementType::Normal,
            childs,
        )
    }
}

impl FlowContent for H1 {

}

impl Heading for H1 {

}

/// A second-level heading. Carries text content only.
pub struct H2 {
    attrs: SharedAttrs,
    content: Content,
}

impl H2 {
    #[verifier::type_invariant]
    spec fn inv(&self) -> bool {
        self.attrs.wf()
    }

    pub fn new(attrs: Attributes<Global>, content: Content) -> (r: Self)
        requires
            attrs.table.wf(),
        ensures
            r.model() == (NodeModel {
                tag: "h2"@,
                attrs: attrs.table.entries(),
                kind: ElementType::Normal,
                children: seq![ElementModel::Text(content@)],
            }),
    {
        H2 { attrs: SharedAttrs::from_map(attrs.table), content }
    }
}

impl Node for H2 {
    closed spec fn model(&self) -> NodeModel {
        NodeModel {
            tag: "h2"@,
            attrs: self.attrs.entries(),
            kind: ElementType::Normal,
            children: seq![ElementModel::Text(self.content@)],
        }
    }

    fn to_irnode(&self) -> (r: IRNode) {
        proof {
            use_type_invariant(&*self);
        }
        let childs = vec![Element::Text(self.content.clone())];
        proof {
            crate::node::lemma_elements_model_props(childs@);
            assert(elements_model(childs@) =~= seq![ElementModel::Text(self.content@)]);
        }
        IRNode::new(
            TagName::from_str("h2"),
            self.attrs.clone(),
            ElementType::Normal,
            childs,
        )
    }
}

impl FlowContent for H2 {

}

/// A generic block-level container holding flow content.
pub struct Div {
    attrs: SharedAttrs,
    childs: Vec<Element>,
}

impl Div {
    #[verifier::type_invariant]
    spec fn inv(&self) -> bool {
        &&& self.attrs.wf()
        &&& forall|i: int|
            0 <= i < self.childs@.len() ==> element_wf((#[trigger] self.childs@[i]).model())
    }

    pub fn new(attrs: Attributes<Global>, childs: Vec<Element>) -> (r: Self)
        requires
            attrs.table.wf(),
            forall|i: int| 0 <= i < childs@.len() ==> element_wf((#[trigger] childs@[i]).model()),
        ensures
            r.model() == (NodeModel {
                tag: "div"@,
                attrs: attrs.table.entries(),
                kind: ElementType::Normal,
                children: elements_model(childs@),
            }),
    {
        Div { attrs: SharedAttrs::from_map(attrs.table), childs }
    }
}

impl Node for Div {
    closed spec fn model(&self) -> NodeModel {
        NodeModel {
            tag: "div"@,
            attrs: self.attrs.entries(),
            kind: ElementType::Normal,
            children: elements_model(self.childs@),
        }
    }

    fn to_irnode(&self) -> (r: IRNode) {
        proof {
            use_type_invariant(&*self);
        }
        let n = self.childs.len();
        let mut childs: Vec<Element> = Vec::new();
        let mut i: usize = 0;
        while i < n
            invariant
                n == self.childs@.len(),
                i <= n,
                childs@.len() == i,
                forall|j: int|
                    0 <= j < self.childs@.len() ==> element_wf(
                        (#[trigger] self.childs@[j]).model(),
                    ),
                forall|j: int|
                    0 <= j < i ==> (#[trigger] childs@[j]).model() == self.childs@[j].model(),
            decreases n - i,
        {
            childs.push(self.childs[i].clone());
            i = i + 1;
        }
        proof {
            crate::node::lemma_elements_model_props(childs@);
            crate::node::lemma_elements_model_props(self.childs@);
            assert forall|j: int|
                0 <= j < childs@.len() implies elements_model(childs@)[j] == elements_model(
                self.childs@,
            )[j] by {
                assert(elements_model(childs@)[j] == childs@[j].model());
                assert(elements_model(self.childs@)[j] == self.childs@[j].model());
            }
            assert(elements_model(childs@) =~= elements_model(self.childs@));
        }
        IRNode::new(
            TagName::from_str("div"),
            self.attrs.clone(),
            ElementType::Normal,
            childs,
        )
    }
}

impl FlowContent for Div {

}

/// An image element: void kind, never carries children.
pub struct Img {
    attrs: SharedAttrs,
}

impl Img {
    #[verifier::type_invariant]
    spec fn inv(&self) -> bool {
        self.attrs.wf()
    }

    pub fn new(attrs: Attributes<Image>) -> (r: Self)
        requires
            attrs.table.wf(),
        ensures
            r.model() == (NodeModel {
                tag: "img"@,
                attrs: attrs.table.entries(),
                kind: ElementType::Void,
                children: Seq::empty(),
            }),
    {
        let r = Img { attrs: SharedAttrs::from_map(attrs.table) };
        proof {
            assert(elements_model(Seq::<Element>::empty()) =~= Seq::<ElementModel>::empty());
        }
        r
    }
}

impl Node for Img {
    closed spec fn model(&self) -> NodeModel {
        NodeModel {
            tag: "img"@,
            attrs: self.attrs.entries(),
            kind: ElementType::Void,
            children: Seq::empty(),
        }
    }

    fn to_irnode(&self) -> (r: IRNode) {
        proof {
            use_type_invariant(&*self);
        }
        let childs: Vec<Element> = Vec::new();
        proof {
            assert(elements_model(childs@) =~= Seq::<ElementModel>::empty());
        }
        IRNode::new(TagName::from_str("img"), self.attrs.clone(), ElementType::Void, childs)
    }
}

impl FlowContent for Img {

}

} // verus!
