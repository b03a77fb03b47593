//! The tree model for markup documents: an ordered, attributed element type
//! used uniformly for templates, snippets, pages and rendered output.
//!
//! Every exec-level tree has a mathematical model (`ElemModel` / `NodeModel`)
//! built from sequences of characters; all contracts in this crate speak of
//! those models.

use vstd::prelude::*;
use crate::strutil::str_eq;

verus! {

/// One child of an element: opaque text (or comment) content, or a nested
/// element.
pub enum Node {
    Text(String),
    Elem(Element),
}

/// A markup element: tag name, optional namespace, attributes in insertion
/// order (names unique), and ordered children.
pub struct Element {
    pub name: String,
    pub ns: Option<String>,
    pub attrs: Vec<(String, String)>,
    pub children: Vec<Node>,
}

/// The mathematical model of a `Node`.
#[verifier::ext_equal]
pub enum NodeModel {
    Text(Seq<char>),
    Elem(ElemModel),
}

/// The mathematical model of an `Element`.
#[verifier::ext_equal]
pub struct ElemModel {
    pub name: Seq<char>,
    pub ns: Option<Seq<char>>,
    pub attrs: Seq<(Seq<char>, Seq<char>)>,
    pub children: Seq<NodeModel>,
}

/// The model of a sequence of children, element by element.
pub open spec fn nodes_model(s: Seq<Node>) -> Seq<NodeModel>
    decreases s,
{
    if s.len() == 0 {
        Seq::empty()
    } else {
        nodes_model(s.drop_last()).push(s.last().model())
    }
}

impl Node {
    pub open spec fn model(self) -> NodeModel
        decreases self,
    {
        match self {
            Node::Text(t) => NodeModel::Text(t@),
            Node::Elem(e) => NodeModel::Elem(e.model()),
        }
    }

    /// A structurally equal copy of this node.
    pub fn duplicate(&self) -> (r: Node)
        ensures
            r@ == self@,
        decreases self@,
    {
        match self {
            Node::Text(t) => Node::Text(t.clone()),
            Node::Elem(e) => {
                proof {
                    assert(self@ == NodeModel::Elem(e@));
                    assert(decreases_to!(self@ => e@));
                }
                Node::Elem(e.duplicate())
            },
        }
    }
}

impl Element {
    pub open spec fn model(self) -> ElemModel
        decreases self,
    {
        ElemModel {
            name: self.name@,
            ns: match self.ns {
                Some(n) => Some(n@),
                None => None,
            },
            attrs: self.attrs@.map_values(|p: (String, String)| (p.0@, p.1@)),
            children: nodes_model(self.children@),
        }
    }
}

impl View for Node {
    type V = NodeModel;

    open spec fn view(&self) -> NodeModel {
        self.model()
    }
}

impl View for Element {
    type V = ElemModel;

    open spec fn view(&self) -> ElemModel {
        self.model()
    }
}

pub broadcast proof fn lemma_nodes_model(s: Seq<Node>)
    ensures
        #[trigger] nodes_model(s).len() == s.len(),
        forall|i: int| 0 <= i < s.len() ==> nodes_model(s)[i] == s[i].model(),
    decreases s,
{
    if s.len() > 0 {
        lemma_nodes_model(s.drop_last());
    }
}

/// The first value bound to `name`, if any. Attribute names are unique in a
/// well-formed element, so first and only coincide.
pub open spec fn attrs_lookup(attrs: Seq<(Seq<char>, Seq<char>)>, name: Seq<char>) -> Option<
    Seq<char>,
>
    decreases attrs.len(),
{
    if attrs.len() == 0 {
        None
    } else if attrs[0].0 == name {
        Some(attrs[0].1)
    } else {
        attrs_lookup(attrs.drop_first(), name)
    }
}

impl ElemModel {
    /// The value of the attribute called `name`, if the element has one.
    pub open spec fn attr(self, name: Seq<char>) -> Option<Seq<char>> {
        attrs_lookup(self.attrs, name)
    }

    /// No two attributes share a name.
    pub open spec fn attrs_unique(self) -> bool {
        forall|i: int, j: int|
            0 <= i < j < self.attrs.len() ==> self.attrs[i].0 != self.attrs[j].0
    }
}

impl Element {
    /// A fresh element with the given tag name and namespace, no attributes
    /// and no children.
    pub fn new(name: String, ns: Option<String>) -> (r: Element)
        ensures
            r@ == (ElemModel {
                name: name@,
                ns: match ns {
                    Some(n) => Some(n@),
                    None => None,
                },
                attrs: Seq::<(Seq<char>, Seq<char>)>::empty(),
                children: Seq::<NodeModel>::empty(),
            }),
    {
        let r = Element { name, ns, attrs: Vec::new(), children: Vec::new() };
        proof {
            assert(r@.attrs =~= Seq::<(Seq<char>, Seq<char>)>::empty());
            assert(r@ =~= ElemModel {
                name: r.name@,
                ns: match r.ns {
                    Some(n) => Some(n@),
                    None => None,
                },
                attrs: Seq::<(Seq<char>, Seq<char>)>::empty(),
                children: Seq::<NodeModel>::empty(),
            });
        }
        r
    }

    /// Looks an attribute up by name.
    pub fn attr(&self, name: &str) -> (r: Option<&String>)
        ensures
            match r {
                Some(v) => self@.attr(name@) == Some(v@),
                None => self@.attr(name@) is None,
            },
    {
        let ghost am = self@.attrs;
        proof {
            assert(am.skip(0) =~= am);
        }
        let mut i: usize = 0;
        while i < self.attrs.len()
            invariant
                0 <= i <= self.attrs.len(),
                am == self@.attrs,
                am.len() == self.attrs.len(),
                forall|k: int| 0 <= k < am.len() ==> am[k] == (self.attrs@[k].0@, self.attrs@[k].1@),
                attrs_lookup(am, name@) == attrs_lookup(am.skip(i as int), name@),
            decreases self.attrs.len() - i,
        {
            assert(am.skip(i as int).len() > 0);
            assert(am.skip(i as int)[0] == am[i as int]);
            if str_eq(self.attrs[i].0.as_str(), name) {
                return Some(&self.attrs[i].1);
            }
            proof {
                assert(am.skip(i as int).drop_first() =~= am.skip(i as int + 1));
            }
            i = i + 1;
        }
        proof {
            assert(am.skip(i as int) =~= Seq::<(Seq<char>, Seq<char>)>::empty());
        }
        None
    }

    /// A structurally equal copy of this element.
    pub fn duplicate(&self) -> (r: Element)
        ensures
            r@ == self@,
        decreases self@,
    {
        let name = self.name.clone();
        let ns = match &self.ns {
            Some(n) => Some(n.clone()),
            None => None,
        };
        let mut attrs: Vec<(String, String)> = Vec::new();
        let mut i: usize = 0;
        while i < self.attrs.len()
            invariant
                0 <= i <= self.attrs.len(),
                attrs@ == self.attrs@.take(i as int),
            decreases self.attrs.len() - i,
        {
            attrs.push((self.attrs[i].0.clone(), self.attrs[i].1.clone()));
            proof {
                assert(attrs@ =~= self.attrs@.take(i as int + 1));
            }
            i = i + 1;
        }
        proof {
            assert(attrs@ =~= self.attrs@);
        }
        let mut children: Vec<Node> = Vec::new();
        let mut j: usize = 0;
        while j < self.children.len()
            invariant
                0 <= j <= self.children.len(),
                nodes_model(children@) == nodes_model(self.children@.take(j as int)),
            decreases self.children.len() - j,
        {
            let ghost pre = children@;
            proof {
                lemma_nodes_model(self.children@);
                assert(self@.children.len() == self.children@.len());
                assert(decreases_to!(self@ => self@.children));
                assert(decreases_to!(self@.children => self@.children[j as int]));
                assert(self@.children[j as int] == self.children@[j as int]@);
            }
            let c = self.children[j].duplicate();
            children.push(c);
            proof {
                assert(children@.drop_last() =~= pre);
                assert(self.children@.take(j as int + 1).drop_last() =~= self.children@.take(
                    j as int,
                ));
                assert(self.children@.take(j as int + 1).last() == self.children@[j as int]);
            }
            j = j + 1;
        }
        proof {
            assert(self.children@.take(self.children@.len() as int) =~= self.children@);
        }
        let r = Element { name, ns, attrs, children };
        proof {
            assert(r@ =~= self@);
        }
        r
    }

    /// Appends one child node.
    pub fn append_node(&mut self, node: Node)
        ensures
            final(self)@ == (ElemModel {
                children: old(self)@.children.push(node@),
                ..old(self)@
            }),
    {
        self.children.push(node);
        proof {
            assert(self.children@.drop_last() =~= old(self).children@);
            assert(self@ =~= (ElemModel {
                children: old(self)@.children.push(node@),
                ..old(self)@
            }));
        }
    }
}

} // verus!
