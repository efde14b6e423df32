//! XML documents as plain values: the nodes that the XML parser gives, in document order,
//! and the tree of elements that they form.
use vstd::prelude::*;

use crate::text::{copy_opt, opt_text, Text};

verus! {

/// An attribute of an element.
#[derive(Debug, PartialEq, Eq)]
pub struct XmlAttribute {
    /// The namespace, if it has one.
    pub namespace: Option<String>,
    /// The local name.
    pub name: String,
    /// The value.
    pub value: String,
}

/// A namespace declaration in scope: the prefix, or none for the default namespace, and
/// the URI.
#[derive(Debug, PartialEq, Eq)]
pub struct XmlNamespace {
    /// The prefix; `None` for the default namespace.
    pub prefix: Option<String>,
    /// The URI.
    pub uri: String,
}

/// A node of a document.
#[derive(Debug, PartialEq, Eq)]
pub struct XmlNode {
    /// The index of the parent node; the document itself is the first node and has none.
    pub parent: Option<usize>,
    /// Whether the node is an element.
    pub is_element: bool,
    /// The namespace of an element's name.
    pub namespace: Option<String>,
    /// The local name of an element.
    pub name: String,
    /// The attributes of an element, without namespace declarations.
    pub attributes: Vec<XmlAttribute>,
    /// The namespace declarations in scope at an element.
    pub namespaces: Vec<XmlNamespace>,
    /// The text of an element whose first child is text.
    pub text: Option<String>,
}

/// An element and the elements inside it.
#[derive(Debug, PartialEq, Eq)]
pub struct XmlElement {
    /// The namespace of the name.
    pub namespace: Option<String>,
    /// The local name.
    pub name: String,
    /// The attributes, without namespace declarations.
    pub attributes: Vec<XmlAttribute>,
    /// The namespace declarations in scope.
    pub namespaces: Vec<XmlNamespace>,
    /// The text, where the first child is text.
    pub text: Option<String>,
    /// The child elements, in document order.
    pub children: Vec<XmlElement>,
}

/// The model of an [`XmlAttribute`].
#[verifier::ext_equal]
pub struct AttributeModel {
    pub namespace: Option<Text>,
    pub name: Text,
    pub value: Text,
}

/// The model of an [`XmlNode`].
#[verifier::ext_equal]
pub struct NodeModel {
    pub parent: Option<usize>,
    pub is_element: bool,
    pub namespace: Option<Text>,
    pub name: Text,
    pub attributes: Seq<AttributeModel>,
    pub namespaces: Seq<(Option<Text>, Text)>,
    pub text: Option<Text>,
}

/// The model of an [`XmlElement`].
#[verifier::ext_equal]
pub struct XmlModel {
    pub namespace: Option<Text>,
    pub name: Text,
    pub attributes: Seq<AttributeModel>,
    pub namespaces: Seq<(Option<Text>, Text)>,
    pub text: Option<Text>,
    pub children: Seq<XmlModel>,
}

impl View for XmlAttribute {
    type V = AttributeModel;

    open spec fn view(&self) -> AttributeModel {
        AttributeModel {
            namespace: opt_text(self.namespace),
            name: self.name@,
            value: self.value@,
        }
    }
}

/// The models of attributes.
pub open spec fn attributes_of(s: Seq<XmlAttribute>) -> Seq<AttributeModel> {
    Seq::new(s.len(), |i: int| s[i]@)
}

/// The models of namespace declarations.
pub open spec fn namespaces_of(s: Seq<XmlNamespace>) -> Seq<(Option<Text>, Text)> {
    Seq::new(s.len(), |i: int| (opt_text(s[i].prefix), s[i].uri@))
}

impl View for XmlNode {
    type V = NodeModel;

    open spec fn view(&self) -> NodeModel {
        NodeModel {
            parent: self.parent,
            is_element: self.is_element,
            namespace: opt_text(self.namespace),
            name: self.name@,
            attributes: attributes_of(self.attributes@),
            namespaces: namespaces_of(self.namespaces@),
            text: opt_text(self.text),
        }
    }
}

/// The models of nodes.
pub open spec fn nodes_of(s: Seq<XmlNode>) -> Seq<NodeModel> {
    Seq::new(s.len(), |i: int| s[i]@)
}

impl XmlElement {
    /// The element's model.
    pub open spec fn model(self) -> XmlModel
        decreases self,
    {
        XmlModel {
            namespace: opt_text(self.namespace),
            name: self.name@,
            attributes: attributes_of(self.attributes@),
            namespaces: namespaces_of(self.namespaces@),
            text: opt_text(self.text),
            children: Seq::new(
                self.children@.len(),
                |i: int|
                    if 0 <= i < self.children@.len() {
                        self.children@[i].model()
                    } else {
                        arbitrary()
                    },
            ),
        }
    }

    /// The model's children, given by [`elements_of`].
    pub proof fn lemma_model(self)
        ensures
            self.model().children == elements_of(self.children@),
    {
        assert(self.model().children =~= elements_of(self.children@));
    }
}

impl View for XmlElement {
    type V = XmlModel;

    open spec fn view(&self) -> XmlModel {
        self.model()
    }
}

/// The models of elements.
pub open spec fn elements_of(s: Seq<XmlElement>) -> Seq<XmlModel> {
    Seq::new(s.len(), |i: int| s[i].model())
}

/// What the XML parser makes of a text: the nodes, in document order, or the message of an
/// error.
pub uninterp spec fn xml_nodes(text: Seq<char>) -> Result<Seq<NodeModel>, Seq<char>>;

/// Whether a node is the outermost element.
pub open spec fn outermost(node: NodeModel) -> bool {
    node.is_element && node.parent == Some(0usize)
}

/// An owned copy of a text, where there is one.
fn owned(text: Option<&str>) -> (r: Option<String>)
    ensures
        opt_text(r) == (match text {
            Some(text) => Some(text@),
            None => None,
        }),
{
    match text {
        Some(text) => Some(text.to_owned()),
        None => None,
    }
}

/// An attribute with the given parts.
fn attribute(namespace: Option<&str>, name: &str, value: &str) -> (r: XmlAttribute)
    ensures
        r@ == (AttributeModel {
            namespace: match namespace {
                Some(uri) => Some(uri@),
                None => None,
            },
            name: name@,
            value: value@,
        }),
{
    XmlAttribute { namespace: owned(namespace), name: name.to_owned(), value: value.to_owned() }
}

/// A namespace declaration with the given parts.
fn declaration(prefix: Option<&str>, uri: &str) -> (r: XmlNamespace)
    ensures
        opt_text(r.prefix) == (match prefix {
            Some(prefix) => Some(prefix@),
            None => None,
        }),
        r.uri@ == uri@,
{
    XmlNamespace { prefix: owned(prefix), uri: uri.to_owned() }
}

/// `roxmltree::Document::parse` reads an XML document, without document type declarations,
/// or says why it is none. Its result is left to the name [`xml_nodes`]; what is claimed of
/// it besides is that a document has an outermost element. Each node is handed out as a
/// plain value: the names, attributes, namespaces in scope and text of an element as the
/// crate's accessors give them, and the index of the node's parent.
#[verifier::external_body]
fn parse_nodes(text: &str) -> (r: Result<Vec<XmlNode>, String>)
    ensures
        match r {
            Ok(nodes) => xml_nodes(text@) == Ok::<Seq<NodeModel>, Text>(nodes_of(nodes@)) && exists|
                i: int,
            | 0 <= i < nodes@.len() && outermost(#[trigger] nodes_of(nodes@)[i]),
            Err(message) => xml_nodes(text@) == Err::<Seq<NodeModel>, Text>(message@),
        },
{
    let document = roxmltree::Document::parse(text).map_err(|error| error.to_string())?;
    Ok(document.descendants().map(|node| XmlNode {
        parent: node.parent().map(|parent| parent.id().get_usize()),
        is_element: node.is_element(),
        namespace: owned(node.tag_name().namespace()),
        name: node.tag_name().name().to_owned(),
        attributes: node.attributes().map(|a| attribute(a.namespace(), a.name(), a.value()))
            .collect(),
        namespaces: node.namespaces().map(|n| declaration(n.name(), n.uri())).collect(),
        text: owned(node.text()),
    }).collect())
}

/// The element at an index, with the elements inside it.
pub open spec fn tree_at(nodes: Seq<NodeModel>, i: int) -> XmlModel
    decreases nodes.len() - i, nodes.len() + 1,
{
    XmlModel {
        namespace: nodes[i].namespace,
        name: nodes[i].name,
        attributes: nodes[i].attributes,
        namespaces: nodes[i].namespaces,
        text: nodes[i].text,
        children: if 0 <= i < nodes.len() {
            children_at(nodes, i, nodes.len())
        } else {
            Seq::empty()
        },
    }
}

/// The child elements of the node at an index, among the first `n` nodes.
pub open spec fn children_at(nodes: Seq<NodeModel>, i: int, n: nat) -> Seq<XmlModel>
    decreases nodes.len() - i, n,
{
    if n == 0 {
        Seq::empty()
    } else {
        let rest = children_at(nodes, i, (n - 1) as nat);
        let j = n - 1;
        if i < j < nodes.len() && nodes[j].is_element && nodes[j].parent == Some(i as usize) {
            rest.push(tree_at(nodes, j))
        } else {
            rest
        }
    }
}

/// The first outermost element from an index on, or the number of nodes.
pub open spec fn root_from(nodes: Seq<NodeModel>, i: int) -> int
    decreases nodes.len() - i,
{
    if 0 <= i < nodes.len() && !outermost(nodes[i]) {
        root_from(nodes, i + 1)
    } else {
        i
    }
}

/// The tree of a document's outermost element.
pub open spec fn tree_of(nodes: Seq<NodeModel>) -> Option<XmlModel> {
    let root = root_from(nodes, 0);
    if root < nodes.len() {
        Some(tree_at(nodes, root))
    } else {
        None
    }
}

/// A copy of attributes.
fn copy_attributes(attributes: &Vec<XmlAttribute>) -> (r: Vec<XmlAttribute>)
    ensures
        attributes_of(r@) == attributes_of(attributes@),
{
    let mut out: Vec<XmlAttribute> = Vec::new();
    let mut i: usize = 0;
    while i < attributes.len()
        invariant
            i <= attributes.len(),
            out.len() == i,
            forall|j: int| 0 <= j < i ==> (#[trigger] out@[j])@ == attributes@[j]@,
        decreases attributes.len() - i,
    {
        let attribute = &attributes[i];
        out.push(
            XmlAttribute {
                namespace: copy_opt(&attribute.namespace),
                name: attribute.name.clone(),
                value: attribute.value.clone(),
            },
        );
        i += 1;
    }
    assert(attributes_of(out@) =~= attributes_of(attributes@));
    out
}

/// A copy of namespace declarations.
fn copy_namespaces(namespaces: &Vec<XmlNamespace>) -> (r: Vec<XmlNamespace>)
    ensures
        namespaces_of(r@) == namespaces_of(namespaces@),
{
    let mut out: Vec<XmlNamespace> = Vec::new();
    let mut i: usize = 0;
    while i < namespaces.len()
        invariant
            i <= namespaces.len(),
            out.len() == i,
            forall|j: int|
                0 <= j < i ==> opt_text((#[trigger] out@[j]).prefix) == opt_text(
                    namespaces@[j].prefix,
                ) && out@[j].uri@ == namespaces@[j].uri@,
        decreases namespaces.len() - i,
    {
        let namespace = &namespaces[i];
        out.push(
            XmlNamespace { prefix: copy_opt(&namespace.prefix), uri: namespace.uri.clone() },
        );
        i += 1;
    }
    assert(namespaces_of(out@) =~= namespaces_of(namespaces@));
    out
}

/// Builds the element at an index, with the elements inside it.
fn build_element(nodes: &Vec<XmlNode>, i: usize) -> (r: XmlElement)
    requires
        i < nodes@.len(),
    ensures
        r@ == tree_at(nodes_of(nodes@), i as int),
    decreases nodes.len() - i,
{
    let ghost models = nodes_of(nodes@);
    let mut children: Vec<XmlElement> = Vec::new();
    let mut j: usize = 0;
    assert(elements_of(children@) =~= Seq::<XmlModel>::empty());
    while j < nodes.len()
        invariant
            i < nodes@.len(),
            j <= nodes@.len(),
            models == nodes_of(nodes@),
            elements_of(children@) == children_at(models, i as int, j as nat),
        decreases nodes.len() - j,
    {
        if i < j && nodes[j].is_element {
            let here = match nodes[j].parent {
                Some(parent) => parent == i,
                None => false,
            };
            if here {
                let child = build_element(nodes, j);
                let ghost before = elements_of(children@);
                children.push(child);
                assert(elements_of(children@) =~= before.push(child@));
            }
        }
        j += 1;
    }
    let node = &nodes[i];
    let r = XmlElement {
        namespace: copy_opt(&node.namespace),
        name: node.name.clone(),
        attributes: copy_attributes(&node.attributes),
        namespaces: copy_namespaces(&node.namespaces),
        text: copy_opt(&node.text),
        children,
    };
    proof {
        r.lemma_model();
    }
    r
}

/// Builds the tree of a document's outermost element from the nodes in document order.
pub fn build_tree(nodes: &Vec<XmlNode>) -> (r: Option<XmlElement>)
    ensures
        match r {
            Some(tree) => tree_of(nodes_of(nodes@)) == Some(tree@),
            None => tree_of(nodes_of(nodes@)) is None,
        },
{
    let mut i: usize = 0;
    while i < nodes.len()
        invariant
            i <= nodes@.len(),
            root_from(nodes_of(nodes@), 0) == root_from(nodes_of(nodes@), i as int),
        decreases nodes.len() - i,
    {
        let inside_document = match nodes[i].parent {
            Some(parent) => parent == 0,
            None => false,
        };
        if nodes[i].is_element && inside_document {
            assert(outermost(nodes_of(nodes@)[i as int]));
            return Some(build_element(nodes, i));
        }
        assert(!outermost(nodes_of(nodes@)[i as int]));
        i += 1;
    }
    None
}

/// An outermost element is found.
proof fn lemma_root_found(nodes: Seq<NodeModel>, i: int, k: int)
    requires
        0 <= i <= k < nodes.len(),
        outermost(nodes[k]),
    ensures
        root_from(nodes, i) <= k,
    decreases k - i,
{
    if !outermost(nodes[i]) {
        lemma_root_found(nodes, i + 1, k);
    }
}

/// What a text of XML says: the tree of its outermost element, or the message of an error.
pub open spec fn xml_document(text: Text) -> Result<XmlModel, Text> {
    match xml_nodes(text) {
        Err(message) => Err(message),
        Ok(nodes) => Ok(tree_of(nodes)->0),
    }
}

/// Parses a text of XML.
pub fn parse_tree(text: &str) -> (r: Result<XmlElement, String>)
    ensures
        match r {
            Ok(tree) => xml_document(text@) == Ok::<XmlModel, Text>(tree@),
            Err(message) => xml_document(text@) == Err::<XmlModel, Text>(message@),
        },
{
    match parse_nodes(text) {
        Err(message) => Err(message),
        Ok(nodes) => {
            proof {
                let k = choose|k: int|
                    0 <= k < nodes@.len() && outermost(#[trigger] nodes_of(nodes@)[k]);
                lemma_root_found(nodes_of(nodes@), 0, k);
            }
            Ok(build_tree(&nodes).unwrap())
        },
    }
}

// ---------------------------------------------------------------------
// Laws
// ---------------------------------------------------------------------

/// An element keeps the name, the attributes, the declarations and the text of its node, and its
/// children are those elements, all of them and in document order, whose parent it is. The
/// result is the places of their nodes.
pub proof fn law_children_are_in_document_order(nodes: Seq<NodeModel>, i: int) -> (places: Seq<int>)
    requires
        0 <= i < nodes.len(),
    ensures
        ({
            let e = tree_at(nodes, i);
            &&& e.namespace == nodes[i].namespace
            &&& e.name == nodes[i].name
            &&& e.attributes == nodes[i].attributes
            &&& e.namespaces == nodes[i].namespaces
            &&& e.text == nodes[i].text
            &&& e.children.len() == places.len()
            &&& forall|k: int|
                0 <= k < places.len() ==> i < #[trigger] places[k] < nodes.len()
                    && nodes[places[k]].is_element && nodes[places[k]].parent == Some(i as usize)
                    && e.children[k] == tree_at(nodes, places[k])
            &&& forall|k: int, l: int|
                0 <= k < l < places.len() ==> #[trigger] places[k] < #[trigger] places[l]
            &&& forall|j: int|
                i < j < nodes.len() && (#[trigger] nodes[j]).is_element && nodes[j].parent == Some(
                    i as usize,
                ) ==> places.contains(j)
        }),
{
    lemma_places(nodes, i, nodes.len())
}

/// The places of the children among the first `n` nodes.
proof fn lemma_places(nodes: Seq<NodeModel>, i: int, n: nat) -> (places: Seq<int>)
    requires
        0 <= i < nodes.len(),
        n <= nodes.len(),
    ensures
        children_at(nodes, i, n).len() == places.len(),
        forall|k: int|
            0 <= k < places.len() ==> i < #[trigger] places[k] < n && nodes[places[k]].is_element
                && nodes[places[k]].parent == Some(i as usize) && children_at(nodes, i, n)[k]
                == tree_at(nodes, places[k]),
        forall|k: int, l: int|
            0 <= k < l < places.len() ==> #[trigger] places[k] < #[trigger] places[l],
        forall|j: int|
            i < j < n && (#[trigger] nodes[j]).is_element && nodes[j].parent == Some(i as usize)
                ==> places.contains(j),
    decreases n,
{
    if n == 0 {
        Seq::empty()
    } else {
        let before = lemma_places(nodes, i, (n - 1) as nat);
        let j = n - 1;
        if i < j && nodes[j].is_element && nodes[j].parent == Some(i as usize) {
            let places = before.push(j);
            assert forall|m: int|
                i < m < n && (#[trigger] nodes[m]).is_element && nodes[m].parent == Some(
                    i as usize,
                ) implies places.contains(m) by {
                if m == j {
                    assert(places[before.len() as int] == j);
                } else {
                    assert(before.contains(m));
                    let k = choose|k: int| 0 <= k < before.len() && before[k] == m;
                    assert(places[k] == m);
                }
            }
            places
        } else {
            before
        }
    }
}

/// The document is its first outermost element: nothing outermost stands before it.
pub proof fn law_documents_are_their_outermost_element(nodes: Seq<NodeModel>, i: int)
    requires
        0 <= i < nodes.len(),
        nodes[i].is_element && nodes[i].parent == Some(0usize),
        forall|j: int|
            0 <= j < i ==> !((#[trigger] nodes[j]).is_element && nodes[j].parent == Some(0usize)),
    ensures
        tree_of(nodes) == Some(tree_at(nodes, i)),
{
    lemma_root(nodes, 0, i);
}

/// The search for the outermost element ends at it.
proof fn lemma_root(nodes: Seq<NodeModel>, j: int, i: int)
    requires
        0 <= j <= i < nodes.len(),
        outermost(nodes[i]),
        forall|k: int| j <= k < i ==> !outermost(#[trigger] nodes[k]),
    ensures
        root_from(nodes, j) == i,
    decreases i - j,
{
    if j < i {
        lemma_root(nodes, j + 1, i);
    }
}

} // verus!
