//! The score as a document: its nodes in the order of the text, and what
//! the reader of a score looks up in them.
use vstd::prelude::*;
use crate::text::{chars_of, is_ascii_digit, is_digit, same_text};
use crate::views;

verus! {

/// An attribute of an element.
#[derive(Debug, PartialEq, Eq)]
pub struct Attribute {
    /// The namespace of the attribute's name, where it has one.
    pub namespace: Option<String>,
    pub name: String,
    pub value: String,
}

/// A node of the document: an element, or text, a comment, a processing
/// instruction, or the document itself.
#[derive(Debug, PartialEq, Eq)]
pub struct XmlNode {
    /// The index of the node that holds this one; none for the document.
    pub parent: Option<usize>,
    /// Whether the node is an element.
    pub element: bool,
    /// The name of an element without its namespace; empty for other nodes.
    pub name: String,
    /// The attributes of an element, in the order of the text.
    pub attributes: Vec<Attribute>,
    /// For an element, the text that it starts with; for text and comments,
    /// what they hold.
    pub text: Option<String>,
}

pub struct AttributeView {
    pub namespace: Option<Seq<char>>,
    pub name: Seq<char>,
    pub value: Seq<char>,
}

pub struct NodeView {
    pub parent: Option<usize>,
    pub element: bool,
    pub name: Seq<char>,
    pub attributes: Seq<AttributeView>,
    pub text: Option<Seq<char>>,
}

impl View for Attribute {
    type V = AttributeView;

    open spec fn view(&self) -> AttributeView {
        AttributeView {
            namespace: match self.namespace {
                Some(namespace) => Some(namespace@),
                None => None,
            },
            name: self.name@,
            value: self.value@,
        }
    }
}

impl View for XmlNode {
    type V = NodeView;

    open spec fn view(&self) -> NodeView {
        NodeView {
            parent: self.parent,
            element: self.element,
            name: self.name@,
            attributes: views(self.attributes@),
            text: match self.text {
                Some(text) => Some(text@),
                None => None,
            },
        }
    }
}

/// What `roxmltree` makes of a text: the nodes of the document in the order
/// of the text, or nothing for a text that is no document.
pub uninterp spec fn parsed(xml: Seq<char>) -> Option<Seq<NodeView>>;

/// Why `roxmltree` refused a text.
#[verifier::external_type_specification]
#[verifier::external_body]
pub struct ExXmlError(roxmltree::Error);

/// Calls `Document::parse_with_options` of `roxmltree`, with document type
/// definitions allowed and no limit on the nodes, and copies out of each
/// node of the document, in the order of `Document::descendants`, what the
/// library reads of it.
#[verifier::external_body]
pub(crate) fn parse_nodes(xml: &str) -> (r: Result<Vec<XmlNode>, roxmltree::Error>)
    ensures
        match r {
            Ok(nodes) => parsed(xml@) == Some(views(nodes@)),
            Err(_) => parsed(xml@) is None,
        },
{
    let options = roxmltree::ParsingOptions { allow_dtd: true, nodes_limit: u32::MAX };
    let document = roxmltree::Document::parse_with_options(xml, options)?;
    Ok(document.descendants().map(|node| XmlNode {
        parent: node.parent().map(|parent| parent.id().get_usize()),
        element: node.is_element(),
        name: node.tag_name().name().to_owned(),
        attributes: node.attributes().map(|attribute| Attribute {
            namespace: attribute.namespace().map(str::to_owned),
            name: attribute.name().to_owned(),
            value: attribute.value().to_owned(),
        }).collect(),
        text: node.text().map(str::to_owned),
    }).collect())
}

/// The words in which `roxmltree` says why it refused a text.
#[verifier::external_body]
pub(crate) fn error_text(error: &roxmltree::Error) -> (text: String) {
    error.to_string()
}

/// The nodes among the first `upto` that `parent` holds, in their order.
pub open spec fn children_upto(nodes: Seq<NodeView>, parent: int, upto: int) -> Seq<int>
    decreases upto,
{
    if upto <= 0 {
        Seq::empty()
    } else if nodes[upto - 1].parent == Some(parent as usize) {
        children_upto(nodes, parent, upto - 1).push(upto - 1)
    } else {
        children_upto(nodes, parent, upto - 1)
    }
}

/// The nodes that `parent` holds, in the order of the text.
pub open spec fn children_of(nodes: Seq<NodeView>, parent: int) -> Seq<int> {
    children_upto(nodes, parent, nodes.len() as int)
}

/// Whether the node is an element with the name `name`.
pub open spec fn tagged(node: NodeView, name: Seq<char>) -> bool {
    node.element && node.name == name
}

/// The first of the nodes `among` that is an element with the name `name`.
pub open spec fn first_tagged(nodes: Seq<NodeView>, among: Seq<int>, name: Seq<char>) -> Option<
    int,
>
    decreases among.len(),
{
    if among.len() == 0 {
        None
    } else if first_tagged(nodes, among.drop_last(), name) is Some {
        first_tagged(nodes, among.drop_last(), name)
    } else if tagged(nodes[among.last()], name) {
        Some(among.last())
    } else {
        None
    }
}

/// The first child of `parent` that is an element with the name `name`.
pub open spec fn child_of(nodes: Seq<NodeView>, parent: int, name: Seq<char>) -> Option<int> {
    first_tagged(nodes, children_of(nodes, parent), name)
}

/// The text that the child `name` of `parent` starts with: empty where it
/// starts with none; nothing where there is no such child.
pub open spec fn child_text_of(nodes: Seq<NodeView>, parent: int, name: Seq<char>) -> Option<
    Seq<char>,
> {
    match child_of(nodes, parent, name) {
        Some(child) => match nodes[child].text {
            Some(text) => Some(text),
            None => Some(Seq::empty()),
        },
        None => None,
    }
}

/// The value of the first of the attributes that has the name `name` and no
/// namespace.
pub open spec fn attribute_among(attributes: Seq<AttributeView>, name: Seq<char>) -> Option<
    Seq<char>,
>
    decreases attributes.len(),
{
    if attributes.len() == 0 {
        None
    } else if attribute_among(attributes.drop_last(), name) is Some {
        attribute_among(attributes.drop_last(), name)
    } else if attributes.last().namespace is None && attributes.last().name == name {
        Some(attributes.last().value)
    } else {
        None
    }
}

/// The number that decimal digits stand for.
pub open spec fn decimal(digits: Seq<char>) -> nat
    decreases digits.len(),
{
    if digits.len() == 0 {
        0
    } else {
        (decimal(digits.drop_last()) * 10 + (digits.last() as int - '0' as int)) as nat
    }
}

pub open spec fn all_digits(digits: Seq<char>) -> bool {
    forall|i: int| 0 <= i < digits.len() ==> is_digit(#[trigger] digits[i])
}

/// The number that a text stands for: decimal digits, at least one, after a
/// plus sign or without one; nothing for any other text, and for a number
/// too large for the machine.
pub open spec fn number_of(text: Seq<char>) -> Option<usize> {
    let digits = if text.len() > 0 && text[0] == '+' {
        text.skip(1)
    } else {
        text
    };
    if digits.len() == 0 || !all_digits(digits) || decimal(digits) > usize::MAX {
        None
    } else {
        Some(decimal(digits) as usize)
    }
}

proof fn lemma_decimal_grows(digits: Seq<char>, k: int)
    requires
        0 <= k <= digits.len(),
        all_digits(digits),
    ensures
        decimal(digits.take(k)) <= decimal(digits),
    decreases digits.len() - k,
{
    if k == digits.len() {
        assert(digits.take(k) =~= digits);
    } else {
        assert(digits.take(k + 1).drop_last() =~= digits.take(k));
        assert(is_digit(digits[k]));
        lemma_decimal_grows(digits, k + 1);
    }
}

/// Reads a number.
pub fn number(text: &str) -> (number: Option<usize>)
    ensures
        number == number_of(text@),
{
    let chars = chars_of(text);
    let from: usize = if chars.len() > 0 && chars[0] == '+' {
        1
    } else {
        0
    };
    let ghost digits = chars@.skip(from as int);
    assert(chars@.skip(0) =~= chars@);
    if from == chars.len() {
        return None;
    }
    let mut value: usize = 0;
    let mut k: usize = from;
    assert(digits.take(0) =~= Seq::<char>::empty());
    while k < chars.len()
        invariant
            from <= k <= chars.len(),
            chars@ == text@,
            digits == chars@.skip(from as int),
            digits == (if text@.len() > 0 && text@[0] == '+' {
                text@.skip(1)
            } else {
                text@
            }),
            all_digits(digits.take(k - from)),
            value == decimal(digits.take(k - from)),
        decreases chars.len() - k,
    {
        let c = chars[k];
        assert(digits[k - from] == c);
        if !is_ascii_digit(c) {
            assert(!is_digit(digits[k - from]));
            return None;
        }
        proof {
            assert(digits.take(k - from + 1).drop_last() =~= digits.take(k - from));
            assert(all_digits(digits.take(k - from + 1))) by {
                assert forall|i: int| 0 <= i < k - from + 1 implies is_digit(
                    #[trigger] digits.take(k - from + 1)[i],
                ) by {
                    if i < k - from {
                        assert(digits.take(k - from)[i] == digits[i]);
                    }
                }
            }
        }
        let digit = (c as u8 - 48u8) as usize;
        let next = match value.checked_mul(10) {
            Some(tens) => tens.checked_add(digit),
            None => None,
        };
        match next {
            Some(next) => {
                value = next;
            },
            None => {
                proof {
                    assert(digits.take(k - from + 1).last() == c);
                    assert(decimal(digits.take(k - from + 1)) == value * 10 + digit);
                    if all_digits(digits) {
                        lemma_decimal_grows(digits, k - from + 1);
                    }
                }
                return None;
            },
        }
        k += 1;
    }
    assert(digits.take(chars.len() - from) =~= digits);
    Some(value)
}

/// A document: its nodes, and for each node the nodes that it holds.
pub struct Document {
    nodes: Vec<XmlNode>,
    children: Vec<Vec<usize>>,
}

impl View for Document {
    type V = Seq<NodeView>;

    closed spec fn view(&self) -> Seq<NodeView> {
        views(self.nodes@)
    }
}

/// The indices as numbers.
pub open spec fn indices(list: Seq<usize>) -> Seq<int> {
    list.map_values(|index: usize| index as int)
}

impl Document {
    #[verifier::type_invariant]
    spec fn inv(self) -> bool {
        &&& self.children.len() == self.nodes.len()
        &&& forall|p: int|
            0 <= p < self.children.len() ==> indices((#[trigger] self.children[p])@)
                == children_of(views(self.nodes@), p)
    }

    /// The document of the nodes `nodes`.
    pub fn new(nodes: Vec<XmlNode>) -> (document: Document)
        ensures
            document@ == views(nodes@),
    {
        let ghost all = views(nodes@);
        let mut children: Vec<Vec<usize>> = Vec::new();
        let mut p: usize = 0;
        while p < nodes.len()
            invariant
                p <= nodes.len(),
                children.len() == p,
                forall|q: int| 0 <= q < p ==> (#[trigger] children[q])@.len() == 0,
            decreases nodes.len() - p,
        {
            children.push(Vec::new());
            p += 1;
        }
        let mut i: usize = 0;
        assert forall|q: int| 0 <= q < children.len() implies indices((#[trigger] children[q])@)
            == children_upto(all, q, 0) by {
            assert(indices(children[q]@) =~= Seq::<int>::empty());
        }
        while i < nodes.len()
            invariant
                i <= nodes.len(),
                all == views(nodes@),
                children.len() == nodes.len(),
                forall|q: int|
                    0 <= q < children.len() ==> indices((#[trigger] children[q])@)
                        == children_upto(all, q, i as int),
            decreases nodes.len() - i,
        {
            let ghost before = children@;
            assert(all[i as int] == nodes@[i as int]@);
            match nodes[i].parent {
                Some(parent) => {
                    if parent < nodes.len() {
                        let mut list: Vec<usize> = Vec::new();
                        std::mem::swap(&mut children[parent], &mut list);
                        list.push(i);
                        assert(indices(list@) =~= indices(before[parent as int]@).push(i as int));
                        children[parent] = list;
                    }
                },
                None => {},
            }
            assert forall|q: int| 0 <= q < children.len() implies indices(
                (#[trigger] children[q])@,
            ) == children_upto(all, q, i + 1) by {
                assert(indices(before[q]@) == children_upto(all, q, i as int));
                if nodes[i as int].parent == Some(q as usize) {
                } else {
                    assert(children[q] == before[q]);
                }
            }
            i += 1;
        }
        Document { nodes, children }
    }

    /// How many nodes the document has.
    pub fn len(&self) -> (len: usize)
        ensures
            len == self@.len(),
    {
        self.nodes.len()
    }

    /// The node at `index`.
    pub fn node(&self, index: usize) -> (node: &XmlNode)
        requires
            index < self@.len(),
        ensures
            node@ == self@[index as int],
    {
        &self.nodes[index]
    }

    /// The nodes that the node at `parent` holds, in the order of the text.
    pub fn children(&self, parent: usize) -> (children: &Vec<usize>)
        requires
            parent < self@.len(),
        ensures
            indices(children@) == children_of(self@, parent as int),
            forall|k: int| 0 <= k < children.len() ==> children[k] < self@.len(),
    {
        proof {
            use_type_invariant(self);
            lemma_children_bound(self@, parent as int, self@.len() as int);
            assert forall|k: int| 0 <= k < self.children[parent as int].len() implies
                self.children[parent as int][k] < self@.len() by {
                assert(indices(self.children[parent as int]@)[k] == self.children[parent as int][k]);
            }
        }
        &self.children[parent]
    }

    /// Whether the node at `index` is an element with the name `name`.
    pub fn has_tag_name(&self, index: usize, name: &str) -> (has: bool)
        requires
            index < self@.len(),
        ensures
            has == tagged(self@[index as int], name@),
    {
        let node = &self.nodes[index];
        node.element && same_text(node.name.as_str(), name)
    }

    /// The first child of the node at `parent` that is an element with the
    /// name `name`.
    pub fn has_child_element(&self, parent: usize, name: &str) -> (child: Option<usize>)
        requires
            parent < self@.len(),
        ensures
            match child_of(self@, parent as int, name@) {
                Some(index) => child is Some && child->0 == index && index < self@.len(),
                None => child is None,
            },
    {
        let children = self.children(parent);
        let ghost among = children_of(self@, parent as int);
        let mut k: usize = 0;
        assert(among.take(0) =~= Seq::<int>::empty());
        while k < children.len()
            invariant
                k <= children.len(),
                among == indices(children@),
                among == children_of(self@, parent as int),
                forall|i: int| 0 <= i < children.len() ==> children[i] < self@.len(),
                first_tagged(self@, among.take(k as int), name@) is None,
            decreases children.len() - k,
        {
            assert(among.take(k + 1).drop_last() =~= among.take(k as int));
            assert(among[k as int] == children[k as int]);
            if self.has_tag_name(children[k], name) {
                proof {
                    assert(among.take(k + 1).last() == children[k as int]);
                    assert(first_tagged(self@, among.take(k + 1), name@) == Some(
                        children[k as int] as int,
                    ));
                    lemma_first_tagged_kept(self@, among, name@, k + 1);
                }
                return Some(children[k]);
            }
            k += 1;
        }
        assert(among.take(children.len() as int) =~= among);
        None
    }

    /// The text that the child `name` of the node at `parent` starts with.
    pub fn child_element_text(&self, parent: usize, name: &str) -> (text: Option<&str>)
        requires
            parent < self@.len(),
        ensures
            match child_text_of(self@, parent as int, name@) {
                Some(expect) => text is Some && text->0@ == expect,
                None => text is None,
            },
    {
        match self.has_child_element(parent, name) {
            Some(child) => {
                assert(self@.len() == self.nodes.len());
                assert(child_of(self@, parent as int, name@) == Some(child as int));
                assert(self@[child as int] == self.nodes@[child as int]@);
                match &self.nodes[child].text {
                    Some(text) => {
                        assert(self@[child as int].text == Some(text@));
                        Some(text.as_str())
                    },
                    None => {
                        proof {
                            reveal_strlit("");
                            assert(""@ =~= Seq::<char>::empty());
                            assert(self@[child as int].text is None);
                        }
                        Some("")
                    },
                }
            },
            None => None,
        }
    }

    /// The value of the attribute `name` of the node at `index`.
    pub fn attribute(&self, index: usize, name: &str) -> (value: Option<&str>)
        requires
            index < self@.len(),
        ensures
            match attribute_among(self@[index as int].attributes, name@) {
                Some(expect) => value is Some && value->0@ == expect,
                None => value is None,
            },
    {
        let node = &self.nodes[index];
        assert(self@[index as int] == node@);
        let ghost all = views(node.attributes@);
        let mut k: usize = 0;
        assert(all.take(0) =~= Seq::<AttributeView>::empty());
        while k < node.attributes.len()
            invariant
                k <= node.attributes.len(),
                all == views(node.attributes@),
                self@[index as int].attributes == all,
                attribute_among(all.take(k as int), name@) is None,
            decreases node.attributes.len() - k,
        {
            let attribute = &node.attributes[k];
            assert(all.take(k + 1).drop_last() =~= all.take(k as int));
            assert(all[k as int] == attribute@);
            if attribute.namespace.is_none() && same_text(attribute.name.as_str(), name) {
                proof {
                    assert(all.take(k + 1).last() == attribute@);
                    assert(attribute_among(all.take(k + 1), name@) == Some(attribute.value@));
                    lemma_attribute_kept(all, name@, k + 1);
                }
                return Some(attribute.value.as_str());
            }
            k += 1;
        }
        assert(all.take(node.attributes.len() as int) =~= all);
        None
    }
}

proof fn lemma_children_bound(nodes: Seq<NodeView>, parent: int, upto: int)
    requires
        0 <= upto <= nodes.len(),
    ensures
        forall|k: int|
            0 <= k < children_upto(nodes, parent, upto).len() ==> 0 <= (#[trigger] children_upto(
                nodes,
                parent,
                upto,
            )[k]) < upto,
    decreases upto,
{
    if upto > 0 {
        lemma_children_bound(nodes, parent, upto - 1);
        let all = children_upto(nodes, parent, upto);
        let rest = children_upto(nodes, parent, upto - 1);
        assert forall|k: int| 0 <= k < all.len() implies 0 <= (#[trigger] all[k]) < upto by {
            if k < rest.len() {
                assert(all[k] == rest[k]);
            }
        }
    }
}

proof fn lemma_first_tagged_kept(nodes: Seq<NodeView>, among: Seq<int>, name: Seq<char>, k: int)
    requires
        0 <= k <= among.len(),
        first_tagged(nodes, among.take(k), name) is Some,
    ensures
        first_tagged(nodes, among, name) == first_tagged(nodes, among.take(k), name),
    decreases among.len() - k,
{
    if k == among.len() {
        assert(among.take(k) =~= among);
    } else {
        assert(among.take(k + 1).drop_last() =~= among.take(k));
        lemma_first_tagged_kept(nodes, among, name, k + 1);
    }
}

proof fn lemma_attribute_kept(attributes: Seq<AttributeView>, name: Seq<char>, k: int)
    requires
        0 <= k <= attributes.len(),
        attribute_among(attributes.take(k), name) is Some,
    ensures
        attribute_among(attributes, name) == attribute_among(attributes.take(k), name),
    decreases attributes.len() - k,
{
    if k == attributes.len() {
        assert(attributes.take(k) =~= attributes);
    } else {
        assert(attributes.take(k + 1).drop_last() =~= attributes.take(k));
        lemma_attribute_kept(attributes, name, k + 1);
    }
}

} // verus!
