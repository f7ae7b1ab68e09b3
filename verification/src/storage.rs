use vstd::prelude::*;
use crate::string_pool::{StringPool, interned, entry_of, has_entry};
use crate::{QName, QNameView};

verus! {

/// The closed set of node kinds.
#[derive(Debug, Clone, Copy, PartialEq, Eq, Structural)]
pub enum NodeKind {
    Root,
    Element,
    Attribute,
    Text,
    Comment,
    ProcessingInstruction,
}

/// A qualified name as stored: handles into the string pool.
#[derive(Clone, Copy)]
pub(crate) struct RawName {
    pub(crate) namespace_uri: Option<usize>,
    pub(crate) local_part: usize,
}

/// One node payload as stored: kind tag plus interned content handles.
/// Records are immutable after creation, except that an attribute's value
/// may be replaced and an element's preferred prefix may be set.
pub(crate) enum NodeRecord {
    Root,
    Element { name: RawName, preferred_prefix: Option<usize> },
    Attribute { name: RawName, value: usize },
    Text { value: usize },
    Comment { value: usize },
    ProcessingInstruction { target: usize, value: usize },
}

/// The mathematical value of a node payload: kind plus content, with every
/// interned handle resolved to the character sequence behind it.
pub ghost enum NodeView {
    Root,
    Element { name: QNameView, preferred_prefix: Option<Seq<char>> },
    Attribute { name: QNameView, value: Seq<char> },
    Text { value: Seq<char> },
    Comment { value: Seq<char> },
    ProcessingInstruction { target: Seq<char>, value: Seq<char> },
}

pub open spec fn kind_of_view(v: NodeView) -> NodeKind {
    match v {
        NodeView::Root => NodeKind::Root,
        NodeView::Element { .. } => NodeKind::Element,
        NodeView::Attribute { .. } => NodeKind::Attribute,
        NodeView::Text { .. } => NodeKind::Text,
        NodeView::Comment { .. } => NodeKind::Comment,
        NodeView::ProcessingInstruction { .. } => NodeKind::ProcessingInstruction,
    }
}

pub(crate) open spec fn raw_name_view(n: RawName, pool: Seq<Seq<char>>) -> QNameView {
    QNameView {
        namespace_uri: match n.namespace_uri {
            Some(h) => Some(pool[h as int]),
            None => None,
        },
        local_part: pool[n.local_part as int],
    }
}

pub(crate) open spec fn rec_view(rec: NodeRecord, pool: Seq<Seq<char>>) -> NodeView {
    match rec {
        NodeRecord::Root => NodeView::Root,
        NodeRecord::Element { name, preferred_prefix } => NodeView::Element {
            name: raw_name_view(name, pool),
            preferred_prefix: match preferred_prefix {
                Some(h) => Some(pool[h as int]),
                None => None,
            },
        },
        NodeRecord::Attribute { name, value } => NodeView::Attribute {
            name: raw_name_view(name, pool),
            value: pool[value as int],
        },
        NodeRecord::Text { value } => NodeView::Text { value: pool[value as int] },
        NodeRecord::Comment { value } => NodeView::Comment { value: pool[value as int] },
        NodeRecord::ProcessingInstruction { target, value } => NodeView::ProcessingInstruction {
            target: pool[target as int],
            value: pool[value as int],
        },
    }
}

/// Every handle held by the record points inside a pool of `n` entries.
pub(crate) open spec fn raw_name_wf(name: RawName, n: nat) -> bool {
    &&& match name.namespace_uri {
        Some(h) => h < n,
        None => true,
    }
    &&& name.local_part < n
}

pub(crate) open spec fn rec_wf(rec: NodeRecord, n: nat) -> bool {
    match rec {
        NodeRecord::Root => true,
        NodeRecord::Element { name, preferred_prefix } => raw_name_wf(name, n) && match preferred_prefix {
            Some(h) => h < n,
            None => true,
        },
        NodeRecord::Attribute { name, value } => raw_name_wf(name, n) && value < n,
        NodeRecord::Text { value } => value < n,
        NodeRecord::Comment { value } => value < n,
        NodeRecord::ProcessingInstruction { target, value } => target < n && value < n,
    }
}

/// Resolving a record against a pool that has only grown (and kept its
/// existing entries in place) gives the same content.
pub(crate) proof fn lemma_rec_view_extend(rec: NodeRecord, pool1: Seq<Seq<char>>, pool2: Seq<Seq<char>>)
    requires
        rec_wf(rec, pool1.len()),
        pool1.is_prefix_of(pool2),
    ensures
        rec_view(rec, pool2) == rec_view(rec, pool1),
{
    assert(forall|h: int| 0 <= h < pool1.len() ==> pool2[h] == pool1[h]);
}

/// Growth-only storage of node payloads. Creation appends a record and
/// returns its index, a handle that stays valid for the storage's whole
/// life: records are never moved, reused or freed. All string content is
/// interned into the owned pool before it is stored.
pub struct Storage {
    pub(crate) pool: StringPool,
    pub(crate) nodes: Vec<NodeRecord>,
}

impl Storage {
    /// The node payloads, content-resolved, in creation order.
    pub closed spec fn nodes_view(&self) -> Seq<NodeView> {
        self.nodes@.map_values(|r: NodeRecord| rec_view(r, self.pool@))
    }

    pub closed spec fn pool_view(&self) -> Seq<Seq<char>> {
        self.pool@
    }

    pub open spec fn num_nodes(&self) -> nat {
        self.nodes_view().len()
    }

    pub open spec fn kind_at(&self, i: int) -> NodeKind {
        kind_of_view(self.nodes_view()[i])
    }

    pub closed spec fn inv(&self) -> bool {
        &&& self.pool.inv()
        &&& forall|i: int| 0 <= i < self.nodes@.len() ==> rec_wf(#[trigger] self.nodes@[i], self.pool@.len())
        &&& self.nodes@.len() >= 1
        &&& self.nodes@[0] is Root
        &&& forall|i: int| 1 <= i < self.nodes@.len() ==> !(#[trigger] self.nodes@[i] is Root)
    }

    /// Fresh storage holding only the root record.
    pub fn new() -> (r: Storage)
        ensures
            r.inv(),
            r.nodes_view() =~= seq![NodeView::Root],
    {
        let mut nodes: Vec<NodeRecord> = Vec::new();
        nodes.push(NodeRecord::Root);
        let r = Storage { pool: StringPool::new(), nodes };
        proof {
            assert(r.nodes_view() =~= seq![NodeView::Root]);
        }
        r
    }

    pub fn node_count(&self) -> (r: usize)
        ensures
            r == self.num_nodes(),
    {
        self.nodes.len()
    }

    pub fn kind(&self, h: usize) -> (r: NodeKind)
        requires
            h < self.num_nodes(),
        ensures
            r == self.kind_at(h as int),
    {
        match &self.nodes[h] {
            NodeRecord::Root => NodeKind::Root,
            NodeRecord::Element { .. } => NodeKind::Element,
            NodeRecord::Attribute { .. } => NodeKind::Attribute,
            NodeRecord::Text { .. } => NodeKind::Text,
            NodeRecord::Comment { .. } => NodeKind::Comment,
            NodeRecord::ProcessingInstruction { .. } => NodeKind::ProcessingInstruction,
        }
    }

    /// Intern the content of `s`, growing the pool only when it is new.
    /// Existing records keep their content: the pool only ever gains entries.
    pub(crate) fn intern_str(&mut self, s: &str) -> (r: usize)
        requires
            old(self).inv(),
        ensures
            final(self).inv(),
            final(self).pool_view() == interned(old(self).pool_view(), s@),
            old(self).pool_view().is_prefix_of(final(self).pool_view()),
            r < final(self).pool_view().len(),
            final(self).pool_view()[r as int] == s@,
            final(self).nodes_view() == old(self).nodes_view(),
            final(self).nodes@ == old(self).nodes@,
    {
        let h = self.pool.intern(s.to_owned());
        proof {
            if has_entry(old(self).pool@, s@) {
                assert(self.pool@ == old(self).pool@);
                let w = entry_of(old(self).pool@, s@);
                assert(old(self).pool@[w] == s@);
                assert(old(self).pool@.is_prefix_of(self.pool@)) by {
                    assert(old(self).pool@ =~= self.pool@.subrange(0, old(self).pool@.len() as int));
                }
            } else {
                assert(self.pool@ == old(self).pool@.push(s@));
                assert(old(self).pool@.is_prefix_of(self.pool@)) by {
                    assert(old(self).pool@ =~= self.pool@.subrange(0, old(self).pool@.len() as int));
                }
            }
            assert(final(self).nodes_view() =~= old(self).nodes_view()) by {
                assert forall|i: int| 0 <= i < self.nodes@.len() implies rec_view(
                    self.nodes@[i],
                    self.pool@,
                ) == rec_view(old(self).nodes@[i], old(self).pool@) by {
                    lemma_rec_view_extend(old(self).nodes@[i], old(self).pool@, self.pool@);
                }
            }
        }
        h
    }

    pub(crate) fn intern_name(&mut self, name: &QName) -> (r: RawName)
        requires
            old(self).inv(),
        ensures
            final(self).inv(),
            old(self).pool_view().is_prefix_of(final(self).pool_view()),
            raw_name_wf(r, final(self).pool_view().len()),
            raw_name_view(r, final(self).pool_view()) == name@,
            final(self).nodes_view() == old(self).nodes_view(),
            final(self).nodes@ == old(self).nodes@,
    {
        let namespace_uri = match &name.namespace_uri {
            Some(u) => Some(self.intern_str(u.as_str())),
            None => None,
        };
        let ghost mid = self.pool@;
        let local_part = self.intern_str(name.local_part.as_str());
        proof {
            lemma_prefix_trans(old(self).pool@, mid, self.pool@);
            if namespace_uri is Some {
                let h = namespace_uri->Some_0;
                assert(self.pool@[h as int] == name.namespace_uri->Some_0@) by {
                    lemma_pool_prefix_entry(h as int, mid, self.pool@);
                }
            }
        }
        RawName { namespace_uri, local_part }
    }

    /// Append a record, returning its handle.
    pub(crate) fn push_record(&mut self, rec: NodeRecord) -> (h: usize)
        requires
            old(self).inv(),
            rec_wf(rec, old(self).pool_view().len()),
            !(rec is Root),
        ensures
            final(self).inv(),
            final(self).pool_view() == old(self).pool_view(),
            h == old(self).num_nodes(),
            final(self).nodes_view() == old(self).nodes_view().push(
                rec_view(rec, old(self).pool_view()),
            ),
    {
        let h = self.nodes.len();
        self.nodes.push(rec);
        proof {
            assert(final(self).nodes_view() =~= old(self).nodes_view().push(
                rec_view(rec, old(self).pool_view()),
            ));
        }
        h
    }
}

impl Storage {
    /// Create an element record with the given qualified name and no
    /// preferred prefix.
    pub(crate) fn create_element_rec(&mut self, name: &QName) -> (h: usize)
        requires
            old(self).inv(),
        ensures
            final(self).inv(),
            h == old(self).num_nodes(),
            final(self).nodes_view() == old(self).nodes_view().push(
                NodeView::Element { name: name@, preferred_prefix: None },
            ),
            old(self).pool_view().is_prefix_of(final(self).pool_view()),
    {
        let rn = self.intern_name(name);
        let ghost mid = *self;
        let h = self.push_record(NodeRecord::Element { name: rn, preferred_prefix: None });
        proof {
            assert(rec_view(
                NodeRecord::Element { name: rn, preferred_prefix: None },
                mid.pool_view(),
            ) == NodeView::Element { name: name@, preferred_prefix: None::<Seq<char>> });
        }
        h
    }

    /// Create an attribute record; its name and value are interned first.
    pub(crate) fn create_attribute_rec(&mut self, name: &QName, value: &str) -> (h: usize)
        requires
            old(self).inv(),
        ensures
            final(self).inv(),
            h == old(self).num_nodes(),
            final(self).nodes_view() == old(self).nodes_view().push(
                NodeView::Attribute { name: name@, value: value@ },
            ),
            old(self).pool_view().is_prefix_of(final(self).pool_view()),
    {
        let rn = self.intern_name(name);
        let ghost p1 = self.pool_view();
        let hv = self.intern_str(value);
        proof {
            lemma_prefix_trans(old(self).pool_view(), p1, self.pool_view());
            if rn.namespace_uri is Some {
                lemma_pool_prefix_entry(rn.namespace_uri->Some_0 as int, p1, self.pool_view());
            }
            lemma_pool_prefix_entry(rn.local_part as int, p1, self.pool_view());
        }
        self.push_record(NodeRecord::Attribute { name: rn, value: hv })
    }

    /// Create a text record.
    pub(crate) fn create_text_rec(&mut self, value: &str) -> (h: usize)
        requires
            old(self).inv(),
        ensures
            final(self).inv(),
            h == old(self).num_nodes(),
            final(self).nodes_view() == old(self).nodes_view().push(NodeView::Text { value: value@ }),
            old(self).pool_view().is_prefix_of(final(self).pool_view()),
    {
        let hv = self.intern_str(value);
        self.push_record(NodeRecord::Text { value: hv })
    }

    /// Create a comment record.
    pub(crate) fn create_comment_rec(&mut self, value: &str) -> (h: usize)
        requires
            old(self).inv(),
        ensures
            final(self).inv(),
            h == old(self).num_nodes(),
            final(self).nodes_view() == old(self).nodes_view().push(
                NodeView::Comment { value: value@ },
            ),
            old(self).pool_view().is_prefix_of(final(self).pool_view()),
    {
        let hv = self.intern_str(value);
        self.push_record(NodeRecord::Comment { value: hv })
    }

    /// Create a processing-instruction record.
    pub(crate) fn create_pi_rec(&mut self, target: &str, value: &str) -> (h: usize)
        requires
            old(self).inv(),
        ensures
            final(self).inv(),
            h == old(self).num_nodes(),
            final(self).nodes_view() == old(self).nodes_view().push(
                NodeView::ProcessingInstruction { target: target@, value: value@ },
            ),
            old(self).pool_view().is_prefix_of(final(self).pool_view()),
    {
        let ht = self.intern_str(target);
        let ghost p1 = self.pool_view();
        let hv = self.intern_str(value);
        proof {
            lemma_prefix_trans(old(self).pool_view(), p1, self.pool_view());
            lemma_pool_prefix_entry(ht as int, p1, self.pool_view());
        }
        self.push_record(NodeRecord::ProcessingInstruction { target: ht, value: hv })
    }

    /// Replace the value of an attribute record in place; its name stays.
    pub(crate) fn set_attr_value(&mut self, a: usize, value: &str)
        requires
            old(self).inv(),
            a < old(self).num_nodes(),
            old(self).nodes_view()[a as int] is Attribute,
        ensures
            final(self).inv(),
            final(self).nodes_view() == old(self).nodes_view().update(
                a as int,
                NodeView::Attribute {
                    name: old(self).nodes_view()[a as int]->Attribute_name,
                    value: value@,
                },
            ),
            old(self).pool_view().is_prefix_of(final(self).pool_view()),
    {
        let hv = self.intern_str(value);
        let ghost mid = *self;
        let rn = match &self.nodes[a] {
            NodeRecord::Attribute { name, .. } => *name,
            _ => RawName { namespace_uri: None, local_part: 0 },
        };
        proof {
            lemma_rec_view_extend(old(self).nodes@[a as int], old(self).pool@, mid.pool@);
        }
        self.nodes[a] = NodeRecord::Attribute { name: rn, value: hv };
        proof {
            assert(final(self).nodes_view() =~= old(self).nodes_view().update(
                a as int,
                NodeView::Attribute {
                    name: old(self).nodes_view()[a as int]->Attribute_name,
                    value: value@,
                },
            )) by {
                assert forall|i: int| 0 <= i < self.nodes@.len() && i != a implies rec_view(
                    self.nodes@[i],
                    self.pool@,
                ) == rec_view(old(self).nodes@[i], old(self).pool@) by {
                    lemma_rec_view_extend(old(self).nodes@[i], old(self).pool@, self.pool@);
                }
            }
        }
    }

    /// Record the preferred prefix of an element.
    pub(crate) fn set_pref_prefix(&mut self, e: usize, prefix: Option<&str>)
        requires
            old(self).inv(),
            e < old(self).num_nodes(),
            old(self).nodes_view()[e as int] is Element,
        ensures
            final(self).inv(),
            final(self).nodes_view() == old(self).nodes_view().update(
                e as int,
                NodeView::Element {
                    name: old(self).nodes_view()[e as int]->Element_name,
                    preferred_prefix: match prefix {
                        Some(p) => Some(p@),
                        None => None,
                    },
                },
            ),
            old(self).pool_view().is_prefix_of(final(self).pool_view()),
    {
        let hp = match prefix {
            Some(p) => Some(self.intern_str(p)),
            None => None,
        };
        let ghost mid = *self;
        let rn = match &self.nodes[e] {
            NodeRecord::Element { name, .. } => *name,
            _ => RawName { namespace_uri: None, local_part: 0 },
        };
        proof {
            lemma_rec_view_extend(old(self).nodes@[e as int], old(self).pool@, mid.pool@);
        }
        self.nodes[e] = NodeRecord::Element { name: rn, preferred_prefix: hp };
        proof {
            assert(final(self).nodes_view() =~= old(self).nodes_view().update(
                e as int,
                NodeView::Element {
                    name: old(self).nodes_view()[e as int]->Element_name,
                    preferred_prefix: match prefix {
                        Some(p) => Some(p@),
                        None => None::<Seq<char>>,
                    },
                },
            )) by {
                assert forall|i: int| 0 <= i < self.nodes@.len() && i != e implies rec_view(
                    self.nodes@[i],
                    self.pool@,
                ) == rec_view(old(self).nodes@[i], old(self).pool@) by {
                    lemma_rec_view_extend(old(self).nodes@[i], old(self).pool@, self.pool@);
                }
            }
        }
    }

    /// The stored name handles of an attribute node.
    pub(crate) fn attr_name_of_rec(&self, a: usize) -> (rn: RawName)
        requires
            self.inv(),
            a < self.num_nodes(),
            self.nodes_view()[a as int] is Attribute,
        ensures
            raw_name_wf(rn, self.pool_view().len()),
            raw_name_view(rn, self.pool_view()) == self.nodes_view()[a as int]->Attribute_name,
    {
        match &self.nodes[a] {
            NodeRecord::Attribute { name, .. } => *name,
            _ => RawName { namespace_uri: None, local_part: 0 },
        }
    }

    /// The value of an attribute node.
    pub fn attr_value_str(&self, a: usize) -> (r: &str)
        requires
            self.inv(),
            a < self.num_nodes(),
            self.nodes_view()[a as int] is Attribute,
        ensures
            r@ == self.nodes_view()[a as int]->Attribute_value,
    {
        match &self.nodes[a] {
            NodeRecord::Attribute { value, .. } => self.pool.get(*value),
            _ => "",
        }
    }

    /// The value of a text node.
    pub fn text_value_str(&self, t: usize) -> (r: &str)
        requires
            self.inv(),
            t < self.num_nodes(),
            self.nodes_view()[t as int] is Text,
        ensures
            r@ == self.nodes_view()[t as int]->Text_value,
    {
        match &self.nodes[t] {
            NodeRecord::Text { value } => self.pool.get(*value),
            _ => "",
        }
    }

    /// The value of a comment node.
    pub fn comment_value_str(&self, c: usize) -> (r: &str)
        requires
            self.inv(),
            c < self.num_nodes(),
            self.nodes_view()[c as int] is Comment,
        ensures
            r@ == self.nodes_view()[c as int]->Comment_value,
    {
        match &self.nodes[c] {
            NodeRecord::Comment { value } => self.pool.get(*value),
            _ => "",
        }
    }

    /// The target of a processing instruction.
    pub fn pi_target_str(&self, n: usize) -> (r: &str)
        requires
            self.inv(),
            n < self.num_nodes(),
            self.nodes_view()[n as int] is ProcessingInstruction,
        ensures
            r@ == self.nodes_view()[n as int]->ProcessingInstruction_target,
    {
        match &self.nodes[n] {
            NodeRecord::ProcessingInstruction { target, .. } => self.pool.get(*target),
            _ => "",
        }
    }

    /// The value of a processing instruction.
    pub fn pi_value_str(&self, n: usize) -> (r: &str)
        requires
            self.inv(),
            n < self.num_nodes(),
            self.nodes_view()[n as int] is ProcessingInstruction,
        ensures
            r@ == self.nodes_view()[n as int]->ProcessingInstruction_value,
    {
        match &self.nodes[n] {
            NodeRecord::ProcessingInstruction { value, .. } => self.pool.get(*value),
            _ => "",
        }
    }

    /// The stored name handles of an element node.
    pub(crate) fn element_name_of_rec(&self, e: usize) -> (rn: RawName)
        requires
            self.inv(),
            e < self.num_nodes(),
            self.nodes_view()[e as int] is Element,
        ensures
            raw_name_wf(rn, self.pool_view().len()),
            raw_name_view(rn, self.pool_view()) == self.nodes_view()[e as int]->Element_name,
    {
        match &self.nodes[e] {
            NodeRecord::Element { name, .. } => *name,
            _ => RawName { namespace_uri: None, local_part: 0 },
        }
    }

    /// The preferred prefix of an element, if one was set.
    pub fn preferred_prefix_str(&self, e: usize) -> (r: Option<&str>)
        requires
            self.inv(),
            e < self.num_nodes(),
            self.nodes_view()[e as int] is Element,
        ensures
            match r {
                Some(p) => self.nodes_view()[e as int]->Element_preferred_prefix == Some(p@),
                None => self.nodes_view()[e as int]->Element_preferred_prefix is None,
            },
    {
        match &self.nodes[e] {
            NodeRecord::Element { preferred_prefix: Some(h), .. } => Some(self.pool.get(*h)),
            _ => None,
        }
    }

    /// Read one pool entry, as an owned-string reference.
    pub(crate) fn pool_get_string(&self, h: usize) -> (r: &String)
        requires
            h < self.pool_view().len(),
        ensures
            r@ == self.pool_view()[h as int],
    {
        self.pool.get_string(h)
    }

    /// Read one pool entry.
    pub(crate) fn pool_get(&self, h: usize) -> (r: &str)
        requires
            h < self.pool_view().len(),
        ensures
            r@ == self.pool_view()[h as int],
    {
        self.pool.get(h)
    }

    /// An upper bound on the length (in characters) of every pool entry.
    pub(crate) fn pool_max_entry_len(&self) -> (m: usize)
        ensures
            forall|i: int|
                0 <= i < self.pool_view().len() ==> (#[trigger] self.pool_view()[i]).len() <= m,
    {
        self.pool.max_entry_len()
    }

    /// Whether the stored name `rn` is the qualified name `name`.
    pub(crate) fn raw_name_eq(&self, rn: RawName, name: &QName) -> (r: bool)
        requires
            self.inv(),
            raw_name_wf(rn, self.pool_view().len()),
        ensures
            r == (raw_name_view(rn, self.pool_view()) == name@),
    {
        let local_ok = *self.pool.get_string(rn.local_part) == name.local_part;
        let ns_ok = match (rn.namespace_uri, &name.namespace_uri) {
            (Some(h), Some(u)) => *self.pool.get_string(h) == *u,
            (None, None) => true,
            _ => false,
        };
        local_ok && ns_ok
    }

    /// The stored name of an element or attribute, read back as an owned
    /// qualified name.
    pub(crate) fn raw_name_read(&self, rn: RawName) -> (r: QName)
        requires
            self.inv(),
            raw_name_wf(rn, self.pool_view().len()),
        ensures
            r@ == raw_name_view(rn, self.pool_view()),
    {
        let namespace_uri = match rn.namespace_uri {
            Some(h) => Some(self.pool.get(h).to_owned()),
            None => None,
        };
        let local_part = self.pool.get(rn.local_part).to_owned();
        QName::with_namespace_uri(namespace_uri, local_part)
    }
}

/// A document's node count fits in a machine word: the records stand in one
/// vector.
pub proof fn lemma_node_count_bound(s: &Storage)
    ensures
        s.nodes_view().len() <= usize::MAX,
{
    assert(s.nodes@.len() == vstd::std_specs::vec::spec_vec_len(&s.nodes));
}

/// Node 0 is the document's root, and the only node of kind `Root`.
pub proof fn lemma_root_kind(s: &Storage)
    requires
        s.inv(),
    ensures
        s.nodes_view().len() >= 1,
        s.nodes_view()[0] is Root,
        forall|i: int| 1 <= i < s.nodes_view().len() ==> !((#[trigger] s.nodes_view()[i]) is Root),
{
    assert forall|i: int| 1 <= i < s.nodes_view().len() implies !((#[trigger] s.nodes_view()[i]) is Root) by {
        assert(!(s.nodes@[i] is Root));
    }
}

pub(crate) proof fn lemma_prefix_trans(p1: Seq<Seq<char>>, p2: Seq<Seq<char>>, p3: Seq<Seq<char>>)
    requires
        p1.is_prefix_of(p2),
        p2.is_prefix_of(p3),
    ensures
        p1.is_prefix_of(p3),
{
    assert(p1 =~= p3.subrange(0, p1.len() as int));
}

/// A prefix extension keeps every existing entry in place.
pub(crate) proof fn lemma_pool_prefix_entry(h: int, pool1: Seq<Seq<char>>, pool2: Seq<Seq<char>>)
    requires
        0 <= h < pool1.len(),
        pool1.is_prefix_of(pool2),
    ensures
        pool2[h] == pool1[h],
{
}

} // verus!
