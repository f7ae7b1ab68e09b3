use vstd::prelude::*;
use crate::storage::{Storage, NodeKind, NodeView, kind_of_view};
use crate::connections::{
    Connections, NsBinding, reaches, chain_ends, detach_children, append_child_children,
    insert_before_children, lemma_wf_chain_terminates, lemma_wf_no_cycle, lemma_reaches_unfold,
};
use crate::{Error, PrefixedName, QName, QNameView};
use vstd::string::StringExecFns;

verus! {

/// A handle to one node of a document: an opaque, copyable identifier that
/// stays valid for the owning document's whole life. Equality of handles is
/// identity of nodes.
#[derive(Debug, Clone, Copy, PartialEq, Eq, Structural, Hash)]
pub struct NodeHandle {
    pub(crate) index: usize,
}

impl NodeHandle {
    /// The position of the node in creation order.
    pub closed spec fn idx(&self) -> usize {
        self.index
    }
}

/// One namespace declaration, content-resolved.
pub ghost struct NsDeclView {
    pub prefix: Seq<char>,
    pub uri: Seq<char>,
}

/// The mathematical value of a whole document: the node payloads in creation
/// order, and the parent links, ordered child lists, attribute sets and
/// namespace declarations of every node, all indexed by handle.
pub ghost struct DocView {
    pub nodes: Seq<NodeView>,
    pub parent: Seq<Option<usize>>,
    pub children: Seq<Seq<usize>>,
    pub attrs: Seq<Seq<usize>>,
    pub decls: Seq<Seq<NsDeclView>>,
}

impl DocView {
    pub open spec fn len(&self) -> nat {
        self.nodes.len()
    }

    pub open spec fn kind_at(&self, i: int) -> NodeKind {
        kind_of_view(self.nodes[i])
    }
}

/// The name of attribute node `a`.
pub open spec fn attr_name_of(d: DocView, a: usize) -> QNameView {
    d.nodes[a as int]->Attribute_name
}

/// Some attribute named `name` stands on element `e`.
pub open spec fn has_attr_named(d: DocView, e: usize, name: QNameView) -> bool {
    exists|k: int| 0 <= k < d.attrs[e as int].len() && attr_name_of(d, d.attrs[e as int][k]) == name
}

/// The handle of the attribute named `name` on element `e`. Unique while the
/// attribute names of an element are distinct.
pub open spec fn attr_named(d: DocView, e: usize, name: QNameView) -> usize {
    d.attrs[e as int][choose|k: int|
        0 <= k < d.attrs[e as int].len() && attr_name_of(d, d.attrs[e as int][k]) == name]
}

/// Attribute sets are well formed: every listed handle is an attribute node
/// of the document, and no element lists two attributes of the same name.
pub open spec fn attrs_wf(d: DocView) -> bool {
    &&& d.attrs.len() == d.len()
    &&& forall|i: int, k: int|
        0 <= i < d.len() && 0 <= k < d.attrs[i].len() ==> (#[trigger] d.attrs[i][k]) < d.len()
            && d.nodes[d.attrs[i][k] as int] is Attribute
    &&& forall|i: int, k1: int, k2: int|
        0 <= i < d.len() && 0 <= k1 < d.attrs[i].len() && 0 <= k2 < d.attrs[i].len() && k1 != k2
            ==> attr_name_of(d, #[trigger] d.attrs[i][k1]) != attr_name_of(
            d,
            #[trigger] d.attrs[i][k2],
        )
}

/// The document after `set_attribute_value(e, name, value)`, together with
/// the handle of the attribute written: the value of the existing attribute
/// of that name is replaced in place, or a fresh attribute node is created
/// and registered on `e`.
pub open spec fn set_attr_doc(d: DocView, e: usize, name: QNameView, value: Seq<char>) -> (
    DocView,
    usize,
) {
    if has_attr_named(d, e, name) {
        let a = attr_named(d, e, name);
        (
            DocView {
                nodes: d.nodes.update(a as int, NodeView::Attribute { name, value }),
                ..d
            },
            a,
        )
    } else {
        let a = d.len() as usize;
        (
            DocView {
                nodes: d.nodes.push(NodeView::Attribute { name, value }),
                parent: d.parent.push(None),
                children: d.children.push(Seq::empty()),
                attrs: d.attrs.push(Seq::empty()).update(e as int, d.attrs[e as int].push(a)),
                decls: d.decls.push(Seq::empty()),
            },
            a,
        )
    }
}

/// The main entry point to an XML document.
///
/// A `Package` owns every node record, every link and every piece of string
/// content of one document, for the document's whole life; nothing is freed
/// node by node. All mutation and all queries go through it (or through the
/// read-only [`Document`] facade it hands out).
pub struct Package {
    pub(crate) storage: Storage,
    pub(crate) connections: Connections,
}

impl View for Package {
    type V = DocView;

    closed spec fn view(&self) -> DocView {
        DocView {
            nodes: self.storage.nodes_view(),
            parent: self.connections.parent_view(),
            children: self.connections.children_view(),
            attrs: self.connections.attrs_view(),
            decls: decls_content(self.connections.decls_view(), self.storage.pool_view()),
        }
    }
}

/// Namespace declarations with their interned handles resolved to content.
pub(crate) open spec fn decls_content(
    raw: Seq<Seq<NsBinding>>,
    pool: Seq<Seq<char>>,
) -> Seq<Seq<NsDeclView>> {
    raw.map_values(
        |row: Seq<NsBinding>|
            row.map_values(
                |b: NsBinding| NsDeclView { prefix: pool[b.prefix as int], uri: pool[b.uri as int] },
            ),
    )
}

impl Package {
    /// Every internal consistency condition of a document: the storage and
    /// link tables describe the same set of nodes, node 0 is the one root,
    /// the links form a tree, only elements and the root bear children,
    /// only elements bear attributes and declarations, and no element holds
    /// two attributes of one name or two declarations of one prefix.
    pub closed spec fn inv(&self) -> bool {
        &&& self.storage.inv()
        &&& self.connections.wf()
        &&& self.connections.len() == self.storage.num_nodes()
        &&& attrs_wf(self@)
        &&& forall|x: int|
            0 <= x < self@.len() && (#[trigger] self@.parent[x]) is Some ==> !(self@.nodes[x] is Root)
                && !(self@.nodes[x] is Attribute)
        &&& forall|x: int|
            0 <= x < self@.len() && (#[trigger] self@.parent[x]) is Some ==> (self@.nodes[self@.parent[x]->Some_0 as int] is Root
                || self@.nodes[self@.parent[x]->Some_0 as int] is Element)
        &&& forall|i: int|
            0 <= i < self@.len() && (#[trigger] self@.attrs[i]).len() > 0 ==> self@.nodes[i] is Element
        &&& forall|i: int|
            0 <= i < self@.len() && (#[trigger] self.connections.decls_view()[i]).len() > 0
                ==> self@.nodes[i] is Element
        &&& forall|i: int, k: int|
            0 <= i < self@.len() && 0 <= k < self.connections.decls_view()[i].len() ==> (
            #[trigger] self.connections.decls_view()[i][k]).prefix < self.storage.pool_view().len()
                && self.connections.decls_view()[i][k].uri < self.storage.pool_view().len()
        &&& forall|i: int, k1: int, k2: int|
            0 <= i < self@.len() && 0 <= k1 < self.connections.decls_view()[i].len() && 0 <= k2
                < self.connections.decls_view()[i].len() && k1 != k2 ==> (
            #[trigger] self.connections.decls_view()[i][k1]).prefix != (
            #[trigger] self.connections.decls_view()[i][k2]).prefix
    }

    /// A fresh document: one root node, no content.
    pub fn new() -> (r: Package)
        ensures
            r.inv(),
            r@.nodes == seq![NodeView::Root],
            r@.parent == seq![None::<usize>],
            r@.children == seq![Seq::<usize>::empty()],
            r@.attrs == seq![Seq::<usize>::empty()],
            r@.decls == seq![Seq::<NsDeclView>::empty()],
    {
        let r = Package { storage: Storage::new(), connections: Connections::new() };
        proof {
            assert(r@.nodes =~= seq![NodeView::Root]);
            assert(r@.parent =~= seq![None::<usize>]);
            assert(r@.children =~= seq![Seq::<usize>::empty()]);
            assert(r@.attrs =~= seq![Seq::<usize>::empty()]);
            assert(r@.decls[0] =~= Seq::<NsDeclView>::empty());
            assert(r@.decls =~= seq![Seq::<NsDeclView>::empty()]);
        }
        r
    }

    /// The handle of the document's root node.
    pub fn root(&self) -> (r: NodeHandle)
        requires
            self.inv(),
        ensures
            r.idx() == 0,
            r.idx() < self@.len(),
            self@.nodes[r.idx() as int] is Root,
    {
        proof {
            crate::storage::lemma_root_kind(&self.storage);
        }
        NodeHandle { index: 0 }
    }

    pub fn num_nodes(&self) -> (r: usize)
        requires
            self.inv(),
        ensures
            r == self@.len(),
    {
        self.storage.node_count()
    }

    /// The kind of a node.
    pub fn kind(&self, n: NodeHandle) -> (r: NodeKind)
        requires
            self.inv(),
            n.idx() < self@.len(),
        ensures
            r == self@.kind_at(n.idx() as int),
    {
        self.storage.kind(n.index)
    }

    /// The parent of a node, if it is attached anywhere.
    pub fn parent(&self, n: NodeHandle) -> (r: Option<NodeHandle>)
        requires
            self.inv(),
            n.idx() < self@.len(),
        ensures
            match r {
                Some(p) => self@.parent[n.idx() as int] == Some(p.idx()) && p.idx() < self@.len(),
                None => self@.parent[n.idx() as int] is None,
            },
    {
        match self.connections.parent_of(n.index) {
            Some(p) => {
                proof {
                    crate::connections::lemma_wf_parent_in_range(&self.connections, n.index);
                }
                Some(NodeHandle { index: p })
            },
            None => None,
        }
    }

    /// The children of a node, in sibling order.
    pub fn children(&self, n: NodeHandle) -> (r: Vec<NodeHandle>)
        requires
            self.inv(),
            n.idx() < self@.len(),
        ensures
            r@.map_values(|h: NodeHandle| h.idx()) == self@.children[n.idx() as int],
    {
        let count = self.connections.num_children(n.index);
        let mut r: Vec<NodeHandle> = Vec::new();
        let mut k: usize = 0;
        while k < count
            invariant
                self.inv(),
                n.idx() < self@.len(),
                count == self@.children[n.idx() as int].len(),
                k <= count,
                r@.len() == k,
                forall|j: int| 0 <= j < k ==> (#[trigger] r@[j]).idx() == self@.children[n.idx() as int][j],
            decreases count - k,
        {
            let c = self.connections.child_at(n.index, k);
            r.push(NodeHandle { index: c });
            k += 1;
        }
        proof {
            assert(r@.map_values(|h: NodeHandle| h.idx()) =~= self@.children[n.idx() as int]);
        }
        r
    }

    /// The attributes of an element, as stored (the set is unordered).
    pub fn attributes(&self, e: NodeHandle) -> (r: Vec<NodeHandle>)
        requires
            self.inv(),
            e.idx() < self@.len(),
        ensures
            r@.map_values(|h: NodeHandle| h.idx()) == self@.attrs[e.idx() as int],
    {
        let count = self.connections.num_attrs(e.index);
        let mut r: Vec<NodeHandle> = Vec::new();
        let mut k: usize = 0;
        while k < count
            invariant
                self.inv(),
                e.idx() < self@.len(),
                count == self@.attrs[e.idx() as int].len(),
                k <= count,
                r@.len() == k,
                forall|j: int| 0 <= j < k ==> (#[trigger] r@[j]).idx() == self@.attrs[e.idx() as int][j],
            decreases count - k,
        {
            let a = self.connections.attr_at(e.index, k);
            r.push(NodeHandle { index: a });
            k += 1;
        }
        proof {
            assert(r@.map_values(|h: NodeHandle| h.idx()) =~= self@.attrs[e.idx() as int]);
        }
        r
    }

    /// Create a new, detached element with the given qualified name.
    pub fn create_element(&mut self, name: &QName) -> (h: NodeHandle)
        requires
            old(self).inv(),
        ensures
            final(self).inv(),
            h.idx() == old(self)@.len(),
            final(self)@.nodes == old(self)@.nodes.push(
                NodeView::Element { name: name@, preferred_prefix: None },
            ),
            final(self)@.parent == old(self)@.parent.push(None),
            final(self)@.children == old(self)@.children.push(Seq::empty()),
            final(self)@.attrs == old(self)@.attrs.push(Seq::empty()),
            final(self)@.decls == old(self)@.decls.push(Seq::empty()),
    {
        let h = self.storage.create_element_rec(name);
        proof {
            crate::connections::lemma_wf_lens(&old(self).connections);
            lemma_decls_content_extend(
                self.connections.decls_view(),
                old(self).storage.pool_view(),
                self.storage.pool_view(),
            );
        }
        self.connections.register_node();
        proof {
            lemma_register_preserves(old(self), self, NodeView::Element { name: name@, preferred_prefix: None });
        }
        NodeHandle { index: h }
    }

    /// Create a new, detached text node holding `value` (interned).
    pub fn create_text(&mut self, value: &str) -> (h: NodeHandle)
        requires
            old(self).inv(),
        ensures
            final(self).inv(),
            h.idx() == old(self)@.len(),
            final(self)@.nodes == old(self)@.nodes.push(NodeView::Text { value: value@ }),
            final(self)@.parent == old(self)@.parent.push(None),
            final(self)@.children == old(self)@.children.push(Seq::empty()),
            final(self)@.attrs == old(self)@.attrs.push(Seq::empty()),
            final(self)@.decls == old(self)@.decls.push(Seq::empty()),
    {
        let h = self.storage.create_text_rec(value);
        proof {
            crate::connections::lemma_wf_lens(&old(self).connections);
            lemma_decls_content_extend(
                self.connections.decls_view(),
                old(self).storage.pool_view(),
                self.storage.pool_view(),
            );
        }
        self.connections.register_node();
        proof {
            lemma_register_preserves(old(self), self, NodeView::Text { value: value@ });
        }
        NodeHandle { index: h }
    }

    /// Create a new, detached comment node holding `value` (interned).
    pub fn create_comment(&mut self, value: &str) -> (h: NodeHandle)
        requires
            old(self).inv(),
        ensures
            final(self).inv(),
            h.idx() == old(self)@.len(),
            final(self)@.nodes == old(self)@.nodes.push(NodeView::Comment { value: value@ }),
            final(self)@.parent == old(self)@.parent.push(None),
            final(self)@.children == old(self)@.children.push(Seq::empty()),
            final(self)@.attrs == old(self)@.attrs.push(Seq::empty()),
            final(self)@.decls == old(self)@.decls.push(Seq::empty()),
    {
        let h = self.storage.create_comment_rec(value);
        proof {
            crate::connections::lemma_wf_lens(&old(self).connections);
            lemma_decls_content_extend(
                self.connections.decls_view(),
                old(self).storage.pool_view(),
                self.storage.pool_view(),
            );
        }
        self.connections.register_node();
        proof {
            lemma_register_preserves(old(self), self, NodeView::Comment { value: value@ });
        }
        NodeHandle { index: h }
    }

    /// Create a new, detached processing instruction (interned target and
    /// value).
    pub fn create_processing_instruction(&mut self, target: &str, value: &str) -> (h: NodeHandle)
        requires
            old(self).inv(),
        ensures
            final(self).inv(),
            h.idx() == old(self)@.len(),
            final(self)@.nodes == old(self)@.nodes.push(
                NodeView::ProcessingInstruction { target: target@, value: value@ },
            ),
            final(self)@.parent == old(self)@.parent.push(None),
            final(self)@.children == old(self)@.children.push(Seq::empty()),
            final(self)@.attrs == old(self)@.attrs.push(Seq::empty()),
            final(self)@.decls == old(self)@.decls.push(Seq::empty()),
    {
        let h = self.storage.create_pi_rec(target, value);
        proof {
            crate::connections::lemma_wf_lens(&old(self).connections);
            lemma_decls_content_extend(
                self.connections.decls_view(),
                old(self).storage.pool_view(),
                self.storage.pool_view(),
            );
        }
        self.connections.register_node();
        proof {
            lemma_register_preserves(
                old(self),
                self,
                NodeView::ProcessingInstruction { target: target@, value: value@ },
            );
        }
        NodeHandle { index: h }
    }

    /// Detach `c` from wherever it stands and relink it as the last child of
    /// `p`. Fails, changing nothing, when `c` is the root or when `c` is `p`
    /// or an ancestor of `p` (a cycle would form); the relink is atomic.
    pub fn append_child(&mut self, p: NodeHandle, c: NodeHandle) -> (r: Result<(), Error>)
        requires
            old(self).inv(),
            p.idx() < old(self)@.len(),
            c.idx() < old(self)@.len(),
            old(self)@.nodes[p.idx() as int] is Root || old(self)@.nodes[p.idx() as int] is Element,
            !(old(self)@.nodes[c.idx() as int] is Attribute),
        ensures
            final(self).inv(),
            final(self)@.nodes == old(self)@.nodes,
            final(self)@.attrs == old(self)@.attrs,
            final(self)@.decls == old(self)@.decls,
            match r {
                Ok(()) => {
                    &&& !(old(self)@.nodes[c.idx() as int] is Root)
                    &&& !reaches(old(self)@.parent, p.idx(), c.idx())
                    &&& final(self)@.parent == old(self)@.parent.update(
                        c.idx() as int,
                        Some(p.idx()),
                    )
                    &&& final(self)@.children == append_child_children(
                        old(self)@.children,
                        old(self)@.parent,
                        p.idx(),
                        c.idx(),
                    )
                },
                Err(e) => {
                    &&& e == Error::StructuralViolation
                    &&& (old(self)@.nodes[c.idx() as int] is Root || reaches(
                        old(self)@.parent,
                        p.idx(),
                        c.idx(),
                    ))
                    &&& final(self)@.parent == old(self)@.parent
                    &&& final(self)@.children == old(self)@.children
                },
            },
    {
        proof {
            lemma_root_is_zero(old(self), c.idx());
        }
        let r = self.connections.append_child(p.index, c.index);
        proof {
            lemma_structural_preserves(old(self), self);
        }
        r
    }

    /// Detach `c` and relink it immediately before `refn` under `p`. Fails,
    /// changing nothing, when `c` is the root, when a cycle would form, when
    /// `refn` is not currently a child of `p`, or when `refn` is `c` itself.
    pub fn insert_before(&mut self, p: NodeHandle, c: NodeHandle, refn: NodeHandle) -> (r: Result<
        (),
        Error,
    >)
        requires
            old(self).inv(),
            p.idx() < old(self)@.len(),
            c.idx() < old(self)@.len(),
            refn.idx() < old(self)@.len(),
            old(self)@.nodes[p.idx() as int] is Root || old(self)@.nodes[p.idx() as int] is Element,
            !(old(self)@.nodes[c.idx() as int] is Attribute),
        ensures
            final(self).inv(),
            final(self)@.nodes == old(self)@.nodes,
            final(self)@.attrs == old(self)@.attrs,
            final(self)@.decls == old(self)@.decls,
            match r {
                Ok(()) => {
                    &&& !(old(self)@.nodes[c.idx() as int] is Root)
                    &&& refn.idx() != c.idx()
                    &&& !reaches(old(self)@.parent, p.idx(), c.idx())
                    &&& old(self)@.parent[refn.idx() as int] == Some(p.idx())
                    &&& final(self)@.parent == old(self)@.parent.update(
                        c.idx() as int,
                        Some(p.idx()),
                    )
                    &&& final(self)@.children == insert_before_children(
                        old(self)@.children,
                        old(self)@.parent,
                        p.idx(),
                        c.idx(),
                        refn.idx(),
                    )
                },
                Err(e) => {
                    &&& e == Error::StructuralViolation
                    &&& (old(self)@.nodes[c.idx() as int] is Root || refn.idx() == c.idx()
                        || reaches(old(self)@.parent, p.idx(), c.idx()) || old(
                        self,
                    )@.parent[refn.idx() as int] != Some(p.idx()))
                    &&& final(self)@.parent == old(self)@.parent
                    &&& final(self)@.children == old(self)@.children
                },
            },
    {
        proof {
            lemma_root_is_zero(old(self), c.idx());
        }
        let r = self.connections.insert_before(p.index, c.index, refn.index);
        proof {
            lemma_structural_preserves(old(self), self);
        }
        r
    }

    /// Unlink `c` from under `p`: afterwards `c` has no parent and is no
    /// child of `p`; `c`'s own subtree is untouched. Fails, changing nothing,
    /// when `c` is not currently a child of `p`.
    pub fn remove_child(&mut self, p: NodeHandle, c: NodeHandle) -> (r: Result<(), Error>)
        requires
            old(self).inv(),
            p.idx() < old(self)@.len(),
            c.idx() < old(self)@.len(),
        ensures
            final(self).inv(),
            final(self)@.nodes == old(self)@.nodes,
            final(self)@.attrs == old(self)@.attrs,
            final(self)@.decls == old(self)@.decls,
            match r {
                Ok(()) => {
                    &&& old(self)@.parent[c.idx() as int] == Some(p.idx())
                    &&& final(self)@.parent == old(self)@.parent.update(
                        c.idx() as int,
                        None::<usize>,
                    )
                    &&& final(self)@.children == detach_children(
                        old(self)@.children,
                        old(self)@.parent,
                        c.idx(),
                    )
                },
                Err(e) => {
                    &&& e == Error::StructuralViolation
                    &&& old(self)@.parent[c.idx() as int] != Some(p.idx())
                    &&& final(self)@.parent == old(self)@.parent
                    &&& final(self)@.children == old(self)@.children
                },
            },
    {
        let r = self.connections.remove_child(p.index, c.index);
        proof {
            lemma_structural_preserves(old(self), self);
        }
        r
    }
}

impl Package {
    /// The attribute of `e` named `name`, if one stands there.
    fn find_attr(&self, e: NodeHandle, name: &QName) -> (r: Option<usize>)
        requires
            self.inv(),
            e.idx() < self@.len(),
        ensures
            match r {
                Some(a) => {
                    &&& has_attr_named(self@, e.idx(), name@)
                    &&& a == attr_named(self@, e.idx(), name@)
                    &&& a < self@.len()
                    &&& self@.nodes[a as int] is Attribute
                },
                None => !has_attr_named(self@, e.idx(), name@),
            },
    {
        let count = self.connections.num_attrs(e.index);
        let mut k: usize = 0;
        while k < count
            invariant
                self.inv(),
                e.idx() < self@.len(),
                count == self@.attrs[e.idx() as int].len(),
                k <= count,
                forall|j: int|
                    0 <= j < k ==> attr_name_of(self@, #[trigger] self@.attrs[e.idx() as int][j])
                        != name@,
            decreases count - k,
        {
            let a = self.connections.attr_at(e.index, k);
            let rn = self.storage.attr_name_of_rec(a);
            if self.storage.raw_name_eq(rn, name) {
                proof {
                    assert(has_attr_named(self@, e.idx(), name@));
                    let w = choose|w: int|
                        0 <= w < self@.attrs[e.idx() as int].len() && attr_name_of(
                            self@,
                            self@.attrs[e.idx() as int][w],
                        ) == name@;
                    assert(w == k as int);
                }
                return Some(a);
            }
            k += 1;
        }
        proof {
            if has_attr_named(self@, e.idx(), name@) {
                let w = choose|w: int|
                    0 <= w < self@.attrs[e.idx() as int].len() && attr_name_of(
                        self@,
                        self@.attrs[e.idx() as int][w],
                    ) == name@;
                assert(false);
            }
        }
        None
    }

    /// The value of the attribute of `e` named `name`, if one stands there.
    pub fn attribute_value(&self, e: NodeHandle, name: &QName) -> (r: Option<&str>)
        requires
            self.inv(),
            e.idx() < self@.len(),
        ensures
            match r {
                Some(v) => {
                    &&& has_attr_named(self@, e.idx(), name@)
                    &&& self@.nodes[attr_named(self@, e.idx(), name@) as int]->Attribute_value
                        == v@
                },
                None => !has_attr_named(self@, e.idx(), name@),
            },
    {
        match self.find_attr(e, name) {
            Some(a) => Some(self.storage.attr_value_str(a)),
            None => None,
        }
    }

    /// Set the attribute `name` of element `e` to `value`: the existing
    /// attribute of that name has its value replaced in place, or a fresh
    /// attribute node is created and registered on `e`. Either way exactly
    /// one attribute of that name stands on `e` afterwards, holding `value`;
    /// the returned handle is the attribute written.
    pub fn set_attribute_value(&mut self, e: NodeHandle, name: &QName, value: &str) -> (r:
        NodeHandle)
        requires
            old(self).inv(),
            e.idx() < old(self)@.len(),
            old(self)@.nodes[e.idx() as int] is Element,
        ensures
            final(self).inv(),
            final(self)@ == set_attr_doc(old(self)@, e.idx(), name@, value@).0,
            r.idx() == set_attr_doc(old(self)@, e.idx(), name@, value@).1,
    {
        match self.find_attr(e, name) {
            Some(a) => {
                self.storage.set_attr_value(a, value);
                proof {
                    crate::connections::lemma_wf_lens(&old(self).connections);
                    lemma_decls_content_extend(
                        self.connections.decls_view(),
                        old(self).storage.pool_view(),
                        self.storage.pool_view(),
                    );
                    lemma_update_preserves(
                        old(self),
                        self,
                        a,
                        NodeView::Attribute { name: name@, value: value@ },
                    );
                }
                NodeHandle { index: a }
            },
            None => {
                let a = self.storage.create_attribute_rec(name, value);
                proof {
                    crate::connections::lemma_wf_lens(&old(self).connections);
                    lemma_decls_content_extend(
                        self.connections.decls_view(),
                        old(self).storage.pool_view(),
                        self.storage.pool_view(),
                    );
                }
                self.connections.register_node();
                let ghost mid = *self;
                proof {
                    lemma_register_preserves(
                        old(self),
                        &mid,
                        NodeView::Attribute { name: name@, value: value@ },
                    );
                }
                self.connections.push_attr(e.index, a);
                proof {
                    lemma_push_attr_preserves(old(self), &mid, self, e.idx(), a, name@, value@);
                }
                NodeHandle { index: a }
            },
        }
    }
}

impl Package {
    /// A read-only, borrowing facade over this document: the query API that
    /// the writer collaborator consumes. It carries no state of its own.
    pub fn as_document(&self) -> (r: Document<'_>)
        ensures
            r@ == self@,
            r.inv() == self.inv(),
    {
        Document { package: self }
    }

    /// The two halves of the document, untyped: the payload storage and the
    /// relationship table, each borrowed read-only.
    pub fn as_thin_document(&self) -> (r: (&Storage, &Connections))
        ensures
            r.0.nodes_view() == self@.nodes,
            r.1.parent_view() == self@.parent,
            r.1.children_view() == self@.children,
            r.1.attrs_view() == self@.attrs,
    {
        (&self.storage, &self.connections)
    }

    /// The qualified name of an element, read back as an owned value.
    pub fn element_name(&self, e: NodeHandle) -> (r: QName)
        requires
            self.inv(),
            e.idx() < self@.len(),
            self@.nodes[e.idx() as int] is Element,
        ensures
            r@ == self@.nodes[e.idx() as int]->Element_name,
    {
        let rn = self.storage.element_name_of_rec(e.index);
        self.storage.raw_name_read(rn)
    }

    /// The value of a text node.
    pub fn text_value(&self, t: NodeHandle) -> (r: &str)
        requires
            self.inv(),
            t.idx() < self@.len(),
            self@.nodes[t.idx() as int] is Text,
        ensures
            r@ == self@.nodes[t.idx() as int]->Text_value,
    {
        self.storage.text_value_str(t.index)
    }

    /// The value of a comment node.
    pub fn comment_value(&self, c: NodeHandle) -> (r: &str)
        requires
            self.inv(),
            c.idx() < self@.len(),
            self@.nodes[c.idx() as int] is Comment,
        ensures
            r@ == self@.nodes[c.idx() as int]->Comment_value,
    {
        self.storage.comment_value_str(c.index)
    }

    /// The target of a processing instruction.
    pub fn processing_instruction_target(&self, n: NodeHandle) -> (r: &str)
        requires
            self.inv(),
            n.idx() < self@.len(),
            self@.nodes[n.idx() as int] is ProcessingInstruction,
        ensures
            r@ == self@.nodes[n.idx() as int]->ProcessingInstruction_target,
    {
        self.storage.pi_target_str(n.index)
    }

    /// The value of a processing instruction.
    pub fn processing_instruction_value(&self, n: NodeHandle) -> (r: &str)
        requires
            self.inv(),
            n.idx() < self@.len(),
            self@.nodes[n.idx() as int] is ProcessingInstruction,
        ensures
            r@ == self@.nodes[n.idx() as int]->ProcessingInstruction_value,
    {
        self.storage.pi_value_str(n.index)
    }

    /// The name of an attribute node.
    pub fn attribute_name(&self, a: NodeHandle) -> (r: QName)
        requires
            self.inv(),
            a.idx() < self@.len(),
            self@.nodes[a.idx() as int] is Attribute,
        ensures
            r@ == self@.nodes[a.idx() as int]->Attribute_name,
    {
        let rn = self.storage.attr_name_of_rec(a.index);
        self.storage.raw_name_read(rn)
    }

    /// The value held by an attribute node.
    pub fn attribute_value_of(&self, a: NodeHandle) -> (r: &str)
        requires
            self.inv(),
            a.idx() < self@.len(),
            self@.nodes[a.idx() as int] is Attribute,
        ensures
            r@ == self@.nodes[a.idx() as int]->Attribute_value,
    {
        self.storage.attr_value_str(a.index)
    }

    /// The preferred prefix of an element, if one was set.
    pub fn preferred_prefix(&self, e: NodeHandle) -> (r: Option<&str>)
        requires
            self.inv(),
            e.idx() < self@.len(),
            self@.nodes[e.idx() as int] is Element,
        ensures
            match r {
                Some(p) => self@.nodes[e.idx() as int]->Element_preferred_prefix == Some(p@),
                None => self@.nodes[e.idx() as int]->Element_preferred_prefix is None,
            },
    {
        self.storage.preferred_prefix_str(e.index)
    }

    /// Record the prefix the element would like used when it is written.
    pub fn set_preferred_prefix(&mut self, e: NodeHandle, prefix: Option<&str>)
        requires
            old(self).inv(),
            e.idx() < old(self)@.len(),
            old(self)@.nodes[e.idx() as int] is Element,
        ensures
            final(self).inv(),
            final(self)@.nodes == old(self)@.nodes.update(
                e.idx() as int,
                NodeView::Element {
                    name: old(self)@.nodes[e.idx() as int]->Element_name,
                    preferred_prefix: match prefix {
                        Some(p) => Some(p@),
                        None => None,
                    },
                },
            ),
            final(self)@.parent == old(self)@.parent,
            final(self)@.children == old(self)@.children,
            final(self)@.attrs == old(self)@.attrs,
            final(self)@.decls == old(self)@.decls,
    {
        self.storage.set_pref_prefix(e.index, prefix);
        proof {
            crate::connections::lemma_wf_lens(&old(self).connections);
            lemma_decls_content_extend(
                self.connections.decls_view(),
                old(self).storage.pool_view(),
                self.storage.pool_view(),
            );
            lemma_update_preserves(
                old(self),
                self,
                e.index,
                NodeView::Element {
                    name: old(self)@.nodes[e.idx() as int]->Element_name,
                    preferred_prefix: match prefix {
                        Some(p) => Some(p@),
                        None => None,
                    },
                },
            );
        }
    }
}

/// A read-only view of a document: the query half of the facade, usable
/// while no one mutates the package it borrows.
pub struct Document<'d> {
    pub(crate) package: &'d Package,
}

impl<'d> Document<'d> {
    pub closed spec fn view(&self) -> DocView {
        self.package@
    }

    pub closed spec fn inv(&self) -> bool {
        self.package.inv()
    }

    pub fn root(&self) -> (r: NodeHandle)
        requires
            self.inv(),
        ensures
            r.idx() == 0,
            r.idx() < self@.len(),
            self@.nodes[r.idx() as int] is Root,
    {
        self.package.root()
    }

    pub fn kind(&self, n: NodeHandle) -> (r: NodeKind)
        requires
            self.inv(),
            n.idx() < self@.len(),
        ensures
            r == self@.kind_at(n.idx() as int),
    {
        self.package.kind(n)
    }

    pub fn parent(&self, n: NodeHandle) -> (r: Option<NodeHandle>)
        requires
            self.inv(),
            n.idx() < self@.len(),
        ensures
            match r {
                Some(p) => self@.parent[n.idx() as int] == Some(p.idx()) && p.idx() < self@.len(),
                None => self@.parent[n.idx() as int] is None,
            },
    {
        self.package.parent(n)
    }

    pub fn children(&self, n: NodeHandle) -> (r: Vec<NodeHandle>)
        requires
            self.inv(),
            n.idx() < self@.len(),
        ensures
            r@.map_values(|h: NodeHandle| h.idx()) == self@.children[n.idx() as int],
    {
        self.package.children(n)
    }

    pub fn attributes(&self, e: NodeHandle) -> (r: Vec<NodeHandle>)
        requires
            self.inv(),
            e.idx() < self@.len(),
        ensures
            r@.map_values(|h: NodeHandle| h.idx()) == self@.attrs[e.idx() as int],
    {
        self.package.attributes(e)
    }

    pub fn attribute_value(&self, e: NodeHandle, name: &QName) -> (r: Option<&str>)
        requires
            self.inv(),
            e.idx() < self@.len(),
        ensures
            match r {
                Some(v) => {
                    &&& has_attr_named(self@, e.idx(), name@)
                    &&& self@.nodes[attr_named(self@, e.idx(), name@) as int]->Attribute_value
                        == v@
                },
                None => !has_attr_named(self@, e.idx(), name@),
            },
    {
        self.package.attribute_value(e, name)
    }
}

/// After registering a fresh attribute node on an element whose attribute
/// names did not include it, the attribute sets are well formed again and
/// the view is exactly the creation branch of `set_attr_doc`.
proof fn lemma_push_attr_preserves(
    p0: &Package,
    mid: &Package,
    p1: &Package,
    e: usize,
    a: usize,
    name: QNameView,
    value: Seq<char>,
)
    requires
        p0.inv(),
        mid.inv(),
        e < p0@.len(),
        p0@.nodes[e as int] is Element,
        !has_attr_named(p0@, e, name),
        a == p0@.len(),
        mid@.nodes == p0@.nodes.push(NodeView::Attribute { name, value }),
        mid@.parent == p0@.parent.push(None),
        mid@.children == p0@.children.push(Seq::empty()),
        mid@.attrs == p0@.attrs.push(Seq::empty()),
        mid@.decls == p0@.decls.push(Seq::empty()),
        p1.storage == mid.storage,
        p1.connections.wf(),
        p1.connections.len() == mid.connections.len(),
        p1.connections.parent_view() == mid.connections.parent_view(),
        p1.connections.children_view() == mid.connections.children_view(),
        p1.connections.decls_view() == mid.connections.decls_view(),
        p1.connections.attrs_view() == mid.connections.attrs_view().update(
            e as int,
            mid.connections.attrs_view()[e as int].push(a),
        ),
    ensures
        p1.inv(),
        p1@ == set_attr_doc(p0@, e, name, value).0,
{
    crate::connections::lemma_wf_lens(&p0.connections);
    crate::connections::lemma_wf_lens(&mid.connections);
    crate::connections::lemma_wf_lens(&p1.connections);
    let n = p0@.len() as int;
    assert(!has_attr_named(p0@, e, name));
    assert(p1@.nodes == mid@.nodes && p1@.parent == mid@.parent && p1@.children == mid@.children
        && p1@.decls == mid@.decls);
    assert(p1@.attrs =~= p0@.attrs.push(Seq::empty()).update(
        e as int,
        p0@.attrs[e as int].push(a),
    )) by {
        assert(mid@.attrs[e as int] == p0@.attrs[e as int]);
    }
    // the new row is the old row of e plus the fresh attribute
    assert(attrs_wf(p1@)) by {
        assert forall|i: int, k: int|
            0 <= i < p1@.len() && 0 <= k < p1@.attrs[i].len() implies (#[trigger] p1@.attrs[i][k])
            < p1@.len() && p1@.nodes[p1@.attrs[i][k] as int] is Attribute by {
            if i == e && k == p1@.attrs[i].len() - 1 {
                assert(p1@.attrs[i][k] == a);
            } else {
                assert(i < n || p1@.attrs[i].len() == 0);
                assert(p1@.attrs[i][k] == p0@.attrs[i][k]);
                assert(p0@.attrs[i][k] < p0@.len());
            }
        }
        assert forall|i: int, k1: int, k2: int|
            0 <= i < p1@.len() && 0 <= k1 < p1@.attrs[i].len() && 0 <= k2 < p1@.attrs[i].len() && k1
                != k2 implies attr_name_of(p1@, #[trigger] p1@.attrs[i][k1]) != attr_name_of(
            p1@,
            #[trigger] p1@.attrs[i][k2],
        ) by {
            let last = p1@.attrs[i].len() - 1;
            if i == e {
                if k1 == last || k2 == last {
                    let ko: int = if k1 == last { k2 } else { k1 };
                    assert(p1@.attrs[i][ko] == p0@.attrs[i][ko]);
                    assert(p0@.attrs[i][ko] < n);
                    assert(attr_name_of(p1@, p0@.attrs[i][ko]) == attr_name_of(
                        p0@,
                        p0@.attrs[i][ko],
                    ));
                    assert(attr_name_of(p0@, p0@.attrs[i][ko]) != name);
                    assert(attr_name_of(p1@, a) == name);
                } else {
                    assert(p1@.attrs[i][k1] == p0@.attrs[i][k1]);
                    assert(p1@.attrs[i][k2] == p0@.attrs[i][k2]);
                    assert(p0@.attrs[i][k1] < n && p0@.attrs[i][k2] < n);
                    assert(attr_name_of(p0@, p0@.attrs[i][k1]) != attr_name_of(
                        p0@,
                        p0@.attrs[i][k2],
                    ));
                }
            } else {
                assert(i < n || p1@.attrs[i].len() == 0);
                assert(p1@.attrs[i][k1] == p0@.attrs[i][k1]);
                assert(p1@.attrs[i][k2] == p0@.attrs[i][k2]);
                assert(p0@.attrs[i][k1] < n && p0@.attrs[i][k2] < n);
                assert(attr_name_of(p0@, p0@.attrs[i][k1]) != attr_name_of(p0@, p0@.attrs[i][k2]));
            }
        }
    }
    assert(set_attr_doc(p0@, e, name, value).0.attrs == p0@.attrs.push(Seq::empty()).update(
        e as int,
        p0@.attrs[e as int].push(a),
    ));
}

/// Replacing one node's payload, keeping its kind (and, for an attribute,
/// its name), preserves every link-level and attribute-level invariant.
proof fn lemma_update_preserves(p0: &Package, p1: &Package, i: usize, v: NodeView)
    requires
        p0.inv(),
        p1.storage.inv(),
        p1.connections == p0.connections,
        i < p0@.len(),
        p1.storage.nodes_view() == p0.storage.nodes_view().update(i as int, v),
        kind_of_view(v) == p0@.kind_at(i as int),
        v is Attribute ==> v->Attribute_name == p0@.nodes[i as int]->Attribute_name,
        p0.storage.pool_view().is_prefix_of(p1.storage.pool_view()),
        decls_content(p0.connections.decls_view(), p1.storage.pool_view()) == p0@.decls,
    ensures
        p1.inv(),
        p1@.nodes == p0@.nodes.update(i as int, v),
        p1@.parent == p0@.parent,
        p1@.children == p0@.children,
        p1@.attrs == p0@.attrs,
        p1@.decls == p0@.decls,
{
    crate::connections::lemma_wf_lens(&p0.connections);
    crate::storage::lemma_node_count_bound(&p0.storage);
    let n = p0@.len() as int;
    assert(attrs_wf(p1@)) by {
        assert forall|x: int, k: int|
            0 <= x < p1@.len() && 0 <= k < p1@.attrs[x].len() implies (#[trigger] p1@.attrs[x][k])
            < p1@.len() && p1@.nodes[p1@.attrs[x][k] as int] is Attribute by {
            assert(p0@.attrs[x][k] < n);
            assert(p0@.nodes[p0@.attrs[x][k] as int] is Attribute);
        }
        assert forall|x: int, k1: int, k2: int|
            0 <= x < p1@.len() && 0 <= k1 < p1@.attrs[x].len() && 0 <= k2 < p1@.attrs[x].len() && k1
                != k2 implies attr_name_of(p1@, #[trigger] p1@.attrs[x][k1]) != attr_name_of(
            p1@,
            #[trigger] p1@.attrs[x][k2],
        ) by {
            assert(p0@.attrs[x][k1] < n && p0@.attrs[x][k2] < n);
            assert(attr_name_of(p1@, p0@.attrs[x][k1]) == attr_name_of(p0@, p0@.attrs[x][k1]));
            assert(attr_name_of(p1@, p0@.attrs[x][k2]) == attr_name_of(p0@, p0@.attrs[x][k2]));
            assert(attr_name_of(p0@, p0@.attrs[x][k1]) != attr_name_of(p0@, p0@.attrs[x][k2]));
        }
    }
    assert forall|x: int|
        0 <= x < p1@.len() && (#[trigger] p1@.parent[x]) is Some implies (p1@.nodes[p1@.parent[x]->Some_0 as int] is Root
        || p1@.nodes[p1@.parent[x]->Some_0 as int] is Element) by {
        crate::connections::lemma_wf_parent_in_range(&p0.connections, x as usize);
        assert(p0@.nodes[p0@.parent[x]->Some_0 as int] is Root
            || p0@.nodes[p0@.parent[x]->Some_0 as int] is Element);
    }
}

// ---------------------------------------------------------------------------
// Namespace and prefix resolution.
// ---------------------------------------------------------------------------

/// The reserved prefix, implicitly bound without any declaration.
pub open spec fn xml_prefix() -> Seq<char> {
    "xml"@
}

/// The fixed URI that the reserved `xml` prefix names.
pub open spec fn xml_namespace() -> Seq<char> {
    "http://www.w3.org/XML/1998/namespace"@
}

/// The first declaration of `prefix` in one element's declaration list.
pub open spec fn find_in_row(row: Seq<NsDeclView>, prefix: Seq<char>) -> Option<Seq<char>>
    decreases row.len(),
{
    if row.len() == 0 {
        None
    } else if row[0].prefix == prefix {
        Some(row[0].uri)
    } else {
        find_in_row(row.drop_first(), prefix)
    }
}

pub proof fn lemma_find_in_row_first(row: Seq<NsDeclView>, prefix: Seq<char>, k: int)
    requires
        0 <= k < row.len(),
        row[k].prefix == prefix,
        forall|j: int| 0 <= j < k ==> (#[trigger] row[j]).prefix != prefix,
    ensures
        find_in_row(row, prefix) == Some(row[k].uri),
    decreases row.len(),
{
    if k > 0 {
        lemma_find_in_row_first(row.drop_first(), prefix, k - 1);
    }
}

pub proof fn lemma_find_in_row_none(row: Seq<NsDeclView>, prefix: Seq<char>)
    requires
        forall|j: int| 0 <= j < row.len() ==> (#[trigger] row[j]).prefix != prefix,
    ensures
        find_in_row(row, prefix) is None,
    decreases row.len(),
{
    if row.len() > 0 {
        lemma_find_in_row_none(row.drop_first(), prefix);
    }
}

impl Package {
    /// The URI that `prefix` names at element `e` by explicit declarations:
    /// the nearest declaration on the walk from `e` to its outermost
    /// ancestor wins. Characterized publicly by [`lemma_scope_uri_step`].
    pub closed spec fn scope_uri_at(&self, e: usize, prefix: Seq<char>, fuel: nat) -> Option<
        Seq<char>,
    >
        decreases fuel,
    {
        match find_in_row(self@.decls[e as int], prefix) {
            Some(u) => Some(u),
            None => match self@.parent[e as int] {
                Some(q) => if fuel > 0 {
                    self.scope_uri_at(q, prefix, (fuel - 1) as nat)
                } else {
                    None
                },
                None => None,
            },
        }
    }

    pub closed spec fn scope_uri(&self, e: usize, prefix: Seq<char>) -> Option<Seq<char>> {
        self.scope_uri_at(e, prefix, self.connections.depth_view()[e as int] as nat)
    }
}

impl Package {
    /// Some declaration on `start` or one of its ancestors binds a prefix
    /// that, seen from `e`, resolves to `uri`.
    pub open spec fn uri_bound_from(&self, e: usize, start: usize, uri: Seq<char>) -> bool {
        exists|a: usize, k: int|
            a < self@.len() && reaches(self@.parent, start, a) && 0 <= k
                < self@.decls[a as int].len() && (#[trigger] self@.decls[a as int][k]).uri == uri
                && self.scope_uri(e, self@.decls[a as int][k].prefix) == Some(uri)
    }

    /// Some prefix in scope at `e` resolves to `uri` through an explicit
    /// declaration.
    pub open spec fn uri_bound_in_scope(&self, e: usize, uri: Seq<char>) -> bool {
        self.uri_bound_from(e, e, uri)
    }

    /// As `uri_bound_from`, but starting strictly above `cur`.
    pub open spec fn bound_above(&self, e: usize, cur: usize, uri: Seq<char>) -> bool {
        match self@.parent[cur as int] {
            Some(q) => self.uri_bound_from(e, q, uri),
            None => false,
        }
    }

    /// What a prefix resolves to at an element: its nearest explicit
    /// declaration, or, failing every declaration, the fixed XML namespace
    /// for the reserved `xml` prefix. A prefix with neither is undeclared.
    pub open spec fn resolved_uri(&self, e: usize, prefix: Seq<char>) -> Option<Seq<char>> {
        match self.scope_uri(e, prefix) {
            Some(u) => Some(u),
            None => if prefix == xml_prefix() {
                Some(xml_namespace())
            } else {
                None
            },
        }
    }
}

/// One unfolding of `scope_uri`: check the element's own declarations first,
/// then resolve at the parent.
pub proof fn lemma_scope_uri_step(p: &Package, e: usize, prefix: Seq<char>)
    requires
        p.inv(),
        e < p@.len(),
    ensures
        p.scope_uri(e, prefix) == (match find_in_row(p@.decls[e as int], prefix) {
            Some(u) => Some(u),
            None => match p@.parent[e as int] {
                Some(q) => p.scope_uri(q, prefix),
                None => None::<Seq<char>>,
            },
        }),
{
    crate::connections::lemma_wf_lens(&p.connections);
    crate::connections::lemma_wf_depth_at(&p.connections, e);
    match p@.parent[e as int] {
        Some(q) => {
            crate::connections::lemma_wf_depth_at(&p.connections, q);
        },
        None => {},
    }
}

/// A binding reachable from `cur` stands either in `cur`'s own declaration
/// list or above `cur`'s parent.
proof fn lemma_bound_step(p: &Package, e: usize, cur: usize, uri: Seq<char>)
    requires
        p.inv(),
        e < p@.len(),
        cur < p@.len(),
        p.uri_bound_from(e, cur, uri),
    ensures
        (exists|j: int|
            0 <= j < p@.decls[cur as int].len() && (#[trigger] p@.decls[cur as int][j]).uri == uri
                && p.scope_uri(e, p@.decls[cur as int][j].prefix) == Some(uri)) || p.bound_above(
            e,
            cur,
            uri,
        ),
{
    let (a, k) = choose|a: usize, k: int|
        a < p@.len() && reaches(p@.parent, cur, a) && 0 <= k < p@.decls[a as int].len() && (
        #[trigger] p@.decls[a as int][k]).uri == uri && p.scope_uri(
            e,
            p@.decls[a as int][k].prefix,
        ) == Some(uri);
    if a == cur {
        assert(p@.decls[cur as int][k].uri == uri);
    } else {
        lemma_reaches_unfold(p@.parent, cur, a);
        let q = p@.parent[cur as int]->Some_0;
        assert(p.uri_bound_from(e, q, uri)) by {
            assert(a < p@.len() && reaches(p@.parent, q, a) && 0 <= k < p@.decls[a as int].len()
                && p@.decls[a as int][k].uri == uri && p.scope_uri(
                e,
                p@.decls[a as int][k].prefix,
            ) == Some(uri));
        }
    }
}

impl Package {
    /// The URI that `prefix` names at `e` by explicit declarations, walking
    /// outward from `e`; the nearest declaration wins.
    fn scope_lookup(&self, e: usize, prefix: &str) -> (r: Option<String>)
        requires
            self.inv(),
            e < self@.len(),
        ensures
            match r {
                Some(u) => self.scope_uri(e, prefix@) == Some(u@),
                None => self.scope_uri(e, prefix@) is None,
            },
    {
        let pref = prefix.to_owned();
        let mut cur = e;
        loop
            invariant
                self.inv(),
                cur < self@.len(),
                pref@ == prefix@,
                self.scope_uri(e, prefix@) == self.scope_uri(cur, prefix@),
            decreases self.connections.depth_view()[cur as int],
        {
            proof {
                crate::connections::lemma_wf_lens(&self.connections);
            }
            let cnt = self.connections.num_decls(cur);
            let mut k: usize = 0;
            while k < cnt
                invariant
                    self.inv(),
                    cur < self@.len(),
                    pref@ == prefix@,
                    self.scope_uri(e, prefix@) == self.scope_uri(cur, prefix@),
                    cnt == self@.decls[cur as int].len(),
                    cnt == self.connections.decls_view()[cur as int].len(),
                    k <= cnt,
                    forall|j: int|
                        0 <= j < k ==> (#[trigger] self@.decls[cur as int][j]).prefix != prefix@,
                decreases cnt - k,
            {
                let b = self.connections.decl_at(cur, k);
                proof {
                    crate::connections::lemma_wf_lens(&self.connections);
                    assert(self@.decls[cur as int][k as int] == NsDeclView {
                        prefix: self.storage.pool_view()[b.prefix as int],
                        uri: self.storage.pool_view()[b.uri as int],
                    });
                }
                if *self.storage.pool_get_string(b.prefix) == pref {
                    let u = self.storage.pool_get(b.uri).to_owned();
                    proof {
                        assert(self@.decls[cur as int][k as int].prefix == prefix@);
                        lemma_find_in_row_first(self@.decls[cur as int], prefix@, k as int);
                        assert(find_in_row(self@.decls[cur as int], prefix@) == Some(
                            self@.decls[cur as int][k as int].uri,
                        ));
                        lemma_scope_uri_step(self, cur, prefix@);
                        assert(self.scope_uri(cur, prefix@) == Some(
                            self@.decls[cur as int][k as int].uri,
                        ));
                        assert(u@ == self@.decls[cur as int][k as int].uri);
                    }
                    return Some(u);
                }
                k += 1;
            }
            proof {
                crate::connections::lemma_wf_lens(&self.connections);
                lemma_find_in_row_none(self@.decls[cur as int], prefix@);
                lemma_scope_uri_step(self, cur, prefix@);
            }
            match self.connections.parent_of(cur) {
                Some(q) => {
                    proof {
                        crate::connections::lemma_wf_parent_in_range(&self.connections, cur);
                        crate::connections::lemma_wf_depth_at(&self.connections, cur);
                        crate::connections::lemma_wf_depth_at(&self.connections, q);
                    }
                    cur = q;
                },
                None => {
                    return None;
                },
            }
        }
    }

    /// Read-direction resolution: the URI that `prefix` names at element
    /// `e`, from the in-scope declarations, with the reserved `xml` prefix
    /// implicitly bound when nothing declares it.
    pub fn resolve_uri_for_prefix(&self, e: NodeHandle, prefix: &str) -> (r: Option<String>)
        requires
            self.inv(),
            e.idx() < self@.len(),
        ensures
            match r {
                Some(u) => self.resolved_uri(e.idx(), prefix@) == Some(u@),
                None => self.resolved_uri(e.idx(), prefix@) is None,
            },
    {
        match self.scope_lookup(e.index, prefix) {
            Some(u) => Some(u),
            None => {
                let pf = prefix.to_owned();
                let xml = String::from_str("xml");
                if pf == xml {
                    Some(String::from_str("http://www.w3.org/XML/1998/namespace"))
                } else {
                    None
                }
            },
        }
    }

    /// Resolve a raw prefixed name read from document text against the
    /// declarations in scope at `e`: an unprefixed name carries no
    /// namespace, a prefixed one the URI its prefix names. A prefix that
    /// nothing in scope (nor the reserved `xml` rule) binds is an error.
    pub fn resolve_prefixed_name(&self, e: NodeHandle, name: &PrefixedName) -> (r: Result<
        QName,
        Error,
    >)
        requires
            self.inv(),
            e.idx() < self@.len(),
        ensures
            match r {
                Ok(q) => match name.spec_prefix() {
                    Some(pf) => self.resolved_uri(e.idx(), pf) is Some && q@.namespace_uri
                        == Some(self.resolved_uri(e.idx(), pf)->Some_0) && q@.local_part
                        == name.spec_local_part(),
                    None => q@.namespace_uri is None && q@.local_part == name.spec_local_part(),
                },
                Err(err) => {
                    &&& err == Error::UndeclaredPrefix
                    &&& name.spec_prefix() is Some
                    &&& self.resolved_uri(e.idx(), name.spec_prefix()->Some_0) is None
                },
            },
    {
        match name.prefix() {
            Some(pf) => match self.resolve_uri_for_prefix(e, pf) {
                Some(u) => Ok(
                    QName::with_namespace_uri(Some(u), name.local_part().to_owned()),
                ),
                None => Err(Error::UndeclaredPrefix),
            },
            None => Ok(QName::new(name.local_part().to_owned())),
        }
    }

    /// Declare `prefix -> uri` on element `e`, which must not yet declare
    /// this prefix.
    fn declare_ns(&mut self, e: usize, prefix: &str, uri: &str)
        requires
            old(self).inv(),
            e < old(self)@.len(),
            old(self)@.nodes[e as int] is Element,
            forall|k: int|
                0 <= k < old(self)@.decls[e as int].len() ==> (
                #[trigger] old(self)@.decls[e as int][k]).prefix != prefix@,
        ensures
            final(self).inv(),
            final(self)@.nodes == old(self)@.nodes,
            final(self)@.parent == old(self)@.parent,
            final(self)@.children == old(self)@.children,
            final(self)@.attrs == old(self)@.attrs,
            final(self)@.decls == old(self)@.decls.update(
                e as int,
                old(self)@.decls[e as int].push(NsDeclView { prefix: prefix@, uri: uri@ }),
            ),
    {
        proof {
            crate::connections::lemma_wf_lens(&old(self).connections);
        }
        let hp = self.storage.intern_str(prefix);
        let ghost pmid = self.storage.pool_view();
        let hu = self.storage.intern_str(uri);
        proof {
            crate::storage::lemma_prefix_trans(
                old(self).storage.pool_view(),
                pmid,
                self.storage.pool_view(),
            );
            assert(self.storage.pool_view()[hp as int] == prefix@) by {
                crate::storage::lemma_pool_prefix_entry(
                    hp as int,
                    pmid,
                    self.storage.pool_view(),
                );
            }
            lemma_decls_content_extend(
                self.connections.decls_view(),
                old(self).storage.pool_view(),
                self.storage.pool_view(),
            );
        }
        let ghost mid = *self;
        self.connections.push_decl(e, NsBinding { prefix: hp, uri: hu });
        proof {
            lemma_declare_preserves(old(self), &mid, self, e, hp, hu, prefix@, uri@);
        }
    }
}

/// What `find_in_row` returns comes from an entry of the list.
pub proof fn lemma_find_in_row_some(row: Seq<NsDeclView>, prefix: Seq<char>)
    requires
        find_in_row(row, prefix) is Some,
    ensures
        exists|j: int|
            0 <= j < row.len() && (#[trigger] row[j]).prefix == prefix && row[j].uri
                == find_in_row(row, prefix)->Some_0,
    decreases row.len(),
{
    if row[0].prefix == prefix {
        assert(row[0].prefix == prefix && row[0].uri == find_in_row(row, prefix)->Some_0);
    } else {
        lemma_find_in_row_some(row.drop_first(), prefix);
        let j = choose|j: int|
            0 <= j < row.drop_first().len() && (#[trigger] row.drop_first()[j]).prefix == prefix
                && row.drop_first()[j].uri == find_in_row(row.drop_first(), prefix)->Some_0;
        assert(row[j + 1] == row.drop_first()[j]);
        assert(row[j + 1].prefix == prefix && row[j + 1].uri == find_in_row(row, prefix)->Some_0);
    }
}

/// Every prefix that explicit declarations resolve is the content of some
/// pool entry: declarations store interned handles.
proof fn lemma_scope_prefix_interned(p: &Package, e: usize, prefix: Seq<char>, fuel: nat)
    requires
        p.inv(),
        e < p@.len(),
        p.scope_uri_at(e, prefix, fuel) is Some,
    ensures
        exists|h: int|
            0 <= h < p.storage.pool_view().len() && p.storage.pool_view()[h] == prefix,
    decreases fuel,
{
    crate::connections::lemma_wf_lens(&p.connections);
    let row = p@.decls[e as int];
    match find_in_row(row, prefix) {
        Some(_) => {
            lemma_find_in_row_some(row, prefix);
            let j = choose|j: int| 0 <= j < row.len() && (#[trigger] row[j]).prefix == prefix;
            let b = p.connections.decls_view()[e as int][j];
            assert(row[j] == NsDeclView {
                prefix: p.storage.pool_view()[b.prefix as int],
                uri: p.storage.pool_view()[b.uri as int],
            });
            assert(p.storage.pool_view()[b.prefix as int] == prefix);
        },
        None => {
            match p@.parent[e as int] {
                Some(q) => {
                    crate::connections::lemma_wf_parent_in_range(&p.connections, e);
                    lemma_scope_prefix_interned(p, q, prefix, (fuel - 1) as nat);
                },
                None => {},
            }
        },
    }
}

/// A list in which `find_in_row` finds nothing holds no declaration of the
/// prefix at all.
pub proof fn lemma_find_in_row_none_conv(row: Seq<NsDeclView>, prefix: Seq<char>)
    requires
        find_in_row(row, prefix) is None,
    ensures
        forall|j: int| 0 <= j < row.len() ==> (#[trigger] row[j]).prefix != prefix,
    decreases row.len(),
{
    if row.len() > 0 {
        lemma_find_in_row_none_conv(row.drop_first(), prefix);
        assert forall|j: int| 0 <= j < row.len() implies (#[trigger] row[j]).prefix != prefix by {
            if j > 0 {
                assert(row.drop_first()[j - 1] == row[j]);
            }
        }
    }
}

impl Package {
    /// Write-direction resolution: the prefix to emit for `uri` at element
    /// `e`. A prefix already naming `uri` in scope is reused and nothing is
    /// declared; otherwise the preferred prefix, when given and free, is
    /// declared here and used; otherwise a fresh, undeclared prefix is
    /// synthesized and declared here. Either way the returned prefix
    /// resolves to `uri` at `e` afterwards; a conflict is never an error.
    pub fn resolve_prefix_for_write(&mut self, e: NodeHandle, uri: &str, preferred: Option<&str>)
        -> (r: String)
        requires
            old(self).inv(),
            e.idx() < old(self)@.len(),
            old(self)@.nodes[e.idx() as int] is Element,
        ensures
            final(self).inv(),
            final(self)@.nodes == old(self)@.nodes,
            final(self)@.parent == old(self)@.parent,
            final(self)@.children == old(self)@.children,
            final(self)@.attrs == old(self)@.attrs,
            final(self).resolved_uri(e.idx(), r@) == Some(uri@),
            ({
                let de = e.idx() as int;
                ||| (final(self)@.decls == old(self)@.decls && old(self).resolved_uri(e.idx(), r@)
                    == Some(uri@))
                ||| (old(self).resolved_uri(e.idx(), r@) is None && final(self)@.decls == old(
                    self,
                )@.decls.update(de, old(self)@.decls[de].push(NsDeclView { prefix: r@, uri: uri@ })))
            }),
            old(self).uri_bound_in_scope(e.idx(), uri@) ==> final(self)@.decls == old(
                self,
            )@.decls,
            match preferred {
                Some(pp) => (final(self)@.decls != old(self)@.decls && old(self).resolved_uri(
                    e.idx(),
                    pp@,
                ) is None) ==> r@ == pp@,
                None => true,
            },
    {
        let uri_s = uri.to_owned();
        let xmlns = String::from_str("http://www.w3.org/XML/1998/namespace");
        // the reserved prefix already names the fixed XML namespace
        if uri_s == xmlns {
            let xml_p = String::from_str("xml");
            match self.scope_lookup(e.index, xml_p.as_str()) {
                None => {
                    return xml_p;
                },
                Some(u2) => {
                    if u2 == uri_s {
                        return xml_p;
                    }
                },
            }
        }
        // reuse a prefix that already names this URI in scope; the walk is
        // complete: when any declaration in scope binds the URI, it is found
        let mut cur = e.index;
        loop
            invariant
                self.inv(),
                self == old(self),
                cur < self@.len(),
                e.idx() < self@.len(),
                uri_s@ == uri@,
                self.uri_bound_in_scope(e.idx(), uri@) ==> self.uri_bound_from(
                    e.idx(),
                    cur,
                    uri@,
                ),
            ensures
                self == old(self),
                e.idx() < self@.len(),
                uri_s@ == uri@,
                !self.uri_bound_in_scope(e.idx(), uri@),
            decreases self.connections.depth_view()[cur as int],
        {
            proof {
                crate::connections::lemma_wf_lens(&self.connections);
                if self.uri_bound_in_scope(e.idx(), uri@) {
                    lemma_bound_step(self, e.idx(), cur, uri@);
                }
            }
            let cnt = self.connections.num_decls(cur);
            let mut k: usize = 0;
            while k < cnt
                invariant
                    self.inv(),
                    self == old(self),
                    cur < self@.len(),
                    e.idx() < self@.len(),
                    uri_s@ == uri@,
                    cnt == self.connections.decls_view()[cur as int].len(),
                    cnt == self@.decls[cur as int].len(),
                    k <= cnt,
                    self.uri_bound_in_scope(e.idx(), uri@) ==> exists|j: int|
                        k <= j < cnt && (#[trigger] self@.decls[cur as int][j]).uri == uri@
                            && self.scope_uri(e.idx(), self@.decls[cur as int][j].prefix) == Some(
                            uri@,
                        ) || self.bound_above(e.idx(), cur, uri@),
                decreases cnt - k,
            {
                let b = self.connections.decl_at(cur, k);
                let ghost dk = self@.decls[cur as int][k as int];
                proof {
                    crate::connections::lemma_wf_lens(&self.connections);
                    assert(dk == NsDeclView {
                        prefix: self.storage.pool_view()[b.prefix as int],
                        uri: self.storage.pool_view()[b.uri as int],
                    });
                }
                if *self.storage.pool_get_string(b.uri) == uri_s {
                    let cand = self.storage.pool_get(b.prefix).to_owned();
                    match self.scope_lookup(e.index, cand.as_str()) {
                        Some(u2) => {
                            if u2 == uri_s {
                                return cand;
                            }
                            proof {
                                assert(self.scope_uri(e.idx(), dk.prefix) != Some(uri@));
                            }
                        },
                        None => {
                            proof {
                                assert(self.scope_uri(e.idx(), dk.prefix) != Some(uri@));
                            }
                        },
                    }
                } else {
                    proof {
                        assert(dk.uri != uri@);
                    }
                }
                k += 1;
            }
            match self.connections.parent_of(cur) {
                Some(q) => {
                    proof {
                        crate::connections::lemma_wf_parent_in_range(&self.connections, cur);
                        crate::connections::lemma_wf_depth_at(&self.connections, cur);
                        crate::connections::lemma_wf_depth_at(&self.connections, q);
                        if self.uri_bound_in_scope(e.idx(), uri@) {
                            assert(self.bound_above(e.idx(), cur, uri@));
                        }
                    }
                    cur = q;
                },
                None => {
                    proof {
                        if self.uri_bound_in_scope(e.idx(), uri@) {
                            assert(self.bound_above(e.idx(), cur, uri@));
                        }
                    }
                    break;
                },
            }
        }
        // declare the preferred prefix when it is free
        let xml_p = String::from_str("xml");
        match preferred {
            Some(pp) => {
                let pps = pp.to_owned();
                if !(pps == xml_p) {
                    match self.scope_lookup(e.index, pp) {
                        None => {
                            self.declare_and_prove(e, pp, uri);
                            return pp.to_owned();
                        },
                        Some(_) => {},
                    }
                }
            },
            None => {},
        }
        // synthesize a fresh prefix: the fixed stem, lengthened until it is
        // longer than every interned string, so that nothing in scope can
        // equal it
        let m = self.storage.pool_max_entry_len();
        let mut cand = String::from_str("autons");
        proof {
            reveal_strlit("autons");
            reveal_strlit("x");
            reveal_strlit("xml");
        }
        let mut extra: usize = 0;
        while extra < m
            invariant
                self == old(self),
                cand@.len() == 6 + extra,
                extra <= m,
            decreases m - extra,
        {
            proof {
                reveal_strlit("x");
            }
            cand.append("x");
            extra += 1;
        }
        proof {
            reveal_strlit("x");
        }
        cand.append("x");
        proof {
            assert(cand@.len() == 7 + m);
            if self.scope_uri(e.idx(), cand@) is Some {
                lemma_scope_prefix_interned(
                    self,
                    e.index,
                    cand@,
                    self.connections.depth_view()[e.idx() as int] as nat,
                );
                let h = choose|h: int|
                    0 <= h < self.storage.pool_view().len() && self.storage.pool_view()[h]
                        == cand@;
                assert(self.storage.pool_view()[h].len() <= m);
                assert(false);
            }
        }
        self.declare_and_prove(e, cand.as_str(), uri);
        proof {
            assert(cand@ != xml_prefix()) by {
                assert(cand@.len() >= 7);
                assert(xml_prefix().len() == 3);
            }
        }
        cand
    }

    /// Declare a prefix that nothing currently resolves at `e` (and that is
    /// not the reserved `xml`), and show that it then resolves to `uri`.
    fn declare_and_prove(&mut self, e: NodeHandle, prefix: &str, uri: &str)
        requires
            old(self).inv(),
            e.idx() < old(self)@.len(),
            old(self)@.nodes[e.idx() as int] is Element,
            old(self).scope_uri(e.idx(), prefix@) is None,
        ensures
            final(self).inv(),
            final(self)@.nodes == old(self)@.nodes,
            final(self)@.parent == old(self)@.parent,
            final(self)@.children == old(self)@.children,
            final(self)@.attrs == old(self)@.attrs,
            final(self)@.decls == old(self)@.decls.update(
                e.idx() as int,
                old(self)@.decls[e.idx() as int].push(NsDeclView { prefix: prefix@, uri: uri@ }),
            ),
            final(self).scope_uri(e.idx(), prefix@) == Some(uri@),
            final(self).resolved_uri(e.idx(), prefix@) == Some(uri@),
    {
        proof {
            crate::connections::lemma_wf_lens(&old(self).connections);
            lemma_scope_uri_step(old(self), e.idx(), prefix@);
            lemma_find_in_row_none_conv(old(self)@.decls[e.idx() as int], prefix@);
        }
        self.declare_ns(e.index, prefix, uri);
        proof {
            crate::connections::lemma_wf_lens(&self.connections);
            let row1 = self@.decls[e.idx() as int];
            let last = row1.len() - 1;
            assert(row1 == old(self)@.decls[e.idx() as int].push(
                NsDeclView { prefix: prefix@, uri: uri@ },
            ));
            assert(row1[last].prefix == prefix@ && row1[last].uri == uri@);
            assert forall|j: int| 0 <= j < last implies (#[trigger] row1[j]).prefix != prefix@ by {
                assert(row1[j] == old(self)@.decls[e.idx() as int][j]);
            }
            lemma_find_in_row_first(row1, prefix@, last);
            lemma_scope_uri_step(self, e.idx(), prefix@);
        }
    }
}

/// Pushing one declaration with a prefix new to the element keeps every
/// invariant; the content view gains exactly that declaration.
proof fn lemma_declare_preserves(
    p0: &Package,
    mid: &Package,
    p1: &Package,
    e: usize,
    hp: usize,
    hu: usize,
    prefix: Seq<char>,
    uri: Seq<char>,
)
    requires
        p0.inv(),
        mid.inv(),
        e < p0@.len(),
        p0@.nodes[e as int] is Element,
        forall|k: int|
            0 <= k < p0@.decls[e as int].len() ==> (#[trigger] p0@.decls[e as int][k]).prefix
                != prefix,
        mid.connections == p0.connections,
        mid.storage.nodes_view() == p0.storage.nodes_view(),
        p0.storage.pool_view().is_prefix_of(mid.storage.pool_view()),
        hp < mid.storage.pool_view().len(),
        hu < mid.storage.pool_view().len(),
        mid.storage.pool_view()[hp as int] == prefix,
        mid.storage.pool_view()[hu as int] == uri,
        mid@.decls == p0@.decls,
        p1.storage == mid.storage,
        p1.connections.wf(),
        p1.connections.len() == mid.connections.len(),
        p1.connections.parent_view() == mid.connections.parent_view(),
        p1.connections.children_view() == mid.connections.children_view(),
        p1.connections.attrs_view() == mid.connections.attrs_view(),
        p1.connections.decls_view() == mid.connections.decls_view().update(
            e as int,
            mid.connections.decls_view()[e as int].push(NsBinding { prefix: hp, uri: hu }),
        ),
    ensures
        p1.inv(),
        p1@.nodes == p0@.nodes,
        p1@.parent == p0@.parent,
        p1@.children == p0@.children,
        p1@.attrs == p0@.attrs,
        p1@.decls == p0@.decls.update(
            e as int,
            p0@.decls[e as int].push(NsDeclView { prefix, uri }),
        ),
{
    crate::connections::lemma_wf_lens(&p0.connections);
    crate::connections::lemma_wf_lens(&p1.connections);
    let n = p0@.len() as int;
    let plen = mid.storage.pool_view().len();
    // every stored handle (old rows and the new entry) lies inside the pool
    assert forall|i: int, k: int|
        0 <= i < n && 0 <= k < p1.connections.decls_view()[i].len() implies (
    #[trigger] p1.connections.decls_view()[i][k]).prefix < plen
        && p1.connections.decls_view()[i][k].uri < plen by {
        if i == e && k == p1.connections.decls_view()[i].len() - 1 {
        } else {
            assert(p1.connections.decls_view()[i][k] == p0.connections.decls_view()[i][k]);
        }
    }
    // the new prefix handle differs from every handle already on e
    assert forall|i: int, k1: int, k2: int|
        0 <= i < n && 0 <= k1 < p1.connections.decls_view()[i].len() && 0 <= k2
            < p1.connections.decls_view()[i].len() && k1 != k2 implies (
    #[trigger] p1.connections.decls_view()[i][k1]).prefix != (
    #[trigger] p1.connections.decls_view()[i][k2]).prefix by {
        let row1 = p1.connections.decls_view()[i];
        let last = row1.len() - 1;
        if i == e && (k1 == last || k2 == last) {
            let ko: int = if k1 == last { k2 } else { k1 };
            let bo = p0.connections.decls_view()[i][ko];
            assert(row1[ko] == bo);
            assert(p0@.decls[e as int][ko].prefix != prefix);
            assert(p0@.decls[e as int][ko] == NsDeclView {
                prefix: p0.storage.pool_view()[bo.prefix as int],
                uri: p0.storage.pool_view()[bo.uri as int],
            });
            assert(mid.storage.pool_view()[bo.prefix as int] == p0.storage.pool_view()[bo.prefix as int]);
            assert(mid.storage.pool_view()[bo.prefix as int] != prefix);
        } else {
            assert(row1[k1] == p0.connections.decls_view()[i][k1]);
            assert(row1[k2] == p0.connections.decls_view()[i][k2]);
            assert(p0.connections.decls_view()[i][k1].prefix
                != p0.connections.decls_view()[i][k2].prefix);
        }
    }
    assert(p1@.decls =~= p0@.decls.update(
        e as int,
        p0@.decls[e as int].push(NsDeclView { prefix, uri }),
    )) by {
        assert forall|i: int| 0 <= i < n implies p1@.decls[i] == p0@.decls.update(
            e as int,
            p0@.decls[e as int].push(NsDeclView { prefix, uri }),
        )[i] by {
            if i == e {
                assert(p1@.decls[i] =~= p0@.decls[e as int].push(
                    NsDeclView { prefix, uri },
                )) by {
                    assert forall|k: int| 0 <= k < p1@.decls[i].len() implies p1@.decls[i][k]
                        == p0@.decls[e as int].push(NsDeclView { prefix, uri })[k] by {
                        if k < p0@.decls[e as int].len() {
                            assert(p1.connections.decls_view()[i][k]
                                == p0.connections.decls_view()[i][k]);
                            assert(mid@.decls[i][k] == p0@.decls[i][k]);
                        }
                    }
                }
            } else {
                assert(p1.connections.decls_view()[i] == p0.connections.decls_view()[i]);
                assert(p1@.decls[i] == mid@.decls[i]);
            }
        }
    }
}

/// Appending a declaration to a list changes no lookup but its own prefix's,
/// and serves that one only where the list had no declaration of it.
pub proof fn lemma_find_in_row_push(row: Seq<NsDeclView>, b: NsDeclView, pr: Seq<char>)
    ensures
        find_in_row(row.push(b), pr) == (if find_in_row(row, pr) is Some {
            find_in_row(row, pr)
        } else if b.prefix == pr {
            Some(b.uri)
        } else {
            None
        }),
    decreases row.len(),
{
    if row.len() == 0 {
        assert(row.push(b)[0] == b);
        assert(row.push(b).drop_first() =~= Seq::<NsDeclView>::empty());
    } else {
        assert(row.push(b)[0] == row[0]);
        assert(row.push(b).drop_first() =~= row.drop_first().push(b));
        lemma_find_in_row_push(row.drop_first(), b, pr);
    }
}

proof fn lemma_declaration_frame_rec(
    p0: &Package,
    p1: &Package,
    decl_at: usize,
    prefix: Seq<char>,
    uri: Seq<char>,
    e: usize,
    other: Seq<char>,
)
    requires
        p0.inv(),
        p1.inv(),
        p1@.parent == p0@.parent,
        decl_at < p0@.len(),
        p1@.decls == p0@.decls.update(
            decl_at as int,
            p0@.decls[decl_at as int].push(NsDeclView { prefix, uri }),
        ),
        e < p0@.len(),
        other != prefix,
    ensures
        p1.scope_uri(e, other) == p0.scope_uri(e, other),
        p1.resolved_uri(e, other) == p0.resolved_uri(e, other),
    decreases p0.connections.depth_view()[e as int],
{
    crate::connections::lemma_wf_lens(&p0.connections);
    crate::connections::lemma_wf_lens(&p1.connections);
    crate::connections::lemma_wf_depth_at(&p0.connections, e);
    lemma_scope_uri_step(p0, e, other);
    lemma_scope_uri_step(p1, e, other);
    assert(find_in_row(p1@.decls[e as int], other) == find_in_row(p0@.decls[e as int], other)) by {
        if e == decl_at {
            lemma_find_in_row_push(p0@.decls[e as int], NsDeclView { prefix, uri }, other);
        } else {
            assert(p1@.decls[e as int] == p0@.decls[e as int]);
        }
    }
    match find_in_row(p0@.decls[e as int], other) {
        Some(_) => {},
        None => {
            match p0@.parent[e as int] {
                Some(q) => {
                    crate::connections::lemma_wf_parent_in_range(&p0.connections, e);
                    crate::connections::lemma_wf_depth_at(&p0.connections, q);
                    lemma_declaration_frame_rec(p0, p1, decl_at, prefix, uri, q, other);
                },
                None => {},
            }
        },
    }
}

/// Namespace scoping is local: declaring one prefix on one element changes
/// what no other prefix resolves to, at any element. In particular, after a
/// descendant shadows or extends the bindings, every other prefix still
/// resolves at every element exactly as before.
pub proof fn lemma_declaration_preserves_other_prefixes(
    p0: &Package,
    p1: &Package,
    decl_at: usize,
    prefix: Seq<char>,
    uri: Seq<char>,
    e: usize,
    other: Seq<char>,
)
    requires
        p0.inv(),
        p1.inv(),
        p1@.parent == p0@.parent,
        decl_at < p0@.len(),
        p1@.decls == p0@.decls.update(
            decl_at as int,
            p0@.decls[decl_at as int].push(NsDeclView { prefix, uri }),
        ),
        e < p0@.len(),
        other != prefix,
    ensures
        p1.scope_uri(e, other) == p0.scope_uri(e, other),
        p1.resolved_uri(e, other) == p0.resolved_uri(e, other),
{
    lemma_declaration_frame_rec(p0, p1, decl_at, prefix, uri, e, other);
}

/// Tree invariant, first half: whatever sequence of attach, detach and
/// insert operations built the document, following parent links upward from
/// any node ends at a parentless node in finitely many steps — the links
/// never form a cycle. (That every node has at most one parent is built into
/// the representation: the parent is a single optional link.)
pub proof fn lemma_parent_chain_terminates(p: &Package, x: usize)
    requires
        p.inv(),
        x < p@.len(),
    ensures
        exists|f: nat| chain_ends(p@.parent, x, f),
        p@.parent[0] is None,
{
    lemma_wf_chain_terminates(&p.connections, x);
    crate::connections::lemma_wf_root_parentless(&p.connections);
}

/// Tree invariant, second half: the ancestor relation is antisymmetric — two
/// distinct nodes are never each other's ancestors.
pub proof fn lemma_no_cycle(p: &Package, x: usize, t: usize)
    requires
        p.inv(),
        x < p@.len(),
        t < p@.len(),
        reaches(p@.parent, x, t),
        reaches(p@.parent, t, x),
    ensures
        x == t,
{
    lemma_wf_no_cycle(&p.connections, x, t);
}

/// Attribute replace semantics: setting attribute `name` of `e` to `v1` and
/// then to `v2` writes both times to one and the same attribute node, leaves
/// the attribute table as after the first call, and leaves exactly one
/// attribute of that name on `e`, holding `v2`.
pub proof fn lemma_attribute_replace(
    d: DocView,
    e: usize,
    name: QNameView,
    v1: Seq<char>,
    v2: Seq<char>,
)
    requires
        attrs_wf(d),
        e < d.len(),
        d.len() <= usize::MAX,
    ensures
        ({
            let (d1, a1) = set_attr_doc(d, e, name, v1);
            let (d2, a2) = set_attr_doc(d1, e, name, v2);
            &&& a2 == a1
            &&& d2.attrs == d1.attrs
            &&& has_attr_named(d2, e, name)
            &&& d2.nodes[a1 as int] == NodeView::Attribute { name, value: v2 }
            &&& forall|k: int|
                0 <= k < d2.attrs[e as int].len() && attr_name_of(
                    d2,
                    #[trigger] d2.attrs[e as int][k],
                ) == name ==> d2.attrs[e as int][k] == a1
        }),
{
    let (d1, a1) = set_attr_doc(d, e, name, v1);
    let (d2, a2) = set_attr_doc(d1, e, name, v2);
    if has_attr_named(d, e, name) {
        let k0 = choose|k: int|
            0 <= k < d.attrs[e as int].len() && attr_name_of(d, d.attrs[e as int][k]) == name;
        assert(d.attrs[e as int][k0] == a1);
        assert(attr_name_of(d1, a1) == name);
        assert(d1.attrs == d.attrs);
        assert(has_attr_named(d1, e, name)) by {
            assert(attr_name_of(d1, d1.attrs[e as int][k0]) == name);
        }
        assert forall|k: int|
            0 <= k < d1.attrs[e as int].len() && attr_name_of(
                d1,
                #[trigger] d1.attrs[e as int][k],
            ) == name implies d1.attrs[e as int][k] == a1 by {
            if d1.attrs[e as int][k] != a1 {
                assert(attr_name_of(d1, d1.attrs[e as int][k]) == attr_name_of(
                    d,
                    d.attrs[e as int][k],
                ));
                assert(k != k0);
                assert(attr_name_of(d, d.attrs[e as int][k]) != attr_name_of(
                    d,
                    d.attrs[e as int][k0],
                ));
            }
        }
        let k1 = choose|k: int|
            0 <= k < d1.attrs[e as int].len() && attr_name_of(d1, d1.attrs[e as int][k]) == name;
        assert(a2 == d1.attrs[e as int][k1]);
        assert(a2 == a1);
        assert(d2.nodes =~= d.nodes.update(a1 as int, NodeView::Attribute { name, value: v2 }));
        assert forall|k: int|
            0 <= k < d2.attrs[e as int].len() && attr_name_of(
                d2,
                #[trigger] d2.attrs[e as int][k],
            ) == name implies d2.attrs[e as int][k] == a1 by {
            if d2.attrs[e as int][k] != a1 {
                assert(attr_name_of(d2, d2.attrs[e as int][k]) == attr_name_of(
                    d,
                    d.attrs[e as int][k],
                ));
                assert(k != k0);
                assert(attr_name_of(d, d.attrs[e as int][k]) != attr_name_of(
                    d,
                    d.attrs[e as int][k0],
                ));
            }
        }
        assert(attr_name_of(d2, a1) == name);
        assert(has_attr_named(d2, e, name)) by {
            assert(attr_name_of(d2, d2.attrs[e as int][k0]) == name);
        }
    } else {
        assert(a1 == d.len());
        assert(d1.attrs[e as int] == d.attrs[e as int].push(a1));
        let last = d.attrs[e as int].len() as int;
        assert(d1.attrs[e as int][last] == a1);
        assert(attr_name_of(d1, a1) == name);
        assert(has_attr_named(d1, e, name)) by {
            assert(attr_name_of(d1, d1.attrs[e as int][last]) == name);
        }
        assert forall|k: int|
            0 <= k < d1.attrs[e as int].len() && attr_name_of(
                d1,
                #[trigger] d1.attrs[e as int][k],
            ) == name implies d1.attrs[e as int][k] == a1 by {
            if k < last {
                assert(d1.attrs[e as int][k] == d.attrs[e as int][k]);
                assert(d.attrs[e as int][k] < d.len());
                assert(attr_name_of(d1, d.attrs[e as int][k]) == attr_name_of(
                    d,
                    d.attrs[e as int][k],
                ));
                assert(has_attr_named(d, e, name)) by {
                    assert(attr_name_of(d, d.attrs[e as int][k]) == name);
                }
                assert(false);
            }
        }
        let k1 = choose|k: int|
            0 <= k < d1.attrs[e as int].len() && attr_name_of(d1, d1.attrs[e as int][k]) == name;
        assert(a2 == d1.attrs[e as int][k1]);
        assert(a2 == a1);
        assert(d2.attrs == d1.attrs);
        assert(d2.nodes[a1 as int] == NodeView::Attribute { name, value: v2 });
        assert(attr_name_of(d2, a1) == name);
        assert(has_attr_named(d2, e, name)) by {
            assert(attr_name_of(d2, d2.attrs[e as int][last]) == name);
        }
        assert forall|k: int|
            0 <= k < d2.attrs[e as int].len() && attr_name_of(
                d2,
                #[trigger] d2.attrs[e as int][k],
            ) == name implies d2.attrs[e as int][k] == a1 by {
            if k < last {
                assert(d2.attrs[e as int][k] == d.attrs[e as int][k]);
                assert(d.attrs[e as int][k] < d.len());
                assert(attr_name_of(d2, d.attrs[e as int][k]) == attr_name_of(
                    d,
                    d.attrs[e as int][k],
                ));
                assert(has_attr_named(d, e, name)) by {
                    assert(attr_name_of(d, d.attrs[e as int][k]) == name);
                }
                assert(false);
            }
        }
    }
}

/// The root is the node at index 0, and the only node of kind `Root`.
proof fn lemma_root_is_zero(p: &Package, c: usize)
    requires
        p.inv(),
        c < p@.len(),
    ensures
        (p@.nodes[c as int] is Root) == (c == 0),
{
    crate::storage::lemma_root_kind(&p.storage);
}

/// Creating a node changes no existing record, link, attribute set or
/// declaration: the document's view grows by one empty-linked node.
proof fn lemma_register_preserves(p0: &Package, p1: &Package, v: NodeView)
    requires
        p0.inv(),
        p1.storage.inv(),
        p1.connections.wf(),
        p1.storage.nodes_view() == p0.storage.nodes_view().push(v),
        !(v is Root),
        p1.connections.parent_view() == p0.connections.parent_view().push(None),
        p1.connections.children_view() == p0.connections.children_view().push(Seq::empty()),
        p1.connections.attrs_view() == p0.connections.attrs_view().push(Seq::empty()),
        p1.connections.decls_view() == p0.connections.decls_view().push(Seq::empty()),
        decls_content(p0.connections.decls_view(), p1.storage.pool_view()) == p0@.decls,
        p0.storage.pool_view().is_prefix_of(p1.storage.pool_view()),
        p0.connections.len() == p0.storage.num_nodes(),
    ensures
        p1.inv(),
        p1@.nodes == p0@.nodes.push(v),
        p1@.parent == p0@.parent.push(None),
        p1@.children == p0@.children.push(Seq::empty()),
        p1@.attrs == p0@.attrs.push(Seq::empty()),
        p1@.decls == p0@.decls.push(Seq::empty()),
{
    crate::connections::lemma_wf_lens(&p0.connections);
    crate::connections::lemma_wf_lens(&p1.connections);
    crate::storage::lemma_node_count_bound(&p0.storage);
    let n = p0@.len() as int;
    assert forall|x: int|
        0 <= x < p1@.len() && (#[trigger] p1@.parent[x]) is Some implies (p1@.nodes[p1@.parent[x]->Some_0 as int] is Root
        || p1@.nodes[p1@.parent[x]->Some_0 as int] is Element) by {
        assert(x < n);
        assert(p0@.parent[x] is Some);
        crate::connections::lemma_wf_parent_in_range(&p0.connections, x as usize);
        assert(p1@.parent[x]->Some_0 < n);
    }
    assert(p1@.decls =~= p0@.decls.push(Seq::empty())) by {
        assert forall|i: int| 0 <= i < n + 1 implies p1@.decls[i] == p0@.decls.push(
            Seq::<NsDeclView>::empty(),
        )[i] by {
            if i < n {
                assert(p1.connections.decls_view()[i] == p0.connections.decls_view()[i]);
                assert(p1@.decls[i] == decls_content(
                    p0.connections.decls_view(),
                    p1.storage.pool_view(),
                )[i]);
            } else {
                assert(p1.connections.decls_view()[i] == Seq::<NsBinding>::empty());
                assert(p1@.decls[i] =~= Seq::<NsDeclView>::empty());
            }
        }
    }
    assert(attrs_wf(p1@)) by {
        assert forall|i: int, k: int|
            0 <= i < p1@.len() && 0 <= k < p1@.attrs[i].len() implies (#[trigger] p1@.attrs[i][k])
            < p1@.len() && p1@.nodes[p1@.attrs[i][k] as int] is Attribute by {
            assert(i < n);
            assert(p1@.attrs[i] == p0@.attrs[i]);
            assert(p0@.attrs[i][k] < p0@.len());
        }
        assert forall|i: int, k1: int, k2: int|
            0 <= i < p1@.len() && 0 <= k1 < p1@.attrs[i].len() && 0 <= k2 < p1@.attrs[i].len() && k1
                != k2 implies attr_name_of(p1@, #[trigger] p1@.attrs[i][k1]) != attr_name_of(
            p1@,
            #[trigger] p1@.attrs[i][k2],
        ) by {
            assert(i < n);
            assert(p1@.attrs[i] == p0@.attrs[i]);
            assert(p0@.attrs[i][k1] < p0@.len() && p0@.attrs[i][k2] < p0@.len());
            assert(attr_name_of(p0@, p0@.attrs[i][k1]) != attr_name_of(p0@, p0@.attrs[i][k2]));
        }
    }
}

/// A structural edit touches only the parent and children tables: node
/// payloads, attribute sets and declarations are untouched, so every
/// non-structural invariant clause carries over.
proof fn lemma_structural_preserves(p0: &Package, p1: &Package)
    requires
        p0.inv(),
        p1.storage == p0.storage,
        p1.connections.wf(),
        p1.connections.len() == p0.connections.len(),
        p1.connections.attrs_view() == p0.connections.attrs_view(),
        p1.connections.decls_view() == p0.connections.decls_view(),
        forall|x: int|
            0 <= x < p1.connections.parent_view().len() && (
            #[trigger] p1.connections.parent_view()[x]) is Some
                ==> p1.connections.parent_view()[x] == p0.connections.parent_view()[x]
                || (p0@.nodes[p1.connections.parent_view()[x]->Some_0 as int] is Root
                || p0@.nodes[p1.connections.parent_view()[x]->Some_0 as int] is Element) && !(
            p0@.nodes[x] is Root) && !(p0@.nodes[x] is Attribute),
    ensures
        p1.inv(),
        p1@.nodes == p0@.nodes,
        p1@.attrs == p0@.attrs,
        p1@.decls == p0@.decls,
{
    crate::connections::lemma_wf_lens(&p0.connections);
    crate::connections::lemma_wf_lens(&p1.connections);
}

/// Extending the string pool (as interning does) leaves the content of every
/// already-stored declaration unchanged.
pub(crate) proof fn lemma_decls_content_extend(
    raw: Seq<Seq<NsBinding>>,
    pool1: Seq<Seq<char>>,
    pool2: Seq<Seq<char>>,
)
    requires
        pool1.is_prefix_of(pool2),
        forall|i: int, k: int|
            0 <= i < raw.len() && 0 <= k < raw[i].len() ==> (#[trigger] raw[i][k]).prefix
                < pool1.len() && raw[i][k].uri < pool1.len(),
    ensures
        decls_content(raw, pool2) == decls_content(raw, pool1),
{
    assert(decls_content(raw, pool2) =~= decls_content(raw, pool1)) by {
        assert forall|i: int| 0 <= i < raw.len() implies decls_content(raw, pool2)[i]
            == decls_content(raw, pool1)[i] by {
            assert(decls_content(raw, pool2)[i] =~= decls_content(raw, pool1)[i]) by {
                assert forall|k: int| 0 <= k < raw[i].len() implies decls_content(raw, pool2)[i][k]
                    == decls_content(raw, pool1)[i][k] by {
                    assert(pool2[raw[i][k].prefix as int] == pool1[raw[i][k].prefix as int]);
                    assert(pool2[raw[i][k].uri as int] == pool1[raw[i][k].uri as int]);
                }
            }
        }
    }
}

} // verus!
