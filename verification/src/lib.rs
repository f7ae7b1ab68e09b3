//! An in-memory XML document model: a tree of elements, attributes, text,
//! comments and processing instructions, held in growth-only storage that
//! hands out handles valid for the whole life of the document.
//!
//! A [`Package`] owns all node records and all string content. Repeated text
//! is interned, so equal content across the document shares one allocation.
//! Structure (parent/child/sibling links and attribute sets) is kept in a
//! relationship table separate from the node payloads, so detaching and
//! reattaching a node never touches or reallocates its content.
//!
//! Element and attribute names are namespace-qualified: a [`QName`] pairs an
//! optional namespace URI with a local part, while a [`PrefixedName`] is the
//! raw prefixed form found in document text before any namespace mapping.

use vstd::prelude::*;

pub mod connections;
pub mod document;
pub mod storage;
pub mod string_pool;

pub use document::{DocView, Document, NodeHandle, NsDeclView, Package};
pub use storage::{NodeKind, NodeView};

verus! {

/// The recoverable failures of the document model. Allocation exhaustion is
/// not represented: growth of the backing storage aborts the process, as the
/// standard collections do, so no partial mutation is ever observable.
#[derive(Debug, Clone, Copy, PartialEq, Eq, Structural)]
pub enum Error {
    /// A structural edit would break the tree: the child is the root, a cycle
    /// would form, or the named child/reference is not where the call says.
    StructuralViolation,
    /// A prefixed name was resolved but no in-scope declaration (nor the
    /// reserved `xml` prefix) binds its prefix.
    UndeclaredPrefix,
}

/// A prefixed name. This represents what is found in the string form
/// of an XML document, and does not apply any namespace mapping.
#[derive(Debug, Clone)]
pub struct PrefixedName {
    prefix: Option<String>,
    local_part: String,
}

impl PrefixedName {
    pub closed spec fn spec_prefix(&self) -> Option<Seq<char>> {
        match self.prefix {
            Some(p) => Some(p@),
            None => None,
        }
    }

    pub closed spec fn spec_local_part(&self) -> Seq<char> {
        self.local_part@
    }

    /// Create a `PrefixedName` without a prefix.
    pub fn new(local_part: String) -> (r: PrefixedName)
        ensures
            r.spec_prefix() is None,
            r.spec_local_part() == local_part@,
    {
        PrefixedName::with_prefix(None, local_part)
    }

    /// Create a `PrefixedName` with an optional prefix.
    pub fn with_prefix(prefix: Option<String>, local_part: String) -> (r: PrefixedName)
        ensures
            r.spec_prefix() == match prefix {
                Some(p) => Some(p@),
                None => None::<Seq<char>>,
            },
            r.spec_local_part() == local_part@,
    {
        PrefixedName { prefix, local_part }
    }

    pub fn prefix(&self) -> (r: Option<&str>)
        ensures
            match r {
                Some(p) => self.spec_prefix() == Some(p@),
                None => self.spec_prefix() is None,
            },
    {
        match &self.prefix {
            Some(p) => Some(p.as_str()),
            None => None,
        }
    }

    pub fn local_part(&self) -> (r: &str)
        ensures
            r@ == self.spec_local_part(),
    {
        self.local_part.as_str()
    }
}

/// A namespace-qualified name. This represents the name of an element
/// or attribute *after* the prefix has been mapped to a specific
/// namespace.
#[derive(Debug, Clone)]
pub struct QName {
    pub(crate) namespace_uri: Option<String>,
    pub(crate) local_part: String,
}

impl QName {
    pub closed spec fn spec_namespace_uri(&self) -> Option<Seq<char>> {
        match self.namespace_uri {
            Some(u) => Some(u@),
            None => None,
        }
    }

    pub closed spec fn spec_local_part(&self) -> Seq<char> {
        self.local_part@
    }

    /// The content-level value of this name.
    pub open spec fn view(&self) -> QNameView {
        QNameView { namespace_uri: self.spec_namespace_uri(), local_part: self.spec_local_part() }
    }

    /// Create a `QName` without a namespace.
    pub fn new(local_part: String) -> (r: QName)
        ensures
            r.spec_namespace_uri() is None,
            r.spec_local_part() == local_part@,
    {
        QName::with_namespace_uri(None, local_part)
    }

    /// Create a `QName` with an optional namespace.
    pub fn with_namespace_uri(namespace_uri: Option<String>, local_part: String) -> (r: QName)
        ensures
            r.spec_namespace_uri() == match namespace_uri {
                Some(u) => Some(u@),
                None => None::<Seq<char>>,
            },
            r.spec_local_part() == local_part@,
    {
        QName { namespace_uri, local_part }
    }

    pub fn namespace_uri(&self) -> (r: Option<&str>)
        ensures
            match r {
                Some(u) => self.spec_namespace_uri() == Some(u@),
                None => self.spec_namespace_uri() is None,
            },
    {
        match &self.namespace_uri {
            Some(u) => Some(u.as_str()),
            None => None,
        }
    }

    pub fn local_part(&self) -> (r: &str)
        ensures
            r@ == self.spec_local_part(),
    {
        self.local_part.as_str()
    }
}

/// The mathematical value of a qualified name: an optional namespace URI and
/// a local part, both as character sequences.
pub ghost struct QNameView {
    pub namespace_uri: Option<Seq<char>>,
    pub local_part: Seq<char>,
}

} // verus!
