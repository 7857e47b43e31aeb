use vstd::prelude::*;

use crate::arena::Id;
use crate::lexis::token::TokenRef;
use crate::syntax::node::NodeRef;

verus! {

/// A discriminant of a polymorphic reference.
#[derive(Clone, Copy, PartialEq, Eq, Structural, Hash, PartialOrd, Ord, Debug)]
pub enum RefKind {
    /// The reference is a [TokenRef].
    Token,
    /// The reference is a [NodeRef].
    Node,
}

impl RefKind {
    /// Returns true if `self` is [RefKind::Token].
    pub fn is_token(&self) -> (result: bool)
        ensures
            result == (*self is Token),
    {
        match self {
            RefKind::Token => true,
            _ => false,
        }
    }

    /// Returns true if `self` is [RefKind::Node].
    pub fn is_node(&self) -> (result: bool)
        ensures
            result == (*self is Node),
    {
        match self {
            RefKind::Node => true,
            _ => false,
        }
    }
}

/// An owned wrapper of either a [TokenRef] or a [NodeRef].
#[derive(Clone, Copy, PartialEq, Eq, Structural, Hash, PartialOrd, Ord, Debug)]
pub enum PolyVariant {
    /// A token reference.
    Token(TokenRef),
    /// A node reference.
    Node(NodeRef),
}

impl PolyVariant {
    /// True when the wrapped reference refers to nothing.
    pub open spec fn spec_is_nil(self) -> bool {
        match self {
            PolyVariant::Token(variant) => variant.spec_is_nil(),
            PolyVariant::Node(variant) => variant.spec_is_nil(),
        }
    }

    /// Returns the kind of the wrapped reference.
    pub fn kind(&self) -> (result: RefKind)
        ensures
            (result is Token) == (*self is Token),
            (result is Node) == (*self is Node),
    {
        match self {
            PolyVariant::Token(..) => RefKind::Token,
            PolyVariant::Node(..) => RefKind::Node,
        }
    }

    /// Returns the identifier of the compilation unit of the wrapped
    /// reference.
    pub fn id(&self) -> (result: Id)
        ensures
            result == match *self {
                PolyVariant::Token(variant) => variant.id,
                PolyVariant::Node(variant) => variant.id,
            },
    {
        match self {
            PolyVariant::Token(variant) => variant.id,
            PolyVariant::Node(variant) => variant.id,
        }
    }

    /// Returns true if the wrapped reference intentionally refers to nothing.
    pub fn is_nil(&self) -> (result: bool)
        ensures
            result == self.spec_is_nil(),
    {
        match self {
            PolyVariant::Token(variant) => variant.is_nil(),
            PolyVariant::Node(variant) => variant.is_nil(),
        }
    }

    /// Returns the wrapped token reference, or the nil token reference for
    /// a node.
    pub fn as_token_ref(&self) -> (result: TokenRef)
        ensures
            *self matches PolyVariant::Token(variant) ==> result == variant,
            *self is Node ==> result.id.inner == 0 && result.entry.index == usize::MAX && result.entry.version == 0,
    {
        match self {
            PolyVariant::Token(variant) => *variant,
            PolyVariant::Node(..) => TokenRef::nil(),
        }
    }

    /// Returns the wrapped node reference, or the nil node reference for a
    /// token.
    pub fn as_node_ref(&self) -> (result: NodeRef)
        ensures
            *self matches PolyVariant::Node(variant) ==> result == variant,
            *self is Token ==> result.id.inner == 0 && result.entry.index == usize::MAX && result.entry.version == 0,
    {
        match self {
            PolyVariant::Token(..) => NodeRef::nil(),
            PolyVariant::Node(variant) => *variant,
        }
    }
}

} // verus!
