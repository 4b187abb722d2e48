//! Styles: the operation that applies one, and the two anchors that bound it.

use crate::id::{Counter, Lamport, PeerID, ID};
use crate::op::TextStyleInfoFlag;
use crate::value::InternalString;
use vstd::prelude::*;

verus! {

/// Which end of a style an anchor marks.
#[derive(Clone, Copy, Debug, PartialEq, Eq, Structural)]
pub enum AnchorType {
    Start,
    End,
}

/// The application of a style to a range of text.
#[derive(Debug)]
pub struct StyleOp {
    pub lamport: Lamport,
    pub peer: PeerID,
    pub cnt: Counter,
    pub key: InternalString,
    pub info: TextStyleInfoFlag,
}

/// What a style operation says.
pub struct StyleModel {
    pub lamport: Lamport,
    pub peer: PeerID,
    pub cnt: Counter,
    pub key: Seq<char>,
    pub info: TextStyleInfoFlag,
}

impl View for StyleOp {
    type V = StyleModel;

    open spec fn view(&self) -> StyleModel {
        StyleModel {
            lamport: self.lamport,
            peer: self.peer,
            cnt: self.cnt,
            key: self.key@,
            info: self.info,
        }
    }
}

impl StyleModel {
    /// The identity of the operation that applied the style.
    pub open spec fn id(&self) -> ID {
        ID { peer: self.peer, counter: self.cnt }
    }
}

impl StyleOp {
    /// The identity of the operation that applied the style.
    pub fn id(&self) -> (id: ID)
        ensures
            id == self@.id(),
    {
        ID { peer: self.peer, counter: self.cnt }
    }

    /// A copy that says the same.
    pub fn duplicate(&self) -> (copy: StyleOp)
        ensures
            copy@ == self@,
    {
        StyleOp {
            lamport: self.lamport,
            peer: self.peer,
            cnt: self.cnt,
            key: self.key.clone(),
            info: self.info,
        }
    }
}

} // verus!
