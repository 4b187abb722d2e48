//! Identities: operations, the spans they cover, and containers.

use vstd::prelude::*;

verus! {

pub type PeerID = u64;

pub type Counter = i32;

pub type Lamport = u32;

/// The identity of one atom of an operation: who made it, and its number in
/// that peer's history.
#[derive(Clone, Copy, Debug, PartialEq, Eq, Hash, Structural)]
pub struct ID {
    pub peer: PeerID,
    pub counter: Counter,
}

impl ID {
    pub fn new(peer: PeerID, counter: Counter) -> (id: ID)
        ensures
            id == (ID { peer, counter }),
    {
        ID { peer, counter }
    }

    /// The identity `shift` atoms further on.
    pub fn inc(&self, shift: Counter) -> (id: ID)
        requires
            i32::MIN <= self.counter + shift <= i32::MAX,
        ensures
            id == (ID { peer: self.peer, counter: (self.counter + shift) as i32 }),
    {
        ID { peer: self.peer, counter: self.counter + shift }
    }

    /// The span of `len` atoms that begins here.
    pub fn to_span(&self, len: usize) -> (span: IdSpan)
        requires
            self.counter + len <= i32::MAX,
        ensures
            span == (IdSpan {
                peer: self.peer,
                counter: CounterSpan { start: self.counter, end: (self.counter + len) as i32 },
            }),
    {
        IdSpan {
            peer: self.peer,
            counter: CounterSpan {
                start: self.counter,
                end: (self.counter as i64 + len as i64) as i32,
            },
        }
    }
}

/// A half-open range of counters.
#[derive(Clone, Copy, Debug, PartialEq, Eq, Hash, Structural)]
pub struct CounterSpan {
    pub start: Counter,
    pub end: Counter,
}

/// A run of consecutive atoms of one peer.
#[derive(Clone, Copy, Debug, PartialEq, Eq, Hash, Structural)]
pub struct IdSpan {
    pub peer: PeerID,
    pub counter: CounterSpan,
}

impl IdSpan {
    pub open spec fn wf(&self) -> bool {
        self.counter.start <= self.counter.end
    }

    pub open spec fn len(&self) -> nat {
        (self.counter.end - self.counter.start) as nat
    }

    pub open spec fn contains(&self, id: ID) -> bool {
        id.peer == self.peer && self.counter.start <= id.counter < self.counter.end
    }

    pub fn atom_len(&self) -> (n: usize)
        requires
            self.wf(),
        ensures
            n == self.len(),
    {
        (self.counter.end as i64 - self.counter.start as i64) as usize
    }
}

#[derive(Clone, Copy, Debug, PartialEq, Eq, Hash, Structural)]
pub enum ContainerType {
    Dict,
    List,
    Text,
    Tree,
}

impl ContainerType {
    /// The number that stands for the type wherever it is packed or keyed.
    pub open spec fn tag(&self) -> u8 {
        match self {
            ContainerType::Dict => 0,
            ContainerType::List => 1,
            ContainerType::Text => 2,
            ContainerType::Tree => 3,
        }
    }

    pub fn to_tag(&self) -> (t: u8)
        ensures
            t == self.tag(),
    {
        match self {
            ContainerType::Dict => 0,
            ContainerType::List => 1,
            ContainerType::Text => 2,
            ContainerType::Tree => 3,
        }
    }
}

/// The plain value by which a container identity is keyed and compared.
pub type ContainerKey = (bool, Seq<char>, u64, i32, u8);

/// The identity of a container: a root has a name, any other container is
/// named after the operation that created it.
#[derive(Clone, Debug, PartialEq, Eq, Hash)]
pub enum ContainerID {
    Root { name: String, container_type: ContainerType },
    Normal { peer: PeerID, counter: Counter, container_type: ContainerType },
}

impl ContainerID {
    /// What identifies the container. Two identities are the same container
    /// exactly when their keys are equal.
    pub open spec fn key(&self) -> ContainerKey {
        match self {
            ContainerID::Root { name, container_type } => (
                true,
                name@,
                0u64,
                0i32,
                container_type.tag(),
            ),
            ContainerID::Normal { peer, counter, container_type } => (
                false,
                Seq::<char>::empty(),
                *peer,
                *counter,
                container_type.tag(),
            ),
        }
    }

    pub open spec fn spec_is_root(&self) -> bool {
        self is Root
    }

    pub open spec fn spec_container_type(&self) -> ContainerType {
        match self {
            ContainerID::Root { container_type, .. } => *container_type,
            ContainerID::Normal { container_type, .. } => *container_type,
        }
    }

    pub fn new_root(name: &str, container_type: ContainerType) -> (id: ContainerID)
        ensures
            id.key() == (true, name@, 0u64, 0i32, container_type.tag()),
            id.spec_is_root(),
            id.spec_container_type() == container_type,
    {
        ContainerID::Root { name: name.to_owned(), container_type }
    }

    pub fn new_normal(id: ID, container_type: ContainerType) -> (cid: ContainerID)
        ensures
            cid == (ContainerID::Normal { peer: id.peer, counter: id.counter, container_type }),
    {
        ContainerID::Normal { peer: id.peer, counter: id.counter, container_type }
    }

    #[verifier::when_used_as_spec(spec_is_root)]
    pub fn is_root(&self) -> (r: bool)
        ensures
            r == self.spec_is_root(),
    {
        match self {
            ContainerID::Root { .. } => true,
            ContainerID::Normal { .. } => false,
        }
    }

    #[verifier::when_used_as_spec(spec_container_type)]
    pub fn container_type(&self) -> (t: ContainerType)
        ensures
            t == self.spec_container_type(),
    {
        match self {
            ContainerID::Root { container_type, .. } => *container_type,
            ContainerID::Normal { container_type, .. } => *container_type,
        }
    }

    /// The key as a value that can be hashed.
    pub fn to_key(&self) -> (k: (bool, String, u64, i32, u8))
        ensures
            (k.0, k.1@, k.2, k.3, k.4) == self.key(),
    {
        match self {
            ContainerID::Root { name, container_type } => (
                true,
                name.clone(),
                0,
                0,
                container_type.to_tag(),
            ),
            ContainerID::Normal { peer, counter, container_type } => (
                false,
                String::new(),
                *peer,
                *counter,
                container_type.to_tag(),
            ),
        }
    }

    /// A copy that is the same container.
    pub fn duplicate(&self) -> (copy: ContainerID)
        ensures
            copy == *self,
    {
        match self {
            ContainerID::Root { name, container_type } => ContainerID::Root {
                name: name.clone(),
                container_type: *container_type,
            },
            ContainerID::Normal { peer, counter, container_type } => ContainerID::Normal {
                peer: *peer,
                counter: *counter,
                container_type: *container_type,
            },
        }
    }
}

/// The largest number of containers one arena can index.
pub const MAX_CONTAINERS: u32 = 0x1000_0000;

/// A dense handle for a container: its position in the arena's table in the
/// low 28 bits, its type in the 4 bits above them.
#[derive(Clone, Copy, Debug, PartialEq, Eq, Hash, Structural)]
pub struct ContainerIdx(pub u32);

impl ContainerIdx {
    pub open spec fn wf(&self) -> bool {
        (self.0 >> 28) < 4
    }

    pub open spec fn index(&self) -> u32 {
        self.0 & 0x0fff_ffff
    }

    pub open spec fn type_of(&self) -> ContainerType {
        let tag = self.0 >> 28;
        if tag == 0 {
            ContainerType::Dict
        } else if tag == 1 {
            ContainerType::List
        } else if tag == 2 {
            ContainerType::Text
        } else {
            ContainerType::Tree
        }
    }

    /// The handle that packs `index` and `container_type`.
    pub open spec fn pack(index: u32, container_type: ContainerType) -> ContainerIdx {
        ContainerIdx(((container_type.tag() as u32) << 28) | index)
    }

    pub proof fn lemma_pack(index: u32, container_type: ContainerType)
        requires
            index < MAX_CONTAINERS,
        ensures
            Self::pack(index, container_type).wf(),
            Self::pack(index, container_type).index() == index,
            Self::pack(index, container_type).type_of() == container_type,
    {
        let t = container_type.tag() as u32;
        assert(t < 4 && index < 0x1000_0000 ==> (((t << 28) | index) >> 28) == t && (((t << 28)
            | index) & 0x0fff_ffff) == index) by (bit_vector);
    }

    /// Two handles that agree on index and type are the same handle.
    pub proof fn lemma_pack_injective(a: ContainerIdx, b: ContainerIdx)
        requires
            a.index() == b.index(),
            (a.0 >> 28) == (b.0 >> 28),
        ensures
            a == b,
    {
        let x = a.0;
        let y = b.0;
        assert((x & 0x0fff_ffff) == (y & 0x0fff_ffff) && (x >> 28) == (y >> 28) ==> x == y)
            by (bit_vector);
    }

    pub fn from_index_and_type(index: u32, container_type: ContainerType) -> (idx: ContainerIdx)
        requires
            index < MAX_CONTAINERS,
        ensures
            idx == Self::pack(index, container_type),
            idx.wf(),
            idx.index() == index,
            idx.type_of() == container_type,
    {
        proof {
            Self::lemma_pack(index, container_type);
        }
        let tag: u32 = match container_type {
            ContainerType::Dict => 0,
            ContainerType::List => 1,
            ContainerType::Text => 2,
            ContainerType::Tree => 3,
        };
        ContainerIdx((tag << 28) | index)
    }

    pub fn get_type(&self) -> (t: ContainerType)
        requires
            self.wf(),
        ensures
            t == self.type_of(),
    {
        let tag = self.0 >> 28;
        if tag == 0 {
            ContainerType::Dict
        } else if tag == 1 {
            ContainerType::List
        } else if tag == 2 {
            ContainerType::Text
        } else {
            ContainerType::Tree
        }
    }

    pub fn to_index(&self) -> (i: u32)
        ensures
            i == self.index(),
            i < MAX_CONTAINERS,
    {
        let v = self.0;
        assert(v & 0x0fff_ffff < 0x1000_0000) by (bit_vector);
        self.0 & 0x0fff_ffff
    }
}

} // verus!
