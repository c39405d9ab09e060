//! The typed records kept in the store, their mathematical views, and the
//! error taxonomy.
//!
//! Addresses are opaque identifiers handed out by the content store; two
//! records with identical serialized bytes share one address. An owner or
//! agent identity is itself an address, supplied explicitly by the caller.

use vstd::prelude::*;
use crate::effort::Effort;

verus! {

/// A content address: an opaque byte key. The store derives a record's
/// address deterministically from its serialized content alone, so two
/// records with identical bytes share one address in every store; an
/// owner's identity is an arbitrary key the caller supplies.
#[derive(Clone, Debug, PartialEq, Eq, Hash)]
pub struct Address {
    pub key: Vec<u8>,
}

impl View for Address {
    type V = Seq<u8>;

    open spec fn view(&self) -> Seq<u8> {
        self.key@
    }
}

impl Address {
    /// An address over the given key bytes.
    pub fn from_bytes(key: Vec<u8>) -> (a: Address)
        ensures
            a@ == key@,
    {
        Address { key }
    }

    /// A copy of this address.
    pub fn duplicate(&self) -> (a: Address)
        ensures
            a@ == self@,
    {
        let mut key: Vec<u8> = Vec::new();
        let mut i: usize = 0;
        while i < self.key.len()
            invariant
                i <= self.key@.len(),
                key@ == self.key@.take(i as int),
            decreases self.key@.len() - i,
        {
            key.push(self.key[i]);
            i = i + 1;
            proof {
                assert(key@ =~= self.key@.take(i as int));
            }
        }
        proof {
            assert(self.key@.take(self.key@.len() as int) =~= self.key@);
        }
        Address { key }
    }

    /// Whether two addresses are the same key.
    pub fn matches(&self, other: &Address) -> (r: bool)
        ensures
            r == (self@ == other@),
    {
        if self.key.len() != other.key.len() {
            return false;
        }
        let mut i: usize = 0;
        while i < self.key.len()
            invariant
                i <= self.key@.len(),
                self.key@.len() == other.key@.len(),
                forall|j: int| 0 <= j < i ==> self.key@[j] == other.key@[j],
            decreases self.key@.len() - i,
        {
            if self.key[i] != other.key[i] {
                return false;
            }
            i = i + 1;
        }
        proof {
            assert(self.key@ =~= other.key@);
        }
        true
    }
}

/// The synthetic address of a link: its position in the append-only link
/// log. Unlike record addresses it is not content-derived: recording the
/// same edge twice yields two distinct link addresses.
pub type LinkAddress = u64;

/// An aim: a goal some agent states and may connect to other aims.
#[derive(Clone, Debug, PartialEq)]
pub struct Aim {
    pub title: String,
    pub description: String,
    pub effort: Effort,
    pub timestamp_ms: i64,
    pub color: [char; 6],
    pub tags: Vec<String>,
}

/// A weighted, directed contribution edge between two aims, stored as a
/// first-class record because links carry no structured payload.
#[derive(Clone, Debug, PartialEq)]
pub struct Connection {
    pub contributing: Address,
    pub receiving: Address,
    pub contribution: u32,
}

/// A profile some agent created.
#[derive(Clone, Debug, PartialEq)]
pub struct Profile {
    pub name: String,
    pub creator: Address,
}

/// The details known about one aim.
#[derive(Clone, Debug, PartialEq)]
pub struct AimDetails {
    pub aim: Aim,
}

/// One result of a two-hop traversal: the aim on the far side of a
/// connection, together with the connection itself and both addresses.
#[derive(Clone, Debug, PartialEq)]
pub struct ConnectedAim {
    pub aim: Aim,
    pub aim_address: Address,
    pub connection: Connection,
    pub connection_address: Address,
}

/// A profile together with the address it is stored at.
#[derive(Clone, Debug, PartialEq)]
pub struct AddressAndEntry {
    pub entry: Profile,
    pub address: Address,
}

/// A record of any of the store's types.
#[derive(Clone, Debug, PartialEq)]
pub enum Record {
    Aim(Aim),
    Connection(Connection),
    Profile(Profile),
}

/// The name tag of an entry's type.
#[derive(Clone, Copy, Debug, PartialEq, Eq, Structural)]
pub enum EntryKind {
    Aim,
    Connection,
    Profile,
}

// ---------------------------------------------------------------------------
// Mathematical views
// ---------------------------------------------------------------------------

/// The view of an aim: strings as character sequences, colors as their
/// Unicode scalar values.
#[verifier::ext_equal]
pub struct AimV {
    pub title: Seq<char>,
    pub description: Seq<char>,
    pub effort: Effort,
    pub timestamp_ms: i64,
    pub color: Seq<u32>,
    pub tags: Seq<Seq<char>>,
}

impl View for Aim {
    type V = AimV;

    open spec fn view(&self) -> AimV {
        AimV {
            title: self.title@,
            description: self.description@,
            effort: self.effort,
            timestamp_ms: self.timestamp_ms,
            color: Seq::new(6, |i: int| self.color@[i] as u32),
            tags: self.tags.deep_view(),
        }
    }
}

/// The view of a connection: addresses as their key bytes.
#[verifier::ext_equal]
pub struct ConnectionV {
    pub contributing: Seq<u8>,
    pub receiving: Seq<u8>,
    pub contribution: u32,
}

impl View for Connection {
    type V = ConnectionV;

    open spec fn view(&self) -> ConnectionV {
        ConnectionV {
            contributing: self.contributing@,
            receiving: self.receiving@,
            contribution: self.contribution,
        }
    }
}

/// The view of a profile.
#[verifier::ext_equal]
pub struct ProfileV {
    pub name: Seq<char>,
    pub creator: Seq<u8>,
}

impl View for Profile {
    type V = ProfileV;

    open spec fn view(&self) -> ProfileV {
        ProfileV { name: self.name@, creator: self.creator@ }
    }
}

/// The view of a record.
#[verifier::ext_equal]
pub enum RecordV {
    Aim(AimV),
    Connection(ConnectionV),
    Profile(ProfileV),
}

impl View for Record {
    type V = RecordV;

    open spec fn view(&self) -> RecordV {
        match self {
            Record::Aim(a) => RecordV::Aim(a@),
            Record::Connection(c) => RecordV::Connection(c@),
            Record::Profile(p) => RecordV::Profile(p@),
        }
    }
}

impl RecordV {
    /// The entry kind a record is stored under.
    pub open spec fn kind(self) -> EntryKind {
        match self {
            RecordV::Aim(_) => EntryKind::Aim,
            RecordV::Connection(_) => EntryKind::Connection,
            RecordV::Profile(_) => EntryKind::Profile,
        }
    }
}

impl Record {
    /// The entry kind this record is stored under.
    pub fn kind(&self) -> (k: EntryKind)
        ensures
            k == self@.kind(),
    {
        match self {
            Record::Aim(_) => EntryKind::Aim,
            Record::Connection(_) => EntryKind::Connection,
            Record::Profile(_) => EntryKind::Profile,
        }
    }
}

/// The view of the connected-aim composite.
#[verifier::ext_equal]
pub struct ConnectedAimV {
    pub aim: AimV,
    pub aim_address: Seq<u8>,
    pub connection: ConnectionV,
    pub connection_address: Seq<u8>,
}

impl View for ConnectedAim {
    type V = ConnectedAimV;

    open spec fn view(&self) -> ConnectedAimV {
        ConnectedAimV {
            aim: self.aim@,
            aim_address: self.aim_address@,
            connection: self.connection@,
            connection_address: self.connection_address@,
        }
    }
}

// ---------------------------------------------------------------------------
// Errors
// ---------------------------------------------------------------------------

/// Why decoding stored bytes into a typed record failed.
#[derive(Clone, Copy, Debug, PartialEq, Eq, Structural)]
pub enum DecodeError {
    /// The bytes are not the encoding of a record of the expected type.
    SchemaMismatch,
    /// A textual effort value does not follow `"<n>min|h|d|w|m|y"`.
    InvalidEffort,
}

/// Why committing a record failed. The in-memory store itself never fails;
/// the variant exists for callers that forward errors of a fallible backing
/// store.
#[derive(Clone, Copy, Debug, PartialEq, Eq, Structural)]
pub enum CommitError {
    StoreUnavailable,
}

/// Why recording a link failed. The in-memory index itself never fails.
#[derive(Clone, Copy, Debug, PartialEq, Eq, Structural)]
pub enum LinkError {
    StoreUnavailable,
}

/// Why a query failed.
#[derive(Clone, Copy, Debug, PartialEq, Eq, Structural)]
pub enum QueryError {
    /// No entry is stored at the given address.
    NotFound,
    /// The entry at the given address is not a record of the expected type.
    Malformed,
}

} // verus!
