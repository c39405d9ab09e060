//! The typed record operations and the graph query engine.
//!
//! Listings and traversals are best-effort by design: a link whose target is
//! absent or whose stored bytes do not decode as the expected record type is
//! silently dropped from the result, so one corrupt or unrelated entry never
//! fails a whole query. Two-hop traversal follows only the first `_aim` link
//! of each connection, mirroring the one-aim-per-connection assumption of
//! the link layout written by `handle_create_connection`.

use vstd::prelude::*;
use vstd::string::StringExecFns;
use crate::effort::Effort;
use crate::records::{
    Address, Aim, AimDetails, AimV, CommitError, Connection, ConnectionV, ConnectedAim,
    ConnectedAimV, EntryKind, LinkError, Profile, ProfileV, QueryError, Record, RecordV,
    AddressAndEntry,
};
use crate::codec::lemma_record_round_trip;
use crate::store::{
    address_of, decode_entry, entry_at, entry_of, find_by_key, find_entry, hits_match, key_of,
    lemma_find_by_key_push, lemma_links_from_none, lemma_links_from_push,
    lemma_links_from_targets, link_matches, links_from_spec, put_spec, EntryV, LinkFilter,
    LinkFilterV, LinkHit, LinkV, Store, StoreV,
};

verus! {

/// The aim stored at an address, if the address resolves and decodes.
pub open spec fn aim_at(sv: StoreV, address: Seq<u8>) -> Option<AimV> {
    match entry_at(sv, address) {
        Some(e) => match decode_entry(e, EntryKind::Aim) {
            Some(RecordV::Aim(a)) => Some(a),
            _ => None,
        },
        None => None,
    }
}

/// The connection stored at an address, if it resolves and decodes.
pub open spec fn connection_at(sv: StoreV, address: Seq<u8>) -> Option<ConnectionV> {
    match entry_at(sv, address) {
        Some(e) => match decode_entry(e, EntryKind::Connection) {
            Some(RecordV::Connection(c)) => Some(c),
            _ => None,
        },
        None => None,
    }
}

/// The profile stored at an address, if it resolves and decodes.
pub open spec fn profile_at(sv: StoreV, address: Seq<u8>) -> Option<ProfileV> {
    match entry_at(sv, address) {
        Some(e) => match decode_entry(e, EntryKind::Profile) {
            Some(RecordV::Profile(p)) => Some(p),
            _ => None,
        },
        None => None,
    }
}

// ---------------------------------------------------------------------------
// Single-hop loading: dereference matching links, drop failures
// ---------------------------------------------------------------------------

/// The aims reached through the given hits, in order, dropping every target
/// that is absent or does not decode as an aim.
pub open spec fn loaded_aims(sv: StoreV, hits: Seq<LinkHit>) -> Seq<AimV>
    decreases hits.len(),
{
    if hits.len() == 0 {
        Seq::empty()
    } else {
        let prev = loaded_aims(sv, hits.drop_last());
        match aim_at(sv, hits.last().target) {
            Some(a) => prev.push(a),
            None => prev,
        }
    }
}

/// The profiles reached through the given hits, each with its address, in
/// order, dropping every target that is absent or does not decode.
pub open spec fn loaded_profiles(sv: StoreV, hits: Seq<LinkHit>) -> Seq<(Seq<u8>, ProfileV)>
    decreases hits.len(),
{
    if hits.len() == 0 {
        Seq::empty()
    } else {
        let prev = loaded_profiles(sv, hits.drop_last());
        match profile_at(sv, hits.last().target) {
            Some(p) => prev.push((hits.last().target, p)),
            None => prev,
        }
    }
}

/// The record of the given kind stored at an address, if it resolves and
/// decodes.
pub open spec fn record_at(sv: StoreV, address: Seq<u8>, kind: EntryKind) -> Option<RecordV> {
    match entry_at(sv, address) {
        Some(e) => decode_entry(e, kind),
        None => None,
    }
}

/// The records of one kind reached through the given hits, in order,
/// dropping every target that is absent or does not decode.
pub open spec fn loaded_records(sv: StoreV, hits: Seq<LinkHit>, kind: EntryKind) -> Seq<RecordV>
    decreases hits.len(),
{
    if hits.len() == 0 {
        Seq::empty()
    } else {
        let prev = loaded_records(sv, hits.drop_last(), kind);
        match record_at(sv, hits.last().target, kind) {
            Some(r) => prev.push(r),
            None => prev,
        }
    }
}

/// The executable record listing matches its specification.
pub open spec fn records_match(v: Seq<Record>, s: Seq<RecordV>) -> bool {
    v.len() == s.len() && forall|i: int| 0 <= i < v.len() ==> (#[trigger] v[i])@ == s[i]
}

/// The executable aim listing matches its specification.
pub open spec fn aims_match(v: Seq<Aim>, s: Seq<AimV>) -> bool {
    v.len() == s.len() && forall|i: int| 0 <= i < v.len() ==> (#[trigger] v[i])@ == s[i]
}

/// The executable profile listing matches its specification.
pub open spec fn profiles_match(v: Seq<AddressAndEntry>, s: Seq<(Seq<u8>, ProfileV)>) -> bool {
    v.len() == s.len() && forall|i: int|
        0 <= i < v.len() ==> (#[trigger] v[i]).address@ == s[i].0 && v[i].entry@ == s[i].1
}

/// The executable bare profile listing matches its specification.
pub open spec fn bare_profiles_match(v: Seq<Profile>, s: Seq<(Seq<u8>, ProfileV)>) -> bool {
    v.len() == s.len() && forall|i: int| 0 <= i < v.len() ==> (#[trigger] v[i])@ == s[i].1
}

// ---------------------------------------------------------------------------
// Two-hop traversal
// ---------------------------------------------------------------------------

/// One candidate of a two-hop traversal: from a connection address, follow
/// the first `_aim` link only, and load both records; any failure drops the
/// candidate.
pub open spec fn connected_step(sv: StoreV, rel: Seq<char>, caddr: Seq<u8>) -> Option<
    ConnectedAimV,
> {
    let ahits = links_from_spec(sv.links, caddr, LinkFilterV::Exactly(rel + "_aim"@));
    if ahits.len() == 0 {
        None
    } else {
        let aaddr = ahits[0].target;
        match (connection_at(sv, caddr), aim_at(sv, aaddr)) {
            (Some(c), Some(a)) => Some(
                ConnectedAimV {
                    aim: a,
                    aim_address: aaddr,
                    connection: c,
                    connection_address: caddr,
                },
            ),
            _ => None,
        }
    }
}

/// The two-hop results for a list of candidate connection links, in order,
/// dropping failed candidates.
pub open spec fn connected_from_hits(sv: StoreV, rel: Seq<char>, hits: Seq<LinkHit>) -> Seq<
    ConnectedAimV,
>
    decreases hits.len(),
{
    if hits.len() == 0 {
        Seq::empty()
    } else {
        let prev = connected_from_hits(sv, rel, hits.drop_last());
        match connected_step(sv, rel, hits.last().target) {
            Some(c) => prev.push(c),
            None => prev,
        }
    }
}

/// All aims connected to `start` under the given relation.
pub open spec fn connected_spec(sv: StoreV, start: Seq<u8>, rel: Seq<char>) -> Seq<ConnectedAimV> {
    connected_from_hits(
        sv,
        rel,
        links_from_spec(sv.links, start, LinkFilterV::Exactly(rel + "_connection"@)),
    )
}

/// The executable traversal result matches its specification.
pub open spec fn connected_match(v: Seq<ConnectedAim>, s: Seq<ConnectedAimV>) -> bool {
    v.len() == s.len() && forall|i: int| 0 <= i < v.len() ==> (#[trigger] v[i])@ == s[i]
}

// ---------------------------------------------------------------------------
// Specifications of the write operations
// ---------------------------------------------------------------------------

/// Committing an aim for an owner: store the record, then link the owner to
/// it under the given link type. The returned address is the record's
/// content key.
pub open spec fn create_aim_spec(sv: StoreV, owner: Seq<u8>, a: AimV, link_type: Seq<char>) -> (
    StoreV,
    Seq<u8>,
) {
    let es = put_spec(sv.entries, entry_of(RecordV::Aim(a)));
    let address = address_of(RecordV::Aim(a));
    (
        StoreV {
            entries: es,
            links: sv.links.push(
                LinkV { base: owner, target: address, link_type, tag: Seq::empty() },
            ),
        },
        address,
    )
}

/// Creating one weighted contribution edge: commit the connection record,
/// then write the four links that make the edge traversable in both
/// relation directions.
pub open spec fn create_connection_spec(
    sv: StoreV,
    contributing: Seq<u8>,
    receiving: Seq<u8>,
    contribution: u32,
) -> (StoreV, Seq<u8>) {
    let c = ConnectionV { contributing, receiving, contribution };
    let es = put_spec(sv.entries, entry_of(RecordV::Connection(c)));
    let caddr = address_of(RecordV::Connection(c));
    (
        StoreV {
            entries: es,
            links: sv.links.push(
                LinkV {
                    base: contributing,
                    target: caddr,
                    link_type: "contributes_to_connection"@,
                    tag: Seq::empty(),
                },
            ).push(
                LinkV {
                    base: caddr,
                    target: receiving,
                    link_type: "contributes_to_aim"@,
                    tag: Seq::empty(),
                },
            ).push(
                LinkV {
                    base: receiving,
                    target: caddr,
                    link_type: "receives_from_connection"@,
                    tag: Seq::empty(),
                },
            ).push(
                LinkV {
                    base: caddr,
                    target: contributing,
                    link_type: "receives_from_aim"@,
                    tag: Seq::empty(),
                },
            ),
        },
        caddr,
    )
}

/// The fixed root aim each agent gets on first access.
pub open spec fn root_aim() -> AimV {
    AimV {
        title: "root aim"@,
        description: "this is the single root aim of this agent. Some algorithms will use these root aims as the main source of collective will: using these aims as the only entrance of value flow before calculating the importance of all goals"@,
        effort: Effort::Years(100),
        timestamp_ms: 1594443995818,
        color: Seq::new(6, |i: int| '5' as u32),
        tags: Seq::empty(),
    }
}

/// The first target linked from `owner` under the link type, if any.
pub open spec fn singleton_lookup(sv: StoreV, owner: Seq<u8>, link_type: Seq<char>) -> Option<
    Seq<u8>,
> {
    let hits = links_from_spec(sv.links, owner, LinkFilterV::Exactly(link_type));
    if hits.len() == 0 {
        None
    } else {
        Some(hits[0].target)
    }
}

/// Get-or-create: return the first linked target if one exists, else commit
/// the record, link the owner to it, and return its content address.
pub open spec fn singleton_spec(sv: StoreV, owner: Seq<u8>, link_type: Seq<char>, r: RecordV) -> (
    StoreV,
    Seq<u8>,
) {
    match singleton_lookup(sv, owner, link_type) {
        Some(t) => (sv, t),
        None => {
            let es = put_spec(sv.entries, entry_of(r));
            let address = address_of(r);
            (
                StoreV {
                    entries: es,
                    links: sv.links.push(
                        LinkV { base: owner, target: address, link_type, tag: Seq::empty() },
                    ),
                },
                address,
            )
        },
    }
}

// ---------------------------------------------------------------------------
// Executable operations
// ---------------------------------------------------------------------------

/// The caller's identity, threaded explicitly: the store has no ambient
/// notion of a current agent.
pub fn handle_get_agent_address(agent: Address) -> (r: Result<Address, QueryError>)
    ensures
        r == Ok::<Address, QueryError>(agent),
{
    Ok(agent)
}

/// The caller's identity, threaded explicitly.
pub fn handle_get_my_agent_address(agent: Address) -> (r: Result<Address, QueryError>)
    ensures
        r == Ok::<Address, QueryError>(agent),
{
    Ok(agent)
}

impl Store {
    /// Commits a new aim owned by `owner` and records the ownership link.
    pub fn handle_create_aim(
        &mut self,
        owner: Address,
        title: String,
        description: String,
        effort: Effort,
        timestamp_ms: i64,
        color: [char; 6],
        tags: Vec<String>,
    ) -> (r: Result<Address, CommitError>)
        ensures
            ({
                let a = AimV {
                    title: title@,
                    description: description@,
                    effort,
                    timestamp_ms,
                    color: Seq::new(6, |i: int| color@[i] as u32),
                    tags: tags.deep_view(),
                };
                let (sv, address) = create_aim_spec(old(self)@, owner@, a, "created_aim"@);
                &&& r is Ok
                &&& r.unwrap()@ == address
                &&& final(self)@ == sv
            }),
    {
        let aim = Aim { title, description, effort, timestamp_ms, color, tags };
        let record = Record::Aim(aim);
        let address = match self.commit(&record) {
            Ok(a) => a,
            Err(e) => {
                return Err(e);
            },
        };
        self.link(owner, address.duplicate(), "created_aim".to_owned(), String::new());
        proof {
            assert(final(self)@ =~~= create_aim_spec(
                old(self)@,
                owner@,
                record@->Aim_0,
                "created_aim"@,
            ).0);
        }
        Ok(address)
    }

    /// Commits a new version of an aim. The entry at `aim_address` persists
    /// unchanged; the caller must keep the returned address.
    pub fn handle_update_aim(
        &mut self,
        aim_address: Address,
        title: String,
        description: String,
        effort: Effort,
        timestamp_ms: i64,
        color: [char; 6],
        tags: Vec<String>,
    ) -> (r: Result<Address, CommitError>)
        ensures
            ({
                let a = AimV {
                    title: title@,
                    description: description@,
                    effort,
                    timestamp_ms,
                    color: Seq::new(6, |i: int| color@[i] as u32),
                    tags: tags.deep_view(),
                };
                &&& r is Ok
                &&& r.unwrap()@ == address_of(RecordV::Aim(a))
                &&& final(self)@.entries == put_spec(old(self)@.entries, entry_of(RecordV::Aim(a)))
                &&& final(self)@.links == old(self)@.links
            }),
    {
        let _ = aim_address;
        let aim = Aim { title, description, effort, timestamp_ms, color, tags };
        self.update(&Record::Aim(aim))
    }

    /// Creates the connection record for one weighted contribution edge and
    /// writes its four links, so that the edge is traversable as
    /// `contributes_to` from the contributing aim and `receives_from` from
    /// the receiving aim.
    pub fn handle_create_connection(
        &mut self,
        contributing_aim_address: Address,
        receiving_aim_address: Address,
        contribution: u32,
    ) -> (r: Result<(), LinkError>)
        ensures
            r is Ok,
            final(self)@ == create_connection_spec(
                old(self)@,
                contributing_aim_address@,
                receiving_aim_address@,
                contribution,
            ).0,
    {
        let connection = Connection {
            contributing: contributing_aim_address.duplicate(),
            receiving: receiving_aim_address.duplicate(),
            contribution,
        };
        let caddr = match self.commit(&Record::Connection(connection)) {
            Ok(a) => a,
            Err(_) => {
                return Err(LinkError::StoreUnavailable);
            },
        };
        self.link(
            contributing_aim_address.duplicate(),
            caddr.duplicate(),
            "contributes_to_connection".to_owned(),
            String::new(),
        );
        self.link(
            caddr.duplicate(),
            receiving_aim_address.duplicate(),
            "contributes_to_aim".to_owned(),
            String::new(),
        );
        self.link(
            receiving_aim_address,
            caddr.duplicate(),
            "receives_from_connection".to_owned(),
            String::new(),
        );
        self.link(caddr, contributing_aim_address, "receives_from_aim".to_owned(), String::new());
        proof {
            assert(final(self)@ =~~= create_connection_spec(
                old(self)@,
                contributing_aim_address@,
                receiving_aim_address@,
                contribution,
            ).0);
        }
        Ok(())
    }

    /// Creates a new aim that receives from an existing contributing aim,
    /// with a connection of weight one.
    pub fn handle_create_receiving_aim(
        &mut self,
        owner: Address,
        title: String,
        description: String,
        effort: Effort,
        timestamp_ms: i64,
        color: [char; 6],
        tags: Vec<String>,
        contributing_aim_address: Address,
    ) -> (r: Result<Address, CommitError>)
        ensures
            ({
                let a = AimV {
                    title: title@,
                    description: description@,
                    effort,
                    timestamp_ms,
                    color: Seq::new(6, |i: int| color@[i] as u32),
                    tags: tags.deep_view(),
                };
                let (sv1, address) = create_aim_spec(old(self)@, owner@, a, "created_aim"@);
                let (sv2, _) = create_connection_spec(sv1, contributing_aim_address@, address, 1);
                &&& r is Ok
                &&& r.unwrap()@ == address
                &&& final(self)@ == sv2
            }),
    {
        let new_aim_address = match self.handle_create_aim(
            owner,
            title,
            description,
            effort,
            timestamp_ms,
            color,
            tags,
        ) {
            Ok(a) => a,
            Err(e) => {
                return Err(e);
            },
        };
        match self.handle_create_connection(
            contributing_aim_address,
            new_aim_address.duplicate(),
            1,
        ) {
            Ok(_) => {},
            Err(_) => {
                return Err(CommitError::StoreUnavailable);
            },
        }
        Ok(new_aim_address)
    }

    /// Creates a new aim that contributes to an existing receiving aim,
    /// with a connection of weight one.
    pub fn handle_create_contributing_aim(
        &mut self,
        owner: Address,
        title: String,
        description: String,
        effort: Effort,
        timestamp_ms: i64,
        color: [char; 6],
        tags: Vec<String>,
        receiving_aim_address: Address,
    ) -> (r: Result<Address, CommitError>)
        ensures
            ({
                let a = AimV {
                    title: title@,
                    description: description@,
                    effort,
                    timestamp_ms,
                    color: Seq::new(6, |i: int| color@[i] as u32),
                    tags: tags.deep_view(),
                };
                let (sv1, address) = create_aim_spec(old(self)@, owner@, a, "created_aim"@);
                let (sv2, _) = create_connection_spec(sv1, address, receiving_aim_address@, 1);
                &&& r is Ok
                &&& r.unwrap()@ == address
                &&& final(self)@ == sv2
            }),
    {
        let new_aim_address = match self.handle_create_aim(
            owner,
            title,
            description,
            effort,
            timestamp_ms,
            color,
            tags,
        ) {
            Ok(a) => a,
            Err(e) => {
                return Err(e);
            },
        };
        match self.handle_create_connection(
            new_aim_address.duplicate(),
            receiving_aim_address,
            1,
        ) {
            Ok(_) => {},
            Err(_) => {
                return Err(CommitError::StoreUnavailable);
            },
        }
        Ok(new_aim_address)
    }

    /// All records of one kind linked from a base under a link type, in
    /// insertion order; targets that are absent or fail to decode are
    /// dropped, never surfaced as errors.
    pub fn list_entities(&self, base: Address, link_type: String, kind: EntryKind) -> (r: Result<
        Vec<Record>,
        QueryError,
    >)
        ensures
            r is Ok,
            records_match(
                r.unwrap()@,
                loaded_records(
                    self@,
                    links_from_spec(self@.links, base@, LinkFilterV::Exactly(link_type@)),
                    kind,
                ),
            ),
    {
        let ghost hs = links_from_spec(self@.links, base@, LinkFilterV::Exactly(link_type@));
        let hits = self.links_from(&base, &LinkFilter::Exactly(link_type));
        let mut out: Vec<Record> = Vec::new();
        let mut i: usize = 0;
        proof {
            assert(hs.take(0) =~= Seq::<LinkHit>::empty());
        }
        while i < hits.len()
            invariant
                i <= hits@.len(),
                hits@.len() == hs.len(),
                hits_match(hits@, hs),
                records_match(out@, loaded_records(self@, hs.take(i as int), kind)),
            decreases hits@.len() - i,
        {
            let target = &hits[i].0;
            proof {
                assert(hs.take(i + 1).drop_last() =~= hs.take(i as int));
                assert(hs.take(i + 1).last() == hs[i as int]);
                assert(target@ == hs[i as int].target);
            }
            match self.get(target) {
                Some(entry) => match entry.decode(kind) {
                    Ok(rec) => {
                        out.push(rec);
                    },
                    Err(_) => {},
                },
                None => {},
            }
            i = i + 1;
        }
        proof {
            assert(hs.take(hs.len() as int) =~= hs);
        }
        Ok(out)
    }

    /// All aims the owner created, in creation order, decode failures
    /// dropped.
    pub fn handle_get_aims(&self, owner: Address) -> (r: Result<Vec<Aim>, QueryError>)
        ensures
            r is Ok,
            aims_match(
                r.unwrap()@,
                loaded_aims(
                    self@,
                    links_from_spec(self@.links, owner@, LinkFilterV::Exactly("created_aim"@)),
                ),
            ),
    {
        let hits = self.links_from(&owner, &LinkFilter::Exactly("created_aim".to_owned()));
        let ghost hs = links_from_spec(self@.links, owner@, LinkFilterV::Exactly("created_aim"@));
        let mut out: Vec<Aim> = Vec::new();
        let mut i: usize = 0;
        proof {
            assert(hs.take(0) =~= Seq::<LinkHit>::empty());
        }
        while i < hits.len()
            invariant
                i <= hits@.len(),
                hits@.len() == hs.len(),
                hits_match(hits@, hs),
                aims_match(out@, loaded_aims(self@, hs.take(i as int))),
            decreases hits@.len() - i,
        {
            let target = &hits[i].0;
            proof {
                assert(hs.take(i + 1).drop_last() =~= hs.take(i as int));
                assert(hs.take(i + 1).last() == hs[i as int]);
                assert(target@ == hs[i as int].target);
            }
            match self.get(target) {
                Some(entry) => match entry.decode(EntryKind::Aim) {
                    Ok(Record::Aim(a)) => {
                        out.push(a);
                    },
                    _ => {},
                },
                None => {},
            }
            i = i + 1;
        }
        proof {
            assert(hs.take(hs.len() as int) =~= hs);
        }
        Ok(out)
    }

    /// The aim stored at an address: `NotFound` for an unknown address,
    /// `Malformed` when the entry there is not an aim.
    pub fn handle_get_aim_details(&self, aim_address: Address) -> (r: Result<
        AimDetails,
        QueryError,
    >)
        ensures
            match aim_at(self@, aim_address@) {
                Some(a) => r is Ok && r.unwrap().aim@ == a,
                None => {
                    &&& r is Err
                    &&& (entry_at(self@, aim_address@) is None <==> r == Err::<
                        AimDetails,
                        QueryError,
                    >(QueryError::NotFound))
                    &&& (entry_at(self@, aim_address@) is Some <==> r == Err::<
                        AimDetails,
                        QueryError,
                    >(QueryError::Malformed))
                },
            },
    {
        match self.get(&aim_address) {
            Some(entry) => match entry.decode(EntryKind::Aim) {
                Ok(Record::Aim(aim)) => Ok(AimDetails { aim }),
                _ => Err(QueryError::Malformed),
            },
            None => Err(QueryError::NotFound),
        }
    }

    /// Commits the fixed root aim for an owner and links it under
    /// `has_root_aim`, returning the aim's address.
    pub fn handle_create_root_aim(&mut self, owner: Address) -> (r: Result<Address, CommitError>)
        ensures
            ({
                let (sv, address) = create_aim_spec(old(self)@, owner@, root_aim(), "has_root_aim"@);
                &&& r is Ok
                &&& r.unwrap()@ == address
                &&& final(self)@ == sv
            }),
    {
        let record = Record::Aim(root_aim_record());
        let address = match self.commit(&record) {
            Ok(a) => a,
            Err(e) => {
                return Err(e);
            },
        };
        self.link(owner, address.duplicate(), "has_root_aim".to_owned(), String::new());
        proof {
            assert(final(self)@ =~~= create_aim_spec(
                old(self)@,
                owner@,
                root_aim(),
                "has_root_aim"@,
            ).0);
        }
        Ok(address)
    }

    /// The owner's root aim address, if a `has_root_aim` link exists.
    pub fn handle_get_root_aim_address(&self, owner: Address) -> (r: Result<
        Option<Address>,
        QueryError,
    >)
        ensures
            ({
                match singleton_lookup(self@, owner@, "has_root_aim"@) {
                    Some(t) => r is Ok && r.unwrap() is Some && r.unwrap().unwrap()@ == t,
                    None => r == Ok::<Option<Address>, QueryError>(None),
                }
            }),
    {
        let hits = self.links_from(&owner, &LinkFilter::Exactly("has_root_aim".to_owned()));
        if hits.len() > 0 {
            Ok(Some(hits[0].0.duplicate()))
        } else {
            Ok(None)
        }
    }

    /// Get-or-create for one well-known record per owner: returns the first
    /// linked target if one exists, else commits the record, links it, and
    /// returns its address. Not atomic across concurrent callers.
    pub fn get_or_create_singleton(
        &mut self,
        owner: Address,
        link_type: String,
        record: &Record,
    ) -> (r: Result<Address, CommitError>)
        ensures
            ({
                let (sv, address) = singleton_spec(old(self)@, owner@, link_type@, record@);
                &&& r is Ok
                &&& r.unwrap()@ == address
                &&& final(self)@ == sv
            }),
    {
        let hits = self.links_from(&owner, &LinkFilter::Exactly(link_type.clone()));
        if hits.len() > 0 {
            return Ok(hits[0].0.duplicate());
        }
        let address = match self.commit(record) {
            Ok(a) => a,
            Err(e) => {
                return Err(e);
            },
        };
        self.link(owner, address.duplicate(), link_type, String::new());
        proof {
            assert(final(self)@ =~~= singleton_spec(old(self)@, owner@, link_type@, record@).0);
        }
        Ok(address)
    }

    /// The owner's root aim address, created on first access.
    pub fn handle_get_root_aim_address_or_create(&mut self, owner: Address) -> (r: Result<
        Address,
        CommitError,
    >)
        ensures
            ({
                let (sv, address) = singleton_spec(
                    old(self)@,
                    owner@,
                    "has_root_aim"@,
                    RecordV::Aim(root_aim()),
                );
                &&& r is Ok
                &&& r.unwrap()@ == address
                &&& final(self)@ == sv
            }),
    {
        let record = Record::Aim(root_aim_record());
        self.get_or_create_singleton(owner, "has_root_aim".to_owned(), &record)
    }

    /// The aims the given aim contributes to.
    pub fn handle_get_receiving_aims(&self, contributing_aim_address: Address) -> (r: Result<
        Vec<ConnectedAim>,
        QueryError,
    >)
        ensures
            r is Ok,
            connected_match(
                r.unwrap()@,
                connected_spec(self@, contributing_aim_address@, "contributes_to"@),
            ),
    {
        self.get_connected_aims(contributing_aim_address, "contributes_to".to_owned())
    }

    /// The aims contributing to the given aim.
    pub fn handle_get_contributing_aims(&self, receiving_aim_address: Address) -> (r: Result<
        Vec<ConnectedAim>,
        QueryError,
    >)
        ensures
            r is Ok,
            connected_match(
                r.unwrap()@,
                connected_spec(self@, receiving_aim_address@, "receives_from"@),
            ),
    {
        self.get_connected_aims(receiving_aim_address, "receives_from".to_owned())
    }

    /// Two-hop traversal: follow `{relation}_connection` links from the
    /// start aim, then for each connection its first `{relation}_aim` link;
    /// candidates that fail to resolve or decode are dropped.
    pub fn get_connected_aims(&self, start_aim_address: Address, relation: String) -> (r: Result<
        Vec<ConnectedAim>,
        QueryError,
    >)
        ensures
            r is Ok,
            connected_match(r.unwrap()@, connected_spec(self@, start_aim_address@, relation@)),
    {
        let lt_conn = relation.clone().concat("_connection");
        let lt_aim = relation.clone().concat("_aim");
        let hits = self.links_from(&start_aim_address, &LinkFilter::Exactly(lt_conn));
        let ghost hs = links_from_spec(
            self@.links,
            start_aim_address@,
            LinkFilterV::Exactly(relation@ + "_connection"@),
        );
        let mut out: Vec<ConnectedAim> = Vec::new();
        let mut i: usize = 0;
        proof {
            assert(hs.take(0) =~= Seq::<LinkHit>::empty());
        }
        while i < hits.len()
            invariant
                i <= hits@.len(),
                hits@.len() == hs.len(),
                hits_match(hits@, hs),
                lt_aim@ == relation@ + "_aim"@,
                connected_match(out@, connected_from_hits(self@, relation@, hs.take(i as int))),
            decreases hits@.len() - i,
        {
            let caddr = &hits[i].0;
            proof {
                assert(hs.take(i + 1).drop_last() =~= hs.take(i as int));
                assert(hs.take(i + 1).last() == hs[i as int]);
                assert(caddr@ == hs[i as int].target);
            }
            let aim_hits = self.links_from(caddr, &LinkFilter::Exactly(lt_aim.clone()));
            if aim_hits.len() > 0 {
                let aaddr = &aim_hits[0].0;
                match self.get(caddr) {
                    Some(centry) => match centry.decode(EntryKind::Connection) {
                        Ok(Record::Connection(connection)) => match self.get(aaddr) {
                            Some(aentry) => match aentry.decode(EntryKind::Aim) {
                                Ok(Record::Aim(aim)) => {
                                    out.push(
                                        ConnectedAim {
                                            aim,
                                            aim_address: aaddr.duplicate(),
                                            connection,
                                            connection_address: caddr.duplicate(),
                                        },
                                    );
                                },
                                _ => {},
                            },
                            None => {},
                        },
                        _ => {},
                    },
                    None => {},
                }
            }
            i = i + 1;
        }
        proof {
            assert(hs.take(hs.len() as int) =~= hs);
        }
        Ok(out)
    }

    /// All profiles the owner created, each with its address, decode
    /// failures dropped.
    pub fn handle_get_my_profiles(&self, owner: Address) -> (r: Result<
        Vec<AddressAndEntry>,
        QueryError,
    >)
        ensures
            r is Ok,
            profiles_match(
                r.unwrap()@,
                loaded_profiles(
                    self@,
                    links_from_spec(
                        self@.links,
                        owner@,
                        LinkFilterV::Exactly("agent_created_profile"@),
                    ),
                ),
            ),
    {
        let hits = self.links_from(
            &owner,
            &LinkFilter::Exactly("agent_created_profile".to_owned()),
        );
        let ghost hs = links_from_spec(
            self@.links,
            owner@,
            LinkFilterV::Exactly("agent_created_profile"@),
        );
        let mut out: Vec<AddressAndEntry> = Vec::new();
        let mut i: usize = 0;
        proof {
            assert(hs.take(0) =~= Seq::<LinkHit>::empty());
        }
        while i < hits.len()
            invariant
                i <= hits@.len(),
                hits@.len() == hs.len(),
                hits_match(hits@, hs),
                profiles_match(out@, loaded_profiles(self@, hs.take(i as int))),
            decreases hits@.len() - i,
        {
            let target = &hits[i].0;
            proof {
                assert(hs.take(i + 1).drop_last() =~= hs.take(i as int));
                assert(hs.take(i + 1).last() == hs[i as int]);
                assert(target@ == hs[i as int].target);
            }
            match self.get(target) {
                Some(entry) => match entry.decode(EntryKind::Profile) {
                    Ok(Record::Profile(p)) => {
                        out.push(AddressAndEntry { entry: p, address: target.duplicate() });
                    },
                    _ => {},
                },
                None => {},
            }
            i = i + 1;
        }
        proof {
            assert(hs.take(hs.len() as int) =~= hs);
        }
        Ok(out)
    }

    /// All profiles the owner created, without their addresses.
    pub fn handle_get_my_profiles_without_addresses(&self, owner: Address) -> (r: Result<
        Vec<Profile>,
        QueryError,
    >)
        ensures
            r is Ok,
            bare_profiles_match(
                r.unwrap()@,
                loaded_profiles(
                    self@,
                    links_from_spec(
                        self@.links,
                        owner@,
                        LinkFilterV::Exactly("agent_created_profile"@),
                    ),
                ),
            ),
    {
        let with_addresses = match self.handle_get_my_profiles(owner) {
            Ok(v) => v,
            Err(e) => {
                return Err(e);
            },
        };
        let mut out: Vec<Profile> = Vec::new();
        let mut i: usize = 0;
        while i < with_addresses.len()
            invariant
                i <= with_addresses@.len(),
                out@.len() == i,
                forall|j: int| 0 <= j < i ==> (#[trigger] out@[j])@ == with_addresses@[j].entry@,
            decreases with_addresses@.len() - i,
        {
            let p = &with_addresses[i].entry;
            out.push(Profile { name: p.name.clone(), creator: p.creator.duplicate() });
            i = i + 1;
        }
        Ok(out)
    }

    /// Commits a new profile named by the owner and records the creation
    /// link.
    pub fn handle_create_profile(&mut self, owner: Address, name: String) -> (r: Result<
        Address,
        CommitError,
    >)
        ensures
            ({
                let p = ProfileV { name: name@, creator: owner@ };
                let address = address_of(RecordV::Profile(p));
                &&& r is Ok
                &&& r.unwrap()@ == address
                &&& final(self)@.entries == put_spec(
                    old(self)@.entries,
                    entry_of(RecordV::Profile(p)),
                )
                &&& final(self)@.links == old(self)@.links.push(
                    LinkV {
                        base: owner@,
                        target: address,
                        link_type: "agent_created_profile"@,
                        tag: Seq::empty(),
                    },
                )
            }),
    {
        let profile = Profile { name, creator: owner.duplicate() };
        let address = match self.commit(&Record::Profile(profile)) {
            Ok(a) => a,
            Err(e) => {
                return Err(e);
            },
        };
        self.link(owner, address.duplicate(), "agent_created_profile".to_owned(), String::new());
        Ok(address)
    }
}

// ---------------------------------------------------------------------------
// Laws of the query engine
// ---------------------------------------------------------------------------

/// Whether the target of a hit loads as an aim.
pub open spec fn aim_loadable(sv: StoreV, h: LinkHit) -> bool {
    aim_at(sv, h.target) is Some
}

/// When every candidate loads, a listing returns one aim per link, in
/// order.
#[verifier::rlimit(50)]
pub proof fn lemma_loaded_aims_all(sv: StoreV, hits: Seq<LinkHit>)
    requires
        forall|i: int| 0 <= i < hits.len() ==> aim_loadable(sv, #[trigger] hits[i]),
    ensures
        loaded_aims(sv, hits).len() == hits.len(),
        forall|i: int|
            0 <= i < hits.len() ==> loaded_aims(sv, hits)[i] == aim_at(
                sv,
                (#[trigger] hits[i]).target,
            ).unwrap(),
    decreases hits.len(),
{
    if hits.len() > 0 {
        assert(forall|i: int|
            0 <= i < hits.len() - 1 ==> aim_loadable(sv, #[trigger] hits.drop_last()[i]));
        lemma_loaded_aims_all(sv, hits.drop_last());
        assert(aim_loadable(sv, hits.last()));
        let res = loaded_aims(sv, hits);
        let prev = loaded_aims(sv, hits.drop_last());
        assert forall|i: int|
            0 <= i < hits.len() implies res[i] == aim_at(
            sv,
            (#[trigger] hits[i]).target,
        ).unwrap() by {
            if i < hits.len() - 1 {
                assert(hits.drop_last()[i] == hits[i]);
                assert(res[i] == prev[i]);
            } else {
                assert(res[i] == aim_at(sv, hits.last().target).unwrap());
            }
        }
    }
}

/// Drop-on-decode-failure: when exactly one candidate fails to load, a
/// listing returns every other aim in order and omits the failing one, so
/// its length is one less than the number of links.
#[verifier::rlimit(50)]
pub proof fn lemma_drop_on_decode_failure(sv: StoreV, hits: Seq<LinkHit>, j: int)
    requires
        0 <= j < hits.len(),
        !aim_loadable(sv, hits[j]),
        forall|i: int| 0 <= i < hits.len() && i != j ==> aim_loadable(sv, #[trigger] hits[i]),
    ensures
        loaded_aims(sv, hits) == loaded_aims(sv, hits.remove(j)),
        loaded_aims(sv, hits).len() == hits.len() - 1,
    decreases hits.len(),
{
    if j == hits.len() - 1 {
        assert(hits.remove(j) =~= hits.drop_last());
        assert(forall|i: int|
            0 <= i < hits.drop_last().len() ==> aim_loadable(sv, #[trigger] hits.drop_last()[i]));
        lemma_loaded_aims_all(sv, hits.drop_last());
    } else {
        assert(forall|i: int|
            0 <= i < hits.drop_last().len() && i != j ==> aim_loadable(
                sv,
                #[trigger] hits.drop_last()[i],
            ));
        assert(hits.drop_last()[j] == hits[j]);
        lemma_drop_on_decode_failure(sv, hits.drop_last(), j);
        assert(hits.remove(j).drop_last() =~= hits.drop_last().remove(j));
        assert(hits.remove(j).last() == hits.last());
        assert(aim_loadable(sv, hits.last()));
    }
}

/// Two sequential get-or-create calls for one owner and link type return
/// the same address, leave the store unchanged the second time, and create
/// at most one record in total.
pub proof fn lemma_singleton_idempotent(sv: StoreV, owner: Seq<u8>, lt: Seq<char>, r: RecordV)
    ensures
        ({
            let (sv1, a1) = singleton_spec(sv, owner, lt, r);
            let (sv2, a2) = singleton_spec(sv1, owner, lt, r);
            &&& sv2 == sv1
            &&& a2 == a1
            &&& sv1.entries.len() <= sv.entries.len() + 1
        }),
{
    let hits = links_from_spec(sv.links, owner, LinkFilterV::Exactly(lt));
    if hits.len() == 0 {
        let address = address_of(r);
        let l = LinkV { base: owner, target: address, link_type: lt, tag: Seq::empty() };
        lemma_links_from_push(sv.links, l, owner, LinkFilterV::Exactly(lt));
    }
}

/// The store's graph is healthy for traversal: every link's target resolves
/// to a stored entry, and every `_aim` link hangs off a stored entry.
/// Stores built through the typed operations alone keep this shape; raw
/// `link` calls to absent addresses can break it, and a link dangling at an
/// address that is filled later would start to resolve.
pub open spec fn graph_wf(sv: StoreV) -> bool {
    forall|i: int|
        0 <= i < sv.links.len() ==> find_by_key(
            sv.entries,
            (#[trigger] sv.links[i]).target,
        ) is Some && ((sv.links[i].link_type == "contributes_to_aim"@ || sv.links[i].link_type
            == "receives_from_aim"@) ==> find_by_key(sv.entries, sv.links[i].base) is Some)
}

/// The empty store's graph is healthy.
pub proof fn lemma_graph_wf_empty(sv: StoreV)
    requires
        sv.links.len() == 0,
    ensures
        graph_wf(sv),
{
}

// A key that resolves keeps resolving after a store: the entry log only
// grows.
proof fn lemma_resolves_after_put(s: Seq<EntryV>, e: EntryV, key: Seq<u8>)
    requires
        find_by_key(s, key) is Some,
    ensures
        find_by_key(put_spec(s, e), key) is Some,
{
    if find_entry(s, e) is None {
        lemma_find_by_key_push(s, e, key);
    }
}

/// Committing alone never disturbs graph health: the entry log only grows.
pub proof fn lemma_graph_wf_put(sv: StoreV, e: EntryV)
    requires
        graph_wf(sv),
    ensures
        graph_wf(StoreV { entries: put_spec(sv.entries, e), links: sv.links }),
{
    let es = put_spec(sv.entries, e);
    assert forall|i: int|
        0 <= i < sv.links.len() implies find_by_key(
        es,
        (#[trigger] sv.links[i]).target,
    ) is Some && ((sv.links[i].link_type == "contributes_to_aim"@ || sv.links[i].link_type
        == "receives_from_aim"@) ==> find_by_key(es, sv.links[i].base) is Some) by {
        lemma_resolves_after_put(sv.entries, e, sv.links[i].target);
        if sv.links[i].link_type == "contributes_to_aim"@ || sv.links[i].link_type
            == "receives_from_aim"@ {
            lemma_resolves_after_put(sv.entries, e, sv.links[i].base);
        }
    }
}

// The address of a freshly stored record resolves afterwards.
proof fn lemma_fresh_address_resolves(s: Seq<EntryV>, r: RecordV)
    ensures
        find_by_key(put_spec(s, entry_of(r)), address_of(r)) is Some,
{
    let e = entry_of(r);
    match find_entry(s, e) {
        Some(i) => {
            crate::store::lemma_find_entry_range(s, e);
            crate::store::lemma_find_by_key_some(s, key_of(e), i);
        },
        None => {
            lemma_find_by_key_push(s, e, key_of(e));
            if find_by_key(s, key_of(e)) is Some {
                crate::store::lemma_find_by_key_range(s, key_of(e));
                let j = find_by_key(s, key_of(e)).unwrap();
                crate::store::lemma_find_by_key_some(s.push(e), key_of(e), j);
            }
        },
    }
}

/// Creating an aim for any owner keeps the graph healthy, as long as the
/// ownership link type is not one of the traversal's `_aim` names.
pub proof fn lemma_graph_wf_create_aim(sv: StoreV, owner: Seq<u8>, a: AimV, link_type: Seq<char>)
    requires
        graph_wf(sv),
        link_type != "contributes_to_aim"@,
        link_type != "receives_from_aim"@,
    ensures
        graph_wf(create_aim_spec(sv, owner, a, link_type).0),
{
    let sv2 = create_aim_spec(sv, owner, a, link_type).0;
    lemma_graph_wf_put(sv, entry_of(RecordV::Aim(a)));
    lemma_fresh_address_resolves(sv.entries, RecordV::Aim(a));
    assert forall|i: int|
        0 <= i < sv2.links.len() implies find_by_key(
        sv2.entries,
        (#[trigger] sv2.links[i]).target,
    ) is Some && ((sv2.links[i].link_type == "contributes_to_aim"@ || sv2.links[i].link_type
        == "receives_from_aim"@) ==> find_by_key(sv2.entries, sv2.links[i].base) is Some) by {
        if i < sv.links.len() {
            assert(sv2.links[i] == sv.links[i]);
        } else {
            assert(sv2.links[i] == sv2.links.last());
        }
    }
}

/// Creating a connection between two stored entries keeps the graph
/// healthy.
pub proof fn lemma_graph_wf_create_connection(sv: StoreV, x: Seq<u8>, y: Seq<u8>, w: u32)
    requires
        graph_wf(sv),
        find_by_key(sv.entries, x) is Some,
        find_by_key(sv.entries, y) is Some,
    ensures
        graph_wf(create_connection_spec(sv, x, y, w).0),
{
    let c = ConnectionV { contributing: x, receiving: y, contribution: w };
    let sv2 = create_connection_spec(sv, x, y, w).0;
    lemma_graph_wf_put(sv, entry_of(RecordV::Connection(c)));
    lemma_fresh_address_resolves(sv.entries, RecordV::Connection(c));
    lemma_resolves_after_put(sv.entries, entry_of(RecordV::Connection(c)), x);
    lemma_resolves_after_put(sv.entries, entry_of(RecordV::Connection(c)), y);
    assert forall|i: int|
        0 <= i < sv2.links.len() implies find_by_key(
        sv2.entries,
        (#[trigger] sv2.links[i]).target,
    ) is Some && ((sv2.links[i].link_type == "contributes_to_aim"@ || sv2.links[i].link_type
        == "receives_from_aim"@) ==> find_by_key(sv2.entries, sv2.links[i].base) is Some) by {
        if i < sv.links.len() {
            assert(sv2.links[i] == sv.links[i]);
        } else {
            assert(sv2.links[i] == sv2.links[sv.links.len() + (i - sv.links.len())]);
        }
    }
}

// Facts about the four fixed link-type names, spelled out once.
proof fn lemma_link_type_names()
    ensures
        "contributes_to"@ + "_connection"@ == "contributes_to_connection"@,
        "contributes_to"@ + "_aim"@ == "contributes_to_aim"@,
        "receives_from"@ + "_connection"@ == "receives_from_connection"@,
        "receives_from"@ + "_aim"@ == "receives_from_aim"@,
        "contributes_to_aim"@ != "contributes_to_connection"@,
        "contributes_to_aim"@ != "receives_from_connection"@,
        "contributes_to_aim"@ != "receives_from_aim"@,
        "receives_from_aim"@ != "contributes_to_connection"@,
        "receives_from_aim"@ != "receives_from_connection"@,
        "contributes_to_connection"@ != "receives_from_connection"@,
{
    reveal_strlit("contributes_to");
    reveal_strlit("receives_from");
    reveal_strlit("_connection");
    reveal_strlit("_aim");
    reveal_strlit("contributes_to_connection");
    reveal_strlit("contributes_to_aim");
    reveal_strlit("receives_from_connection");
    reveal_strlit("receives_from_aim");
    assert("contributes_to"@ + "_connection"@ =~= "contributes_to_connection"@);
    assert("contributes_to"@ + "_aim"@ =~= "contributes_to_aim"@);
    assert("receives_from"@ + "_connection"@ =~= "receives_from_connection"@);
    assert("receives_from"@ + "_aim"@ =~= "receives_from_aim"@);
}

// One candidate of a traversal is unaffected by a fresh connection commit:
// the new entry sits at an address no old link touches, and the four new
// links touch no old candidate, as long as the relation's `_aim` name
// differs from both `_connection` names.
proof fn lemma_step_stable(
    sv: StoreV,
    x: Seq<u8>,
    y: Seq<u8>,
    w: u32,
    rel: Seq<char>,
    t: Seq<u8>,
)
    requires
        graph_wf(sv),
        find_by_key(sv.entries, t) is Some,
        find_by_key(
            sv.entries,
            address_of(
                RecordV::Connection(ConnectionV { contributing: x, receiving: y, contribution: w }),
            ),
        ) is None,
        rel + "_aim"@ != "contributes_to_connection"@,
        rel + "_aim"@ != "receives_from_connection"@,
    ensures
        connected_step(create_connection_spec(sv, x, y, w).0, rel, t) == connected_step(
            sv,
            rel,
            t,
        ),
{
    let c = ConnectionV { contributing: x, receiving: y, contribution: w };
    let e = entry_of(RecordV::Connection(c));
    let sv2 = create_connection_spec(sv, x, y, w).0;
    let caddr = address_of(RecordV::Connection(c));
    assert(t != caddr);
    let f = LinkFilterV::Exactly(rel + "_aim"@);
    let l1 = LinkV {
        base: x,
        target: caddr,
        link_type: "contributes_to_connection"@,
        tag: Seq::empty(),
    };
    let l2 = LinkV {
        base: caddr,
        target: y,
        link_type: "contributes_to_aim"@,
        tag: Seq::empty(),
    };
    let l3 = LinkV {
        base: y,
        target: caddr,
        link_type: "receives_from_connection"@,
        tag: Seq::empty(),
    };
    let l4 = LinkV {
        base: caddr,
        target: x,
        link_type: "receives_from_aim"@,
        tag: Seq::empty(),
    };
    assert(sv2.links =~= sv.links.push(l1).push(l2).push(l3).push(l4));
    lemma_links_from_push(sv.links, l1, t, f);
    lemma_links_from_push(sv.links.push(l1), l2, t, f);
    lemma_links_from_push(sv.links.push(l1).push(l2), l3, t, f);
    lemma_links_from_push(sv.links.push(l1).push(l2).push(l3), l4, t, f);
    assert(!link_matches(l1, t, f));
    assert(!link_matches(l2, t, f));
    assert(!link_matches(l3, t, f));
    assert(!link_matches(l4, t, f));
    let ahits = links_from_spec(sv.links, t, f);
    assert(links_from_spec(sv2.links, t, f) == ahits);
    assert(find_entry(sv.entries, e) is None) by {
        if find_entry(sv.entries, e) is Some {
            crate::store::lemma_find_entry_range(sv.entries, e);
            crate::store::lemma_find_by_key_some(
                sv.entries,
                key_of(e),
                find_entry(sv.entries, e).unwrap(),
            );
        }
    }
    assert(sv2.entries =~= sv.entries.push(e));
    lemma_find_by_key_push(sv.entries, e, t);
    crate::store::lemma_find_by_key_range(sv.entries, t);
    assert(entry_at(sv2, t) == entry_at(sv, t));
    if ahits.len() > 0 {
        let aaddr = ahits[0].target;
        lemma_links_from_targets(sv.links, t, f, sv.entries);
        assert(find_by_key(sv.entries, aaddr) is Some);
        lemma_find_by_key_push(sv.entries, e, aaddr);
        crate::store::lemma_find_by_key_range(sv.entries, aaddr);
        assert(entry_at(sv2, aaddr) == entry_at(sv, aaddr));
    }
}

// A whole candidate list is unaffected by a fresh connection commit.
proof fn lemma_connected_from_hits_stable(
    sv: StoreV,
    x: Seq<u8>,
    y: Seq<u8>,
    w: u32,
    rel: Seq<char>,
    hits: Seq<LinkHit>,
)
    requires
        graph_wf(sv),
        forall|i: int|
            0 <= i < hits.len() ==> find_by_key(sv.entries, (#[trigger] hits[i]).target) is Some,
        find_by_key(
            sv.entries,
            address_of(
                RecordV::Connection(ConnectionV { contributing: x, receiving: y, contribution: w }),
            ),
        ) is None,
        rel + "_aim"@ != "contributes_to_connection"@,
        rel + "_aim"@ != "receives_from_connection"@,
    ensures
        connected_from_hits(create_connection_spec(sv, x, y, w).0, rel, hits)
            == connected_from_hits(sv, rel, hits),
    decreases hits.len(),
{
    if hits.len() > 0 {
        assert(forall|i: int|
            0 <= i < hits.len() - 1 ==> find_by_key(
                sv.entries,
                (#[trigger] hits.drop_last()[i]).target,
            ) is Some);
        lemma_connected_from_hits_stable(sv, x, y, w, rel, hits.drop_last());
        lemma_step_stable(sv, x, y, w, rel, hits.last().target);
    }
}

#[verifier::rlimit(100)]
proof fn lemma_connection_symmetry_forward(
    sv: StoreV,
    x: Seq<u8>,
    y: Seq<u8>,
    w: u32,
    ax: AimV,
    ay: AimV,
)
    requires
        graph_wf(sv),
        aim_at(sv, x) == Some(ax),
        aim_at(sv, y) == Some(ay),
        crate::codec::wf_bytes(x),
        crate::codec::wf_bytes(y),
        find_by_key(
            sv.entries,
            address_of(
                RecordV::Connection(ConnectionV { contributing: x, receiving: y, contribution: w }),
            ),
        ) is None,
    ensures
        ({
            let c = ConnectionV { contributing: x, receiving: y, contribution: w };
            let (sv2, caddr) = create_connection_spec(sv, x, y, w);
            connected_spec(sv2, x, "contributes_to"@) == connected_spec(
                sv,
                x,
                "contributes_to"@,
            ).push(
                ConnectedAimV { aim: ay, aim_address: y, connection: c, connection_address: caddr },
            )
        }),
{
    lemma_link_type_names();
    let c = ConnectionV { contributing: x, receiving: y, contribution: w };
    let e = entry_of(RecordV::Connection(c));
    let sv2 = create_connection_spec(sv, x, y, w).0;
    let caddr = create_connection_spec(sv, x, y, w).1;
    assert(find_entry(sv.entries, e) is None) by {
        if find_entry(sv.entries, e) is Some {
            crate::store::lemma_find_entry_range(sv.entries, e);
            crate::store::lemma_find_by_key_some(
                sv.entries,
                key_of(e),
                find_entry(sv.entries, e).unwrap(),
            );
        }
    }
    assert(sv2.entries =~= sv.entries.push(e));
    assert(find_by_key(sv.entries, x) is Some);
    assert(find_by_key(sv.entries, y) is Some);
    assert(x != caddr);
    assert(y != caddr);
    let l1 = LinkV {
        base: x,
        target: caddr,
        link_type: "contributes_to_connection"@,
        tag: Seq::empty(),
    };
    let l2 = LinkV {
        base: caddr,
        target: y,
        link_type: "contributes_to_aim"@,
        tag: Seq::empty(),
    };
    let l3 = LinkV {
        base: y,
        target: caddr,
        link_type: "receives_from_connection"@,
        tag: Seq::empty(),
    };
    let l4 = LinkV {
        base: caddr,
        target: x,
        link_type: "receives_from_aim"@,
        tag: Seq::empty(),
    };
    assert(sv2.links =~= sv.links.push(l1).push(l2).push(l3).push(l4));

    // The fresh connection entry decodes back to the connection record.
    lemma_record_round_trip(RecordV::Connection(c));
    lemma_find_by_key_push(sv.entries, e, caddr);
    assert(sv2.entries[sv.entries.len() as int] == e);
    assert(entry_at(sv2, caddr) == Some(e));
    assert(connection_at(sv2, caddr) == Some(c));
    lemma_find_by_key_push(sv.entries, e, x);
    lemma_find_by_key_push(sv.entries, e, y);
    crate::store::lemma_find_by_key_range(sv.entries, x);
    crate::store::lemma_find_by_key_range(sv.entries, y);
    assert(entry_at(sv2, x) == entry_at(sv, x));
    assert(entry_at(sv2, y) == entry_at(sv, y));
    assert(aim_at(sv2, x) == Some(ax));
    assert(aim_at(sv2, y) == Some(ay));

    // The contributes_to direction, seen from x.
    let fc = LinkFilterV::Exactly("contributes_to_connection"@);
    let hits_x = links_from_spec(sv.links, x, fc);
    lemma_links_from_push(sv.links, l1, x, fc);
    lemma_links_from_push(sv.links.push(l1), l2, x, fc);
    lemma_links_from_push(sv.links.push(l1).push(l2), l3, x, fc);
    lemma_links_from_push(sv.links.push(l1).push(l2).push(l3), l4, x, fc);
    let newhit_x = LinkHit {
        target: caddr,
        tag: Seq::empty(),
        link_address: sv.links.len() as u64,
    };
    assert(links_from_spec(sv2.links, x, fc) == hits_x.push(newhit_x));

    // The new candidate: its only contributes_to_aim link leads to y.
    let fa = LinkFilterV::Exactly("contributes_to_aim"@);
    assert forall|i: int|
        0 <= i < sv.links.len() implies !link_matches(#[trigger] sv.links[i], caddr, fa) by {
        if sv.links[i].base == caddr && sv.links[i].link_type == "contributes_to_aim"@ {
            assert(find_by_key(sv.entries, sv.links[i].base) is Some);
        }
    }
    lemma_links_from_none(sv.links, caddr, fa);
    lemma_links_from_push(sv.links, l1, caddr, fa);
    lemma_links_from_push(sv.links.push(l1), l2, caddr, fa);
    lemma_links_from_push(sv.links.push(l1).push(l2), l3, caddr, fa);
    lemma_links_from_push(sv.links.push(l1).push(l2).push(l3), l4, caddr, fa);
    let ahit = LinkHit {
        target: y,
        tag: Seq::empty(),
        link_address: (sv.links.len() + 1) as u64,
    };
    assert(links_from_spec(sv2.links, caddr, fa) =~= seq![ahit]);
    assert(connected_step(sv2, "contributes_to"@, caddr) == Some(
        ConnectedAimV { aim: ay, aim_address: y, connection: c, connection_address: caddr },
    ));

    // Old candidates are untouched.
    lemma_links_from_targets(sv.links, x, fc, sv.entries);
    lemma_connected_from_hits_stable(sv, x, y, w, "contributes_to"@, hits_x);
    assert(hits_x.push(newhit_x).drop_last() =~= hits_x);
    assert(hits_x.push(newhit_x).last() == newhit_x);
    assert(connected_spec(sv2, x, "contributes_to"@) == connected_from_hits(
        sv2,
        "contributes_to"@,
        hits_x.push(newhit_x),
    ));
    assert(connected_spec(sv2, x, "contributes_to"@) == connected_spec(
        sv,
        x,
        "contributes_to"@,
    ).push(ConnectedAimV { aim: ay, aim_address: y, connection: c, connection_address: caddr }));
}

#[verifier::rlimit(100)]
proof fn lemma_connection_symmetry_backward(
    sv: StoreV,
    x: Seq<u8>,
    y: Seq<u8>,
    w: u32,
    ax: AimV,
    ay: AimV,
)
    requires
        graph_wf(sv),
        aim_at(sv, x) == Some(ax),
        aim_at(sv, y) == Some(ay),
        crate::codec::wf_bytes(x),
        crate::codec::wf_bytes(y),
        find_by_key(
            sv.entries,
            address_of(
                RecordV::Connection(ConnectionV { contributing: x, receiving: y, contribution: w }),
            ),
        ) is None,
    ensures
        ({
            let c = ConnectionV { contributing: x, receiving: y, contribution: w };
            let (sv2, caddr) = create_connection_spec(sv, x, y, w);
            connected_spec(sv2, y, "receives_from"@) == connected_spec(
                sv,
                y,
                "receives_from"@,
            ).push(
                ConnectedAimV { aim: ax, aim_address: x, connection: c, connection_address: caddr },
            )
        }),
{
    lemma_link_type_names();
    let c = ConnectionV { contributing: x, receiving: y, contribution: w };
    let e = entry_of(RecordV::Connection(c));
    let sv2 = create_connection_spec(sv, x, y, w).0;
    let caddr = create_connection_spec(sv, x, y, w).1;
    assert(find_entry(sv.entries, e) is None) by {
        if find_entry(sv.entries, e) is Some {
            crate::store::lemma_find_entry_range(sv.entries, e);
            crate::store::lemma_find_by_key_some(
                sv.entries,
                key_of(e),
                find_entry(sv.entries, e).unwrap(),
            );
        }
    }
    assert(sv2.entries =~= sv.entries.push(e));
    assert(find_by_key(sv.entries, x) is Some);
    assert(find_by_key(sv.entries, y) is Some);
    assert(x != caddr);
    assert(y != caddr);
    let l1 = LinkV {
        base: x,
        target: caddr,
        link_type: "contributes_to_connection"@,
        tag: Seq::empty(),
    };
    let l2 = LinkV {
        base: caddr,
        target: y,
        link_type: "contributes_to_aim"@,
        tag: Seq::empty(),
    };
    let l3 = LinkV {
        base: y,
        target: caddr,
        link_type: "receives_from_connection"@,
        tag: Seq::empty(),
    };
    let l4 = LinkV {
        base: caddr,
        target: x,
        link_type: "receives_from_aim"@,
        tag: Seq::empty(),
    };
    assert(sv2.links =~= sv.links.push(l1).push(l2).push(l3).push(l4));

    // The fresh connection entry decodes back to the connection record.
    lemma_record_round_trip(RecordV::Connection(c));
    lemma_find_by_key_push(sv.entries, e, caddr);
    assert(sv2.entries[sv.entries.len() as int] == e);
    assert(entry_at(sv2, caddr) == Some(e));
    assert(connection_at(sv2, caddr) == Some(c));
    lemma_find_by_key_push(sv.entries, e, x);
    lemma_find_by_key_push(sv.entries, e, y);
    crate::store::lemma_find_by_key_range(sv.entries, x);
    crate::store::lemma_find_by_key_range(sv.entries, y);
    assert(entry_at(sv2, x) == entry_at(sv, x));
    assert(entry_at(sv2, y) == entry_at(sv, y));
    assert(aim_at(sv2, x) == Some(ax));
    assert(aim_at(sv2, y) == Some(ay));

    // The receives_from direction, seen from y.
    let gc = LinkFilterV::Exactly("receives_from_connection"@);
    let hits_y = links_from_spec(sv.links, y, gc);
    lemma_links_from_push(sv.links, l1, y, gc);
    lemma_links_from_push(sv.links.push(l1), l2, y, gc);
    lemma_links_from_push(sv.links.push(l1).push(l2), l3, y, gc);
    lemma_links_from_push(sv.links.push(l1).push(l2).push(l3), l4, y, gc);
    let newhit_y = LinkHit {
        target: caddr,
        tag: Seq::empty(),
        link_address: (sv.links.len() + 2) as u64,
    };
    assert(links_from_spec(sv2.links, y, gc) == hits_y.push(newhit_y));

    let ga = LinkFilterV::Exactly("receives_from_aim"@);
    assert forall|i: int|
        0 <= i < sv.links.len() implies !link_matches(#[trigger] sv.links[i], caddr, ga) by {
        if sv.links[i].base == caddr && sv.links[i].link_type == "receives_from_aim"@ {
            assert(find_by_key(sv.entries, sv.links[i].base) is Some);
        }
    }
    lemma_links_from_none(sv.links, caddr, ga);
    lemma_links_from_push(sv.links, l1, caddr, ga);
    lemma_links_from_push(sv.links.push(l1), l2, caddr, ga);
    lemma_links_from_push(sv.links.push(l1).push(l2), l3, caddr, ga);
    lemma_links_from_push(sv.links.push(l1).push(l2).push(l3), l4, caddr, ga);
    let bhit = LinkHit {
        target: x,
        tag: Seq::empty(),
        link_address: (sv.links.len() + 3) as u64,
    };
    assert(links_from_spec(sv2.links, caddr, ga) =~= seq![bhit]);
    assert(connected_step(sv2, "receives_from"@, caddr) == Some(
        ConnectedAimV { aim: ax, aim_address: x, connection: c, connection_address: caddr },
    ));

    lemma_links_from_targets(sv.links, y, gc, sv.entries);
    lemma_connected_from_hits_stable(sv, x, y, w, "receives_from"@, hits_y);
    assert(hits_y.push(newhit_y).drop_last() =~= hits_y);
    assert(hits_y.push(newhit_y).last() == newhit_y);
    assert(connected_spec(sv2, y, "receives_from"@) == connected_from_hits(
        sv2,
        "receives_from"@,
        hits_y.push(newhit_y),
    ));
    assert(connected_spec(sv2, y, "receives_from"@) == connected_spec(
        sv,
        y,
        "receives_from"@,
    ).push(ConnectedAimV { aim: ax, aim_address: x, connection: c, connection_address: caddr }));
}

/// Two-hop symmetry: creating one fresh weighted connection from `x` to `y`
/// appends exactly one result to `x`'s `contributes_to` traversal, carrying
/// `y`'s aim and the weight, and exactly one to `y`'s `receives_from`
/// traversal, carrying `x`'s aim and the same weight; every earlier result
/// is unchanged.
pub proof fn lemma_connection_symmetry(
    sv: StoreV,
    x: Seq<u8>,
    y: Seq<u8>,
    w: u32,
    ax: AimV,
    ay: AimV,
)
    requires
        graph_wf(sv),
        aim_at(sv, x) == Some(ax),
        aim_at(sv, y) == Some(ay),
        crate::codec::wf_bytes(x),
        crate::codec::wf_bytes(y),
        find_by_key(
            sv.entries,
            address_of(
                RecordV::Connection(ConnectionV { contributing: x, receiving: y, contribution: w }),
            ),
        ) is None,
    ensures
        ({
            let c = ConnectionV { contributing: x, receiving: y, contribution: w };
            let (sv2, caddr) = create_connection_spec(sv, x, y, w);
            &&& connected_spec(sv2, x, "contributes_to"@) == connected_spec(
                sv,
                x,
                "contributes_to"@,
            ).push(
                ConnectedAimV { aim: ay, aim_address: y, connection: c, connection_address: caddr },
            )
            &&& connected_spec(sv2, y, "receives_from"@) == connected_spec(
                sv,
                y,
                "receives_from"@,
            ).push(
                ConnectedAimV { aim: ax, aim_address: x, connection: c, connection_address: caddr },
            )
        }),
{
    lemma_connection_symmetry_forward(sv, x, y, w, ax, ay);
    lemma_connection_symmetry_backward(sv, x, y, w, ax, ay);
}

fn root_aim_record() -> (a: Aim)
    ensures
        a@ == root_aim(),
{
    let aim = Aim {
        title: "root aim".to_owned(),
        description:
            "this is the single root aim of this agent. Some algorithms will use these root aims as the main source of collective will: using these aims as the only entrance of value flow before calculating the importance of all goals".to_owned(),
        effort: Effort::Years(100),
        timestamp_ms: 1594443995818,
        color: ['5', '5', '5', '5', '5', '5'],
        tags: Vec::new(),
    };
    proof {
        assert(aim@.color =~= root_aim().color);
        assert(aim@.tags =~= root_aim().tags);
    }
    aim
}

} // verus!
