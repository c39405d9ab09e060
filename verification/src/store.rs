//! The content store and the link index.
//!
//! The content store is an append-only log of serialized entries. An
//! entry's address is derived from its content alone — the key is the type
//! tag followed by the serialized bytes — so identical content has the same
//! address in every store, and committing bytes already present is a no-op
//! that yields that address again. The link index is an append-only log of
//! directed, typed edges; recording the same edge twice appends two
//! distinct entries, each with its own synthetic link address. Neither log
//! supports deletion.

use vstd::prelude::*;
use crate::codec::{dec_record, dec_record_exec, enc_record, enc_record_exec, wf_record};
use crate::records::{Address, CommitError, DecodeError, EntryKind, LinkAddress, Record, RecordV};

verus! {

/// A stored entry: its type tag and its serialized bytes.
#[derive(Clone, Debug, PartialEq)]
pub struct Entry {
    pub kind: EntryKind,
    pub bytes: Vec<u8>,
}

/// The view of a stored entry.
#[verifier::ext_equal]
pub struct EntryV {
    pub kind: EntryKind,
    pub bytes: Seq<u8>,
}

impl View for Entry {
    type V = EntryV;

    open spec fn view(&self) -> EntryV {
        EntryV { kind: self.kind, bytes: self.bytes@ }
    }
}

/// The entry a record is stored as.
pub open spec fn entry_of(r: RecordV) -> EntryV {
    EntryV { kind: r.kind(), bytes: enc_record(r) }
}

/// The byte that tags each entry kind in a content key.
pub open spec fn kind_code(kind: EntryKind) -> u8 {
    match kind {
        EntryKind::Aim => 1,
        EntryKind::Connection => 2,
        EntryKind::Profile => 3,
    }
}

/// The content key of an entry: its kind tag followed by its serialized
/// bytes. A function of the content alone — no store state enters it.
pub open spec fn key_of(e: EntryV) -> Seq<u8> {
    seq![kind_code(e.kind)] + e.bytes
}

/// The content key of a record.
pub open spec fn address_of(r: RecordV) -> Seq<u8> {
    key_of(entry_of(r))
}

/// Content addressing is collision-free: entries with the same key are the
/// same entry, so distinct serialized content always receives distinct
/// addresses.
pub proof fn lemma_address_injective(e1: EntryV, e2: EntryV)
    requires
        key_of(e1) == key_of(e2),
    ensures
        e1 == e2,
{
    assert(key_of(e1)[0] == kind_code(e1.kind));
    assert(key_of(e2)[0] == kind_code(e2.kind));
    assert(e1.kind == e2.kind);
    assert(e1.bytes =~= key_of(e1).skip(1));
    assert(e2.bytes =~= key_of(e2).skip(1));
}

/// The record a stored entry decodes to under an expected kind: the entry's
/// tag must match and its bytes must parse exactly.
pub open spec fn decode_entry(e: EntryV, kind: EntryKind) -> Option<RecordV> {
    if e.kind == kind {
        dec_record(kind, e.bytes)
    } else {
        None
    }
}

impl Entry {
    /// Decodes this entry as a record of the expected kind; any mismatch is
    /// a schema error, never a panic.
    pub fn decode(&self, kind: EntryKind) -> (r: Result<Record, DecodeError>)
        ensures
            match r {
                Ok(rec) => decode_entry(self@, kind) == Some(rec@),
                Err(e) => decode_entry(self@, kind) is None && e == DecodeError::SchemaMismatch,
            },
    {
        if self.kind == kind {
            dec_record_exec(kind, &self.bytes)
        } else {
            Err(DecodeError::SchemaMismatch)
        }
    }
}

/// A directed, typed edge between two addresses, with a free-text tag.
#[derive(Clone, Debug, PartialEq)]
pub struct Link {
    pub base: Address,
    pub target: Address,
    pub link_type: String,
    pub tag: String,
}

/// The view of a link: addresses as their key bytes.
#[verifier::ext_equal]
pub struct LinkV {
    pub base: Seq<u8>,
    pub target: Seq<u8>,
    pub link_type: Seq<char>,
    pub tag: Seq<char>,
}

impl View for Link {
    type V = LinkV;

    open spec fn view(&self) -> LinkV {
        LinkV {
            base: self.base@,
            target: self.target@,
            link_type: self.link_type@,
            tag: self.tag@,
        }
    }
}

/// A link-type filter: an exact type name, or any type.
#[derive(Clone, Debug, PartialEq)]
pub enum LinkFilter {
    Exactly(String),
    Any,
}

/// The view of a link-type filter.
#[verifier::ext_equal]
pub enum LinkFilterV {
    Exactly(Seq<char>),
    Any,
}

impl View for LinkFilter {
    type V = LinkFilterV;

    open spec fn view(&self) -> LinkFilterV {
        match self {
            LinkFilter::Exactly(t) => LinkFilterV::Exactly(t@),
            LinkFilter::Any => LinkFilterV::Any,
        }
    }
}

/// One match of a link query: the link's target, tag and own address.
#[verifier::ext_equal]
pub struct LinkHit {
    pub target: Seq<u8>,
    pub tag: Seq<char>,
    pub link_address: LinkAddress,
}

/// The store: an append-only entry log and an append-only link log.
pub struct Store {
    entries: Vec<Entry>,
    links: Vec<Link>,
}

/// The view of a store.
#[verifier::ext_equal]
pub struct StoreV {
    pub entries: Seq<EntryV>,
    pub links: Seq<LinkV>,
}

impl View for Store {
    type V = StoreV;

    closed spec fn view(&self) -> StoreV {
        StoreV {
            entries: Seq::new(self.entries@.len(), |i: int| self.entries@[i]@),
            links: Seq::new(self.links@.len(), |i: int| self.links@[i]@),
        }
    }
}

/// Both logs of a real store fit the machine, although the view is closed:
/// callers may assume the lengths are bounded, so the synthetic link
/// addresses handed out by `link` never truncate.
pub proof fn lemma_store_log_bounds(s: &Store)
    ensures
        s@.entries.len() <= usize::MAX,
        s@.links.len() <= usize::MAX,
{
    broadcast use vstd::std_specs::vec::axiom_spec_len;

    assert(vstd::std_specs::vec::spec_vec_len(&s.entries) == s.entries@.len());
    assert(vstd::std_specs::vec::spec_vec_len(&s.links) == s.links@.len());
    assert(s@.entries.len() == s.entries@.len());
    assert(s@.links.len() == s.links@.len());
}

// ---------------------------------------------------------------------------
// Specification of the core operations
// ---------------------------------------------------------------------------

/// The position of the first entry equal to `e`, if any.
pub open spec fn find_entry(s: Seq<EntryV>, e: EntryV) -> Option<int>
    decreases s.len(),
{
    if s.len() == 0 {
        None
    } else if s[0] == e {
        Some(0)
    } else {
        match find_entry(s.skip(1), e) {
            Some(i) => Some(i + 1),
            None => None,
        }
    }
}

/// Storing an entry: content already present leaves the log unchanged,
/// fresh content is appended once. The entry's address is `key_of(e)` in
/// either case and plays no part in where it is kept.
pub open spec fn put_spec(s: Seq<EntryV>, e: EntryV) -> Seq<EntryV> {
    match find_entry(s, e) {
        Some(_) => s,
        None => s.push(e),
    }
}

/// The position of the first entry whose content key is `key`, if any.
pub open spec fn find_by_key(s: Seq<EntryV>, key: Seq<u8>) -> Option<int>
    decreases s.len(),
{
    if s.len() == 0 {
        None
    } else if key_of(s[0]) == key {
        Some(0)
    } else {
        match find_by_key(s.skip(1), key) {
            Some(i) => Some(i + 1),
            None => None,
        }
    }
}

/// The number of entries equal to `e`.
pub open spec fn entry_count(s: Seq<EntryV>, e: EntryV) -> nat
    decreases s.len(),
{
    if s.len() == 0 {
        0
    } else {
        (if s[0] == e {
            1 as nat
        } else {
            0 as nat
        }) + entry_count(s.skip(1), e)
    }
}

/// The entry stored at an address, if any: the entry whose content key is
/// the address. Keys are injective, so at most one stored entry can match.
pub open spec fn entry_at(sv: StoreV, address: Seq<u8>) -> Option<EntryV> {
    match find_by_key(sv.entries, address) {
        Some(i) => Some(sv.entries[i]),
        None => None,
    }
}

/// Whether a link matches a query for `base` under `filter`.
pub open spec fn link_matches(l: LinkV, base: Seq<u8>, filter: LinkFilterV) -> bool {
    l.base == base && match filter {
        LinkFilterV::Exactly(t) => l.link_type == t,
        LinkFilterV::Any => true,
    }
}

/// All matching links, in insertion order, each with its own address.
pub open spec fn links_from_spec(ls: Seq<LinkV>, base: Seq<u8>, filter: LinkFilterV) -> Seq<
    LinkHit,
>
    decreases ls.len(),
{
    if ls.len() == 0 {
        Seq::empty()
    } else {
        let prev = links_from_spec(ls.drop_last(), base, filter);
        if link_matches(ls.last(), base, filter) {
            prev.push(
                LinkHit {
                    target: ls.last().target,
                    tag: ls.last().tag,
                    link_address: (ls.len() - 1) as u64,
                },
            )
        } else {
            prev
        }
    }
}

/// The executable result of a link query matches its specification.
pub open spec fn hits_match(v: Seq<(Address, String, LinkAddress)>, h: Seq<LinkHit>) -> bool {
    &&& v.len() == h.len()
    &&& forall|i: int|
        0 <= i < v.len() ==> (#[trigger] v[i]).0@ == h[i].target && v[i].1@ == h[i].tag && v[i].2
            == h[i].link_address
}

// ---------------------------------------------------------------------------
// The executable store
// ---------------------------------------------------------------------------

fn bytes_eq(a: &Vec<u8>, b: &Vec<u8>) -> (r: bool)
    ensures
        r == (a@ == b@),
{
    if a.len() != b.len() {
        return false;
    }
    let mut i: usize = 0;
    while i < a.len()
        invariant
            i <= a.len(),
            a@.len() == b@.len(),
            forall|j: int| 0 <= j < i ==> a@[j] == b@[j],
        decreases a.len() - i,
    {
        if a[i] != b[i] {
            return false;
        }
        i = i + 1;
    }
    proof {
        assert(a@ =~= b@);
    }
    true
}

impl Store {
    /// An empty store.
    pub fn new() -> (s: Store)
        ensures
            s@.entries.len() == 0,
            s@.links.len() == 0,
    {
        Store { entries: Vec::new(), links: Vec::new() }
    }

    /// Stores serialized bytes under their content address. The address is
    /// derived from the kind tag and the bytes alone; storing content that
    /// is already present leaves the log unchanged and yields the same
    /// address again.
    pub fn put(&mut self, kind: EntryKind, bytes: Vec<u8>) -> (a: Address)
        ensures
            final(self)@.entries == put_spec(old(self)@.entries, EntryV { kind, bytes: bytes@ }),
            a@ == key_of(EntryV { kind, bytes: bytes@ }),
            final(self)@.links == old(self)@.links,
    {
        let ghost e = EntryV { kind, bytes: bytes@ };
        let code: u8 = match kind {
            EntryKind::Aim => 1,
            EntryKind::Connection => 2,
            EntryKind::Profile => 3,
        };
        let mut key: Vec<u8> = Vec::new();
        key.push(code);
        let mut j: usize = 0;
        proof {
            assert(key@ =~= seq![kind_code(kind)] + bytes@.take(0));
        }
        while j < bytes.len()
            invariant
                j <= bytes@.len(),
                key@ == seq![kind_code(kind)] + bytes@.take(j as int),
            decreases bytes@.len() - j,
        {
            key.push(bytes[j]);
            j = j + 1;
            proof {
                assert(key@ =~= seq![kind_code(kind)] + bytes@.take(j as int));
            }
        }
        proof {
            assert(bytes@.take(bytes@.len() as int) =~= bytes@);
            assert(key@ =~= key_of(e));
        }
        let n: usize = self.entries.len();
        let mut i: usize = 0;
        while i < n
            invariant
                i <= n,
                n == self.entries@.len(),
                e == (EntryV { kind, bytes: bytes@ }),
                key@ == key_of(e),
                self@ == old(self)@,
                forall|j2: int| 0 <= j2 < i ==> self@.entries[j2] != e,
                self@.entries.len() == n,
            decreases n - i,
        {
            let same_kind = self.entries[i].kind == kind;
            let same_bytes = bytes_eq(&self.entries[i].bytes, &bytes);
            if same_kind && same_bytes {
                proof {
                    assert(self@.entries[i as int] == e);
                    lemma_find_entry_first(self@.entries, e, i as int);
                }
                return Address { key };
            }
            proof {
                assert(self@.entries[i as int] != e);
            }
            i = i + 1;
        }
        proof {
            lemma_find_entry_absent(self@.entries, e);
        }
        let ghost pre = self@.entries;
        self.entries.push(Entry { kind, bytes });
        proof {
            assert(self@.entries =~= pre.push(e));
            assert(self@.links =~= old(self)@.links);
        }
        Address { key }
    }

    /// Commits a typed record: serializes it and stores the bytes. The
    /// returned address is a function of the record's serialized content
    /// alone.
    pub fn commit(&mut self, record: &Record) -> (r: Result<Address, CommitError>)
        ensures
            r is Ok,
            r.unwrap()@ == address_of(record@),
            final(self)@.entries == put_spec(old(self)@.entries, entry_of(record@)),
            final(self)@.links == old(self)@.links,
            wf_record(record@),
    {
        let bytes = enc_record_exec(record);
        let kind = record.kind();
        Ok(self.put(kind, bytes))
    }

    /// Commits a record superseding an older one. The old entry persists
    /// unchanged at its own address; the caller keeps the new address.
    pub fn update(&mut self, record: &Record) -> (r: Result<Address, CommitError>)
        ensures
            r is Ok,
            r.unwrap()@ == address_of(record@),
            final(self)@.entries == put_spec(old(self)@.entries, entry_of(record@)),
            final(self)@.links == old(self)@.links,
            wf_record(record@),
    {
        self.commit(record)
    }

    /// The entry stored at an address; `None` for an unknown address.
    pub fn get(&self, address: &Address) -> (r: Option<&Entry>)
        ensures
            match r {
                Some(e) => entry_at(self@, address@) == Some(e@),
                None => entry_at(self@, address@) is None,
            },
    {
        let n: usize = self.entries.len();
        let mut i: usize = 0;
        while i < n
            invariant
                i <= n,
                n == self.entries@.len(),
                self@.entries.len() == n,
                forall|j: int| 0 <= j < i ==> key_of(self@.entries[j]) != address@,
            decreases n - i,
        {
            if entry_has_key(&self.entries[i], address) {
                proof {
                    lemma_find_by_key_first(self@.entries, address@, i as int);
                }
                return Some(&self.entries[i]);
            }
            i = i + 1;
        }
        proof {
            lemma_find_by_key_absent(self@.entries, address@);
        }
        None
    }

    /// Records a directed, typed link. Always succeeds; never merges with an
    /// existing identical link. Returns the link's own synthetic address.
    pub fn link(&mut self, base: Address, target: Address, link_type: String, tag: String) -> (a:
        LinkAddress)
        ensures
            final(self)@.links == old(self)@.links.push(
                LinkV { base: base@, target: target@, link_type: link_type@, tag: tag@ },
            ),
            final(self)@.entries == old(self)@.entries,
            a as int == old(self)@.links.len(),
    {
        let a = self.links.len() as u64;
        let ghost pre = self@.links;
        let ghost lv = LinkV { base: base@, target: target@, link_type: link_type@, tag: tag@ };
        self.links.push(Link { base, target, link_type, tag });
        proof {
            assert(self@.links =~= pre.push(lv));
            assert(self@.entries =~= old(self)@.entries);
        }
        a
    }

    /// All links from `base` matching the filter, in insertion order, as
    /// `(target, tag, link address)` triples.
    pub fn links_from(&self, base: &Address, filter: &LinkFilter) -> (r: Vec<
        (Address, String, LinkAddress),
    >)
        ensures
            hits_match(r@, links_from_spec(self@.links, base@, filter@)),
    {
        let n: usize = self.links.len();
        let mut r: Vec<(Address, String, LinkAddress)> = Vec::new();
        let mut i: usize = 0;
        proof {
            assert(self@.links.take(0) =~= Seq::<LinkV>::empty());
        }
        while i < n
            invariant
                i <= n,
                n == self.links@.len(),
                self@.links.len() == n,
                hits_match(r@, links_from_spec(self@.links.take(i as int), base@, filter@)),
            decreases n - i,
        {
            let l = &self.links[i];
            let is_match = l.base.matches(base) && match filter {
                LinkFilter::Exactly(t) => string_eq(&l.link_type, t),
                LinkFilter::Any => true,
            };
            proof {
                assert(self@.links.take(i + 1).drop_last() =~= self@.links.take(i as int));
                assert(self@.links.take(i + 1).last() == self@.links[i as int]);
                assert(is_match == link_matches(self@.links[i as int], base@, filter@));
            }
            if is_match {
                r.push((l.target.duplicate(), l.tag.clone(), i as u64));
            }
            i = i + 1;
        }
        proof {
            assert(self@.links.take(n as int) =~= self@.links);
        }
        r
    }
}

fn entry_has_key(e: &Entry, address: &Address) -> (r: bool)
    ensures
        r == (key_of(e@) == address@),
{
    let code: u8 = match e.kind {
        EntryKind::Aim => 1,
        EntryKind::Connection => 2,
        EntryKind::Profile => 3,
    };
    if address.key.len() == 0 || address.key.len() - 1 != e.bytes.len() {
        proof {
            assert(key_of(e@).len() == e@.bytes.len() + 1);
        }
        return false;
    }
    if address.key[0] != code {
        proof {
            assert(key_of(e@)[0] == kind_code(e@.kind));
        }
        return false;
    }
    let mut i: usize = 0;
    while i < e.bytes.len()
        invariant
            i <= e.bytes@.len(),
            address.key@.len() == e.bytes@.len() + 1,
            address.key@[0] == kind_code(e@.kind),
            forall|j: int| 0 <= j < i ==> address.key@[j + 1] == e.bytes@[j],
        decreases e.bytes@.len() - i,
    {
        if address.key[i + 1] != e.bytes[i] {
            proof {
                assert(key_of(e@)[i + 1] == e.bytes@[i as int]);
            }
            return false;
        }
        i = i + 1;
    }
    proof {
        assert(key_of(e@) =~= address.key@);
    }
    true
}

fn string_eq(a: &String, b: &String) -> (r: bool)
    ensures
        r == (a@ == b@),
{
    *a == *b
}

// ---------------------------------------------------------------------------
// Laws of the core operations
// ---------------------------------------------------------------------------

proof fn lemma_find_entry_first(s: Seq<EntryV>, e: EntryV, i: int)
    requires
        0 <= i < s.len(),
        s[i] == e,
        forall|j: int| 0 <= j < i ==> s[j] != e,
    ensures
        find_entry(s, e) == Some(i),
    decreases s.len(),
{
    if i == 0 {
    } else {
        assert(s[0] != e);
        assert(s.skip(1)[i - 1] == e);
        assert(forall|j: int| 0 <= j < i - 1 ==> s.skip(1)[j] != e);
        lemma_find_entry_first(s.skip(1), e, i - 1);
    }
}

proof fn lemma_find_by_key_first(s: Seq<EntryV>, key: Seq<u8>, i: int)
    requires
        0 <= i < s.len(),
        key_of(s[i]) == key,
        forall|j: int| 0 <= j < i ==> key_of(s[j]) != key,
    ensures
        find_by_key(s, key) == Some(i),
    decreases s.len(),
{
    if i == 0 {
    } else {
        assert(key_of(s[0]) != key);
        assert(s.skip(1)[i - 1] == s[i]);
        assert(forall|j: int| 0 <= j < i - 1 ==> key_of(s.skip(1)[j]) != key);
        lemma_find_by_key_first(s.skip(1), key, i - 1);
    }
}

proof fn lemma_find_by_key_absent(s: Seq<EntryV>, key: Seq<u8>)
    requires
        forall|j: int| 0 <= j < s.len() ==> key_of(s[j]) != key,
    ensures
        find_by_key(s, key) is None,
    decreases s.len(),
{
    if s.len() > 0 {
        assert(forall|j: int| 0 <= j < s.len() - 1 ==> key_of(s.skip(1)[j]) != key);
        lemma_find_by_key_absent(s.skip(1), key);
    }
}

/// How a key lookup behaves on a grown log: a key found before is found at
/// the same place, and the appended entry answers only for its own key.
pub proof fn lemma_find_by_key_push(s: Seq<EntryV>, e: EntryV, key: Seq<u8>)
    ensures
        find_by_key(s.push(e), key) == (match find_by_key(s, key) {
            Some(i) => Some(i),
            None => {
                if key_of(e) == key {
                    Some(s.len() as int)
                } else {
                    None
                }
            },
        }),
    decreases s.len(),
{
    if s.len() == 0 {
        assert(s.push(e)[0] == e);
        assert(s.push(e).skip(1) =~= Seq::<EntryV>::empty());
        assert(find_by_key(Seq::<EntryV>::empty(), key) is None);
        if key_of(e) == key {
            assert(find_by_key(s.push(e), key) == Some(0int));
        } else {
            assert(find_by_key(s.push(e), key) is None);
        }
    } else {
        assert(s.push(e)[0] == s[0]);
        assert(s.push(e).skip(1) =~= s.skip(1).push(e));
        lemma_find_by_key_push(s.skip(1), e, key);
        assert(find_by_key(s, key) == (match find_by_key(s.skip(1), key) {
            Some(i) => if key_of(s[0]) == key {
                Some(0)
            } else {
                Some(i + 1)
            },
            None => if key_of(s[0]) == key {
                Some(0)
            } else {
                None
            },
        }));
    }
}

/// An entry bearing the key makes the key lookup succeed.
pub proof fn lemma_find_by_key_some(s: Seq<EntryV>, key: Seq<u8>, i: int)
    requires
        0 <= i < s.len(),
        key_of(s[i]) == key,
    ensures
        find_by_key(s, key) is Some,
    decreases s.len(),
{
    if key_of(s[0]) != key {
        assert(s.skip(1)[i - 1] == s[i]);
        lemma_find_by_key_some(s.skip(1), key, i - 1);
    }
}

/// A key lookup lands inside the log, on an entry bearing that key.
pub proof fn lemma_find_by_key_range(s: Seq<EntryV>, key: Seq<u8>)
    requires
        find_by_key(s, key) is Some,
    ensures
        0 <= find_by_key(s, key).unwrap() < s.len(),
        key_of(s[find_by_key(s, key).unwrap()]) == key,
    decreases s.len(),
{
    if s.len() > 0 && key_of(s[0]) != key {
        if find_by_key(s.skip(1), key) is Some {
            lemma_find_by_key_range(s.skip(1), key);
        }
    }
}

/// A found entry sits inside the log and is the entry looked for.
pub proof fn lemma_find_entry_range(s: Seq<EntryV>, e: EntryV)
    requires
        find_entry(s, e) is Some,
    ensures
        0 <= find_entry(s, e).unwrap() < s.len(),
        s[find_entry(s, e).unwrap()] == e,
    decreases s.len(),
{
    if s.len() > 0 && s[0] != e {
        if find_entry(s.skip(1), e) is Some {
            lemma_find_entry_range(s.skip(1), e);
        }
    }
}

proof fn lemma_find_entry_absent(s: Seq<EntryV>, e: EntryV)
    requires
        forall|j: int| 0 <= j < s.len() ==> s[j] != e,
    ensures
        find_entry(s, e) is None,
    decreases s.len(),
{
    if s.len() > 0 {
        assert(forall|j: int| 0 <= j < s.len() - 1 ==> s.skip(1)[j] != e);
        lemma_find_entry_absent(s.skip(1), e);
    }
}

proof fn lemma_find_entry_push_absent(s: Seq<EntryV>, e: EntryV)
    requires
        find_entry(s, e) is None,
    ensures
        find_entry(s.push(e), e) == Some(s.len() as int),
    decreases s.len(),
{
    if s.len() == 0 {
        assert(s.push(e)[0] == e);
    } else {
        assert(s.push(e)[0] == s[0]);
        assert(s.push(e).skip(1) =~= s.skip(1).push(e));
        lemma_find_entry_push_absent(s.skip(1), e);
    }
}

proof fn lemma_entry_count_push(s: Seq<EntryV>, x: EntryV, e: EntryV)
    ensures
        entry_count(s.push(x), e) == entry_count(s, e) + (if x == e {
            1 as nat
        } else {
            0 as nat
        }),
    decreases s.len(),
{
    if s.len() == 0 {
        assert(s.push(x)[0] == x);
        assert(s.push(x).skip(1) =~= Seq::<EntryV>::empty());
        assert(entry_count(s.push(x).skip(1), e) == 0);
        assert(entry_count(s.push(x), e) == (if s.push(x)[0] == e {
            1 as nat
        } else {
            0 as nat
        }) + entry_count(s.push(x).skip(1), e));
    } else {
        assert(s.push(x)[0] == s[0]);
        assert(s.push(x).skip(1) =~= s.skip(1).push(x));
        lemma_entry_count_push(s.skip(1), x, e);
        assert(entry_count(s.push(x), e) == (if s.push(x)[0] == e {
            1 as nat
        } else {
            0 as nat
        }) + entry_count(s.push(x).skip(1), e));
        assert(entry_count(s, e) == (if s[0] == e {
            1 as nat
        } else {
            0 as nat
        }) + entry_count(s.skip(1), e));
    }
}

proof fn lemma_find_none_count_zero(s: Seq<EntryV>, e: EntryV)
    requires
        find_entry(s, e) is None,
    ensures
        entry_count(s, e) == 0,
    decreases s.len(),
{
    if s.len() > 0 {
        lemma_find_none_count_zero(s.skip(1), e);
    }
}

/// Storing identical content twice leaves the store unchanged the second
/// time; content not present before is stored exactly once. The address is
/// `key_of(e)` both times by definition: it depends on the content alone.
pub proof fn lemma_put_idempotent(entries: Seq<EntryV>, e: EntryV)
    ensures
        put_spec(put_spec(entries, e), e) == put_spec(entries, e),
        entry_count(entries, e) == 0 ==> entry_count(put_spec(entries, e), e) == 1,
{
    match find_entry(entries, e) {
        Some(i) => {
            if entry_count(entries, e) == 0 {
                lemma_find_some_count_pos(entries, e, i);
            }
        },
        None => {
            lemma_find_entry_push_absent(entries, e);
            lemma_entry_count_push(entries, e, e);
            lemma_find_none_count_zero(entries, e);
        },
    }
}

proof fn lemma_find_some_count_pos(s: Seq<EntryV>, e: EntryV, i: int)
    requires
        find_entry(s, e) == Some(i),
    ensures
        entry_count(s, e) >= 1,
    decreases s.len(),
{
    if s.len() > 0 && s[0] != e {
        match find_entry(s.skip(1), e) {
            Some(j) => lemma_find_some_count_pos(s.skip(1), e, j),
            None => {},
        }
    }
}

/// Committing a record twice with identical fields yields the same address
/// both times — `address_of(r)` is a function of the serialized content
/// alone, the same in every store — leaves the store unchanged the second
/// time, and stores exactly one entry for content that was not present
/// before.
pub proof fn lemma_commit_idempotent(sv: StoreV, r: RecordV)
    ensures
        put_spec(put_spec(sv.entries, entry_of(r)), entry_of(r)) == put_spec(
            sv.entries,
            entry_of(r),
        ),
        entry_count(sv.entries, entry_of(r)) == 0 ==> entry_count(
            put_spec(sv.entries, entry_of(r)),
            entry_of(r),
        ) == 1,
{
    lemma_put_idempotent(sv.entries, entry_of(r));
}

/// Appending one link extends every matching query by exactly that link, and
/// leaves every other query unchanged.
pub proof fn lemma_links_from_push(ls: Seq<LinkV>, l: LinkV, base: Seq<u8>, filter: LinkFilterV)
    ensures
        links_from_spec(ls.push(l), base, filter) == (if link_matches(l, base, filter) {
            links_from_spec(ls, base, filter).push(
                LinkHit { target: l.target, tag: l.tag, link_address: ls.len() as u64 },
            )
        } else {
            links_from_spec(ls, base, filter)
        }),
{
    assert(ls.push(l).drop_last() =~= ls);
    assert(ls.push(l).last() == l);
}

/// A query whose filter no link matches finds nothing.
pub proof fn lemma_links_from_none(ls: Seq<LinkV>, base: Seq<u8>, filter: LinkFilterV)
    requires
        forall|i: int| 0 <= i < ls.len() ==> !link_matches(#[trigger] ls[i], base, filter),
    ensures
        links_from_spec(ls, base, filter) == Seq::<LinkHit>::empty(),
    decreases ls.len(),
{
    if ls.len() > 0 {
        assert(forall|i: int|
            0 <= i < ls.len() - 1 ==> !link_matches(#[trigger] ls.drop_last()[i], base, filter));
        lemma_links_from_none(ls.drop_last(), base, filter);
        assert(!link_matches(ls.last(), base, filter));
    }
}

/// Every hit of a link query keeps a property that all link targets obey:
/// here, resolving to some entry of a given log.
pub proof fn lemma_links_from_targets(
    ls: Seq<LinkV>,
    base: Seq<u8>,
    filter: LinkFilterV,
    es: Seq<EntryV>,
)
    requires
        forall|i: int| 0 <= i < ls.len() ==> find_by_key(es, (#[trigger] ls[i]).target) is Some,
    ensures
        forall|i: int|
            0 <= i < links_from_spec(ls, base, filter).len() ==> find_by_key(
                es,
                (#[trigger] links_from_spec(ls, base, filter)[i]).target,
            ) is Some,
    decreases ls.len(),
{
    if ls.len() > 0 {
        assert(forall|i: int|
            0 <= i < ls.len() - 1 ==> find_by_key(
                es,
                (#[trigger] ls.drop_last()[i]).target,
            ) is Some);
        lemma_links_from_targets(ls.drop_last(), base, filter, es);
        assert(find_by_key(es, ls.last().target) is Some);
        let res = links_from_spec(ls, base, filter);
        let prev = links_from_spec(ls.drop_last(), base, filter);
        assert forall|i: int|
            0 <= i < res.len() implies find_by_key(es, (#[trigger] res[i]).target) is Some by {
            if link_matches(ls.last(), base, filter) && i == res.len() - 1 {
                assert(res[i].target == ls.last().target);
            } else {
                assert(res[i] == prev[i]);
            }
        }
    }
}

/// Recording the same link twice appends two hits whose link addresses are
/// distinct, both keeping the target: the index never merges edges.
pub proof fn lemma_link_append_only(
    ls: Seq<LinkV>,
    base: Seq<u8>,
    target: Seq<u8>,
    lt: Seq<char>,
    tag: Seq<char>,
)
    requires
        ls.len() + 1 < 0x10000000000000000,
    ensures
        ({
            let l = LinkV { base, target, link_type: lt, tag };
            let h = links_from_spec(ls, base, LinkFilterV::Exactly(lt));
            let h2 = links_from_spec(ls.push(l).push(l), base, LinkFilterV::Exactly(lt));
            &&& h2 == h.push(
                LinkHit { target, tag, link_address: ls.len() as u64 },
            ).push(LinkHit { target, tag, link_address: (ls.len() + 1) as u64 })
            &&& h2.len() == h.len() + 2
            &&& h2[h2.len() - 2].link_address != h2[h2.len() - 1].link_address
            &&& h2[h2.len() - 2].target == target
            &&& h2[h2.len() - 1].target == target
        }),
{
    let l = LinkV { base, target, link_type: lt, tag };
    lemma_links_from_push(ls, l, base, LinkFilterV::Exactly(lt));
    lemma_links_from_push(ls.push(l), l, base, LinkFilterV::Exactly(lt));
}

} // verus!
