//! The storage collaborator: ordered key-value keyspaces kept behind a
//! trusted boundary.
//!
//! Each store owns a `cosmwasm_std::MemoryStorage` and addresses it through a
//! `cw_storage_plus::Map` under one namespace. The maps below use `u64` key
//! components, which `cw_storage_plus` encodes as big-endian bytes, so the
//! ascending byte order of a storage scan is exactly the numeric key order.
//! Entries are written only through `save`, so every stored byte string is a
//! valid encoding of its key and value types.
//!
//! The keying scheme length-prefixes the namespace with two bytes and cannot
//! carry one of 0x10000 bytes or more; at exactly 0xFFFF bytes of 0xFF the
//! computed end bound of a scan wraps around. The constructors therefore
//! require the namespace to stay clearly below that limit: each `char` takes
//! at most four bytes, so fewer than 0x4000 characters keep the encoded
//! namespace under 0xFFFF bytes.

use vstd::prelude::*;

use crate::pagespec::{is_first_past, past_cursor, sub_keys};

verus! {

#[verifier::external_type_specification]
#[verifier::external_body]
pub struct ExStdError(cosmwasm_std::StdError);

/// An ordered keyspace of `u64` keys with `String` values.
#[verifier::external_body]
pub struct FlatStore {
    mem: cosmwasm_std::MemoryStorage,
    ns: String,
}

/// The entries a flat store holds, as a map from key to the stored text.
pub uninterp spec fn flat_view(s: FlatStore) -> Map<u64, Seq<char>>;

impl FlatStore {
    /// Relies on `cosmwasm_std::MemoryStorage::new`: a fresh storage holds no
    /// entries. The namespace bound keeps every store inside what the keying
    /// scheme supports (see the module notes), so the other methods neither
    /// panic nor scan a wrapped range.
    #[verifier::external_body]
    pub fn new(namespace: &str) -> (store: FlatStore)
        requires
            namespace@.len() < 0x4000,
        ensures
            flat_view(store) == (Map::<u64, Seq<char>>::empty()),
    {
        FlatStore { mem: cosmwasm_std::MemoryStorage::new(), ns: namespace.to_string() }
    }

    /// Relies on `cw_storage_plus::Map::save`: it writes the value under this
    /// key and touches no other entry of the namespace; on a failed write
    /// nothing is stored.
    #[verifier::external_body]
    pub fn save(&mut self, key: u64, value: &String) -> (r: Result<(), cosmwasm_std::StdError>)
        ensures
            r is Ok ==> flat_view(*final(self)) == flat_view(*old(self)).insert(key, value@),
            r is Err ==> flat_view(*final(self)) == flat_view(*old(self)),
    {
        let map: cw_storage_plus::Map<u64, String> = cw_storage_plus::Map::new(self.ns.as_str());
        map.save(&mut self.mem, key, value)
    }

    /// Relies on `cw_storage_plus::Map::load`: on a present key it returns the
    /// stored value, on an absent key it fails with a not-found error.
    #[verifier::external_body]
    pub fn load(&self, key: u64) -> (r: Result<String, cosmwasm_std::StdError>)
        ensures
            r matches Ok(v) ==> flat_view(*self).dom().contains(key) && v@ == flat_view(*self)[key],
            r is Err ==> !flat_view(*self).dom().contains(key),
            flat_view(*self).dom().contains(key) ==> r is Ok,
    {
        let map: cw_storage_plus::Map<u64, String> = cw_storage_plus::Map::new(self.ns.as_str());
        map.load(&self.mem, key)
    }

    /// Relies on `cw_storage_plus::Map::range` with an exclusive lower bound,
    /// ascending: big-endian `u64` keys scan in numeric order, so the first
    /// entry of the scan is the smallest key strictly after the bound, and an
    /// empty scan means no key lies after it.
    #[verifier::external_body]
    pub(crate) fn first_after(&self, after: Option<u64>) -> (r: Result<
        Option<(u64, String)>,
        cosmwasm_std::StdError,
    >)
        ensures
            r matches Ok(Some(kv)) ==> is_first_past(flat_view(*self).dom(), after, kv.0)
                && kv.1@ == flat_view(*self)[kv.0],
            r matches Ok(None) ==> forall|j: u64|
                flat_view(*self).dom().contains(j) ==> !past_cursor(after, j),
    {
        let map: cw_storage_plus::Map<u64, String> = cw_storage_plus::Map::new(self.ns.as_str());
        let bound = after.map(cw_storage_plus::Bound::exclusive);
        match map.range(&self.mem, bound, None, cosmwasm_std::Order::Ascending).next() {
            None => Ok(None),
            Some(Ok(kv)) => Ok(Some(kv)),
            Some(Err(e)) => Err(e),
        }
    }
}

/// An ordered keyspace of composite `(u64, u64)` keys — a prefix and a suffix
/// component — with `String` values.
#[verifier::external_body]
pub struct PrefixStore {
    mem: cosmwasm_std::MemoryStorage,
    ns: String,
}

/// The entries a prefixed store holds, as a map from composite key to the
/// stored text.
pub uninterp spec fn prefix_view(s: PrefixStore) -> Map<(u64, u64), Seq<char>>;

impl PrefixStore {
    /// Relies on `cosmwasm_std::MemoryStorage::new`: a fresh storage holds no
    /// entries. The namespace bound keeps every store inside what the keying
    /// scheme supports (see the module notes), so the other methods neither
    /// panic nor scan a wrapped range.
    #[verifier::external_body]
    pub fn new(namespace: &str) -> (store: PrefixStore)
        requires
            namespace@.len() < 0x4000,
        ensures
            prefix_view(store) == (Map::<(u64, u64), Seq<char>>::empty()),
    {
        PrefixStore { mem: cosmwasm_std::MemoryStorage::new(), ns: namespace.to_string() }
    }

    /// Relies on `cw_storage_plus::Map::save` with a composite key: it writes
    /// the value under `(prefix, suffix)` and touches no other entry; on a
    /// failed write nothing is stored.
    #[verifier::external_body]
    pub fn save(&mut self, prefix: u64, suffix: u64, value: &String) -> (r: Result<
        (),
        cosmwasm_std::StdError,
    >)
        ensures
            r is Ok ==> prefix_view(*final(self)) == prefix_view(*old(self)).insert(
                (prefix, suffix),
                value@,
            ),
            r is Err ==> prefix_view(*final(self)) == prefix_view(*old(self)),
    {
        let map: cw_storage_plus::Map<(u64, u64), String> = cw_storage_plus::Map::new(
            self.ns.as_str(),
        );
        map.save(&mut self.mem, (prefix, suffix), value)
    }

    /// Relies on `cw_storage_plus::Map::load` with a composite key: on a
    /// present key it returns the stored value, on an absent key it fails
    /// with a not-found error.
    #[verifier::external_body]
    pub fn load(&self, prefix: u64, suffix: u64) -> (r: Result<String, cosmwasm_std::StdError>)
        ensures
            r matches Ok(v) ==> prefix_view(*self).dom().contains((prefix, suffix)) && v@
                == prefix_view(*self)[(prefix, suffix)],
            r is Err ==> !prefix_view(*self).dom().contains((prefix, suffix)),
            prefix_view(*self).dom().contains((prefix, suffix)) ==> r is Ok,
    {
        let map: cw_storage_plus::Map<(u64, u64), String> = cw_storage_plus::Map::new(
            self.ns.as_str(),
        );
        map.load(&self.mem, (prefix, suffix))
    }

    /// Relies on `cw_storage_plus::Map::prefix` and `Prefix::range` with an
    /// exclusive lower bound, ascending: the scan stays within the contiguous
    /// byte range of keys carrying this prefix, yields suffixes in numeric
    /// order, and its first entry is the smallest suffix strictly after the
    /// bound.
    #[verifier::external_body]
    pub(crate) fn first_suffix_after(&self, prefix: u64, after: Option<u64>) -> (r: Result<
        Option<(u64, String)>,
        cosmwasm_std::StdError,
    >)
        ensures
            r matches Ok(Some(kv)) ==> is_first_past(sub_keys(prefix_view(*self), prefix), after, kv.0)
                && kv.1@ == prefix_view(*self)[(prefix, kv.0)],
            r matches Ok(None) ==> forall|j: u64|
                prefix_view(*self).dom().contains((prefix, j)) ==> !past_cursor(after, j),
    {
        let map: cw_storage_plus::Map<(u64, u64), String> = cw_storage_plus::Map::new(
            self.ns.as_str(),
        );
        let bound = after.map(cw_storage_plus::Bound::exclusive);
        match map.prefix(prefix).range(&self.mem, bound, None, cosmwasm_std::Order::Ascending).next()
        {
            None => Ok(None),
            Some(Ok(kv)) => Ok(Some(kv)),
            Some(Err(e)) => Err(e),
        }
    }
}

} // verus!
