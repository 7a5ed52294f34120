//! The table of the services that a node offers to its peers.

use vstd::prelude::*;
use crate::dash::{slot_entries, slot_map_get, slot_map_insert, slot_map_new, SlotMap};
use crate::rpc_types::Error;

verus! {

/// What a service is registered under.
#[derive(Debug)]
pub struct ServiceKey {
    pub service_name: String,
    pub proto_name: String,
}

/// The names of a service key as texts.
pub type ServiceKeyView = (Seq<char>, Seq<char>);

impl View for ServiceKey {
    type V = ServiceKeyView;

    open spec fn view(&self) -> ServiceKeyView {
        (self.service_name@, self.proto_name@)
    }
}

impl Clone for ServiceKey {
    fn clone(&self) -> (r: Self)
        ensures
            r@ == self@,
    {
        ServiceKey { service_name: self.service_name.clone(), proto_name: self.proto_name.clone() }
    }
}

impl ServiceKey {
    /// Whether two keys carry the same names.
    pub fn same(&self, other: &ServiceKey) -> (r: bool)
        ensures
            r == (self@ == other@),
    {
        self.service_name == other.service_name && self.proto_name == other.proto_name
    }
}

/// A registered service: its name and what handles its calls.
pub struct ServiceEntry<H> {
    pub name: String,
    pub service: H,
}

impl<H> ServiceEntry<H> {
    /// An entry for the handler `h` under `name`.
    pub fn new(name: String, h: H) -> (r: Self)
        ensures
            r.name == name,
            r.service == h,
    {
        Self { name, service: h }
    }
}

/// The registered services: the entries in the order in which their keys
/// were first registered, and a concurrent map from the names of a service to
/// the place of its entry.
pub struct ServiceTable<H> {
    table: SlotMap,
    entries: Vec<ServiceEntry<H>>,
}

impl<H> ServiceTable<H> {
    /// Whether every key leads to an entry, and no two keys to the same one.
    pub closed spec fn wf(&self) -> bool {
        &&& forall|key: ServiceKeyView| #[trigger]
            slot_entries(self.table).contains_key(key) ==> slot_entries(self.table)[key]
                < self.entries@.len()
        &&& forall|a: ServiceKeyView, b: ServiceKeyView|
            slot_entries(self.table).contains_key(a) && slot_entries(self.table).contains_key(b)
                && a != b ==> #[trigger] slot_entries(self.table)[a] != #[trigger] slot_entries(
                self.table,
            )[b]
    }

    /// Whether a service is registered under `key`.
    pub closed spec fn has(&self, key: ServiceKeyView) -> bool {
        slot_entries(self.table).contains_key(key)
    }

    /// The entry registered under `key`.
    pub closed spec fn entry(&self, key: ServiceKeyView) -> ServiceEntry<H> {
        self.entries@[slot_entries(self.table)[key] as int]
    }

    /// A table without services.
    pub fn new() -> (r: Self)
        ensures
            r.wf(),
            forall|key: ServiceKeyView| !r.has(key),
    {
        Self { table: slot_map_new(), entries: Vec::new() }
    }

    /// Registers the handler `h` under `key`, in place of whatever was
    /// registered under it. The entry takes the service name of the key.
    pub fn register(&mut self, key: ServiceKey, h: H)
        requires
            old(self).wf(),
        ensures
            final(self).wf(),
            final(self).has(key@),
            final(self).entry(key@).service == h,
            final(self).entry(key@).name@ == key.service_name@,
            forall|other: ServiceKeyView|
                other != key@ ==> final(self).has(other) == old(self).has(other) && (old(self).has(
                    other,
                ) ==> final(self).entry(other) == old(self).entry(other)),
    {
        let entry = ServiceEntry::new(key.service_name.clone(), h);
        match slot_map_get(&self.table, &key.service_name, &key.proto_name) {
            Some(slot) => {
                self.entries.set(slot, entry);
            },
            None => {
                let slot = self.entries.len();
                self.entries.push(entry);
                slot_map_insert(&mut self.table, key.service_name, key.proto_name, slot);
            },
        }
    }

    /// The entry registered under `service_key`, to which a call is handed;
    /// `InvalidServiceKey` with the names of the key where there is none.
    pub fn find(&self, service_key: &ServiceKey) -> (r: Result<&ServiceEntry<H>, Error>)
        requires
            self.wf(),
        ensures
            r is Ok <==> self.has(service_key@),
            r matches Ok(entry) ==> *entry == self.entry(service_key@),
            r matches Err(e) ==> (e matches Error::InvalidServiceKey(service_name, proto_name)
                && service_name@ == service_key.service_name@ && proto_name@
                == service_key.proto_name@),
    {
        match slot_map_get(&self.table, &service_key.service_name, &service_key.proto_name) {
            Some(slot) => Ok(&self.entries[slot]),
            None => Err(
                Error::InvalidServiceKey(
                    service_key.service_name.clone(),
                    service_key.proto_name.clone(),
                ),
            ),
        }
    }
}

} // verus!
