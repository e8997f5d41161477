//! Identities, records and counters shared by the engine.

use vstd::prelude::*;

verus! {

/// Upper bound on the number of tenants: identities are stored in a `u8`.
pub const MAX_TENANTS: usize = 255;

/// Tenant identity `Ui`, counted from 1.
#[derive(Debug, Clone, Copy, PartialEq, Eq, Hash)]
pub struct Tenant(pub u8);

impl Tenant {
    /// Zero-based position of the tenant in per-tenant tables.
    pub fn index(&self) -> (r: usize)
        requires
            self.0 >= 1,
        ensures
            r == self.0 - 1,
    {
        (self.0 - 1) as usize
    }
}

/// Page identity, scoped to its owning tenant.
#[derive(Debug, Clone, Copy, PartialEq, Eq, Hash)]
pub struct Page(pub u32);

/// One access: a tenant asking for one of its pages.
#[derive(Debug, Clone, Copy, PartialEq, Eq, Hash)]
pub struct Operation {
    pub tenant: Tenant,
    pub page: Page,
}

/// Location value held by ghost entries: "no slot".
pub const NO_SLOT: usize = 0;

/// A record of one tenant page inside one of the four lists.
#[derive(Debug, Clone, Copy)]
pub struct Entry {
    /// Zero-based tenant index.
    pub tenant: usize,
    pub page: u32,
    /// Clock value of the access that last placed the record.
    pub clock: u64,
    /// Buffer location, or `NO_SLOT` for a ghost record.
    pub loc: usize,
}

impl Entry {
    pub open spec fn is_key(self, tenant: int, page: u32) -> bool {
        self.tenant == tenant && self.page == page
    }
}

/// Per-tenant statistics; they never influence placement.
#[derive(Debug, Clone, Copy, Default)]
pub struct Counters {
    pub hits: u64,
    pub misses: u64,
    pub evictions: u64,
}

/// The four list families of the replacement engine.
#[derive(Debug, Clone, Copy, PartialEq, Eq, Structural)]
pub enum ListKind {
    T1,
    T2,
    B1,
    B2,
}

} // verus!
