//! The descriptor that every peer publishes about itself.

use vstd::prelude::*;
use crate::clock::{clock_now, elapsed, elapsed_between};
use crate::{PeerId, Timestamp, Version, UPDATE_PEER_INFO_PERIOD};

verus! {

/// What a node knows about itself and publishes in its descriptor.
pub struct LocalContext {
    /// Instance id, as the 128-bit value of its UUID.
    pub inst_id: u128,
    /// Overlay address, as the 32-bit value of the IPv4 address.
    pub ipv4: Option<u32>,
    /// Networks this node forwards to, in CIDR notation.
    pub proxy_cidrs: Vec<String>,
    /// Network of the VPN portal, if one is configured.
    pub vpn_portal_cidr: Option<String>,
    pub hostname: String,
    /// Wire code of the UDP NAT type that was last probed.
    pub udp_nat_type: i8,
}

/// Mathematical content of a `LocalContext`.
pub struct LocalContextView {
    pub inst_id: u128,
    pub ipv4: Option<u32>,
    pub proxy_cidrs: Seq<Seq<char>>,
    pub vpn_portal_cidr: Option<Seq<char>>,
    pub hostname: Seq<char>,
    pub udp_nat_type: i8,
}

/// The characters of an optional string.
pub open spec fn opt_text(s: Option<String>) -> Option<Seq<char>> {
    match s {
        Some(t) => Some(t@),
        None => None,
    }
}

/// The characters of each string of a list.
pub open spec fn texts(v: Seq<String>) -> Seq<Seq<char>> {
    Seq::new(v.len(), |i: int| v[i]@)
}

impl View for LocalContext {
    type V = LocalContextView;

    open spec fn view(&self) -> LocalContextView {
        LocalContextView {
            inst_id: self.inst_id,
            ipv4: self.ipv4,
            proxy_cidrs: texts(self.proxy_cidrs@),
            vpn_portal_cidr: opt_text(self.vpn_portal_cidr),
            hostname: self.hostname@,
            udp_nat_type: self.udp_nat_type,
        }
    }
}

/// A peer's self-published metadata. A descriptor with version 0 is a
/// placeholder: it only records that the id was mentioned by somebody.
#[derive(Debug)]
pub struct RoutePeerInfo {
    pub peer_id: PeerId,
    /// Instance id, as the 128-bit value of its UUID.
    pub inst_id: u128,
    pub cost: u8,
    /// Overlay address, as the 32-bit value of the IPv4 address.
    pub ipv4_addr: Option<u32>,
    pub proxy_cidrs: Vec<String>,
    pub hostname: Option<String>,
    pub udp_stun_info: i8,
    /// When this node last accepted the descriptor.
    pub last_update: Timestamp,
    pub version: Version,
}

/// Mathematical content of a descriptor.
pub struct PeerInfoView {
    pub peer_id: PeerId,
    pub inst_id: u128,
    pub cost: u8,
    pub ipv4_addr: Option<u32>,
    pub proxy_cidrs: Seq<Seq<char>>,
    pub hostname: Option<Seq<char>>,
    pub udp_stun_info: i8,
    pub last_update: Timestamp,
    pub version: Version,
}

impl View for RoutePeerInfo {
    type V = PeerInfoView;

    open spec fn view(&self) -> PeerInfoView {
        PeerInfoView {
            peer_id: self.peer_id,
            inst_id: self.inst_id,
            cost: self.cost,
            ipv4_addr: self.ipv4_addr,
            proxy_cidrs: texts(self.proxy_cidrs@),
            hostname: opt_text(self.hostname),
            udp_stun_info: self.udp_stun_info,
            last_update: self.last_update,
            version: self.version,
        }
    }
}

impl PeerInfoView {
    /// The placeholder created at `now`.
    pub open spec fn placeholder(now: Timestamp) -> PeerInfoView {
        PeerInfoView {
            peer_id: 0,
            inst_id: 0,
            cost: 0,
            ipv4_addr: None,
            proxy_cidrs: Seq::empty(),
            hostname: None,
            udp_stun_info: 0,
            last_update: now,
            version: 0,
        }
    }

    /// Whether two descriptors agree on everything but `last_update` and `version`.
    pub open spec fn same_content(self, other: PeerInfoView) -> bool {
        &&& self.peer_id == other.peer_id
        &&& self.inst_id == other.inst_id
        &&& self.cost == other.cost
        &&& self.ipv4_addr == other.ipv4_addr
        &&& self.proxy_cidrs == other.proxy_cidrs
        &&& self.hostname == other.hostname
        &&& self.udp_stun_info == other.udp_stun_info
    }

    /// The descriptor of peer `my_peer_id` as its context describes it, with the
    /// stamps of `self`.
    pub open spec fn projected(self, my_peer_id: PeerId, ctx: LocalContextView) -> PeerInfoView {
        PeerInfoView {
            peer_id: my_peer_id,
            inst_id: ctx.inst_id,
            cost: 0,
            ipv4_addr: ctx.ipv4,
            proxy_cidrs: match ctx.vpn_portal_cidr {
                Some(c) => ctx.proxy_cidrs.push(c),
                None => ctx.proxy_cidrs,
            },
            hostname: Some(ctx.hostname),
            udp_stun_info: ctx.udp_nat_type,
            last_update: self.last_update,
            version: self.version,
        }
    }

    /// Whether a descriptor last updated at `self.last_update` is due for a
    /// periodic republication at `now`.
    pub open spec fn stale_at(self, now: Timestamp) -> bool {
        match elapsed_between(now, self.last_update) {
            Some(d) => d > UPDATE_PEER_INFO_PERIOD,
            None => true,
        }
    }

    /// Whether refreshing `self` at `now` publishes a new version.
    pub open spec fn refresh_bumps(self, my_peer_id: PeerId, ctx: LocalContextView, now: Timestamp) -> bool {
        !self.projected(my_peer_id, ctx).same_content(self) || self.stale_at(now)
    }

    /// The descriptor that replaces `self` when the node refreshes it at `now`.
    pub open spec fn refreshed(self, my_peer_id: PeerId, ctx: LocalContextView, now: Timestamp) -> PeerInfoView {
        let p = self.projected(my_peer_id, ctx);
        if self.refresh_bumps(my_peer_id, ctx, now) {
            PeerInfoView { last_update: now, version: (self.version + 1) as u32, ..p }
        } else {
            p
        }
    }
}

/// A refreshed descriptor names the local peer and carries what the context
/// describes, whatever descriptor the refresh started from and whenever it
/// was made: of the earlier descriptor only the stamps can remain.
pub proof fn lemma_refreshed_is_projection(
    before: PeerInfoView,
    my_peer_id: PeerId,
    ctx: LocalContextView,
    now: Timestamp,
)
    ensures
        before.refreshed(my_peer_id, ctx, now).peer_id == my_peer_id,
        before.refreshed(my_peer_id, ctx, now).same_content(
            PeerInfoView::placeholder(now).projected(my_peer_id, ctx),
        ),
        !before.refresh_bumps(my_peer_id, ctx, now) ==> before.refreshed(my_peer_id, ctx, now)
            == before,
{
    if !before.refresh_bumps(my_peer_id, ctx, now) {
        let p = before.projected(my_peer_id, ctx);
        assert(p.same_content(before));
        assert(p.last_update == before.last_update && p.version == before.version);
    }
}

/// Copies a list of strings.
pub fn clone_strings(v: &Vec<String>) -> (r: Vec<String>)
    ensures
        r@ == v@,
{
    let mut r: Vec<String> = Vec::new();
    let mut i: usize = 0;
    while i < v.len()
        invariant
            i <= v.len(),
            r@ == v@.take(i as int),
        decreases v.len() - i,
    {
        r.push(v[i].clone());
        i += 1;
    }
    r
}

/// Whether two lists hold the same strings in the same order.
pub fn same_strings(a: &Vec<String>, b: &Vec<String>) -> (r: bool)
    ensures
        r == (texts(a@) == texts(b@)),
{
    if a.len() != b.len() {
        assert(texts(a@).len() != texts(b@).len());
        return false;
    }
    let mut i: usize = 0;
    while i < a.len()
        invariant
            i <= a.len(),
            a.len() == b.len(),
            forall|j: int| 0 <= j < i ==> a@[j]@ == b@[j]@,
        decreases a.len() - i,
    {
        if a[i] != b[i] {
            assert(texts(a@)[i as int] != texts(b@)[i as int]);
            return false;
        }
        i += 1;
    }
    assert(texts(a@) =~= texts(b@));
    true
}

/// Copies an optional string.
pub fn clone_opt_string(s: &Option<String>) -> (r: Option<String>)
    ensures
        r == *s,
{
    match s {
        Some(t) => Some(t.clone()),
        None => None,
    }
}

/// Whether two optional strings hold the same text.
pub fn same_opt_string(a: &Option<String>, b: &Option<String>) -> (r: bool)
    ensures
        r == (opt_text(*a) == opt_text(*b)),
{
    match (a, b) {
        (Some(x), Some(y)) => *x == *y,
        (None, None) => true,
        _ => false,
    }
}

impl Clone for RoutePeerInfo {
    fn clone(&self) -> (r: Self)
        ensures
            r@ == self@,
    {
        RoutePeerInfo {
            peer_id: self.peer_id,
            inst_id: self.inst_id,
            cost: self.cost,
            ipv4_addr: self.ipv4_addr,
            proxy_cidrs: clone_strings(&self.proxy_cidrs),
            hostname: clone_opt_string(&self.hostname),
            udp_stun_info: self.udp_stun_info,
            last_update: self.last_update,
            version: self.version,
        }
    }
}

impl RoutePeerInfo {
    /// A placeholder stamped with the current time.
    pub fn new() -> (r: Self)
        ensures
            r@ == PeerInfoView::placeholder(r.last_update),
    {
        Self::placeholder(clock_now())
    }

    /// A placeholder stamped with `now`.
    pub fn placeholder(now: Timestamp) -> (r: Self)
        ensures
            r@ == PeerInfoView::placeholder(now),
    {
        let r = RoutePeerInfo {
            peer_id: 0,
            inst_id: 0,
            cost: 0,
            ipv4_addr: None,
            proxy_cidrs: Vec::new(),
            hostname: None,
            udp_stun_info: 0,
            last_update: now,
            version: 0,
        };
        assert(r@.proxy_cidrs =~= Seq::empty());
        r
    }

    /// Whether `self` and `other` agree on everything but `last_update` and `version`.
    pub fn same_content(&self, other: &RoutePeerInfo) -> (r: bool)
        ensures
            r == self@.same_content(other@),
    {
        self.peer_id == other.peer_id && self.inst_id == other.inst_id && self.cost == other.cost
            && self.ipv4_addr == other.ipv4_addr && same_strings(
            &self.proxy_cidrs,
            &other.proxy_cidrs,
        ) && same_opt_string(&self.hostname, &other.hostname) && self.udp_stun_info
            == other.udp_stun_info
    }

    /// The descriptor that this node publishes next, given the one it published
    /// last, read against the current time: whatever the clock gives, it names
    /// `my_peer_id` and carries what `ctx` describes, and nothing of the content
    /// of `self`. The version has to leave room for every reading of the clock
    /// on which a new one is published.
    pub fn update_self(&self, my_peer_id: PeerId, ctx: &LocalContext) -> (r: Self)
        requires
            forall|now: Timestamp|
                #[trigger] self@.refresh_bumps(my_peer_id, ctx@, now) ==> self.version < u32::MAX,
        ensures
            exists|now: Timestamp| r@ == self@.refreshed(my_peer_id, ctx@, now),
            r.peer_id == my_peer_id,
            r@.same_content(self@.projected(my_peer_id, ctx@)),
            r.version == self.version || r.version == self.version + 1,
    {
        self.update_self_at(my_peer_id, ctx, clock_now())
    }

    /// The descriptor that this node publishes at `now`, given the one it
    /// published last: every field is rebuilt from `ctx`; the version advances,
    /// and `last_update` moves to `now`, exactly when the content changed or
    /// the last publication is older than the refresh period.
    pub fn update_self_at(&self, my_peer_id: PeerId, ctx: &LocalContext, now: Timestamp) -> (r: Self)
        requires
            self@.refresh_bumps(my_peer_id, ctx@, now) ==> self.version < u32::MAX,
        ensures
            r@ == self@.refreshed(my_peer_id, ctx@, now),
    {
        let mut new = self.projected(my_peer_id, ctx);
        if !new.same_content(self) || self.stale_at(now) {
            new.last_update = now;
            new.version = new.version + 1;
        }
        new
    }

    /// Whether refreshing this descriptor at `now` publishes a new version:
    /// what `ctx` describes differs from it, or its last publication is older
    /// than the refresh period.
    pub fn refresh_due(&self, my_peer_id: PeerId, ctx: &LocalContext, now: Timestamp) -> (r: bool)
        ensures
            r == self@.refresh_bumps(my_peer_id, ctx@, now),
    {
        let new = self.projected(my_peer_id, ctx);
        !new.same_content(self) || self.stale_at(now)
    }

    /// The descriptor of peer `my_peer_id` as `ctx` describes it, with the
    /// stamps of `self`.
    fn projected(&self, my_peer_id: PeerId, ctx: &LocalContext) -> (r: Self)
        ensures
            r@ == self@.projected(my_peer_id, ctx@),
    {
        let mut cidrs = clone_strings(&ctx.proxy_cidrs);
        match &ctx.vpn_portal_cidr {
            Some(c) => {
                cidrs.push(c.clone());
            },
            None => {},
        }
        let new = RoutePeerInfo {
            peer_id: my_peer_id,
            inst_id: ctx.inst_id,
            cost: 0,
            ipv4_addr: ctx.ipv4,
            proxy_cidrs: cidrs,
            hostname: Some(ctx.hostname.clone()),
            udp_stun_info: ctx.udp_nat_type,
            last_update: self.last_update,
            version: self.version,
        };
        assert(new@.proxy_cidrs =~= self@.projected(my_peer_id, ctx@).proxy_cidrs);
        new
    }

    /// Whether the last publication of this descriptor is older at `now` than
    /// the refresh period.
    fn stale_at(&self, now: Timestamp) -> (r: bool)
        ensures
            r == self@.stale_at(now),
    {
        match elapsed(now, self.last_update) {
            Some(d) => d > UPDATE_PEER_INFO_PERIOD,
            None => true,
        }
    }
}

} // verus!
