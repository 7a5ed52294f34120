//! The record under which a route is shown to the outside.

use vstd::prelude::*;
use vstd::string::StringExecFns;
use crate::nat_type::{nat_type_of_code, NatType};
use crate::peer_info::{texts, PeerInfoView, RoutePeerInfo};
use crate::PeerId;

verus! {

/// The text of the UUID with the 128-bit value given.
pub uninterp spec fn uuid_text(id: u128) -> Seq<char>;

/// The character of a decimal digit.
pub open spec fn digit_char(d: int) -> char {
    if d == 0 {
        '0'
    } else if d == 1 {
        '1'
    } else if d == 2 {
        '2'
    } else if d == 3 {
        '3'
    } else if d == 4 {
        '4'
    } else if d == 5 {
        '5'
    } else if d == 6 {
        '6'
    } else if d == 7 {
        '7'
    } else if d == 8 {
        '8'
    } else {
        '9'
    }
}

/// The decimal text of an octet, without leading zeros.
pub open spec fn decimal_text(n: u8) -> Seq<char> {
    if n < 10 {
        seq![digit_char(n as int)]
    } else if n < 100 {
        seq![digit_char(n as int / 10), digit_char(n as int % 10)]
    } else {
        seq![digit_char(n as int / 100), digit_char((n as int / 10) % 10), digit_char(n as int % 10)]
    }
}

/// The text of an IPv4 address with the four octets given, in dotted
/// decimal notation.
pub open spec fn dotted_quad_text(a: u8, b: u8, c: u8, d: u8) -> Seq<char> {
    decimal_text(a) + seq!['.'] + decimal_text(b) + seq!['.'] + decimal_text(c) + seq!['.']
        + decimal_text(d)
}

/// The text of one decimal digit.
fn digit_str(d: u8) -> (s: &'static str)
    requires
        d < 10,
    ensures
        s@ == seq![digit_char(d as int)],
{
    proof {
        reveal_strlit("0");
        reveal_strlit("1");
        reveal_strlit("2");
        reveal_strlit("3");
        reveal_strlit("4");
        reveal_strlit("5");
        reveal_strlit("6");
        reveal_strlit("7");
        reveal_strlit("8");
        reveal_strlit("9");
    }
    let s = if d == 0 {
        "0"
    } else if d == 1 {
        "1"
    } else if d == 2 {
        "2"
    } else if d == 3 {
        "3"
    } else if d == 4 {
        "4"
    } else if d == 5 {
        "5"
    } else if d == 6 {
        "6"
    } else if d == 7 {
        "7"
    } else if d == 8 {
        "8"
    } else {
        "9"
    };
    assert(s@ =~= seq![digit_char(d as int)]);
    s
}

/// Appends the decimal text of `n` to `text`.
fn push_decimal(text: &mut String, n: u8)
    ensures
        final(text)@ == old(text)@ + decimal_text(n),
{
    if n >= 100 {
        text.append(digit_str(n / 100));
    }
    if n >= 10 {
        text.append(digit_str((n / 10) % 10));
    }
    text.append(digit_str(n % 10));
    assert(text@ =~= old(text)@ + decimal_text(n));
}

/// The text of an IPv4 address with the four octets given, in dotted decimal
/// notation.
fn format_dotted_quad(a: u8, b: u8, c: u8, d: u8) -> (text: String)
    ensures
        text@ == dotted_quad_text(a, b, c, d),
{
    proof {
        reveal_strlit(".");
    }
    let mut text = String::new();
    push_decimal(&mut text, a);
    text.append(".");
    push_decimal(&mut text, b);
    text.append(".");
    push_decimal(&mut text, c);
    text.append(".");
    push_decimal(&mut text, d);
    assert("."@ =~= seq!['.']);
    assert(text@ =~= dotted_quad_text(a, b, c, d));
    text
}

/// `Uuid::to_string` on the UUID made by `Uuid::from_u128`: the hyphenated
/// lower-case text of the UUID.
#[verifier::external_body]
pub(crate) fn format_uuid(id: u128) -> (text: String)
    ensures
        text@ == uuid_text(id),
{
    uuid::Uuid::from_u128(id).to_string()
}

/// What a peer found out about its NAT.
#[derive(Debug, Clone, Copy, PartialEq, Eq, Structural)]
pub struct StunInfo {
    /// Wire code of the UDP NAT type.
    pub udp_nat_type: i32,
    /// Wire code of the TCP NAT type.
    pub tcp_nat_type: i32,
    pub last_update_time: i64,
}

/// A route as it is listed for diagnostics.
#[derive(Debug)]
pub struct Route {
    pub peer_id: PeerId,
    /// The overlay address in dotted decimal notation, empty without one.
    pub ipv4_addr: String,
    pub next_hop_peer_id: PeerId,
    pub cost: i32,
    pub proxy_cidrs: Vec<String>,
    pub hostname: String,
    pub stun_info: Option<StunInfo>,
    /// The instance id as the text of its UUID.
    pub inst_id: String,
    /// The version of the program that lists the route.
    pub version: String,
}

/// Mathematical content of a listed route.
pub struct RouteView {
    pub peer_id: PeerId,
    pub ipv4_addr: Seq<char>,
    pub next_hop_peer_id: PeerId,
    pub cost: i32,
    pub proxy_cidrs: Seq<Seq<char>>,
    pub hostname: Seq<char>,
    pub stun_info: Option<StunInfo>,
    pub inst_id: Seq<char>,
    pub version: Seq<char>,
}

impl View for Route {
    type V = RouteView;

    open spec fn view(&self) -> RouteView {
        RouteView {
            peer_id: self.peer_id,
            ipv4_addr: self.ipv4_addr@,
            next_hop_peer_id: self.next_hop_peer_id,
            cost: self.cost,
            proxy_cidrs: texts(self.proxy_cidrs@),
            hostname: self.hostname@,
            stun_info: self.stun_info,
            inst_id: self.inst_id@,
            version: self.version@,
        }
    }
}

/// The four octets of an IPv4 address, the most significant first.
pub open spec fn ipv4_octets(addr: u32) -> (u8, u8, u8, u8) {
    (
        (addr / 0x100_0000) as u8,
        ((addr / 0x1_0000) % 0x100) as u8,
        ((addr / 0x100) % 0x100) as u8,
        (addr % 0x100) as u8,
    )
}

/// The text of an optional overlay address.
pub open spec fn ipv4_text(addr: Option<u32>) -> Seq<char> {
    match addr {
        Some(a) => {
            let o = ipv4_octets(a);
            dotted_quad_text(o.0, o.1, o.2, o.3)
        },
        None => Seq::empty(),
    }
}

/// The NAT information shown for a wire code: the code itself where it
/// stands for a NAT type, the unknown type otherwise.
pub open spec fn stun_info_of_code(code: i8) -> StunInfo {
    StunInfo {
        udp_nat_type: if nat_type_of_code(code as int) is Some {
            code as i32
        } else {
            0
        },
        tcp_nat_type: 0,
        last_update_time: 0,
    }
}

impl PeerInfoView {
    /// The route record of a descriptor, before a next hop is filled in.
    pub open spec fn as_route(self, build_version: Seq<char>) -> RouteView {
        RouteView {
            peer_id: self.peer_id,
            ipv4_addr: ipv4_text(self.ipv4_addr),
            next_hop_peer_id: 0,
            cost: self.cost as i32,
            proxy_cidrs: self.proxy_cidrs,
            hostname: match self.hostname {
                Some(h) => h,
                None => Seq::empty(),
            },
            stun_info: Some(stun_info_of_code(self.udp_stun_info)),
            inst_id: uuid_text(self.inst_id),
            version: build_version,
        }
    }
}

/// The text of an overlay address in dotted decimal notation.
pub fn ipv4_to_string(addr: u32) -> (text: String)
    ensures
        text@ == ipv4_text(Some(addr)),
{
    let a: u8 = (addr / 0x100_0000) as u8;
    let b: u8 = ((addr / 0x1_0000) % 0x100) as u8;
    let c: u8 = ((addr / 0x100) % 0x100) as u8;
    let d: u8 = (addr % 0x100) as u8;
    format_dotted_quad(a, b, c, d)
}

impl RoutePeerInfo {
    /// The route record of this descriptor, with no next hop filled in yet.
    /// `build_version` is the version of the program that lists the route.
    pub fn into(self, build_version: &str) -> (route: Route)
        ensures
            route@ == self@.as_route(build_version@),
    {
        let ipv4_addr = match self.ipv4_addr {
            Some(addr) => ipv4_to_string(addr),
            None => String::new(),
        };
        let mut stun_info = StunInfo { udp_nat_type: 0, tcp_nat_type: 0, last_update_time: 0 };
        match NatType::try_from_code(self.udp_stun_info as i32) {
            Some(udp_nat_type) => {
                stun_info.udp_nat_type = udp_nat_type.code();
            },
            None => {},
        }
        let hostname = match self.hostname {
            Some(h) => h,
            None => String::new(),
        };
        Route {
            peer_id: self.peer_id,
            ipv4_addr,
            next_hop_peer_id: 0,
            cost: self.cost as i32,
            proxy_cidrs: self.proxy_cidrs,
            hostname,
            stun_info: Some(stun_info),
            inst_id: format_uuid(self.inst_id),
            version: build_version.to_owned(),
        }
    }
}

} // verus!
