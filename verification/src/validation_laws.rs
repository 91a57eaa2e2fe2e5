//! Which configurations pass, and what is said of the others.

use crate::address::IpAddr;
use crate::text::decimal;
use crate::wireguard_config::{ConfigView, PeerView};
use crate::wireguard_parser::{
    config_fault, config_fit, law_valid_config_is_fit, peer_fault, peer_fit, peers_fault,
};
use vstd::prelude::*;

verus! {

/// Whether a key is made of zeros.
pub open spec fn blank(key: Seq<u8>) -> bool {
    forall|i: int| 0 <= i < key.len() ==> #[trigger] key[i] == 0
}

/// Whether an interface has an address with a prefix that its family can have.
pub open spec fn well_addressed(c: ConfigView) -> bool {
    &&& c.interface_address is Some
    &&& c.interface_prefix is Some
    &&& c.interface_address->0 is V4 ==> c.interface_prefix->0 <= 32
    &&& c.interface_address->0 is V6 ==> c.interface_prefix->0 <= 128
}

/// Whether a tunnel to a peer can be set up.
pub open spec fn usable_peer(p: PeerView, private_key: Seq<u8>) -> bool {
    &&& !blank(p.public_key)
    &&& p.public_key != private_key
    &&& p.endpoint is Some
    &&& p.allowed_ips.len() > 0
    &&& p.preshared_key matches Some(k) ==> !blank(k)
}

/// Whether the key of a peer is that of one before it.
pub open spec fn repeated(c: ConfigView, i: int) -> bool {
    exists|j: int| 0 <= j < i && (#[trigger] c.peers[j]).public_key == c.peers[i].public_key
}

/// What is said of a peer that cannot be used, or whose key comes again.
pub open spec fn said_of(c: ConfigView, i: int) -> Seq<char> {
    let p = c.peers[i];
    if blank(p.public_key) {
        ": PublicKey состоит из нулей."@
    } else if p.public_key == c.private_key {
        ": PublicKey совпадает с вашим PrivateKey — ошибка конфигурации."@
    } else if repeated(c, i) {
        ": PublicKey уже используется в другом [Peer]."@
    } else if p.endpoint is None {
        ": Endpoint отсутствует. Укажите адрес и порт сервера (host:port)."@
    } else if p.allowed_ips.len() == 0 {
        ": AllowedIPs пуст. Укажите хотя бы один маршрут, например: 0.0.0.0/0"@
    } else {
        ": PresharedKey состоит из нулей — удалите поле или замените ключ."@
    }
}

/// A configuration passes exactly where its private key is not made of zeros, its
/// address has a prefix of at most 32 or 128, it has a peer, every peer has a key of
/// its own that is neither made of zeros nor the private key, an endpoint and a
/// range, and no preshared key is made of zeros.
pub proof fn law_which_configs_pass(c: ConfigView)
    ensures
        config_fault(c) is None <==> {
            &&& !blank(c.private_key)
            &&& well_addressed(c)
            &&& c.peers.len() > 0
            &&& forall|i: int|
                0 <= i < c.peers.len() ==> usable_peer(#[trigger] c.peers[i], c.private_key)
            &&& forall|i: int, j: int|
                0 <= i < j < c.peers.len() ==> (#[trigger] c.peers[i]).public_key != (
                #[trigger] c.peers[j]).public_key
        },
{
    law_valid_config_is_fit(c);
    if config_fit(c) {
        assert forall|i: int| 0 <= i < c.peers.len() implies usable_peer(
            #[trigger] c.peers[i],
            c.private_key,
        ) by {
            assert(peer_fit(c.peers[i], c.private_key));
        }
    }
    if forall|i: int| 0 <= i < c.peers.len() ==> usable_peer(#[trigger] c.peers[i], c.private_key) {
        assert forall|i: int| 0 <= i < c.peers.len() implies peer_fit(
            #[trigger] c.peers[i],
            c.private_key,
        ) by {
            assert(usable_peer(c.peers[i], c.private_key));
        }
    }
}

proof fn lemma_first_fault(c: ConfigView, i: int, n: int)
    requires
        0 <= i < n,
        peer_fault(c, i) is Some,
        forall|j: int| 0 <= j < i ==> #[trigger] peer_fault(c, j) is None,
    ensures
        peers_fault(c, n) == peer_fault(c, i),
    decreases n,
{
    if n - 1 > i {
        lemma_first_fault(c, i, n - 1);
    } else {
        lemma_none(c, i);
    }
}

proof fn lemma_none(c: ConfigView, n: int)
    requires
        forall|j: int| 0 <= j < n ==> #[trigger] peer_fault(c, j) is None,
    ensures
        peers_fault(c, n) is None,
    decreases n,
{
    if n > 0 {
        assert(peer_fault(c, n - 1) is None);
        lemma_none(c, n - 1);
    }
}

proof fn lemma_fault_of(c: ConfigView, i: int)
    requires
        0 <= i < c.peers.len(),
    ensures
        peer_fault(c, i) is None <==> usable_peer(c.peers[i], c.private_key) && !repeated(c, i),
        peer_fault(c, i) matches Some(m) ==> m == "Peer #"@ + decimal((i + 1) as nat) + said_of(
            c,
            i,
        ),
{
}

/// What is said of a configuration that does not pass: first of its private key,
/// next that it has no peer, next of its address, and at last of the first peer that
/// cannot be used or whose key was there before.
pub proof fn law_what_is_said_first(c: ConfigView, i: int)
    ensures
        blank(c.private_key) ==> config_fault(c) == Some(
            "PrivateKey состоит из нулей. Сгенерируйте новую пару ключей (wg genkey)."@,
        ),
        !blank(c.private_key) && c.peers.len() == 0 ==> config_fault(c) == Some(
            "Секция [Peer] отсутствует. Укажите PublicKey и Endpoint сервера."@,
        ),
        !blank(c.private_key) && c.peers.len() > 0 && !well_addressed(c) ==> config_fault(c) == Some(
            match (c.interface_address, c.interface_prefix) {
                (Some(IpAddr::V4(_)), Some(n)) => "Address: префикс /"@ + decimal(n as nat)
                    + " недопустим для "@ + "IPv4"@ + " (максимум /"@ + decimal(32) + ")"@,
                (Some(IpAddr::V6(_)), Some(n)) => "Address: префикс /"@ + decimal(n as nat)
                    + " недопустим для "@ + "IPv6"@ + " (максимум /"@ + decimal(128) + ")"@,
                _ => "Поле Address в [Interface] обязательно. Пример: Address = 10.0.0.2/32"@,
            },
        ),
        !blank(c.private_key) && well_addressed(c) && 0 <= i < c.peers.len() && !(usable_peer(
            c.peers[i],
            c.private_key,
        ) && !repeated(c, i)) && (forall|j: int|
            0 <= j < i ==> usable_peer(#[trigger] c.peers[j], c.private_key) && !repeated(c, j))
            ==> config_fault(c) == Some("Peer #"@ + decimal((i + 1) as nat) + said_of(c, i)),
{
    if !blank(c.private_key) && well_addressed(c) && 0 <= i < c.peers.len() && !(usable_peer(
        c.peers[i],
        c.private_key,
    ) && !repeated(c, i)) && (forall|j: int|
        0 <= j < i ==> usable_peer(#[trigger] c.peers[j], c.private_key) && !repeated(c, j)) {
        lemma_fault_of(c, i);
        assert forall|j: int| 0 <= j < i implies #[trigger] peer_fault(c, j) is None by {
            assert(usable_peer(c.peers[j], c.private_key));
            lemma_fault_of(c, j);
        }
        lemma_first_fault(c, i, c.peers.len() as int);
    }
}

} // verus!
