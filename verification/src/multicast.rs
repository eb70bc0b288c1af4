//! Discovery of the files that other daemons share, over multicast, and the
//! probe by which a daemon learns its own address.

use vstd::prelude::*;
use crate::config::SCAN_REQUEST;
use crate::entities::{FileState, peer_lists};
use crate::name_map::names_of;
use crate::net::{PeerAddr, PeerIp};
use crate::transfer::spec_add_peer;

verus! {

/// What a daemon does with a datagram that reached the multicast group.
pub enum MulticastReaction {
    /// It came from this daemon: nothing.
    Ignore,
    /// Connect back to the sender and send nothing.
    ConnectOnly,
    /// Connect back to the sender and send these names of shared files.
    SendNames(Vec<String>),
}

/// Whether a datagram is a scan request.
pub fn is_scan_request(message: &Vec<u8>) -> (b: bool)
    ensures
        b == (message@ == SCAN_REQUEST@),
{
    if message.len() != 20 {
        return false;
    }
    let mut i: usize = 0;
    while i < 20
        invariant
            message@.len() == 20,
            i <= 20,
            forall|j: int| 0 <= j < i ==> message@[j] == SCAN_REQUEST@[j],
        decreases 20 - i,
    {
        if message[i] != SCAN_REQUEST[i] {
            return false;
        }
        i = i + 1;
    }
    proof {
        assert(message@ =~= SCAN_REQUEST@);
    }
    true
}

/// Answers a datagram from `remote` on the multicast group: a daemon ignores
/// its own datagrams, connects back to any other sender, and sends the names
/// of the files it shares, each once, when the datagram is a scan request.
pub fn multicast_responder(own_ip: PeerIp, remote: PeerIp, message: &Vec<u8>, data: &FileState) -> (r:
    MulticastReaction)
    requires
        data.wf(),
    ensures
        remote == own_ip ==> r is Ignore,
        remote != own_ip && message@ != SCAN_REQUEST@ ==> r is ConnectOnly,
        remote != own_ip && message@ == SCAN_REQUEST@ ==> (r matches MulticastReaction::SendNames(
            names,
        ) && names_of(names@) == data.shared.key_seq() && names_of(names@).to_set()
            == data.shared@.dom() && names_of(names@).no_duplicates()),
{
    if remote == own_ip {
        MulticastReaction::Ignore
    } else if is_scan_request(message) {
        proof {
            data.shared.lemma_view();
        }
        MulticastReaction::SendNames(data.shared.key_names())
    } else {
        MulticastReaction::ConnectOnly
    }
}

/// The peer lists after `peer` has offered each file of `names`, in order.
pub open spec fn add_names(m: Map<Seq<char>, Seq<PeerAddr>>, names: Seq<Seq<char>>, peer: PeerAddr) -> Map<
    Seq<char>,
    Seq<PeerAddr>,
>
    decreases names.len(),
{
    if names.len() == 0 {
        m
    } else {
        spec_add_peer(add_names(m, names.drop_last(), peer), names.last(), peer)
    }
}

/// A file's peers before an offer: its list, or none for a new file.
pub open spec fn peers_before(m: Map<Seq<char>, Seq<PeerAddr>>, name: Seq<char>) -> Seq<PeerAddr> {
    if m.dom().contains(name) {
        m[name]
    } else {
        seq![]
    }
}

/// After `peer` offers the files `names` (no name twice), every offered file
/// is downloadable from `peer`, put last among the peers it had; every other
/// file keeps its peers; and no file appears that was neither known nor
/// offered.
pub proof fn law_offer_adds_the_peer(m: Map<Seq<char>, Seq<PeerAddr>>, names: Seq<Seq<char>>, peer: PeerAddr)
    requires
        names.no_duplicates(),
    ensures
        add_names(m, names, peer).dom() == m.dom() + names.to_set(),
        forall|n: Seq<char>| #[trigger] names.contains(n) ==> add_names(m, names, peer)[n]
            == peers_before(m, n).push(peer),
        forall|n: Seq<char>| #[trigger] m.dom().contains(n) && !names.contains(n) ==> add_names(
            m,
            names,
            peer,
        )[n] == m[n],
    decreases names.len(),
{
    if names.len() > 0 {
        let t = names.drop_last();
        let last = names.last();
        assert(t.no_duplicates());
        law_offer_adds_the_peer(m, t, peer);
        let prev = add_names(m, t, peer);
        assert(!t.contains(last)) by {
            if t.contains(last) {
                let j = choose|j: int| 0 <= j < t.len() && t[j] == last;
                assert(names[j] == names[names.len() - 1]);
            }
        }
        assert(names.to_set() =~= t.to_set().insert(last)) by {
            assert forall|x: Seq<char>| names.to_set().contains(x) <==> t.to_set().insert(last).contains(x) by {
                if names.contains(x) {
                    let j = choose|j: int| 0 <= j < names.len() && names[j] == x;
                    if j < t.len() {
                        assert(t[j] == x);
                    }
                }
                if t.contains(x) {
                    let j = choose|j: int| 0 <= j < t.len() && t[j] == x;
                    assert(names[j] == x);
                }
                assert(names[names.len() - 1] == last);
            }
        }
        assert(add_names(m, names, peer).dom() =~= m.dom() + names.to_set());
        assert forall|n: Seq<char>| #[trigger] names.contains(n) implies add_names(m, names, peer)[n]
            == peers_before(m, n).push(peer) by {
            if n != last {
                let j = choose|j: int| 0 <= j < names.len() && names[j] == n;
                assert(j != names.len() - 1);
                assert(t[j] == n);
                assert(t.contains(n));
            } else {
                if m.dom().contains(n) {
                    assert(prev[n] == m[n]);
                }
            }
        }
        assert forall|n: Seq<char>| #[trigger] m.dom().contains(n) && !names.contains(n) implies add_names(
            m,
            names,
            peer,
        )[n] == m[n] by {
            assert(n != names[names.len() - 1]);
            if t.contains(n) {
                let j = choose|j: int| 0 <= j < t.len() && t[j] == n;
                assert(names[j] == n);
            }
        }
    }
}

/// Records that `peer` offers the files `names`: each name gets `peer` at the
/// end of its list of peers, a new list for a new name.
pub fn multicast_receiver(data: &mut FileState, names: &Vec<String>, peer: PeerAddr)
    requires
        old(data).wf(),
    ensures
        final(data).wf(),
        final(data).shared == old(data).shared,
        peer_lists(final(data).available) == add_names(
            peer_lists(old(data).available),
            names_of(names@),
            peer,
        ),
{
    let ghost start = peer_lists(data.available);
    let mut i: usize = 0;
    while i < names.len()
        invariant
            i <= names@.len(),
            data.wf(),
            data.shared == old(data).shared,
            start == peer_lists(old(data).available),
            peer_lists(data.available) == add_names(start, names_of(names@.subrange(0, i as int)), peer),
        decreases names@.len() - i,
    {
        let ghost before = peer_lists(data.available);
        let name = names[i].clone();
        match data.available.remove(&name) {
            Some(mut peers) => {
                peers.push(peer);
                data.available.insert(name, peers);
            },
            None => {
                let mut peers: Vec<PeerAddr> = Vec::new();
                peers.push(peer);
                data.available.insert(name, peers);
            },
        }
        proof {
            assert(names_of(names@.subrange(0, i + 1)).drop_last() =~= names_of(names@.subrange(0, i as int)));
            assert(names_of(names@.subrange(0, i + 1)).last() == names@[i as int]@);
            assert(peer_lists(data.available) =~= spec_add_peer(before, names@[i as int]@, peer));
        }
        i = i + 1;
    }
    proof {
        assert(names@.subrange(0, names@.len() as int) =~= names@);
    }
}

/// Value of a sequence of decimal digits.
pub open spec fn digits_value(d: Seq<u8>) -> int
    decreases d.len(),
{
    if d.len() == 0 {
        0
    } else {
        digits_value(d.drop_last()) * 10 + (d.last() - 48)
    }
}

/// Every byte is an ASCII digit.
pub open spec fn all_digits(d: Seq<u8>) -> bool {
    forall|i: int| 0 <= i < d.len() ==> 48 <= #[trigger] d[i] <= 57
}

/// The number that a probe datagram holds: an optional `+`, then one or more
/// decimal digits whose value fits in a `u128`.
pub open spec fn parse_decimal(m: Seq<u8>) -> Option<u128> {
    let d = if m.len() > 0 && m[0] == 43 { m.drop_first() } else { m };
    if d.len() > 0 && all_digits(d) && digits_value(d) <= u128::MAX {
        Some(digits_value(d) as u128)
    } else {
        None
    }
}

/// The decimal digits of `n`, without leading zeros.
pub open spec fn decimal_digits(n: nat) -> Seq<u8>
    decreases n,
{
    if n < 10 {
        seq![(48 + n) as u8]
    } else {
        decimal_digits(n / 10).push((48 + n % 10) as u8)
    }
}

proof fn lemma_digits_monotone(d: Seq<u8>, i: int)
    requires
        0 <= i <= d.len(),
        all_digits(d),
    ensures
        digits_value(d.subrange(0, i)) <= digits_value(d),
        digits_value(d) >= 0,
    decreases d.len(),
{
    if d.len() > 0 {
        let t = d.drop_last();
        assert(all_digits(t)) by {
            assert forall|j: int| 0 <= j < t.len() implies 48 <= #[trigger] t[j] <= 57 by {
                assert(t[j] == d[j]);
            }
        }
        assert(48 <= d[d.len() - 1] <= 57);
        if i < d.len() {
            lemma_digits_monotone(t, i);
            assert(t.subrange(0, i) =~= d.subrange(0, i));
        } else {
            lemma_digits_monotone(t, 0);
            assert(d.subrange(0, i) =~= d);
        }
    } else {
        assert(d.subrange(0, i) =~= d);
    }
}

/// Reads the number of a probe datagram; `None` when the datagram does not
/// hold one.
pub fn parse_probe(message: &Vec<u8>) -> (r: Option<u128>)
    ensures
        r == parse_decimal(message@),
{
    let start: usize = if message.len() > 0 && message[0] == 43 { 1 } else { 0 };
    let ghost d = if message@.len() > 0 && message@[0] == 43 { message@.drop_first() } else { message@ };
    proof {
        assert(d =~= message@.subrange(start as int, message@.len() as int));
    }
    if start >= message.len() {
        return None;
    }
    let mut value: u128 = 0;
    let mut i: usize = start;
    while i < message.len()
        invariant
            start <= i <= message@.len(),
            start < message@.len(),
            d == message@.subrange(start as int, message@.len() as int),
            d == (if message@.len() > 0 && message@[0] == 43 { message@.drop_first() } else { message@ }),
            all_digits(d.subrange(0, i - start)),
            value == digits_value(d.subrange(0, i - start)),
        decreases message@.len() - i,
    {
        let b = message[i];
        let ghost prefix = d.subrange(0, i - start);
        let ghost next = d.subrange(0, i - start + 1);
        proof {
            assert(next.drop_last() =~= prefix);
            assert(next.last() == b);
        }
        if b < 48 || b > 57 {
            proof {
                assert(d[i - start] == b);
                assert(!all_digits(d));
                assert(parse_decimal(message@) is None);
            }
            return None;
        }
        proof {
            assert(all_digits(next)) by {
                assert forall|j: int| 0 <= j < next.len() implies 48 <= #[trigger] next[j] <= 57 by {
                    if j < prefix.len() {
                        assert(next[j] == prefix[j]);
                    }
                }
            }
        }
        let times = value.checked_mul(10);
        match times {
            None => {
                proof {
                    assert(value * 10 > u128::MAX);
                    assert(digits_value(next) == value * 10 + (b - 48));
                    if all_digits(d) {
                        lemma_digits_monotone(d, i - start + 1);
                        assert(digits_value(d) > u128::MAX);
                    }
                    assert(parse_decimal(message@) is None);
                }
                return None;
            },
            Some(t) => {
                match t.checked_add((b - 48) as u128) {
                    None => {
                        proof {
                            if all_digits(d) {
                                lemma_digits_monotone(d, i - start + 1);
                            }
                            assert(parse_decimal(message@) is None);
                        }
                        return None;
                    },
                    Some(v) => {
                        value = v;
                    },
                }
            },
        }
        i = i + 1;
    }
    proof {
        assert(d.subrange(0, d.len() as int) =~= d);
    }
    Some(value)
}

proof fn lemma_decimal_digits(n: nat)
    ensures
        decimal_digits(n).len() > 0,
        all_digits(decimal_digits(n)),
        digits_value(decimal_digits(n)) == n,
    decreases n,
{
    if n >= 10 {
        lemma_decimal_digits(n / 10);
        let d = decimal_digits(n);
        let t = decimal_digits(n / 10);
        assert(d.drop_last() =~= t);
        assert(n == (n / 10) * 10 + n % 10) by (nonlinear_arith);
        assert(0 <= n % 10 < 10);
        assert(((48 + n % 10) as u8) as int == 48 + n % 10);
        assert(d.last() == (48 + n % 10) as u8);
        assert(digits_value(d) == digits_value(t) * 10 + (d.last() - 48));
        assert(all_digits(d)) by {
            assert forall|j: int| 0 <= j < d.len() implies 48 <= #[trigger] d[j] <= 57 by {
                if j < t.len() {
                    assert(d[j] == t[j]);
                }
            }
        }
    } else {
        let d = decimal_digits(n);
        assert(d.drop_last() =~= seq![]);
        assert(((48 + n) as u8) as int == 48 + n);
        assert(digits_value(d) == digits_value(d.drop_last()) * 10 + (d.last() - 48));
    }
}

/// The probe datagram of `token`: its decimal digits.
pub fn probe_token(token: u128) -> (text: Vec<u8>)
    ensures
        text@ == decimal_digits(token as nat),
{
    // Low digits first.
    let mut low_first: Vec<u8> = Vec::new();
    let mut rest: u128 = token;
    while rest >= 10
        invariant
            decimal_digits(token as nat) == decimal_digits(rest as nat) + low_first@.reverse(),
        decreases rest,
    {
        let digit: u8 = (48 + rest % 10) as u8;
        proof {
            assert(decimal_digits(rest as nat) == decimal_digits((rest / 10) as nat).push(digit));
            assert(low_first@.push(digit).reverse() =~= seq![digit] + low_first@.reverse());
            assert(decimal_digits((rest / 10) as nat).push(digit) + low_first@.reverse()
                =~= decimal_digits((rest / 10) as nat) + (seq![digit] + low_first@.reverse()));
        }
        low_first.push(digit);
        rest = rest / 10;
    }
    let mut text: Vec<u8> = Vec::new();
    text.push((48 + rest) as u8);
    let mut k: usize = low_first.len();
    while k > 0
        invariant
            k <= low_first@.len(),
            decimal_digits(token as nat) == decimal_digits(rest as nat) + low_first@.reverse(),
            rest < 10,
            text@ == decimal_digits(rest as nat) + low_first@.subrange(k as int, low_first@.len() as int).reverse(),
        decreases k,
    {
        k = k - 1;
        proof {
            assert(low_first@.subrange(k as int, low_first@.len() as int).reverse() =~= low_first@.subrange(
                k + 1,
                low_first@.len() as int,
            ).reverse().push(low_first@[k as int]));
        }
        text.push(low_first[k]);
    }
    proof {
        assert(low_first@.subrange(0, low_first@.len() as int) =~= low_first@);
    }
    text
}

/// A random `u128`, by rand's `random`. Nothing is claimed of the value.
#[verifier::external_body]
fn random_token() -> (token: u128) {
    rand::random::<u128>()
}

/// A fresh probe by which the daemon learns its own address: a random token
/// and the datagram that carries it.
pub fn new_self_probe() -> (probe: (u128, Vec<u8>))
    ensures
        probe.1@ == decimal_digits(probe.0 as nat),
        parse_decimal(probe.1@) == Some(probe.0),
{
    let token = random_token();
    proof {
        law_probe_round_trip(token);
    }
    (token, probe_token(token))
}

proof fn lemma_leading_digit(n: nat)
    ensures
        decimal_digits(n).len() > 0,
        n >= 1 ==> decimal_digits(n)[0] != 48,
    decreases n,
{
    if n >= 10 {
        lemma_leading_digit(n / 10);
        assert(n / 10 >= 1);
        assert(decimal_digits(n)[0] == decimal_digits(n / 10)[0]);
    } else {
        assert(((48 + n) as u8) as int == 48 + n);
    }
}

/// The probe datagram of a token is its decimal numeral: ASCII digits
/// worth the token, the last one the token's last decimal digit, with no
/// leading zero.
pub proof fn law_probe_text_is_decimal(token: u128)
    ensures
        ({
            let d = decimal_digits(token as nat);
            &&& d.len() > 0
            &&& all_digits(d)
            &&& digits_value(d) == token
            &&& d.last() == 48 + token % 10
            &&& d.len() > 1 ==> d[0] != 48
        }),
{
    lemma_decimal_digits(token as nat);
    lemma_leading_digit(token as nat);
    let n = token as nat;
    if n >= 10 {
        assert(0 <= n % 10 < 10);
        assert(((48 + n % 10) as u8) as int == 48 + n % 10);
    } else {
        assert(((48 + n) as u8) as int == 48 + n);
    }
}

/// A probe datagram reads back as the token it was made from.
pub proof fn law_probe_round_trip(token: u128)
    ensures
        parse_decimal(decimal_digits(token as nat)) == Some(token),
{
    lemma_decimal_digits(token as nat);
    let d = decimal_digits(token as nat);
    assert(48 <= d[0] <= 57);
}

} // verus!
