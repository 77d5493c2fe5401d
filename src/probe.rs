//! Server probing: resolving the target address and deciding the status
//! summary from what one query round trip gave.

use crate::version::{all_digits, digit_value, digits_value, is_digit, split_dots};
use vstd::prelude::*;
use vstd::string::*;

verus! {

/// A server's live status as shown to the user.
pub struct ServerStats {
    pub online: bool,
    pub players: u32,
    pub max_players: u32,
    pub ping: u32,
    pub name: String,
}

/// What a reply decoder extracted from a server's answer.
pub struct ReplyInfo {
    pub players: u32,
    pub max_players: u32,
    pub name: String,
}

/// Why a probe could not be attempted.
#[derive(Debug, Clone, Copy, PartialEq, Eq)]
pub enum ProbeError {
    /// The host is not an IPv4 address in dotted-decimal form.
    InvalidAddress,
}

/// A resolved probe target: four address octets and a port.
#[derive(Debug, Clone, Copy, PartialEq, Eq)]
pub struct ProbeTarget {
    pub octets: [u8; 4],
    pub port: u16,
}

/// Whether `seg` is one dotted-decimal octet: one to three digits, no
/// leading zero, value at most 255.
pub open spec fn is_octet(seg: Seq<char>) -> bool {
    &&& 1 <= seg.len() <= 3
    &&& all_digits(seg)
    &&& (seg.len() == 1 || seg[0] != '0')
    &&& digits_value(seg) <= 255
}

/// Whether `s` is an IPv4 address in dotted-decimal form.
pub open spec fn is_ipv4(s: Seq<char>) -> bool {
    split_dots(s).len() == 4 && forall|k: int| 0 <= k < 4 ==> is_octet(#[trigger] split_dots(s)[k])
}

/// Resolves `host` and `port` into a probe target. Only a dotted-decimal
/// IPv4 host is accepted; anything else is an input error, decided without
/// any network access.
pub fn parse_server_address(host: &str, port: u16) -> (r: Result<ProbeTarget, ProbeError>)
    ensures
        is_ipv4(host@) <==> r is Ok,
        !is_ipv4(host@) ==> r == Err::<ProbeTarget, ProbeError>(ProbeError::InvalidAddress),
        r matches Ok(t) ==> t.port == port && forall|k: int|
            0 <= k < 4 ==> t.octets[k] as nat == digits_value(#[trigger] split_dots(host@)[k]),
{
    let n = host.unicode_len();
    let mut parts: Vec<u8> = Vec::new();
    let mut ok: bool = true;
    let mut cur_len: usize = 0;
    let mut cur_digits: bool = true;
    let mut cur_val: u32 = 0;
    let mut cur_zero: bool = false;
    let mut i: usize = 0;
    while i < n
        invariant
            n == host@.len(),
            i <= n,
            cur_len <= i,
            split_dots(host@.take(i as int)).len() >= 1,
            cur_len == split_dots(host@.take(i as int)).last().len(),
            cur_digits == all_digits(split_dots(host@.take(i as int)).last()),
            cur_digits && cur_len <= 3 ==> cur_val as nat == digits_value(
                split_dots(host@.take(i as int)).last(),
            ),
            cur_digits && cur_len <= 3 ==> cur_val <= 999,
            cur_digits && cur_len <= 2 ==> cur_val <= 99,
            cur_digits && cur_len <= 1 ==> cur_val <= 9,
            cur_len == 0 ==> cur_val == 0,
            cur_len > 0 ==> cur_zero == (split_dots(host@.take(i as int)).last()[0] == '0'),
            ok ==> parts@.len() == split_dots(host@.take(i as int)).len() - 1,
            ok ==> forall|k: int|
                0 <= k < parts@.len() ==> is_octet(#[trigger] split_dots(host@.take(i as int))[k])
                    && parts@[k] as nat == digits_value(split_dots(host@.take(i as int))[k]),
            !ok ==> exists|k: int|
                0 <= k < split_dots(host@.take(i as int)).len() - 1 && !is_octet(
                    #[trigger] split_dots(host@.take(i as int))[k],
                ),
        decreases n - i,
    {
        let c = host.get_char(i);
        let ghost pre = host@.take(i as int);
        let ghost post = host@.take(i as int + 1);
        let ghost sd = split_dots(pre);
        let ghost cur = sd.last();
        proof {
            assert(post.drop_last() =~= pre);
            assert(post.last() == c);
        }
        if c == '.' {
            let octet_ok = cur_len >= 1 && cur_len <= 3 && cur_digits && (cur_len == 1 || !cur_zero)
                && cur_val <= 255;
            assert(octet_ok == is_octet(cur));
            if ok && octet_ok {
                parts.push(cur_val as u8);
            } else {
                ok = false;
            }
            cur_len = 0;
            cur_digits = true;
            cur_val = 0;
            cur_zero = false;
            proof {
                let sd2 = split_dots(post);
                assert(sd2 == sd.push(Seq::empty()));
                assert(all_digits(sd2.last()));
                if !ok {
                    if !octet_ok {
                        assert(!is_octet(sd2[sd.len() - 1]));
                    } else {
                        let k = choose|k: int|
                            0 <= k < sd.len() - 1 && !is_octet(#[trigger] sd[k]);
                        assert(!is_octet(sd2[k]));
                    }
                }
            }
        } else {
            let ghost next = cur.push(c);
            proof {
                assert(next.drop_last() =~= cur);
                assert(all_digits(next) == (all_digits(cur) && is_digit(c))) by {
                    if all_digits(next) {
                        assert forall|j: int| 0 <= j < cur.len() implies is_digit(cur[j]) by {
                            assert(next[j] == cur[j]);
                        }
                        assert(next[cur.len() as int] == c);
                    }
                }
                let sd2 = split_dots(post);
                assert(sd2 == sd.update(sd.len() - 1, next));
                if cur.len() > 0 {
                    assert(next[0] == cur[0]);
                }
                if !ok {
                    let k = choose|k: int| 0 <= k < sd.len() - 1 && !is_octet(#[trigger] sd[k]);
                    assert(!is_octet(sd2[k]));
                }
            }
            if cur_len == 0 {
                cur_zero = c == '0';
            }
            if cur_digits && '0' <= c && c <= '9' {
                if cur_len < 3 {
                    assert(digits_value(next) == digits_value(cur) * 10 + digit_value(c));
                    cur_val = cur_val * 10 + (c as u32 - '0' as u32);
                }
            } else {
                cur_digits = false;
            }
            cur_len = cur_len + 1;
        }
        i = i + 1;
    }
    proof {
        assert(host@.take(n as int) =~= host@);
    }
    let ghost sd = split_dots(host@);
    let last_ok = cur_len >= 1 && cur_len <= 3 && cur_digits && (cur_len == 1 || !cur_zero)
        && cur_val <= 255;
    assert(last_ok == is_octet(sd.last()));
    if !ok || !last_ok || parts.len() != 3 {
        proof {
            if ok && last_ok {
                assert(sd.len() != 4);
            }
            if !ok {
                let k = choose|k: int| 0 <= k < sd.len() - 1 && !is_octet(#[trigger] sd[k]);
                assert(!is_ipv4(host@));
            }
        }
        return Err(ProbeError::InvalidAddress);
    }
    let octets: [u8; 4] = [parts[0], parts[1], parts[2], cur_val as u8];
    proof {
        assert(sd.len() == 4);
        assert forall|k: int| 0 <= k < 4 implies is_octet(#[trigger] sd[k]) by {
            if k == 3 {
            }
        }
        assert forall|k: int| 0 <= k < 4 implies octets[k] as nat == digits_value(
            #[trigger] sd[k],
        ) by {
            if k == 3 {
            }
        }
    }
    Ok(ProbeTarget { octets, port })
}

/// The query datagram sent to a server.
pub fn query_packet() -> (r: Vec<u8>)
    ensures
        r@ == seq![83u8, 65u8, 77u8, 80u8],
{
    vec![83u8, 65u8, 77u8, 80u8]
}

/// Decides the status summary from one probe round trip. With a reply the
/// server is online, with the decoded counts and name and the round-trip
/// time in milliseconds as ping (capped at `u32::MAX`). Without one (timeout
/// or any socket error) it is offline, with no players, no ping, the last
/// known player limit and the configured name.
pub fn status_from_reply(
    reply: Option<ReplyInfo>,
    elapsed_ms: u64,
    server_name: String,
    last_max_players: u32,
) -> (r: ServerStats)
    ensures
        reply is None ==> r == (ServerStats {
            online: false,
            players: 0,
            max_players: last_max_players,
            ping: 0,
            name: server_name,
        }),
        reply matches Some(info) ==> r == (ServerStats {
            online: true,
            players: info.players,
            max_players: info.max_players,
            ping: if elapsed_ms > u32::MAX as u64 {
                u32::MAX
            } else {
                elapsed_ms as u32
            },
            name: info.name,
        }),
{
    match reply {
        None => ServerStats {
            online: false,
            players: 0,
            max_players: last_max_players,
            ping: 0,
            name: server_name,
        },
        Some(info) => {
            let ping = if elapsed_ms > u32::MAX as u64 {
                u32::MAX
            } else {
                elapsed_ms as u32
            };
            ServerStats {
                online: true,
                players: info.players,
                max_players: info.max_players,
                ping,
                name: info.name,
            }
        },
    }
}

} // verus!
